//! Refusals: what is said of each.

use vstd::prelude::*;

use crate::error;
use crate::error::{Error, ErrorView};
use crate::number;

verus! {

/// A refusal is seen as what it holds.
pub proof fn law_refusal_seen(e: Error)
    ensures
        match e {
            Error::NotUtf8 => e@ == ErrorView::NotUtf8,
            Error::NoEquals { line } => e@ == (ErrorView::NoEquals { line: line@ }),
            Error::UnknownOption { name } => e@ == (ErrorView::UnknownOption { name: name@ }),
            Error::NotAddress { part } => e@ == (ErrorView::NotAddress { part: part@ }),
            Error::NotMessageType { value } => e@ == (ErrorView::NotMessageType { value: value@ }),
            Error::NotSeconds { value } => e@ == (ErrorView::NotSeconds { value: value@ }),
            Error::NotColonHex { value } => e@ == (ErrorView::NotColonHex { value: value@ }),
            Error::NotHexValue { code, value } => e@ == (ErrorView::NotHexValue {
                code,
                value: value@,
            }),
            Error::OptionTooLong { code } => e@ == (ErrorView::OptionTooLong { code }),
            Error::MessageTooLong => e@ == ErrorView::MessageTooLong,
            Error::TooShort => e@ == ErrorView::TooShort,
            Error::WrongCookie => e@ == ErrorView::WrongCookie,
            Error::PastEnd => e@ == ErrorView::PastEnd,
            Error::NotTarget { target } => e@ == (ErrorView::NotTarget { target: target@ }),
            Error::NoXid { target } => e@ == (ErrorView::NoXid { target: target@ }),
            Error::NoMac { target } => e@ == (ErrorView::NoMac { target: target@ }),
            Error::NotReplyType { name } => e@ == (ErrorView::NotReplyType { name: name@ }),
            Error::NotReplyAddress { key, value } => e@ == (ErrorView::NotReplyAddress {
                key: key@,
                value: value@,
            }),
            Error::LinesNotText => e@ == ErrorView::LinesNotText,
            Error::StreamTooLong { length } => e@ == (ErrorView::StreamTooLong { length }),
            Error::NotAcknowledged => e@ == ErrorView::NotAcknowledged,
            Error::OddHex { digits } => e@ == (ErrorView::OddHex { digits: digits@ }),
            Error::NotHex { digits } => e@ == (ErrorView::NotHex { digits: digits@ }),
        },
{
}

/// The sentence of a refusal has the whole of the text that was refused, as it
/// stands or in quotation marks.
pub proof fn law_sentences(s: Seq<char>, key: Seq<char>, code: u8, length: usize)
    ensures
        ErrorView::NotUtf8.message() == "options not UTF-8"@,
        (ErrorView::NoEquals { line: s }).message() == "an option without =: "@
            + error::debug_text(s),
        (ErrorView::UnknownOption { name: s }).message() == "an option not known: "@
            + error::debug_text(s),
        (ErrorView::NotAddress { part: s }).message() == "not an address: "@ + error::debug_text(s),
        (ErrorView::NotMessageType { value: s }).message() == "not a message type: "@
            + error::debug_text(s),
        (ErrorView::NotSeconds { value: s }).message() == "not seconds: "@ + error::debug_text(s),
        (ErrorView::NotColonHex { value: s }).message() == "not colon-separated hex: "@
            + error::debug_text(s),
        (ErrorView::NotHexValue { code, value: s }).message() == "option "@ + number::decimal(
            code as nat,
        ) + " takes 0x hex: "@ + error::debug_text(s),
        (ErrorView::OptionTooLong { code }).message() == "option "@ + number::decimal(code as nat)
            + " over 255 bytes"@,
        ErrorView::MessageTooLong.message() == "a message over what a client must take"@,
        ErrorView::TooShort.message() == "a message shorter than its fixed fields"@,
        ErrorView::WrongCookie.message() == "a cookie that is not DHCP's"@,
        ErrorView::PastEnd.message() == "an option running past the end"@,
        (ErrorView::NoXid { target: s }).message() == "a reply without ?xid=: "@ + s,
        (ErrorView::NoMac { target: s }).message() == "a reply without &mac=: "@ + s,
        (ErrorView::NotReplyType { name: s }).message() == "not a message type: "@ + s,
        (ErrorView::NotReplyAddress { key, value: s }).message() == "&"@ + key
            + "= is not an address: "@ + s,
        ErrorView::LinesNotText.message() == "option lines that are not text"@,
        (ErrorView::StreamTooLong { length }).message() == number::decimal(length as nat)
            + " bytes is over the 65291 the largest DHCP message holds"@,
        ErrorView::NotAcknowledged.message() == "an answer that is not a DHCPACK"@,
        (ErrorView::OddHex { digits: s }).message() == "an odd number of hex digits: "@
            + error::debug_text(s),
        (ErrorView::NotHex { digits: s }).message() == "not hex: "@ + error::debug_text(s),
{
}

/// What is no target is named whole after what a target is.
pub proof fn law_target_sentence(s: Seq<char>, t: Seq<char>)
    ensures
        ({
            let first = (ErrorView::NotTarget { target: s }).message();
            let second = (ErrorView::NotTarget { target: t }).message();
            let n = first.len() - s.len();
            &&& n == second.len() - t.len() && n >= 0
            &&& first.skip(n) == s
            &&& second.skip(n) == t
            &&& first.take(n) == second.take(n)
        }),
{
    let start =
        "a dhcp target answers a transaction: dhcp://host:port?xid=\u{2026}&mac=\u{2026}, got "@;
    let n = start.len() as int;
    assert((start + s).skip(n) =~= s);
    assert((start + t).skip(n) =~= t);
    assert((start + s).take(n) =~= start);
    assert((start + t).take(n) =~= start);
}

}
