//! What can go wrong with a message, its option lines, a target or a
//! conversation, and what is said of it.

use vstd::prelude::*;

use crate::number;
use crate::number::to_decimal;
use crate::text::string_of;

verus! {

/// Why something was refused. None of these passes by trying again.
#[derive(Clone, Debug, PartialEq, Eq)]
pub enum Error {
    /// Option lines that are not UTF-8.
    NotUtf8,
    /// An option line without `=`: the line.
    NoEquals { line: String },
    /// A name that is neither known nor `option-N`: the name as the line has it.
    UnknownOption { name: String },
    /// A part of an address list that is no address: the part as it stands.
    NotAddress { part: String },
    /// An option value that names no message type: the value.
    NotMessageType { value: String },
    /// An option value that is no number of seconds: the value.
    NotSeconds { value: String },
    /// An option value that is not hexadecimal pairs with colons: the value.
    NotColonHex { value: String },
    /// A value for an option without a name of its own that is not `0x` and hexadecimal pairs.
    NotHexValue { code: u8, value: String },
    /// An option value over 255 bytes: the option's code.
    OptionTooLong { code: u8 },
    /// A message over what a client must take.
    MessageTooLong,
    /// A datagram shorter than the fixed fields and the cookie.
    TooShort,
    /// A datagram without DHCP's cookie.
    WrongCookie,
    /// An option that runs past the end of the datagram.
    PastEnd,
    /// A target that is not a `dhcp://` one: the target.
    NotTarget { target: String },
    /// A target without a transaction: the target.
    NoXid { target: String },
    /// A target without a hardware address: the target.
    NoMac { target: String },
    /// A target whose `type` names no message type: the name.
    NotReplyType { name: String },
    /// A target in which `key` is given something that is no address.
    NotReplyAddress { key: String, value: String },
    /// Option lines that arrived and are not text.
    LinesNotText,
    /// A stream over what a conversation carries: its length.
    StreamTooLong { length: usize },
    /// An answer that is not an acknowledgement.
    NotAcknowledged,
    /// An odd number of hexadecimal digits: the digits.
    OddHex { digits: String },
    /// Digits that are not hexadecimal: the digits.
    NotHex { digits: String },
}

/// An [`Error`] with its texts as sequences of characters.
pub enum ErrorView {
    /// Option lines that are not UTF-8.
    NotUtf8,
    /// An option line without `=`: the line.
    NoEquals { line: Seq<char> },
    /// A name that is neither known nor `option-N`: the name as the line has it.
    UnknownOption { name: Seq<char> },
    /// A part of an address list that is no address: the part as it stands.
    NotAddress { part: Seq<char> },
    /// An option value that names no message type: the value.
    NotMessageType { value: Seq<char> },
    /// An option value that is no number of seconds: the value.
    NotSeconds { value: Seq<char> },
    /// An option value that is not hexadecimal pairs with colons: the value.
    NotColonHex { value: Seq<char> },
    /// A value for an option without a name of its own that is not `0x` and hexadecimal pairs.
    NotHexValue { code: u8, value: Seq<char> },
    /// An option value over 255 bytes: the option's code.
    OptionTooLong { code: u8 },
    /// A message over what a client must take.
    MessageTooLong,
    /// A datagram shorter than the fixed fields and the cookie.
    TooShort,
    /// A datagram without DHCP's cookie.
    WrongCookie,
    /// An option that runs past the end of the datagram.
    PastEnd,
    /// A target that is not a `dhcp://` one: the target.
    NotTarget { target: Seq<char> },
    /// A target without a transaction: the target.
    NoXid { target: Seq<char> },
    /// A target without a hardware address: the target.
    NoMac { target: Seq<char> },
    /// A target whose `type` names no message type: the name.
    NotReplyType { name: Seq<char> },
    /// A target in which `key` is given something that is no address.
    NotReplyAddress { key: Seq<char>, value: Seq<char> },
    /// Option lines that arrived and are not text.
    LinesNotText,
    /// A stream over what a conversation carries: its length.
    StreamTooLong { length: usize },
    /// An answer that is not an acknowledgement.
    NotAcknowledged,
    /// An odd number of hexadecimal digits: the digits.
    OddHex { digits: Seq<char> },
    /// Digits that are not hexadecimal: the digits.
    NotHex { digits: Seq<char> },
}

/// Both are refused, or both give the same.
pub open spec fn agree<T>(a: Result<T, ErrorView>, b: Result<T, ErrorView>) -> bool {
    match (a, b) {
        (Ok(a), Ok(b)) => a == b,
        (Err(_), Err(_)) => true,
        _ => false,
    }
}

impl View for Error {
    type V = ErrorView;

    open spec fn view(&self) -> ErrorView {
        match *self {
            Error::NotUtf8 => ErrorView::NotUtf8,
            Error::NoEquals { line } => ErrorView::NoEquals { line: line@ },
            Error::UnknownOption { name } => ErrorView::UnknownOption { name: name@ },
            Error::NotAddress { part } => ErrorView::NotAddress { part: part@ },
            Error::NotMessageType { value } => ErrorView::NotMessageType { value: value@ },
            Error::NotSeconds { value } => ErrorView::NotSeconds { value: value@ },
            Error::NotColonHex { value } => ErrorView::NotColonHex { value: value@ },
            Error::NotHexValue { code, value } => ErrorView::NotHexValue { code, value: value@ },
            Error::OptionTooLong { code } => ErrorView::OptionTooLong { code },
            Error::MessageTooLong => ErrorView::MessageTooLong,
            Error::TooShort => ErrorView::TooShort,
            Error::WrongCookie => ErrorView::WrongCookie,
            Error::PastEnd => ErrorView::PastEnd,
            Error::NotTarget { target } => ErrorView::NotTarget { target: target@ },
            Error::NoXid { target } => ErrorView::NoXid { target: target@ },
            Error::NoMac { target } => ErrorView::NoMac { target: target@ },
            Error::NotReplyType { name } => ErrorView::NotReplyType { name: name@ },
            Error::NotReplyAddress { key, value } => ErrorView::NotReplyAddress {
                key: key@,
                value: value@,
            },
            Error::LinesNotText => ErrorView::LinesNotText,
            Error::StreamTooLong { length } => ErrorView::StreamTooLong { length },
            Error::NotAcknowledged => ErrorView::NotAcknowledged,
            Error::OddHex { digits } => ErrorView::OddHex { digits: digits@ },
            Error::NotHex { digits } => ErrorView::NotHex { digits: digits@ },
        }
    }
}

/// What `{:?}` writes for a text: the text in quotation marks, with the
/// characters escaped that need it.
pub uninterp spec fn debug_text(s: Seq<char>) -> Seq<char>;

/// `format!` with `{:?}` on a `str`: its result is a function of the text.
#[verifier::external_body]
fn debug_of(s: &str) -> (r: String)
    ensures
        r@ == debug_text(s@),
{
    format!("{s:?}")
}

/// `n` in decimal.
fn decimal_of(n: u64) -> (r: String)
    ensures
        r@ == number::decimal(n as nat),
{
    let digits: Vec<char> = to_decimal(n);
    string_of(digits.as_slice())
}

/// `start` and after it `s` as `{:?}` writes it.
fn quoting(start: &str, s: &str) -> (r: String)
    ensures
        r@ == start@ + debug_text(s@),
{
    start.to_owned().concat(debug_of(s).as_str())
}

/// `start` and after it `s`.
fn naming(start: &str, s: &str) -> (r: String)
    ensures
        r@ == start@ + s@,
{
    start.to_owned().concat(s)
}

impl ErrorView {
    /// The sentence that says what went wrong.
    pub open spec fn message(self) -> Seq<char> {
        match self {
            ErrorView::NotUtf8 => "options not UTF-8"@,
            ErrorView::NoEquals { line } => "an option without =: "@ + debug_text(line),
            ErrorView::UnknownOption { name } => "an option not known: "@ + debug_text(name),
            ErrorView::NotAddress { part } => "not an address: "@ + debug_text(part),
            ErrorView::NotMessageType { value } => "not a message type: "@ + debug_text(value),
            ErrorView::NotSeconds { value } => "not seconds: "@ + debug_text(value),
            ErrorView::NotColonHex { value } => "not colon-separated hex: "@ + debug_text(value),
            ErrorView::NotHexValue { code, value } => "option "@ + number::decimal(code as nat)
                + " takes 0x hex: "@ + debug_text(value),
            ErrorView::OptionTooLong { code } => "option "@ + number::decimal(code as nat)
                + " over 255 bytes"@,
            ErrorView::MessageTooLong => "a message over what a client must take"@,
            ErrorView::TooShort => "a message shorter than its fixed fields"@,
            ErrorView::WrongCookie => "a cookie that is not DHCP's"@,
            ErrorView::PastEnd => "an option running past the end"@,
            ErrorView::NotTarget { target } =>
                "a dhcp target answers a transaction: dhcp://host:port?xid=\u{2026}&mac=\u{2026}, got "@
                    + target,
            ErrorView::NoXid { target } => "a reply without ?xid=: "@ + target,
            ErrorView::NoMac { target } => "a reply without &mac=: "@ + target,
            ErrorView::NotReplyType { name } => "not a message type: "@ + name,
            ErrorView::NotReplyAddress { key, value } => "&"@ + key + "= is not an address: "@
                + value,
            ErrorView::LinesNotText => "option lines that are not text"@,
            ErrorView::StreamTooLong { length } => number::decimal(length as nat)
                + " bytes is over the 65291 the largest DHCP message holds"@,
            ErrorView::NotAcknowledged => "an answer that is not a DHCPACK"@,
            ErrorView::OddHex { digits } => "an odd number of hex digits: "@ + debug_text(digits),
            ErrorView::NotHex { digits } => "not hex: "@ + debug_text(digits),
        }
    }
}

impl Error {
    /// The sentence that says what went wrong.
    pub fn message(&self) -> (r: String)
        ensures
            r@ == self@.message(),
    {
        match self {
            Error::NotUtf8 => "options not UTF-8".to_owned(),
            Error::NoEquals { line } => quoting("an option without =: ", line.as_str()),
            Error::UnknownOption { name } => quoting("an option not known: ", name.as_str()),
            Error::NotAddress { part } => quoting("not an address: ", part.as_str()),
            Error::NotMessageType { value } => quoting("not a message type: ", value.as_str()),
            Error::NotSeconds { value } => quoting("not seconds: ", value.as_str()),
            Error::NotColonHex { value } => quoting("not colon-separated hex: ", value.as_str()),
            Error::NotHexValue { code, value } => naming(
                "option ",
                decimal_of(*code as u64).as_str(),
            ).concat(" takes 0x hex: ").concat(debug_of(value.as_str()).as_str()),
            Error::OptionTooLong { code } => naming(
                "option ",
                decimal_of(*code as u64).as_str(),
            ).concat(" over 255 bytes"),
            Error::MessageTooLong => "a message over what a client must take".to_owned(),
            Error::TooShort => "a message shorter than its fixed fields".to_owned(),
            Error::WrongCookie => "a cookie that is not DHCP's".to_owned(),
            Error::PastEnd => "an option running past the end".to_owned(),
            Error::NotTarget { target } => naming(
                "a dhcp target answers a transaction: dhcp://host:port?xid=\u{2026}&mac=\u{2026}, got ",
                target.as_str(),
            ),
            Error::NoXid { target } => naming("a reply without ?xid=: ", target.as_str()),
            Error::NoMac { target } => naming("a reply without &mac=: ", target.as_str()),
            Error::NotReplyType { name } => naming("not a message type: ", name.as_str()),
            Error::NotReplyAddress { key, value } => naming("&", key.as_str()).concat(
                "= is not an address: ",
            ).concat(value.as_str()),
            Error::LinesNotText => "option lines that are not text".to_owned(),
            Error::StreamTooLong { length } => decimal_of(*length as u64).concat(
                " bytes is over the 65291 the largest DHCP message holds",
            ),
            Error::NotAcknowledged => "an answer that is not a DHCPACK".to_owned(),
            Error::OddHex { digits } => quoting("an odd number of hex digits: ", digits.as_str()),
            Error::NotHex { digits } => quoting("not hex: ", digits.as_str()),
        }
    }
}

}
