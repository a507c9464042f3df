//! Messages: their types, their options and what they say of their client.

use vstd::prelude::*;

use crate::ipv4::Ipv4Addr;
use crate::laws;
use crate::message;
use crate::message::{Message, MessageType, MessageView};
use crate::number;
use crate::option;
use crate::text;
use crate::utf8;

verus! {

/// The numbers that the protocol gives.
pub proof fn law_numbers()
    ensures
        message::MAGIC@ == seq![99u8, 130, 83, 99],
        message::BOOTREQUEST == 1,
        message::BOOTREPLY == 2,
        message::HTYPE_ETHERNET == 1,
        message::MIN_MESSAGE == 300,
        message::MAX_MESSAGE == 576,
        message::OPTION_SUBNET_MASK == 1,
        message::OPTION_ROUTER == 3,
        message::OPTION_DNS == 6,
        message::OPTION_HOSTNAME == 12,
        message::OPTION_REQUESTED_ADDRESS == 50,
        message::OPTION_LEASE_TIME == 51,
        message::OPTION_MESSAGE_TYPE == 53,
        message::OPTION_SERVER == 54,
        message::OPTION_PARAMETER_LIST == 55,
        message::OPTION_CLIENT_ID == 61,
        message::OPTION_END == 255,
{
    assert(message::MAGIC@ =~= seq![99u8, 130, 83, 99]);
}

/// A message is seen as what its fields hold.
pub proof fn law_message_seen(m: Message)
    ensures
        m@.op == m.op && m@.htype == m.htype && m@.hlen == m.hlen && m@.hops == m.hops,
        m@.xid == m.xid && m@.secs == m.secs && m@.flags == m.flags,
        m@.ciaddr == m.ciaddr && m@.yiaddr == m.yiaddr,
        m@.siaddr == m.siaddr && m@.giaddr == m.giaddr,
        m@.chaddr == m.chaddr@ && m@.chaddr.len() == 16,
        m@.sname == m.sname@ && m@.file == m.file@,
        m@.options.len() == m.options@.len(),
        forall|i: int|
            0 <= i < m.options@.len() ==> (#[trigger] m@.options[i]).0 == m.options@[i].0
                && m@.options[i].1 == m.options@[i].1@,
{
}

/// The eight message types: the number and the name of each, and that a type is
/// found by these and by nothing else.
pub proof fn law_types(t: MessageType, code: u8, s: Seq<char>)
    ensures
        MessageType::Discover.number() == 1 && MessageType::Discover.label() == "discover"@,
        MessageType::Offer.number() == 2 && MessageType::Offer.label() == "offer"@,
        MessageType::Request.number() == 3 && MessageType::Request.label() == "request"@,
        MessageType::Decline.number() == 4 && MessageType::Decline.label() == "decline"@,
        MessageType::Ack.number() == 5 && MessageType::Ack.label() == "ack"@,
        MessageType::Nak.number() == 6 && MessageType::Nak.label() == "nak"@,
        MessageType::Release.number() == 7 && MessageType::Release.label() == "release"@,
        MessageType::Inform.number() == 8 && MessageType::Inform.label() == "inform"@,
        message::type_coded(code) == Some(t) <==> code == t.number(),
        message::type_called(s) == Some(t) <==> s == t.label() || s == number::decimal(
            t.number() as nat,
        ),
{
    message::law_message_type_found(t);
    if message::type_called(s) == Some(t) {
        reveal_strlit("1");
        reveal_strlit("2");
        reveal_strlit("3");
        reveal_strlit("4");
        reveal_strlit("5");
        reveal_strlit("6");
        reveal_strlit("7");
        reveal_strlit("8");
        assert(number::decimal(1) =~= "1"@);
        assert(number::decimal(2) =~= "2"@);
        assert(number::decimal(3) =~= "3"@);
        assert(number::decimal(4) =~= "4"@);
        assert(number::decimal(5) =~= "5"@);
        assert(number::decimal(6) =~= "6"@);
        assert(number::decimal(7) =~= "7"@);
        assert(number::decimal(8) =~= "8"@);
    }
}

/// A new message says who it is from and of which transaction, and nothing
/// else.
pub proof fn law_fresh(op: u8, xid: u32, mac: Seq<u8>)
    ensures
        ({
            let m = MessageView::fresh(op, xid, mac);
            let zero = Ipv4Addr { a: 0, b: 0, c: 0, d: 0 };
            &&& m.op == op && m.htype == 1 && m.hops == 0 && m.xid == xid
            &&& m.secs == 0 && m.flags == 0
            &&& m.hlen <= 16 && (m.hlen == mac.len() || m.hlen == 16 && mac.len() > 16)
            &&& m.chaddr.len() == 16
            &&& forall|i: int|
                0 <= i < 16 ==> #[trigger] m.chaddr[i] == (if i < mac.len() {
                    mac[i]
                } else {
                    0
                })
            &&& m.ciaddr == zero && m.yiaddr == zero && m.siaddr == zero && m.giaddr == zero
            &&& m.sname.len() == 0 && m.file.len() == 0 && m.options.len() == 0
        }),
{
}

/// Setting an option leaves the options of other codes as they were, in their
/// order, and puts the option after them; it changes nothing else.
pub proof fn law_with(m: MessageView, code: u8, value: Seq<u8>)
    ensures
        m.with(code, value).options == m.options.filter(|o: (u8, Seq<u8>)| o.0 != code).push(
            (code, value),
        ),
        m.with(code, value) == (MessageView { options: m.with(code, value).options, ..m }),
{
    lemma_without_filters(m.options, code);
}

/// Taking out a code is keeping the others.
proof fn lemma_without_filters(options: Seq<(u8, Seq<u8>)>, code: u8)
    ensures
        message::without(options, code) == options.filter(|o: (u8, Seq<u8>)| o.0 != code),
    decreases options.len(),
{
    let keep = |o: (u8, Seq<u8>)| o.0 != code;
    if options.len() == 0 {
        reveal(Seq::filter);
        assert(options.filter(keep) =~= Seq::empty());
    } else {
        let first = seq![options[0]];
        let tail = options.skip(1);
        lemma_without_filters(tail, code);
        Seq::filter_distributes_over_add(first, tail, keep);
        assert(first + tail =~= options);
        assert(first.filter(keep) =~= if keep(options[0]) {
            first
        } else {
            Seq::empty()
        }) by {
            reveal(Seq::filter);
            assert(first.drop_last() =~= Seq::empty());
            assert(first.drop_last().filter(keep) =~= Seq::empty());
            assert(first.last() == options[0]);
        }
        assert(Seq::<(u8, Seq<u8>)>::empty() + tail.filter(keep) =~= tail.filter(keep));
    }
}

/// An option is found where its code first stands, with its value, and not
/// found where its code does not stand.
pub proof fn law_lookup(options: Seq<(u8, Seq<u8>)>, code: u8, at: int)
    requires
        0 <= at <= options.len(),
        forall|i: int| 0 <= i < at ==> (#[trigger] options[i]).0 != code,
        at < options.len() ==> options[at].0 == code,
    ensures
        message::lookup(options, code) == (if at < options.len() {
            Some(options[at].1)
        } else {
            None
        }),
    decreases at,
{
    if at > 0 {
        assert(options[0].0 != code);
        assert forall|i: int| 0 <= i < at - 1 implies (#[trigger] options.skip(1)[i]).0 != code by {
            assert(options.skip(1)[i] == options[i + 1]);
        }
        law_lookup(options.skip(1), code, at - 1);
    }
}

/// The type of a message is the one whose number option 53 begins with, where
/// that is first found; it has none where there is no such number.
pub proof fn law_message_type(m: MessageView, at: int, t: MessageType)
    requires
        0 <= at <= m.options.len(),
        forall|i: int| 0 <= i < at ==> (#[trigger] m.options[i]).0 != 53,
        at < m.options.len() ==> m.options[at].0 == 53,
    ensures
        m.message_type() == Some(t) <==> at < m.options.len() && m.options[at].1.len() > 0
            && m.options[at].1[0] == t.number(),
{
    law_lookup(m.options, 53, at);
    if at < m.options.len() && m.options[at].1.len() > 0 {
        law_types(t, m.options[at].1[0], Seq::empty());
    }
}

/// The name of the host is the whole of the text that option 12 holds, where
/// that is first found; it is empty where there is no such option. Of bytes
/// that are not UTF-8 it is what is read of them with loss.
pub proof fn law_hostname(m: MessageView, at: int, s: Seq<char>)
    requires
        0 <= at <= m.options.len(),
        forall|i: int| 0 <= i < at ==> (#[trigger] m.options[i]).0 != 12,
        at < m.options.len() ==> m.options[at].0 == 12,
    ensures
        at == m.options.len() ==> m.hostname().len() == 0,
        at < m.options.len() && m.options[at].1 == vstd::utf8::encode_utf8(s) ==> m.hostname() == s,
        at < m.options.len() && !vstd::utf8::valid_utf8(m.options[at].1) ==> m.hostname()
            == utf8::lossy_text(m.options[at].1),
{
    law_lookup(m.options, 12, at);
    vstd::utf8::encode_utf8_valid_utf8(s);
    vstd::utf8::encode_utf8_decode_utf8(s);
}

/// What is read of bytes is their text where they are UTF-8.
pub proof fn law_text(s: Seq<char>, bytes: Seq<u8>)
    ensures
        utf8::text_of(vstd::utf8::encode_utf8(s)) == s,
        !vstd::utf8::valid_utf8(bytes) ==> utf8::text_of(bytes) == utf8::lossy_text(bytes),
{
    vstd::utf8::encode_utf8_valid_utf8(s);
    vstd::utf8::encode_utf8_decode_utf8(s);
}

/// The hardware address is the first bytes of its field, as many as are said
/// and sixteen at most.
pub proof fn law_hardware(m: MessageView)
    requires
        m.chaddr.len() == 16,
    ensures
        m.hardware().len() == m.hlen || m.hardware().len() == 16 && m.hlen > 16,
        forall|i: int| 0 <= i < m.hardware().len() ==> #[trigger] m.hardware()[i] == m.chaddr[i],
{
}

/// The hardware address is written as two digits for each byte with a colon
/// between each two.
pub proof fn law_mac_written(m: MessageView)
    requires
        m.chaddr.len() == 16,
    ensures
        m.hlen == 0 ==> m.mac().len() == 0,
        m.hlen > 0 ==> m.mac().len() == 3 * m.hardware().len() - 1,
        forall|i: int|
            0 <= i < m.hardware().len() ==> m.mac()[3 * i] == laws::number::lower()[(
            #[trigger] m.chaddr[i]) as int / 16] && m.mac()[3 * i + 1] == laws::number::lower()[
                m.chaddr[i] as int % 16] && (i > 0 ==> m.mac()[3 * i - 1] == ':'),
{
    let bytes = m.hardware();
    laws::option::law_pairs(bytes);
    assert forall|i: int| 0 <= i < bytes.len() implies m.mac()[3 * i] == laws::number::lower()[(
    #[trigger] m.chaddr[i]) as int / 16] && m.mac()[3 * i + 1] == laws::number::lower()[
        m.chaddr[i] as int % 16] && (i > 0 ==> m.mac()[3 * i - 1] == ':') by {
        assert(bytes[i] == m.chaddr[i]);
    }
}

/// A hardware address is read from one number for each byte, at most sixteen,
/// with a mark between each two, and not otherwise.
pub proof fn law_mac_read(parts: Seq<Seq<char>>, mark: char)
    requires
        parts.len() >= 1,
        mark == ':' || mark == '-',
        forall|i: int|
            0 <= i < parts.len() ==> !(#[trigger] parts[i]).contains(':') && !parts[i].contains(
                '-',
            ),
    ensures
        match message::mac_octets(text::joined(parts, seq![mark])) {
            Some(bytes) => parts.len() <= 16 && bytes.len() == parts.len() && forall|i: int|
                0 <= i < parts.len() ==> number::number(#[trigger] parts[i], 16, 255) == Some(
                    bytes[i] as int,
                ),
            None => parts.len() > 16 || exists|i: int|
                0 <= i < parts.len() && number::number(#[trigger] parts[i], 16, 255) is None,
        },
{
    let marks = seq![':', '-'];
    assert(marks[0] == ':' && marks[1] == '-');
    assert forall|i: int| 0 <= i < parts.len() implies text::lacks(#[trigger] parts[i], marks) by {
        assert forall|j: int| 0 <= j < parts[i].len() implies !marks.contains(
            #[trigger] parts[i][j],
        ) by {
            assert(parts[i].contains(parts[i][j]));
        }
    }
    text::law_joined_cuts_back(parts, mark, marks);
    if let Some(bytes) = message::mac_octets(text::joined(parts, seq![mark])) {
        assert forall|i: int| 0 <= i < parts.len() implies number::number(
            #[trigger] parts[i],
            16,
            255,
        ) == Some(bytes[i] as int) by {
            laws::number::lemma_number_bounded(parts[i], 16, 255);
        }
    }
}

/// Colons and hyphens mean the same in a hardware address.
pub proof fn law_mac_marks(s: Seq<char>, t: Seq<char>)
    requires
        s.len() == t.len(),
        forall|i: int|
            0 <= i < s.len() ==> #[trigger] s[i] == t[i] || (s[i] == ':' || s[i] == '-') && (t[i]
                == ':' || t[i] == '-'),
    ensures
        message::mac_octets(s) == message::mac_octets(t),
{
    lemma_pieces_alike(s, t);
}

/// Texts that differ in which mark stands where have the same pieces.
proof fn lemma_pieces_alike(s: Seq<char>, t: Seq<char>)
    requires
        s.len() == t.len(),
        forall|i: int|
            0 <= i < s.len() ==> #[trigger] s[i] == t[i] || (s[i] == ':' || s[i] == '-') && (t[i]
                == ':' || t[i] == '-'),
    ensures
        text::pieces(s, seq![':', '-']) == text::pieces(t, seq![':', '-']),
    decreases s.len(),
{
    let marks = seq![':', '-'];
    assert(marks[0] == ':' && marks[1] == '-');
    text::lemma_first_of_found(s, marks);
    let at = text::first_of(s, marks);
    assert forall|i: int| 0 <= i < at implies !marks.contains(#[trigger] t[i]) by {
        assert(!marks.contains(s[i]));
    }
    if at < s.len() {
        assert(s[at] == ':' || s[at] == '-') by {
            let k = choose|k: int| 0 <= k < marks.len() && marks[k] == s[at];
            assert(k == 0 || k == 1);
        }
        assert(marks.contains(t[at]));
    }
    text::lemma_first_of(t, marks, at);
    assert(s.take(at) =~= t.take(at)) by {
        assert forall|i: int| 0 <= i < at implies s[i] == t[i] by {
            assert(!marks.contains(s[i]));
        }
    }
    if at < s.len() {
        let u = s.skip(at + 1);
        let v = t.skip(at + 1);
        assert forall|i: int| 0 <= i < u.len() implies #[trigger] u[i] == v[i] || (u[i] == ':'
            || u[i] == '-') && (v[i] == ':' || v[i] == '-') by {
            assert(u[i] == s[at + 1 + i] && v[i] == t[at + 1 + i]);
        }
        lemma_pieces_alike(u, v);
    } else {
        assert(s.take(at) == s);
        assert(t.take(at) == t);
    }
}

}
