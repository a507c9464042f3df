//! The transport: what a client's message arrives as, and which reply a target
//! describes.

use std::time::Duration;

use vstd::prelude::*;

use crate::error;
use crate::error::{Error, ErrorView};
use crate::ipv4;
use crate::ipv4::Ipv4Addr;
use crate::message;
use crate::message::{
    Message, MessageType, MessageView, BOOTREPLY, BOOTREQUEST, OPTION_MESSAGE_TYPE, OPTION_SERVER,
};
use crate::number;
use crate::number::{parse_number, to_be32};
use crate::option;
use crate::option::hex_string;
use crate::text;
use crate::text::{chars_of, split, split_once, string_of, strip_prefix};
use crate::wire;
use crate::wire::{decode, encode};
use vstd::slice::slice_to_vec;

verus! {

/// A DHCP transport: where it listens and how long it waits.
#[derive(Clone)]
pub struct DhcpTransport {
    pub bind: String,
    pub timeout: Option<Duration>,
}

/// A Stream that arrived: where it came from, and what it is.
#[derive(Clone, Debug, PartialEq, Eq)]
pub struct Arrived {
    pub origin_uri: String,
    pub bytes: Vec<u8>,
}

// ---------------------------------------------------------------------------
// What a target says
// ---------------------------------------------------------------------------

/// A `dhcp://` target cut into its address and what follows the first slash
/// after it. Where a target is cut is this library's own rule;
/// [`reply_to_parts`] takes a target that is cut otherwise.
pub open spec fn target_parts(target: Seq<char>) -> Option<(Seq<char>, Seq<char>)> {
    if text::starts_with(target, "dhcp://"@) {
        let after = target.skip("dhcp://"@.len() as int);
        match text::cut_at(after, '/') {
            Some((address, rest)) => Some((address, rest)),
            None => Some((after, seq![])),
        }
    } else {
        None
    }
}

/// The query of a target: what follows the question mark that begins `rest`,
/// or else the first one in `address`.
pub open spec fn query_of(address: Seq<char>, rest: Seq<char>) -> Option<Seq<char>> {
    if rest.len() > 0 && rest[0] == '?' {
        Some(rest.skip(1))
    } else {
        match text::cut_at(address, '?') {
            Some((_, query)) => Some(query),
            None => None,
        }
    }
}

/// The address of a target without a query.
pub open spec fn host_of(address: Seq<char>) -> Seq<char> {
    match text::cut_at(address, '?') {
        Some((host, _)) => host,
        None => address,
    }
}

/// `pair` is `key`, an equals sign and a value.
pub open spec fn gives(pair: Seq<char>, key: Seq<char>) -> bool {
    text::starts_with(pair, key) && text::starts_with(pair.skip(key.len() as int), "="@)
}

/// The value that `pair` gives for `key`.
pub open spec fn given(pair: Seq<char>, key: Seq<char>) -> Seq<char> {
    pair.skip(key.len() as int).skip("="@.len() as int)
}

/// What the first of `pairs` that gives a value for `key` gives.
pub open spec fn first_value(pairs: Seq<Seq<char>>, key: Seq<char>) -> Option<Seq<char>>
    decreases pairs.len(),
{
    if pairs.len() == 0 {
        None
    } else if gives(pairs[0], key) {
        Some(given(pairs[0], key))
    } else {
        first_value(pairs.skip(1), key)
    }
}

/// What a query gives for `key`.
pub open spec fn value_for(query: Option<Seq<char>>, key: Seq<char>) -> Option<Seq<char>> {
    match query {
        Some(query) => first_value(text::pieces(query, seq!['&']), key),
        None => None,
    }
}

/// The transaction that `s` names: `0x` and a hexadecimal number, or a decimal
/// one.
pub open spec fn xid_of(s: Seq<char>) -> Option<u32> {
    let n = if text::starts_with(s, "0x"@) {
        number::number(s.skip("0x"@.len() as int), 16, 0xffff_ffff)
    } else {
        number::number(s, 10, 0xffff_ffff)
    };
    match n {
        Some(n) => Some(n as u32),
        None => None,
    }
}

/// The address that `value` is for `key`, where there is a value.
pub open spec fn given_address(value: Option<Seq<char>>, key: Seq<char>) -> Result<
    Option<Ipv4Addr>,
    ErrorView,
> {
    match value {
        None => Ok(None),
        Some(value) => match ipv4::dotted_read(value) {
            Some(address) => Ok(Some(address)),
            None => Err(ErrorView::NotReplyAddress { key, value }),
        },
    }
}

/// The address that a query gives for `key`, where it gives one.
pub open spec fn address_for(query: Option<Seq<char>>, key: Seq<char>) -> Result<
    Option<Ipv4Addr>,
    ErrorView,
> {
    given_address(value_for(query, key), key)
}

/// An address that is given, and `0.0.0.0` where none is.
pub open spec fn or_zero(address: Option<Ipv4Addr>) -> Ipv4Addr {
    match address {
        Some(address) => address,
        None => Ipv4Addr::zero(),
    }
}

/// The message type that a query gives; an acknowledgement where it gives none.
pub open spec fn type_for(query: Option<Seq<char>>) -> Result<MessageType, ErrorView> {
    match value_for(query, "type"@) {
        None => Ok(MessageType::Ack),
        Some(name) => match message::type_called(name) {
            Some(t) => Ok(t),
            None => Err(ErrorView::NotReplyType { name }),
        },
    }
}

/// The reply before its lines are set. A server that is given is an option too.
pub open spec fn bare_reply(
    xid: u32,
    mac: Seq<u8>,
    kind: MessageType,
    yiaddr: Option<Ipv4Addr>,
    server: Option<Ipv4Addr>,
) -> MessageView {
    let reply = MessageView {
        yiaddr: or_zero(yiaddr),
        siaddr: or_zero(server),
        ..MessageView::fresh(BOOTREPLY, xid, mac)
    };
    let reply = reply.with(OPTION_MESSAGE_TYPE, seq![kind.number()]);
    match server {
        Some(server) => reply.with(OPTION_SERVER, server.bytes()),
        None => reply,
    }
}

/// The reply that `target`'s query describes, before its lines are set, or why
/// it describes none.
pub open spec fn reply_of_query(target: Seq<char>, query: Option<Seq<char>>) -> Result<
    MessageView,
    ErrorView,
> {
    let xid = match value_for(query, "xid"@) {
        Some(value) => xid_of(value),
        None => None,
    };
    let mac = match value_for(query, "mac"@) {
        Some(value) => message::mac_octets(value),
        None => None,
    };
    if xid is None {
        Err(ErrorView::NoXid { target })
    } else if mac is None {
        Err(ErrorView::NoMac { target })
    } else {
        match (type_for(query), address_for(query, "yiaddr"@), address_for(query, "server"@)) {
            (Ok(kind), Ok(yiaddr), Ok(server)) => Ok(
                bare_reply(xid->0, mac->0, kind, yiaddr, server),
            ),
            (Err(error), _, _) => Err(error),
            (_, Err(error), _) => Err(error),
            (_, _, Err(error)) => Err(error),
        }
    }
}

/// Where the reply that `target` describes goes, and the reply, its options
/// being the lines of `bytes` too; `parts` are the target's address and what
/// follows it.
pub open spec fn reply_of(
    target: Seq<char>,
    parts: Option<(Seq<char>, Seq<char>)>,
    bytes: Seq<u8>,
) -> Result<(Seq<char>, MessageView), ErrorView> {
    match parts {
        None => Err(ErrorView::NotTarget { target }),
        Some((address, rest)) => match reply_of_query(target, query_of(address, rest)) {
            Err(error) => Err(error),
            Ok(reply) => match reply.with_lines(bytes) {
                Ok(reply) => Ok((host_of(address), reply)),
                Err(error) => Err(error),
            },
        },
    }
}

// ---------------------------------------------------------------------------
// What arrives
// ---------------------------------------------------------------------------

/// The name of a message's type, `bootp` where it has none.
pub open spec fn kind_text(m: MessageView) -> Seq<char> {
    match m.message_type() {
        Some(t) => t.label(),
        None => "bootp"@,
    }
}

/// Where a message came from: the peer, and what the fixed fields and option 53
/// knew.
pub open spec fn origin(peer: Seq<char>, m: MessageView) -> Seq<char> {
    "dhcp://"@ + peer + "?xid=0x"@ + number::hex_digits(number::be32(m.xid)) + "&type="@
        + kind_text(m) + "&mac="@ + m.mac() + "&hostname="@ + m.hostname()
}

/// What a datagram from `peer` is to the transport: the Stream of a client's
/// message, nothing where it is a server's, or why it is no message.
pub open spec fn received(peer: Seq<char>, datagram: Seq<u8>) -> Result<
    Option<(Seq<char>, Seq<u8>)>,
    ErrorView,
> {
    match wire::decoded(datagram) {
        Err(error) => Err(error),
        Ok(m) => if m.op == BOOTREQUEST {
            Ok(Some((origin(peer, m), m.option_lines())))
        } else {
            Ok(None)
        },
    }
}

/// Where a send to `target` goes, and the datagram that goes there.
pub open spec fn sent(target: Seq<char>, bytes: Seq<u8>) -> Result<
    (Seq<char>, Seq<u8>),
    ErrorView,
> {
    match reply_of(target, target_parts(target), bytes) {
        Err(error) => Err(error),
        Ok((host, reply)) => match wire::encoded(reply) {
            Ok(datagram) => Ok((host, datagram)),
            Err(error) => Err(error),
        },
    }
}

impl View for Arrived {
    type V = (Seq<char>, Seq<u8>);

    open spec fn view(&self) -> (Seq<char>, Seq<u8>) {
        (self.origin_uri@, self.bytes@)
    }
}

// ---------------------------------------------------------------------------
// Reading a target
// ---------------------------------------------------------------------------

/// A query that is there or not, as a text.
pub open spec fn query_text(query: Option<&[char]>) -> Option<Seq<char>> {
    match query {
        Some(query) => Some(query@),
        None => None,
    }
}

/// The parts of a target that are there or not, as texts.
pub open spec fn parts_text(parts: Option<(&str, &str)>) -> Option<(Seq<char>, Seq<char>)> {
    match parts {
        Some((address, rest)) => Some((address@, rest@)),
        None => None,
    }
}

/// `0x3903f326` or `956363558`.
#[must_use]
pub fn parse_xid(text: &str) -> (r: Option<u32>)
    ensures
        r == xid_of(text@),
{
    let s: Vec<char> = chars_of(text);
    match strip_prefix(s.as_slice(), "0x") {
        Some(hex) => parse_number(hex, 16, 0xffff_ffff),
        None => parse_number(s.as_slice(), 10, 0xffff_ffff),
    }
}

/// What `query` gives for `key`.
fn query_value<'a>(query: Option<&'a [char]>, key: &str) -> (r: Option<&'a [char]>)
    ensures
        match r {
            Some(value) => value_for(query_text(query), key@) == Some(value@),
            None => value_for(query_text(query), key@) is None,
        },
{
    let given = match query {
        Some(given) => given,
        None => {
            return None;
        },
    };
    let mark: [char; 1] = ['&'];
    assert(mark@ == seq!['&']);
    let pairs: Vec<&'a [char]> = split(given, mark.as_slice());
    let ghost all = text::pieces(given@, seq!['&']);
    assert(text::texts(pairs@) == all);
    assert(all.skip(0) == all);
    let mut i: usize = 0;
    while i < pairs.len()
        invariant
            i <= pairs@.len(),
            text::texts(pairs@) == all,
            query == Some(given),
            all == text::pieces(given@, seq!['&']),
            first_value(all, key@) == first_value(all.skip(i as int), key@),
        decreases pairs.len() - i,
    {
        let ghost here = all.skip(i as int);
        assert(here[0] == pairs@[i as int]@);
        assert(here.skip(1) == all.skip(i + 1));
        if let Some(after) = strip_prefix(pairs[i], key) {
            if let Some(value) = strip_prefix(after, "=") {
                return Some(value);
            }
        }
        i += 1;
    }
    assert(all.skip(i as int).len() == 0);
    None
}

/// The address that `query` gives for `key`.
fn query_address(query: Option<&[char]>, key: &str) -> (r: Result<Option<Ipv4Addr>, Error>)
    ensures
        match r {
            Ok(address) => address_for(query_text(query), key@) == Ok::<
                Option<Ipv4Addr>,
                ErrorView,
            >(address),
            Err(error) => address_for(query_text(query), key@) == Err::<
                Option<Ipv4Addr>,
                ErrorView,
            >(error@),
        },
{
    match query_value(query, key) {
        None => Ok(None),
        Some(value) => match Ipv4Addr::parse(value) {
            Some(address) => Ok(Some(address)),
            None => Err(Error::NotReplyAddress { key: key.to_owned(), value: string_of(value) }),
        },
    }
}

/// The reply that the query of `target` describes, before its lines are set.
fn reply_from_query(target: &str, query: Option<&[char]>) -> (r: Result<Message, Error>)
    ensures
        match r {
            Ok(m) => reply_of_query(target@, query_text(query)) == Ok::<MessageView, ErrorView>(m@),
            Err(error) => reply_of_query(target@, query_text(query)) == Err::<
                MessageView,
                ErrorView,
            >(error@),
        },
{
    let xid: Option<u32> = match query_value(query, "xid") {
        Some(value) => parse_xid(string_of(value).as_str()),
        None => None,
    };
    let xid: u32 = match xid {
        Some(xid) => xid,
        None => {
            return Err(Error::NoXid { target: target.to_owned() });
        },
    };
    let mac: Option<Vec<u8>> = match query_value(query, "mac") {
        Some(value) => Message::parse_mac(string_of(value).as_str()),
        None => None,
    };
    let mac: Vec<u8> = match mac {
        Some(mac) => mac,
        None => {
            return Err(Error::NoMac { target: target.to_owned() });
        },
    };
    let kind: MessageType = match query_value(query, "type") {
        None => MessageType::Ack,
        Some(name) => match MessageType::parse(string_of(name).as_str()) {
            Some(kind) => kind,
            None => {
                return Err(Error::NotReplyType { name: string_of(name) });
            },
        },
    };
    let yiaddr: Option<Ipv4Addr> = match query_address(query, "yiaddr") {
        Ok(address) => address,
        Err(error) => {
            return Err(error);
        },
    };
    let server: Option<Ipv4Addr> = match query_address(query, "server") {
        Ok(address) => address,
        Err(error) => {
            return Err(error);
        },
    };
    let mut reply: Message = Message::new(BOOTREPLY, xid, mac.as_slice());
    if let Some(address) = yiaddr {
        reply.yiaddr = address;
    }
    if let Some(address) = server {
        reply.siaddr = address;
    }
    let mut number: Vec<u8> = Vec::new();
    number.push(kind.code());
    assert(number@ == seq![kind.number()]);
    reply = reply.with(OPTION_MESSAGE_TYPE, number);
    if let Some(address) = server {
        reply = reply.with(OPTION_SERVER, slice_to_vec(address.octets().as_slice()));
    }
    Ok(reply)
}

/// Where the reply that `target` describes goes, and the reply, its options
/// being `bytes`' lines; `parts` are the target's address and what follows it.
///
/// # Errors
/// No parts, a query without a transaction or a hardware address or with
/// something that is not what it should be, or lines that are not options.
pub fn reply_to_parts(target: &str, parts: Option<(&str, &str)>, bytes: &[u8]) -> (r: Result<
    (String, Message),
    Error,
>)
    ensures
        match r {
            Ok((host, m)) => reply_of(target@, parts_text(parts), bytes@) == Ok::<
                (Seq<char>, MessageView),
                ErrorView,
            >((host@, m@)),
            Err(error) => reply_of(target@, parts_text(parts), bytes@) == Err::<
                (Seq<char>, MessageView),
                ErrorView,
            >(error@),
        },
{
    let (address, rest) = match parts {
        Some((address, rest)) => (chars_of(address), chars_of(rest)),
        None => {
            return Err(Error::NotTarget { target: target.to_owned() });
        },
    };
    let address: &[char] = address.as_slice();
    let rest: &[char] = rest.as_slice();
    let (host, in_address) = match split_once(address, '?') {
        Some((host, query)) => (host, Some(query)),
        None => (address, None),
    };
    proof {
        reveal_strlit("?");
        assert("?"@ =~= seq!['?']);
        assert(text::starts_with(rest@, "?"@) <==> rest@.len() > 0 && rest@[0] == '?') by {
            if rest@.len() > 0 {
                assert(rest@.take(1)[0] == rest@[0]);
                if rest@[0] == '?' {
                    assert(rest@.take(1) =~= seq!['?']);
                }
            }
        }
    }
    let query = match strip_prefix(rest, "?") {
        Some(query) => Some(query),
        None => in_address,
    };
    match reply_from_query(target, query) {
        Ok(reply) => match reply.with_lines(bytes) {
            Ok(reply) => Ok((string_of(host), reply)),
            Err(error) => Err(error),
        },
        Err(error) => Err(error),
    }
}

impl DhcpTransport {
    /// Listen at `bind`, `0.0.0.0:67` being the server port.
    #[must_use]
    pub fn new(bind: &str) -> (r: Self)
        ensures
            r.bind@ == bind@,
            r.timeout is None,
    {
        DhcpTransport { bind: bind.to_owned(), timeout: None }
    }

    /// Give up waiting for a message after `timeout`.
    #[must_use]
    pub fn timing_out_after(self, timeout: Duration) -> (r: Self)
        ensures
            r.bind == self.bind,
            r.timeout == Some(timeout),
    {
        DhcpTransport { bind: self.bind, timeout: Some(timeout) }
    }

    /// What the transport is called, and what its targets begin with.
    #[must_use]
    pub fn name(&self) -> (r: &'static str)
        ensures
            r@ == "dhcp"@,
    {
        "dhcp"
    }

    /// The reply `target` describes, its options being `bytes`' lines.
    ///
    /// # Errors
    /// A target that is not `dhcp://host:port?xid=...&mac=...`, or lines that
    /// are not options.
    pub fn reply_for(target: &str, bytes: &[u8]) -> (r: Result<(String, Message), Error>)
        ensures
            match r {
                Ok((host, m)) => reply_of(target@, target_parts(target@), bytes@) == Ok::<
                    (Seq<char>, MessageView),
                    ErrorView,
                >((host@, m@)),
                Err(error) => reply_of(target@, target_parts(target@), bytes@) == Err::<
                    (Seq<char>, MessageView),
                    ErrorView,
                >(error@),
            },
    {
        let chars: Vec<char> = chars_of(target);
        match strip_prefix(chars.as_slice(), "dhcp://") {
            Some(after) => match split_once(after, '/') {
                Some((address, rest)) => reply_to_parts(
                    target,
                    Some((string_of(address).as_str(), string_of(rest).as_str())),
                    bytes,
                ),
                None => {
                    proof {
                        reveal_strlit("");
                        assert(""@ =~= Seq::<char>::empty());
                    }
                    reply_to_parts(target, Some((string_of(after).as_str(), "")), bytes)
                },
            },
            None => reply_to_parts(target, None, bytes),
        }
    }

    /// Where a send of `bytes` to `target` goes, and the datagram to send there.
    ///
    /// # Errors
    /// Where there is no reply, or the reply has no datagram.
    pub fn datagram_for(target: &str, bytes: &[u8]) -> (r: Result<(String, Vec<u8>), Error>)
        ensures
            match r {
                Ok((host, datagram)) => sent(target@, bytes@) == Ok::<
                    (Seq<char>, Seq<u8>),
                    ErrorView,
                >((host@, datagram@)),
                Err(error) => sent(target@, bytes@) == Err::<(Seq<char>, Seq<u8>), ErrorView>(
                    error@,
                ),
            },
    {
        match Self::reply_for(target, bytes) {
            Ok((host, reply)) => match encode(&reply) {
                Ok(datagram) => Ok((host, datagram)),
                Err(error) => Err(error),
            },
            Err(error) => Err(error),
        }
    }

    /// The Stream that `datagram` from `peer` is; nothing where it is a reply,
    /// another server's.
    ///
    /// # Errors
    /// Where the datagram is not DHCP.
    pub fn take_datagram(peer: &str, datagram: &[u8]) -> (r: Result<Option<Arrived>, Error>)
        ensures
            match r {
                Ok(Some(a)) => received(peer@, datagram@) == Ok::<
                    Option<(Seq<char>, Seq<u8>)>,
                    ErrorView,
                >(Some(a@)),
                Ok(None) => received(peer@, datagram@) == Ok::<
                    Option<(Seq<char>, Seq<u8>)>,
                    ErrorView,
                >(None),
                Err(error) => received(peer@, datagram@) == Err::<
                    Option<(Seq<char>, Seq<u8>)>,
                    ErrorView,
                >(error@),
            },
    {
        match decode(datagram) {
            Ok(message) => if message.op == BOOTREQUEST {
                Ok(Some(arrived(peer, &message)))
            } else {
                Ok(None)
            },
            Err(error) => Err(error),
        }
    }
}

/// The Stream that `message` from `peer` is: its options, and in the origin
/// what the fixed fields and option 53 knew.
#[must_use]
pub fn arrived(peer: &str, message: &Message) -> (r: Arrived)
    ensures
        r@ == (origin(peer@, message@), message@.option_lines()),
{
    let kind: &'static str = match message.message_type() {
        Some(t) => t.name(),
        None => "bootp",
    };
    let origin_uri: String = "dhcp://".to_owned().concat(peer).concat("?xid=0x").concat(
        hex_string(to_be32(message.xid).as_slice()).as_str(),
    ).concat("&type=").concat(kind).concat("&mac=").concat(message.mac().as_str()).concat(
        "&hostname=",
    ).concat(message.hostname().as_str());
    Arrived { origin_uri, bytes: message.option_lines() }
}

// ---------------------------------------------------------------------------
// What a reply says
// ---------------------------------------------------------------------------

/// Setting no lines changes nothing.
pub proof fn lemma_no_lines(m: MessageView)
    ensures
        m.with_lines(seq![]) == Ok::<MessageView, ErrorView>(m),
{
    let none = Seq::<u8>::empty();
    assert(vstd::utf8::encode_utf8(Seq::<char>::empty()) == none);
    vstd::utf8::encode_utf8_valid_utf8(Seq::<char>::empty());
    vstd::utf8::encode_utf8_decode_utf8(Seq::<char>::empty());
    assert(text::lines(Seq::<char>::empty()) == Seq::<Seq<char>>::empty());
}

/// A reply answers a transaction: a target that describes one is a `dhcp://`
/// target whose query gives a transaction and a hardware address, and the reply
/// is from a server, of that transaction, to that address, with the addresses
/// that the query gives.
pub proof fn law_reply_answers(target: Seq<char>, bytes: Seq<u8>)
    requires
        reply_of(target, target_parts(target), bytes) is Ok,
    ensures
        text::starts_with(target, "dhcp://"@),
        ({
            let (address, rest) = target_parts(target)->0;
            let query = query_of(address, rest);
            let (host, m) = reply_of(target, target_parts(target), bytes)->Ok_0;
            &&& host == host_of(address)
            &&& value_for(query, "xid"@) is Some
            &&& value_for(query, "mac"@) is Some
            &&& m.op == BOOTREPLY
            &&& xid_of(value_for(query, "xid"@)->0) == Some(m.xid)
            &&& message::mac_octets(value_for(query, "mac"@)->0) == Some(m.hardware())
            &&& address_for(query, "yiaddr"@) is Ok
            &&& m.yiaddr == or_zero(address_for(query, "yiaddr"@)->Ok_0)
            &&& address_for(query, "server"@) is Ok
            &&& m.siaddr == or_zero(address_for(query, "server"@)->Ok_0)
        }),
{
    let (address, rest) = target_parts(target)->0;
    let query = query_of(address, rest);
    let mac = message::mac_octets(value_for(query, "mac"@)->0)->0;
    let m = reply_of(target, target_parts(target), bytes)->Ok_0.1;
    assert(m.hardware() == mac);
}

/// A target without a query answers nothing and is refused.
pub proof fn law_bare_target_refused(target: Seq<char>, bytes: Seq<u8>)
    requires
        text::lacks(target, seq!['?']),
    ensures
        reply_of(target, target_parts(target), bytes) == Err::<(Seq<char>, MessageView), ErrorView>(
            if text::starts_with(target, "dhcp://"@) {
                ErrorView::NoXid { target }
            } else {
                ErrorView::NotTarget { target }
            },
        ),
{
    if text::starts_with(target, "dhcp://"@) {
        let (address, rest) = target_parts(target)->0;
        let after = target.skip("dhcp://"@.len() as int);
        text::lemma_first_of_found(after, seq!['/']);
        assert forall|i: int| 0 <= i < after.len() implies !seq!['?'].contains(
            #[trigger] after[i],
        ) by {
            assert(after[i] == target["dhcp://"@.len() as int + i]);
        }
        assert forall|i: int| 0 <= i < address.len() implies !seq!['?'].contains(
            #[trigger] address[i],
        ) by {
            assert(address[i] == after[i]);
        }
        text::lemma_first_of(address, seq!['?'], address.len() as int);
        if rest.len() > 0 {
            assert(rest[0] == after[after.len() - rest.len()]);
            assert(seq!['?'][0] == '?');
        }
    }
}

/// A reply without lines says what its target says: its type is the one that
/// the query gives, an acknowledgement where it gives none, and the server that
/// the query gives is an option too, whatever its address.
pub proof fn law_reply_without_lines(target: Seq<char>)
    requires
        reply_of(target, target_parts(target), seq![]) is Ok,
    ensures
        ({
            let (address, rest) = target_parts(target)->0;
            let query = query_of(address, rest);
            let (host, m) = reply_of(target, target_parts(target), seq![])->Ok_0;
            &&& type_for(query) == Ok::<MessageType, ErrorView>(m.message_type()->0)
            &&& m.message_type() is Some
            &&& value_for(query, "type"@) is None ==> m.message_type() == Some(MessageType::Ack)
            &&& message::lookup(m.options, OPTION_SERVER) == (match value_for(query, "server"@) {
                Some(_) => Some(m.siaddr.bytes()),
                None => None,
            })
        }),
{
    let (address, rest) = target_parts(target)->0;
    let query = query_of(address, rest);
    let m = reply_of_query(target, query)->Ok_0;
    lemma_no_lines(m);
    lemma_bare_reply(
        m.xid,
        message::mac_octets(value_for(query, "mac"@)->0)->0,
        type_for(query)->Ok_0,
        address_for(query, "yiaddr"@)->Ok_0,
        address_for(query, "server"@)->Ok_0,
    );
}

/// What a reply before its lines has for options.
pub proof fn lemma_bare_reply(
    xid: u32,
    mac: Seq<u8>,
    kind: MessageType,
    yiaddr: Option<Ipv4Addr>,
    server: Option<Ipv4Addr>,
)
    ensures
        ({
            let m = bare_reply(xid, mac, kind, yiaddr, server);
            &&& m.message_type() == Some(kind)
            &&& message::lookup(m.options, OPTION_SERVER) == (match server {
                Some(server) => Some(server.bytes()),
                None => None,
            })
        }),
{
    let fresh = MessageView {
        yiaddr: or_zero(yiaddr),
        siaddr: or_zero(server),
        ..MessageView::fresh(BOOTREPLY, xid, mac)
    };
    let typed = fresh.with(OPTION_MESSAGE_TYPE, seq![kind.number()]);
    message::law_with_sets(fresh, OPTION_MESSAGE_TYPE, seq![kind.number()], OPTION_SERVER);
    message::law_with_sets(typed, OPTION_SERVER, or_zero(server).bytes(), OPTION_MESSAGE_TYPE);
    message::law_message_type_found(kind);
}

// ---------------------------------------------------------------------------
// What goes is what arrives
// ---------------------------------------------------------------------------

/// A client's message arrives as its options, with what it says of itself in
/// the origin.
pub proof fn law_request_arrives(peer: Seq<char>, m: MessageView)
    requires
        m.op == BOOTREQUEST,
        wire::sound(m),
        wire::encoded(m) is Ok,
    ensures
        received(peer, wire::encoded(m)->Ok_0) == Ok::<Option<(Seq<char>, Seq<u8>)>, ErrorView>(
            Some((origin(peer, m), m.option_lines())),
        ),
{
    wire::law_read_as_written(m);
}

/// A reply reaches the client as it was made, where none of its lines sets
/// padding or the end; and arriving at a transport it is skipped.
#[verifier::spinoff_prover]
pub proof fn law_reply_reaches(target: Seq<char>, bytes: Seq<u8>, peer: Seq<char>)
    requires
        sent(target, bytes) is Ok,
        wire::sound(reply_of(target, target_parts(target), bytes)->Ok_0.1),
    ensures
        ({
            let (host, m) = reply_of(target, target_parts(target), bytes)->Ok_0;
            let datagram = sent(target, bytes)->Ok_0.1;
            &&& sent(target, bytes)->Ok_0.0 == host
            &&& wire::decoded(datagram) == Ok::<MessageView, ErrorView>(m)
            &&& received(peer, datagram) == Ok::<Option<(Seq<char>, Seq<u8>)>, ErrorView>(None)
        }),
{
    let m = reply_of(target, target_parts(target), bytes)->Ok_0.1;
    law_reply_answers(target, bytes);
    assert(m.sname == Seq::<char>::empty());
    assert(m.file == Seq::<char>::empty());
    assert(vstd::utf8::encode_utf8(Seq::<char>::empty()) == Seq::<u8>::empty());
    wire::law_round_trip(m);
}

// ---------------------------------------------------------------------------
// An origin answers
// ---------------------------------------------------------------------------

/// Of the name of a host in an origin, what stands before its first slash.
pub open spec fn name_seen(hostname: Seq<char>) -> Seq<char> {
    hostname.take(text::first_of(hostname, seq!['/']))
}

/// What a name of a host in an origin gives besides the name: the pairs after
/// its first ampersand.
pub open spec fn pairs_in_name(hostname: Seq<char>) -> Seq<Seq<char>> {
    text::pieces(name_seen(hostname), seq!['&']).skip(1)
}

/// A name of a host whose first slash begins a query of its own.
pub open spec fn name_with_query(hostname: Seq<char>) -> bool {
    match text::cut_at(hostname, '/') {
        Some((_, rest)) => rest.len() > 0 && rest[0] == '?',
        None => false,
    }
}

/// The pairs of the query in the origin of `m`.
pub open spec fn origin_pairs(m: MessageView) -> Seq<Seq<char>> {
    seq![
        "xid=0x"@ + number::hex_digits(number::be32(m.xid)),
        "type="@ + kind_text(m),
        "mac="@ + m.mac(),
        "hostname="@ + text::pieces(name_seen(m.hostname()), seq!['&'])[0],
    ] + pairs_in_name(m.hostname())
}

/// The query in the origin of `m`.
pub open spec fn origin_query(m: MessageView) -> Seq<char> {
    "xid=0x"@ + number::hex_digits(number::be32(m.xid)) + "&type="@ + kind_text(m) + "&mac="@
        + m.mac() + "&hostname="@ + name_seen(m.hostname())
}

/// The text of a message's type is letters alone.
proof fn lemma_kind_lacks(m: MessageView, mark: char)
    requires
        !('a' <= mark <= 'z'),
    ensures
        text::lacks(kind_text(m), seq![mark]),
{
    reveal_strlit("bootp");
    match m.message_type() {
        Some(t) => {
            option::lemma_label_lacks(t, mark);
        },
        None => {
            let s = "bootp"@;
            assert forall|i: int| 0 <= i < s.len() implies !seq![mark].contains(
                #[trigger] s[i],
            ) by {
                assert('a' <= s[i] <= 'z');
            }
        },
    }
}

/// What an origin says before the name of the host has neither a slash in it
/// nor, the ampersands between its pairs aside, an ampersand.
#[verifier::spinoff_prover]
proof fn lemma_origin_lacks(peer: Seq<char>, m: MessageView)
    requires
        text::lacks(peer, seq!['/']),
    ensures
        text::lacks(
            peer + "?xid=0x"@ + number::hex_digits(number::be32(m.xid)) + "&type="@ + kind_text(m)
                + "&mac="@ + m.mac() + "&hostname="@,
            seq!['/'],
        ),
        text::lacks("xid=0x"@ + number::hex_digits(number::be32(m.xid)), seq!['&']),
        text::lacks("type="@ + kind_text(m), seq!['&']),
        text::lacks("mac="@ + m.mac(), seq!['&']),
        text::lacks("hostname="@, seq!['&']),
{
    reveal_strlit("?xid=0x");
    reveal_strlit("xid=0x");
    reveal_strlit("&type=");
    reveal_strlit("type=");
    reveal_strlit("&mac=");
    reveal_strlit("mac=");
    reveal_strlit("&hostname=");
    reveal_strlit("hostname=");
    let digits = number::hex_digits(number::be32(m.xid));
    let slash = seq!['/'];
    let and = seq!['&'];
    option::lemma_hex_digits_lack(number::be32(m.xid), '/');
    option::lemma_hex_digits_lack(number::be32(m.xid), '&');
    option::lemma_pairs_lack(m.hardware(), '/');
    option::lemma_pairs_lack(m.hardware(), '&');
    lemma_kind_lacks(m, '/');
    lemma_kind_lacks(m, '&');
    let a = peer + "?xid=0x"@;
    text::lemma_lacks_concat(peer, "?xid=0x"@, slash);
    text::lemma_lacks_concat(a, digits, slash);
    let a = a + digits;
    text::lemma_lacks_concat(a, "&type="@, slash);
    let a = a + "&type="@;
    text::lemma_lacks_concat(a, kind_text(m), slash);
    let a = a + kind_text(m);
    text::lemma_lacks_concat(a, "&mac="@, slash);
    let a = a + "&mac="@;
    text::lemma_lacks_concat(a, m.mac(), slash);
    let a = a + m.mac();
    text::lemma_lacks_concat(a, "&hostname="@, slash);
    text::lemma_lacks_concat("xid=0x"@, digits, and);
    text::lemma_lacks_concat("type="@, kind_text(m), and);
    text::lemma_lacks_concat("mac="@, m.mac(), and);
}

/// What an origin says between the peer and the name of the host.
pub open spec fn origin_middle(m: MessageView) -> Seq<char> {
    number::hex_digits(number::be32(m.xid)) + "&type="@ + kind_text(m) + "&mac="@ + m.mac()
        + "&hostname="@
}

/// How an origin is put together.
#[verifier::spinoff_prover]
proof fn lemma_origin_shape(peer: Seq<char>, m: MessageView)
    ensures
        origin(peer, m) == "dhcp://"@ + (peer + "?xid=0x"@ + origin_middle(m) + m.hostname()),
        origin_query(m) == "xid=0x"@ + origin_middle(m) + name_seen(m.hostname()),
        peer + "?xid=0x"@ + number::hex_digits(number::be32(m.xid)) + "&type="@ + kind_text(m)
            + "&mac="@ + m.mac() + "&hostname="@ == peer + "?xid=0x"@ + origin_middle(m),
{
}

/// A target of a text without a slash and another is cut at the first slash of
/// the other, where there is one.
proof fn lemma_target_parts(before: Seq<char>, name: Seq<char>)
    requires
        text::lacks(before, seq!['/']),
    ensures
        target_parts("dhcp://"@ + (before + name)) == (match text::cut_at(name, '/') {
            Some((_, rest)) => Some((before + name_seen(name), rest)),
            None => Some((before + name_seen(name), Seq::<char>::empty())),
        }),
{
    let target = "dhcp://"@ + (before + name);
    assert(target.take("dhcp://"@.len() as int) == "dhcp://"@);
    let after = target.skip("dhcp://"@.len() as int);
    assert(after == before + name);
    text::lemma_first_of_after(before, name, seq!['/']);
    text::lemma_first_of_found(name, seq!['/']);
    let at = text::first_of(name, seq!['/']);
    if at < name.len() {
        assert(after.take(before.len() + at) == before + name.take(at));
        assert(after.skip(before.len() + at + 1) == name.skip(at + 1));
    } else {
        assert(name.take(at) == name);
    }
}

/// The target that an origin is: its address is the peer, and its query says
/// what the message said.
#[verifier::spinoff_prover]
proof fn lemma_origin_parts(peer: Seq<char>, m: MessageView)
    requires
        text::lacks(peer, seq!['/']),
        text::lacks(peer, seq!['?']),
        !name_with_query(m.hostname()),
    ensures
        match target_parts(origin(peer, m)) {
            Some((address, rest)) => {
                &&& host_of(address) == peer
                &&& query_of(address, rest) == Some(origin_query(m))
            },
            None => false,
        },
{
    let name = m.hostname();
    let middle = origin_middle(m);
    let before = peer + "?xid=0x"@ + middle;
    lemma_origin_lacks(peer, m);
    lemma_origin_shape(peer, m);
    lemma_target_parts(before, name);
    assert(before + name_seen(name) == peer + seq!['?'] + origin_query(m)) by {
        reveal_strlit("?xid=0x");
        reveal_strlit("xid=0x");
        assert("?xid=0x"@ =~= seq!['?'] + "xid=0x"@);
    }
    text::lemma_cut_after(peer, '?', origin_query(m));
}

/// The pairs of an origin's query.
#[verifier::spinoff_prover]
proof fn lemma_origin_pairs(m: MessageView)
    ensures
        text::pieces(origin_query(m), seq!['&']) == origin_pairs(m),
{
    reveal_strlit("&type=");
    reveal_strlit("type=");
    reveal_strlit("&mac=");
    reveal_strlit("mac=");
    reveal_strlit("&hostname=");
    reveal_strlit("hostname=");
    let and = seq!['&'];
    assert(and[0] == '&');
    let first = "xid=0x"@ + number::hex_digits(number::be32(m.xid));
    let second = "type="@ + kind_text(m);
    let third = "mac="@ + m.mac();
    let name = name_seen(m.hostname());
    let fourth = "hostname="@ + name;
    assert("&type="@ =~= and + "type="@);
    assert("&mac="@ =~= and + "mac="@);
    assert("&hostname="@ =~= and + "hostname="@);
    assert(text::lacks(Seq::<char>::empty(), seq!['/']));
    lemma_origin_lacks(Seq::<char>::empty(), m);
    let after_second = third + and + fourth;
    let after_first = second + and + after_second;
    assert(origin_query(m) == first + and + after_first);
    text::lemma_pieces_front(first, '&', after_first, and);
    text::lemma_pieces_front(second, '&', after_second, and);
    text::lemma_pieces_front(third, '&', fourth, and);
    text::lemma_pieces_after("hostname="@, name, and);
    assert(text::pieces(origin_query(m), and) == seq![first] + (seq![second] + (seq![third] + (seq![
        "hostname="@ + text::pieces(name, and)[0],
    ] + pairs_in_name(m.hostname())))));
}

/// The keys of a query, letter by letter.
proof fn lemma_keys()
    ensures
        "xid"@ == seq!['x', 'i', 'd'],
        "mac"@ == seq!['m', 'a', 'c'],
        "type"@ == seq!['t', 'y', 'p', 'e'],
        "yiaddr"@ == seq!['y', 'i', 'a', 'd', 'd', 'r'],
        "server"@ == seq!['s', 'e', 'r', 'v', 'e', 'r'],
{
    reveal_strlit("xid");
    reveal_strlit("mac");
    reveal_strlit("type");
    reveal_strlit("yiaddr");
    reveal_strlit("server");
}

/// A pair that begins otherwise than the key gives nothing for it.
proof fn lemma_first_value_past(pairs: Seq<Seq<char>>, key: Seq<char>)
    requires
        pairs.len() > 0,
        pairs[0].len() > 0,
        key.len() > 0,
        pairs[0][0] != key[0],
    ensures
        first_value(pairs, key) == first_value(pairs.skip(1), key),
{
    assert(pairs[0].take(key.len() as int)[0] == pairs[0][0] || pairs[0].len() < key.len());
}

/// A pair of the key and a value gives the value for it.
proof fn lemma_first_value_here(pairs: Seq<Seq<char>>, key: Seq<char>, value: Seq<char>)
    requires
        pairs.len() > 0,
        pairs[0] == key + "="@ + value,
    ensures
        first_value(pairs, key) == Some(value),
{
    let pair = pairs[0];
    assert(pair.take(key.len() as int) == key);
    assert(pair.skip(key.len() as int) == "="@ + value);
    assert(pair.skip(key.len() as int).take("="@.len() as int) == "="@);
    assert(pair.skip(key.len() as int).skip("="@.len() as int) == value);
}

/// What the pairs of an origin give.
#[verifier::spinoff_prover]
proof fn lemma_origin_values(m: MessageView)
    ensures
        first_value(origin_pairs(m), "xid"@) == Some(
            "0x"@ + number::hex_digits(number::be32(m.xid)),
        ),
        first_value(origin_pairs(m), "type"@) == Some(kind_text(m)),
        first_value(origin_pairs(m), "mac"@) == Some(m.mac()),
        first_value(origin_pairs(m), "yiaddr"@) == first_value(
            pairs_in_name(m.hostname()),
            "yiaddr"@,
        ),
        first_value(origin_pairs(m), "server"@) == first_value(
            pairs_in_name(m.hostname()),
            "server"@,
        ),
{
    lemma_keys();
    reveal_strlit("xid=0x");
    reveal_strlit("type=");
    reveal_strlit("mac=");
    reveal_strlit("hostname=");
    reveal_strlit("0x");
    reveal_strlit("=");
    let all = origin_pairs(m);
    let more = pairs_in_name(m.hostname());
    let digits = number::hex_digits(number::be32(m.xid));
    assert("xid=0x"@ =~= "xid"@ + "="@ + "0x"@);
    assert("type="@ =~= "type"@ + "="@);
    assert("mac="@ =~= "mac"@ + "="@);
    assert(all[0] == "xid"@ + "="@ + ("0x"@ + digits));
    assert(all[1] == "type"@ + "="@ + kind_text(m));
    assert(all[2] == "mac"@ + "="@ + m.mac());
    assert(all[0][0] == 'x' && all[1][0] == 't' && all[2][0] == 'm' && all[3][0] == 'h');
    let one = all.skip(1);
    let two = one.skip(1);
    let three = two.skip(1);
    assert(one[0] == all[1] && two[0] == all[2] && three[0] == all[3]);
    assert(three.skip(1) == more);
    lemma_first_value_here(all, "xid"@, "0x"@ + digits);
    lemma_first_value_past(all, "type"@);
    lemma_first_value_here(one, "type"@, kind_text(m));
    lemma_first_value_past(all, "mac"@);
    lemma_first_value_past(one, "mac"@);
    lemma_first_value_here(two, "mac"@, m.mac());
    lemma_first_value_past(all, "yiaddr"@);
    lemma_first_value_past(one, "yiaddr"@);
    lemma_first_value_past(two, "yiaddr"@);
    lemma_first_value_past(three, "yiaddr"@);
    lemma_first_value_past(all, "server"@);
    lemma_first_value_past(one, "server"@);
    lemma_first_value_past(two, "server"@);
    lemma_first_value_past(three, "server"@);
}

/// An origin is a target that answers its message: a send to it without lines
/// goes to the peer, and is of the message's transaction, to its hardware
/// address, of its type. Addresses come into it only where the name of the host
/// has pairs in it that give them.
#[verifier::spinoff_prover]
pub proof fn law_origin_answers(peer: Seq<char>, m: MessageView)
    requires
        text::lacks(peer, seq!['/']),
        text::lacks(peer, seq!['?']),
        m.chaddr.len() == 16,
        m.hlen >= 1,
        m.message_type() is Some,
        !name_with_query(m.hostname()),
        given_address(first_value(pairs_in_name(m.hostname()), "yiaddr"@), "yiaddr"@) is Ok,
        given_address(first_value(pairs_in_name(m.hostname()), "server"@), "server"@) is Ok,
    ensures
        reply_of(origin(peer, m), target_parts(origin(peer, m)), seq![]) == Ok::<
            (Seq<char>, MessageView),
            ErrorView,
        >(
            (
                peer,
                bare_reply(
                    m.xid,
                    m.hardware(),
                    m.message_type()->0,
                    given_address(
                        first_value(pairs_in_name(m.hostname()), "yiaddr"@),
                        "yiaddr"@,
                    )->Ok_0,
                    given_address(
                        first_value(pairs_in_name(m.hostname()), "server"@),
                        "server"@,
                    )->Ok_0,
                ),
            ),
        ),
{
    reveal_strlit("0x");
    let target = origin(peer, m);
    let digits = number::hex_digits(number::be32(m.xid));
    lemma_origin_parts(peer, m);
    lemma_origin_pairs(m);
    lemma_origin_values(m);
    assert(("0x"@ + digits).take(2) == "0x"@);
    assert(("0x"@ + digits).skip(2) == digits);
    number::law_hex_number_reads_back(m.xid);
    option::lemma_pairs_read_back(m.hardware());
    message::law_message_type_found(m.message_type()->0);
    lemma_no_lines(reply_of_query(target, Some(origin_query(m)))->Ok_0);
}

// ---------------------------------------------------------------------------
// What of a query matters
// ---------------------------------------------------------------------------

/// The target at `host` whose query is `pairs`.
pub open spec fn query_target(host: Seq<char>, pairs: Seq<Seq<char>>) -> Seq<char> {
    "dhcp://"@ + (host + seq!['?'] + text::joined(pairs, seq!['&']))
}

/// The keys that a reply is made of.
pub open spec fn has_meaning(key: Seq<char>) -> bool {
    key == "xid"@ || key == "mac"@ || key == "type"@ || key == "yiaddr"@ || key == "server"@
}

/// No two of `pairs` give a value for `key`.
pub open spec fn gives_once(pairs: Seq<Seq<char>>, key: Seq<char>) -> bool {
    forall|i: int, j: int|
        0 <= i < j < pairs.len() ==> !(gives(#[trigger] pairs[i], key) && gives(
            #[trigger] pairs[j],
            key,
        ))
}

/// The key of a pair: what stands before its first equals sign.
pub open spec fn key_of(pair: Seq<char>) -> Seq<char> {
    pair.take(text::first_of(pair, seq!['=']))
}

/// Pairs that a query can be made of.
pub open spec fn sound_pairs(pairs: Seq<Seq<char>>) -> bool {
    forall|i: int|
        0 <= i < pairs.len() ==> text::lacks(#[trigger] pairs[i], seq!['&']) && text::lacks(
            pairs[i],
            seq!['/'],
        )
}

/// The first pair that gives a value for a key.
pub proof fn lemma_first_value_at(pairs: Seq<Seq<char>>, key: Seq<char>, at: int)
    requires
        0 <= at <= pairs.len(),
        forall|i: int| 0 <= i < at ==> !gives(#[trigger] pairs[i], key),
        at < pairs.len() ==> gives(pairs[at], key),
    ensures
        first_value(pairs, key) == (if at < pairs.len() {
            Some(given(pairs[at], key))
        } else {
            None
        }),
    decreases at,
{
    if at > 0 {
        assert(!gives(pairs[0], key));
        assert forall|i: int| 0 <= i < at - 1 implies !gives(
            #[trigger] pairs.skip(1)[i],
            key,
        ) by {
            assert(pairs.skip(1)[i] == pairs[i + 1]);
        }
        lemma_first_value_at(pairs.skip(1), key, at - 1);
    }
}

/// What pairs give for a key that one of them at most gives a value for depends
/// on which pairs there are, and not on where they stand.
proof fn lemma_first_value_same(p: Seq<Seq<char>>, q: Seq<Seq<char>>, key: Seq<char>)
    requires
        gives_once(p, key),
        gives_once(q, key),
        forall|pair: Seq<char>| gives(pair, key) ==> (#[trigger] p.contains(pair) <==> q.contains(
            pair,
        )),
    ensures
        first_value(p, key) == first_value(q, key),
{
    if exists|i: int| 0 <= i < p.len() && gives(#[trigger] p[i], key) {
        let i = choose|i: int| 0 <= i < p.len() && gives(#[trigger] p[i], key);
        assert(p.contains(p[i]));
        assert(q.contains(p[i]));
        let j = choose|j: int| 0 <= j < q.len() && #[trigger] q[j] == p[i];
        lemma_first_value_at(p, key, i);
        lemma_first_value_at(q, key, j);
    } else {
        assert forall|j: int| 0 <= j < q.len() implies !gives(#[trigger] q[j], key) by {
            if gives(q[j], key) {
                assert(q.contains(q[j]));
                assert(p.contains(q[j]));
            }
        }
        lemma_first_value_at(p, key, p.len() as int);
        lemma_first_value_at(q, key, q.len() as int);
    }
}

/// A query of pairs gives what the pairs give.
pub proof fn lemma_query_of_pairs(pairs: Seq<Seq<char>>, key: Seq<char>)
    requires
        sound_pairs(pairs),
        has_meaning(key),
    ensures
        value_for(Some(text::joined(pairs, seq!['&'])), key) == first_value(pairs, key),
{
    let and = seq!['&'];
    assert(and[0] == '&');
    if pairs.len() == 0 {
        let none = Seq::<char>::empty();
        lemma_keys();
        assert(text::joined(pairs, and) == none);
        assert(text::pieces(none, and) == seq![none]);
        lemma_first_value_at(seq![none], key, 1);
    } else {
        assert forall|i: int| 0 <= i < pairs.len() implies text::lacks(
            #[trigger] pairs[i],
            and,
        ) by {}
        text::law_joined_cuts_back(pairs, '&', and);
    }
}

/// The parts of a target whose query is pairs.
pub proof fn lemma_query_target(host: Seq<char>, pairs: Seq<Seq<char>>)
    requires
        text::lacks(host, seq!['/']),
        text::lacks(host, seq!['?']),
        sound_pairs(pairs),
    ensures
        match target_parts(query_target(host, pairs)) {
            Some((address, rest)) => {
                &&& host_of(address) == host
                &&& query_of(address, rest) == Some(text::joined(pairs, seq!['&']))
            },
            None => false,
        },
{
    let query = text::joined(pairs, seq!['&']);
    let before = host + seq!['?'] + query;
    let none = Seq::<char>::empty();
    let slash = seq!['/'];
    assert(text::lacks(seq!['?'], slash));
    assert(text::lacks(seq!['&'], slash));
    assert forall|i: int| 0 <= i < pairs.len() implies text::lacks(#[trigger] pairs[i], slash) by {}
    text::lemma_lacks_joined(pairs, seq!['&'], slash);
    text::lemma_lacks_concat(host, seq!['?'], slash);
    text::lemma_lacks_concat(host + seq!['?'], query, slash);
    lemma_target_parts(before, none);
    assert(before + none == before);
    assert(name_seen(none) == none);
    text::lemma_cut_after(host, '?', query);
}

/// Of a query only the pairs with the keys `xid`, `mac`, `type`, `yiaddr` and
/// `server` matter: targets that have the same of these, each key once, in
/// whatever order and among whatever other pairs, describe the same reply, or
/// neither describes one.
pub proof fn law_query_pairs(
    host: Seq<char>,
    p: Seq<Seq<char>>,
    q: Seq<Seq<char>>,
    bytes: Seq<u8>,
)
    requires
        text::lacks(host, seq!['/']),
        text::lacks(host, seq!['?']),
        sound_pairs(p),
        sound_pairs(q),
        forall|key: Seq<char>| #[trigger]
            has_meaning(key) ==> gives_once(p, key) && gives_once(q, key),
        forall|key: Seq<char>, pair: Seq<char>|
            has_meaning(key) && #[trigger] gives(pair, key) ==> (p.contains(pair) <==> q.contains(
                pair,
            )),
    ensures
        error::agree(
            reply_of(query_target(host, p), target_parts(query_target(host, p)), bytes),
            reply_of(query_target(host, q), target_parts(query_target(host, q)), bytes),
        ),
{
    lemma_query_target(host, p);
    lemma_query_target(host, q);
    assert forall|key: Seq<char>| #[trigger] has_meaning(key) implies value_for(
        Some(text::joined(p, seq!['&'])),
        key,
    ) == value_for(Some(text::joined(q, seq!['&'])), key) by {
        lemma_query_of_pairs(p, key);
        lemma_query_of_pairs(q, key);
        assert forall|pair: Seq<char>| gives(pair, key) implies (#[trigger] p.contains(pair)
            <==> q.contains(pair)) by {}
        lemma_first_value_same(p, q, key);
    }
    assert(has_meaning("xid"@));
    assert(has_meaning("mac"@));
    assert(has_meaning("type"@));
    assert(has_meaning("yiaddr"@));
    assert(has_meaning("server"@));
}

/// A pair that gives a value for a key of a reply has that key.
proof fn lemma_key_given(pair: Seq<char>, key: Seq<char>)
    requires
        has_meaning(key),
        gives(pair, key),
    ensures
        key_of(pair) == key,
{
    lemma_keys();
    reveal_strlit("=");
    let n = key.len() as int;
    let marks = seq!['='];
    assert(marks[0] == '=');
    assert(pair.skip(n).take(1)[0] == pair[n]);
    assert forall|i: int| 0 <= i < n implies !marks.contains(#[trigger] pair[i]) by {
        assert(pair.take(n)[i] == pair[i]);
    }
    text::lemma_first_of(pair, marks, n);
}

/// The order of a query's keys does not matter: targets whose queries have the
/// same pairs, no two with one key, describe the same reply, or neither
/// describes one.
pub proof fn law_query_order(
    host: Seq<char>,
    p: Seq<Seq<char>>,
    q: Seq<Seq<char>>,
    bytes: Seq<u8>,
)
    requires
        text::lacks(host, seq!['/']),
        text::lacks(host, seq!['?']),
        sound_pairs(p),
        forall|i: int, j: int|
            0 <= i < j < p.len() ==> key_of(#[trigger] p[i]) != key_of(#[trigger] p[j]),
        p.to_multiset() == q.to_multiset(),
    ensures
        error::agree(
            reply_of(query_target(host, p), target_parts(query_target(host, p)), bytes),
            reply_of(query_target(host, q), target_parts(query_target(host, q)), bytes),
        ),
{
    broadcast use vstd::seq_lib::group_to_multiset_ensures;

    assert forall|pair: Seq<char>| #[trigger] p.contains(pair) <==> q.contains(pair) by {
        assert(p.contains(pair) <==> p.to_multiset().count(pair) > 0);
        assert(q.contains(pair) <==> q.to_multiset().count(pair) > 0);
    }
    assert(p.no_duplicates()) by {
        assert forall|i: int, j: int| 0 <= i < p.len() && 0 <= j < p.len() && i != j implies p[i]
            != p[j] by {
            if i < j {
                assert(key_of(p[i]) != key_of(p[j]));
            } else {
                assert(key_of(p[j]) != key_of(p[i]));
            }
        }
    }
    p.lemma_multiset_has_no_duplicates();
    q.lemma_multiset_has_no_duplicates_conv();
    assert(sound_pairs(q)) by {
        assert forall|i: int| 0 <= i < q.len() implies text::lacks(#[trigger] q[i], seq!['&'])
            && text::lacks(q[i], seq!['/']) by {
            assert(q.contains(q[i]));
            assert(p.contains(q[i]));
            let at = choose|at: int| 0 <= at < p.len() && #[trigger] p[at] == q[i];
            assert(text::lacks(p[at], seq!['&']));
        }
    }
    assert forall|key: Seq<char>| #[trigger] has_meaning(key) implies gives_once(p, key)
        && gives_once(q, key) by {
        assert forall|i: int, j: int| 0 <= i < j < p.len() implies !(gives(#[trigger] p[i], key)
            && gives(#[trigger] p[j], key)) by {
            if gives(p[i], key) && gives(p[j], key) {
                lemma_key_given(p[i], key);
                lemma_key_given(p[j], key);
            }
        }
        assert forall|i: int, j: int| 0 <= i < j < q.len() implies !(gives(#[trigger] q[i], key)
            && gives(#[trigger] q[j], key)) by {
            if gives(q[i], key) && gives(q[j], key) {
                assert(q.contains(q[i]) && q.contains(q[j]));
                assert(p.contains(q[i]) && p.contains(q[j]));
                let a = choose|a: int| 0 <= a < p.len() && #[trigger] p[a] == q[i];
                let b = choose|b: int| 0 <= b < p.len() && #[trigger] p[b] == q[j];
                lemma_key_given(p[a], key);
                lemma_key_given(p[b], key);
                assert(q[i] != q[j]);
                if a < b {
                    assert(key_of(p[a]) != key_of(p[b]));
                } else {
                    assert(key_of(p[b]) != key_of(p[a]));
                }
            }
        }
    }
    law_query_pairs(host, p, q, bytes);
}

}
