//! Targets, replies and origins: what a target says, and what comes of it.

use vstd::prelude::*;

use crate::error;
use crate::error::ErrorView;
use crate::ipv4;
use crate::ipv4::Ipv4Addr;
use crate::laws;
use crate::message;
use crate::message::{MessageType, MessageView};
use crate::number;
use crate::text;
use crate::transport;
use crate::utf8;
use crate::wire;

verus! {

// ---------------------------------------------------------------------------
// What a target says
// ---------------------------------------------------------------------------

/// A query gives `value` for `key`: its first pair that begins with the key and
/// an equals sign has the value after them. `None` where no pair begins so.
pub open spec fn says(pairs: Seq<Seq<char>>, key: Seq<char>, value: Option<Seq<char>>) -> bool {
    match value {
        Some(value) => exists|i: int|
            0 <= i < pairs.len() && #[trigger] pairs[i] == key + seq!['='] + value && forall|
                j: int,
                other: Seq<char>,
            |
                0 <= j < i ==> #[trigger] pairs[j] != #[trigger] (key + seq!['='] + other),
        None => forall|j: int, other: Seq<char>|
            0 <= j < pairs.len() ==> #[trigger] pairs[j] != #[trigger] (key + seq!['='] + other),
    }
}

/// A pair gives a value for a key where it is the key, an equals sign and the
/// value.
proof fn lemma_gives(pair: Seq<char>, key: Seq<char>)
    ensures
        transport::gives(pair, key) ==> pair == key + seq!['='] + transport::given(pair, key),
        forall|value: Seq<char>|
            pair == #[trigger] (key + seq!['='] + value) ==> transport::gives(pair, key)
                && transport::given(pair, key) == value,
{
    reveal_strlit("=");
    assert("="@ =~= seq!['=']);
    let n = key.len() as int;
    if transport::gives(pair, key) {
        assert(pair.take(n) == key);
        assert(pair.skip(n).take(1) == seq!['=']);
        assert(pair =~= pair.take(n) + pair.skip(n).take(1) + pair.skip(n).skip(1));
    }
    assert forall|value: Seq<char>|
        pair == #[trigger] (key + seq!['='] + value) implies transport::gives(pair, key)
        && transport::given(pair, key) == value by {
        assert(pair.take(n) =~= key);
        assert(pair.skip(n).take(1) =~= seq!['=']);
        assert(pair.skip(n).skip(1) =~= value);
    }
}

/// What a query says is what is found in it.
proof fn lemma_says(pairs: Seq<Seq<char>>, key: Seq<char>, value: Option<Seq<char>>)
    requires
        says(pairs, key, value),
    ensures
        transport::first_value(pairs, key) == value,
{
    match value {
        Some(v) => {
            let i = choose|i: int|
                0 <= i < pairs.len() && #[trigger] pairs[i] == key + seq!['='] + v && forall|
                    j: int,
                    other: Seq<char>,
                |
                    0 <= j < i ==> #[trigger] pairs[j] != #[trigger] (key + seq!['='] + other);
            lemma_gives(pairs[i], key);
            assert(transport::gives(pairs[i], key) && transport::given(pairs[i], key) == v);
            assert forall|j: int| 0 <= j < i implies !transport::gives(#[trigger] pairs[j], key) by {
                lemma_gives(pairs[j], key);
                let other = transport::given(pairs[j], key);
                assert(pairs[j] != key + seq!['='] + other);
            }
            transport::lemma_first_value_at(pairs, key, i);
        },
        None => {
            assert forall|j: int| 0 <= j < pairs.len() implies !transport::gives(
                #[trigger] pairs[j],
                key,
            ) by {
                lemma_gives(pairs[j], key);
                let other = transport::given(pairs[j], key);
                assert(pairs[j] != key + seq!['='] + other);
            }
            transport::lemma_first_value_at(pairs, key, pairs.len() as int);
        },
    }
}

/// The target at `host` with the query `pairs`.
pub open spec fn target_of(host: Seq<char>, pairs: Seq<Seq<char>>) -> Seq<char> {
    "dhcp://"@ + host + seq!['?'] + text::joined(pairs, seq!['&'])
}

/// A host and pairs that a target can be made of.
pub open spec fn plain(host: Seq<char>, pairs: Seq<Seq<char>>) -> bool {
    &&& !host.contains('/') && !host.contains('?')
    &&& forall|i: int|
        0 <= i < pairs.len() ==> !(#[trigger] pairs[i]).contains('&') && !pairs[i].contains('/')
}

/// A target and its query.
proof fn lemma_target(host: Seq<char>, pairs: Seq<Seq<char>>)
    requires
        plain(host, pairs),
    ensures
        match transport::target_parts(target_of(host, pairs)) {
            Some((address, rest)) => {
                &&& transport::host_of(address) == host
                &&& transport::query_of(address, rest) == Some(text::joined(pairs, seq!['&']))
            },
            None => false,
        },
        forall|key: Seq<char>| #[trigger]
            transport::has_meaning(key) ==> transport::value_for(
                Some(text::joined(pairs, seq!['&'])),
                key,
            ) == transport::first_value(pairs, key),
{
    laws::option::lemma_lacks_one(host, '/');
    laws::option::lemma_lacks_one(host, '?');
    assert forall|i: int| 0 <= i < pairs.len() implies text::lacks(#[trigger] pairs[i], seq!['&'])
        && text::lacks(pairs[i], seq!['/']) by {
        laws::option::lemma_lacks_one(pairs[i], '&');
        laws::option::lemma_lacks_one(pairs[i], '/');
    }
    assert(target_of(host, pairs) =~= transport::query_target(host, pairs));
    transport::lemma_query_target(host, pairs);
    assert forall|key: Seq<char>| #[trigger] transport::has_meaning(key) implies
        transport::value_for(Some(text::joined(pairs, seq!['&'])), key) == transport::first_value(
        pairs,
        key,
    ) by {
        transport::lemma_query_of_pairs(pairs, key);
    }
}

/// The transaction that a text names: the hexadecimal number after `0x`, or the
/// decimal number that it is.
pub proof fn law_transaction(s: Seq<char>, n: u32)
    ensures
        s.len() >= 2 && s[0] == '0' && s[1] == 'x' ==> (transport::xid_of(s) == Some(n)
            <==> number::number(s.skip(2), 16, 0xffff_ffff) == Some(n as int)),
        !(s.len() >= 2 && s[0] == '0' && s[1] == 'x') ==> (transport::xid_of(s) == Some(n)
            <==> number::number(s, 10, 0xffff_ffff) == Some(n as int)),
{
    reveal_strlit("0x");
    laws::text::law_begins(s, "0x"@);
    assert("0x"@[0] == '0' && "0x"@[1] == 'x');
    if s.len() >= 2 && s[0] == '0' && s[1] == 'x' {
        assert forall|i: int| 0 <= i < 2 implies s[i] == "0x"@[i] by {}
        if number::number(s.skip(2), 16, 0xffff_ffff) is Some {
            laws::number::lemma_number_bounded(s.skip(2), 16, 0xffff_ffff);
        }
    } else if number::number(s, 10, 0xffff_ffff) is Some {
        laws::number::lemma_number_bounded(s, 10, 0xffff_ffff);
    }
}

/// What a reply without lines is, field by field, and what it is refused for.
///
/// The query says which transaction and which hardware address the reply
/// answers, and of both it must; it may say the type, which is an
/// acknowledgement otherwise, and the two addresses, which are zero otherwise.
/// The address of the reply whose dotted form the query has is the address of
/// the reply. A server's address is an option too, octet by octet.
#[verifier::spinoff_prover]
pub proof fn law_reply(
    host: Seq<char>,
    pairs: Seq<Seq<char>>,
    xid: Option<Seq<char>>,
    mac: Option<Seq<char>>,
    kind: Option<Seq<char>>,
    yiaddr: Option<Seq<char>>,
    server: Option<Seq<char>>,
)
    requires
        plain(host, pairs),
        says(pairs, "xid"@, xid),
        says(pairs, "mac"@, mac),
        says(pairs, "type"@, kind),
        says(pairs, "yiaddr"@, yiaddr),
        says(pairs, "server"@, server),
    ensures
        ({
            let target = target_of(host, pairs);
            let zero = Ipv4Addr { a: 0, b: 0, c: 0, d: 0 };
            match transport::reply_of(target, transport::target_parts(target), Seq::empty()) {
                Ok((to, m)) => {
                    &&& to == host
                    &&& xid is Some && transport::xid_of(xid->0) == Some(m.xid)
                    &&& mac is Some && message::mac_octets(mac->0) == Some(m.hardware())
                    &&& m.op == 2 && m.htype == 1 && m.hlen == m.hardware().len() && m.hops == 0
                    &&& m.secs == 0 && m.flags == 0 && m.ciaddr == zero && m.giaddr == zero
                    &&& m.chaddr.len() == 16 && forall|i: int|
                        m.hlen <= i < 16 ==> #[trigger] m.chaddr[i] == 0
                    &&& m.sname.len() == 0 && m.file.len() == 0
                    &&& yiaddr is None ==> m.yiaddr == zero
                    &&& yiaddr is Some ==> m.yiaddr.dotted() == yiaddr->0
                    &&& server is None ==> m.siaddr == zero && m.options.len() == 1
                    &&& server is Some ==> m.siaddr.dotted() == server->0 && m.options.len() == 2
                        && m.options[1].0 == 54 && m.options[1].1.len() == 4 && m.options[1].1[0]
                        == m.siaddr.a && m.options[1].1[1] == m.siaddr.b && m.options[1].1[2]
                        == m.siaddr.c && m.options[1].1[3] == m.siaddr.d
                    &&& m.options[0].0 == 53 && m.options[0].1.len() == 1
                    &&& kind is None ==> m.options[0].1[0] == 5
                    &&& kind is Some ==> message::type_called(kind->0) is Some && m.options[0].1[0]
                        == message::type_called(kind->0)->0.number()
                },
                Err(error) => {
                    ||| (xid is None || transport::xid_of(xid->0) is None) && error == (
                    ErrorView::NoXid { target })
                    ||| xid is Some && transport::xid_of(xid->0) is Some && (mac is None
                        || message::mac_octets(mac->0) is None) && error == (ErrorView::NoMac {
                        target,
                    })
                    ||| xid is Some && transport::xid_of(xid->0) is Some && mac is Some
                        && message::mac_octets(mac->0) is Some && ({
                        ||| kind is Some && message::type_called(kind->0) is None && error == (
                        ErrorView::NotReplyType { name: kind->0 })
                        ||| (kind is None || message::type_called(kind->0) is Some) && yiaddr is Some
                            && ipv4::dotted_read(yiaddr->0) is None && error == (
                        ErrorView::NotReplyAddress { key: "yiaddr"@, value: yiaddr->0 })
                        ||| (kind is None || message::type_called(kind->0) is Some) && (yiaddr
                            is None || ipv4::dotted_read(yiaddr->0) is Some) && server is Some
                            && ipv4::dotted_read(server->0) is None && error == (
                        ErrorView::NotReplyAddress { key: "server"@, value: server->0 })
                    })
                },
            }
        }),
{
    let target = target_of(host, pairs);
    lemma_target(host, pairs);
    lemma_says(pairs, "xid"@, xid);
    lemma_says(pairs, "mac"@, mac);
    lemma_says(pairs, "type"@, kind);
    lemma_says(pairs, "yiaddr"@, yiaddr);
    lemma_says(pairs, "server"@, server);
    assert(transport::has_meaning("xid"@));
    assert(transport::has_meaning("mac"@));
    assert(transport::has_meaning("type"@));
    assert(transport::has_meaning("yiaddr"@));
    assert(transport::has_meaning("server"@));
    let query = Some(text::joined(pairs, seq!['&']));
    if let Ok(m) = transport::reply_of_query(target, query) {
        transport::lemma_no_lines(m);
        let octets = message::mac_octets(mac->0)->0;
        let t = match kind {
            Some(name) => message::type_called(name)->0,
            None => MessageType::Ack,
        };
        let y = transport::given_address(yiaddr, "yiaddr"@)->Ok_0;
        let s = transport::given_address(server, "server"@)->Ok_0;
        lemma_bare_fields(transport::xid_of(xid->0)->0, octets, t, y, s);
        if yiaddr is Some {
            ipv4::law_dotted_reads_back(yiaddr->0, y->0);
        }
        if server is Some {
            ipv4::law_dotted_reads_back(server->0, s->0);
        }
        assert(octets.len() <= 16);
    }
}

/// A reply before its lines, field by field.
pub proof fn lemma_bare_fields(
    xid: u32,
    mac: Seq<u8>,
    kind: MessageType,
    yiaddr: Option<Ipv4Addr>,
    server: Option<Ipv4Addr>,
)
    requires
        mac.len() <= 16,
    ensures
        ({
            let m = transport::bare_reply(xid, mac, kind, yiaddr, server);
            let zero = Ipv4Addr { a: 0, b: 0, c: 0, d: 0 };
            &&& m.op == 2 && m.htype == 1 && m.hlen == mac.len() && m.hops == 0 && m.xid == xid
            &&& m.secs == 0 && m.flags == 0 && m.ciaddr == zero && m.giaddr == zero
            &&& m.hardware() == mac
            &&& m.chaddr.len() == 16 && forall|i: int|
                mac.len() <= i < 16 ==> #[trigger] m.chaddr[i] == 0
            &&& m.sname.len() == 0 && m.file.len() == 0
            &&& m.yiaddr == (match yiaddr {
                Some(address) => address,
                None => zero,
            })
            &&& m.siaddr == (match server {
                Some(address) => address,
                None => zero,
            })
            &&& server is None ==> m.options == seq![(53u8, seq![kind.number()])]
            &&& server is Some ==> m.options == seq![
                (53u8, seq![kind.number()]),
                (54u8, server->0.bytes()),
            ]
        }),
{
    let fresh = MessageView {
        yiaddr: transport::or_zero(yiaddr),
        siaddr: transport::or_zero(server),
        ..MessageView::fresh(2, xid, mac)
    };
    laws::message::law_fresh(2, xid, mac);
    let none = Seq::<(u8, Seq<u8>)>::empty();
    assert(fresh.options =~= none);
    assert(message::without(none, 53) =~= none);
    let typed = fresh.with(53, seq![kind.number()]);
    let first = (53u8, seq![kind.number()]);
    assert(typed.options =~= seq![first]);
    message::lemma_without_absent(typed.options, 54);
    assert(typed.hardware() =~= mac);
    if let Some(address) = server {
        assert(typed.with(54, address.bytes()).options =~= seq![first, (54u8, address.bytes())]);
    }
}

/// The addresses that a target says are those of the reply.
pub proof fn law_reply_addresses(
    host: Seq<char>,
    pairs: Seq<Seq<char>>,
    xid: Seq<char>,
    mac: Seq<char>,
    kind: Option<Seq<char>>,
    offered: Ipv4Addr,
    server: Ipv4Addr,
)
    requires
        plain(host, pairs),
        says(pairs, "xid"@, Some(xid)),
        says(pairs, "mac"@, Some(mac)),
        says(pairs, "type"@, kind),
        says(pairs, "yiaddr"@, Some(offered.dotted())),
        says(pairs, "server"@, Some(server.dotted())),
        transport::xid_of(xid) is Some,
        message::mac_octets(mac) is Some,
        kind is None || message::type_called(kind->0) is Some,
    ensures
        ({
            let target = target_of(host, pairs);
            let reply = transport::reply_of(
                target,
                transport::target_parts(target),
                Seq::empty(),
            );
            &&& reply is Ok
            &&& reply->Ok_0.1.yiaddr == offered
            &&& reply->Ok_0.1.siaddr == server
            &&& message::lookup(reply->Ok_0.1.options, 54) == Some(
                seq![server.a, server.b, server.c, server.d],
            )
        }),
{
    let target = target_of(host, pairs);
    let reply = transport::reply_of(target, transport::target_parts(target), Seq::empty());
    law_reply(
        host,
        pairs,
        Some(xid),
        Some(mac),
        kind,
        Some(offered.dotted()),
        Some(server.dotted()),
    );
    ipv4::law_dotted_reads_back(offered.dotted(), offered);
    ipv4::law_dotted_reads_back(server.dotted(), server);
    let m = reply->Ok_0.1;
    ipv4::law_dotted_reads_back(offered.dotted(), m.yiaddr);
    ipv4::law_dotted_reads_back(server.dotted(), m.siaddr);
    laws::message::law_lookup(m.options, 54, 1);
    assert(m.options[1].1 =~= seq![server.a, server.b, server.c, server.d]);
}

/// The lines of a reply are set on the reply without them; a target that is cut
/// in no parts describes none.
pub proof fn law_reply_lines(
    target: Seq<char>,
    parts: Option<(Seq<char>, Seq<char>)>,
    bytes: Seq<u8>,
)
    ensures
        transport::reply_of(target, parts, bytes) == (match transport::reply_of(
            target,
            parts,
            Seq::empty(),
        ) {
            Ok((host, m)) => match m.with_lines(bytes) {
                Ok(reply) => Ok::<(Seq<char>, MessageView), ErrorView>((host, reply)),
                Err(error) => Err(error),
            },
            Err(error) => Err(error),
        }),
        parts is None ==> transport::reply_of(target, parts, bytes) == Err::<
            (Seq<char>, MessageView),
            ErrorView,
        >(ErrorView::NotTarget { target }),
{
    if let Some((address, rest)) = parts {
        if let Ok(m) = transport::reply_of_query(target, transport::query_of(address, rest)) {
            transport::lemma_no_lines(m);
        }
    }
}

/// What does not begin with `dhcp://` is no target.
pub proof fn law_other_target(target: Seq<char>, bytes: Seq<u8>)
    requires
        target.len() < 7 || target.take(7) != seq!['d', 'h', 'c', 'p', ':', '/', '/'],
    ensures
        transport::reply_of(target, transport::target_parts(target), bytes) == Err::<
            (Seq<char>, MessageView),
            ErrorView,
        >(ErrorView::NotTarget { target }),
{
    reveal_strlit("dhcp://");
    assert("dhcp://"@ =~= seq!['d', 'h', 'c', 'p', ':', '/', '/']);
}

/// A target may have its query after a slash; that one counts before one that
/// stands before the slash, and anything else after a slash does not count.
pub proof fn law_query_places(
    host: Seq<char>,
    query: Seq<char>,
    other: Seq<char>,
    path: Seq<char>,
    bytes: Seq<u8>,
)
    requires
        !host.contains('/') && !host.contains('?'),
        !query.contains('/') && !other.contains('/'),
        path.len() == 0 || path[0] != '?',
    ensures
        ({
            let plain = "dhcp://"@ + host + seq!['?'] + query;
            let slashed = "dhcp://"@ + host + seq!['/', '?'] + query;
            let both = "dhcp://"@ + host + seq!['?'] + other + seq!['/', '?'] + query;
            let long = "dhcp://"@ + host + seq!['?'] + query + seq!['/'] + path;
            let reply = transport::reply_of(plain, transport::target_parts(plain), bytes);
            &&& error::agree(
                transport::reply_of(slashed, transport::target_parts(slashed), bytes),
                reply,
            )
            &&& error::agree(
                transport::reply_of(both, transport::target_parts(both), bytes),
                reply,
            )
            &&& error::agree(
                transport::reply_of(long, transport::target_parts(long), bytes),
                reply,
            )
        }),
{
    let plain = "dhcp://"@ + host + seq!['?'] + query;
    let slashed = "dhcp://"@ + host + seq!['/', '?'] + query;
    let both = "dhcp://"@ + host + seq!['?'] + other + seq!['/', '?'] + query;
    let long = "dhcp://"@ + host + seq!['?'] + query + seq!['/'] + path;
    let slash = seq!['/'];
    let none = Seq::<char>::empty();
    laws::option::lemma_lacks_one(host, '/');
    laws::option::lemma_lacks_one(host, '?');
    laws::option::lemma_lacks_one(query, '/');
    laws::option::lemma_lacks_one(other, '/');
    assert(text::lacks(seq!['?'], slash));
    text::lemma_lacks_concat(host, seq!['?'], slash);
    text::lemma_lacks_concat(host + seq!['?'], query, slash);
    text::lemma_lacks_concat(host + seq!['?'], other, slash);
    lemma_cut_target(host + seq!['?'] + query, None);
    assert(plain =~= "dhcp://"@ + (host + seq!['?'] + query));
    lemma_cut_target(host, Some(seq!['?'] + query));
    assert(slashed =~= "dhcp://"@ + (host + slash + (seq!['?'] + query)));
    lemma_cut_target(host + seq!['?'] + other, Some(seq!['?'] + query));
    assert(both =~= "dhcp://"@ + (host + seq!['?'] + other + slash + (seq!['?'] + query)));
    lemma_cut_target(host + seq!['?'] + query, Some(path));
    assert(long =~= "dhcp://"@ + (host + seq!['?'] + query + slash + path));
    text::lemma_cut_after(host, '?', query);
    text::lemma_cut_after(host, '?', other);
    assert((seq!['?'] + query).skip(1) =~= query);
    text::lemma_first_of(host, seq!['?'], host.len() as int);
}

/// A target that is cut at a slash, or is not.
proof fn lemma_cut_target(address: Seq<char>, rest: Option<Seq<char>>)
    requires
        text::lacks(address, seq!['/']),
    ensures
        rest is None ==> transport::target_parts("dhcp://"@ + address) == Some(
            (address, Seq::<char>::empty()),
        ),
        rest is Some ==> transport::target_parts("dhcp://"@ + (address + seq!['/'] + rest->0))
            == Some((address, rest->0)),
{
    match rest {
        None => {
            let target = "dhcp://"@ + address;
            assert(target.take("dhcp://"@.len() as int) =~= "dhcp://"@);
            assert(target.skip("dhcp://"@.len() as int) =~= address);
            text::lemma_first_of(address, seq!['/'], address.len() as int);
        },
        Some(rest) => {
            let after = address + seq!['/'] + rest;
            let target = "dhcp://"@ + after;
            assert(target.take("dhcp://"@.len() as int) =~= "dhcp://"@);
            assert(target.skip("dhcp://"@.len() as int) =~= after);
            text::lemma_cut_after(address, '/', rest);
        },
    }
}

// ---------------------------------------------------------------------------
// What arrives and what goes
// ---------------------------------------------------------------------------

/// An origin is the peer, the transaction in eight hexadecimal digits, the name
/// of the type, the hardware address, and the whole of the host's name.
pub proof fn law_origin(peer: Seq<char>, m: MessageView, at: int, name: Seq<char>)
    requires
        0 <= at <= m.options.len(),
        forall|i: int| 0 <= i < at ==> (#[trigger] m.options[i]).0 != 12,
        at < m.options.len() ==> m.options[at].0 == 12,
        at < m.options.len() ==> m.options[at].1 == vstd::utf8::encode_utf8(name) || !(
        vstd::utf8::valid_utf8(m.options[at].1)) && name == utf8::lossy_text(m.options[at].1),
        at == m.options.len() ==> name.len() == 0,
    ensures
        transport::origin(peer, m) == "dhcp://"@ + peer + "?xid=0x"@ + number::hex_digits(
            number::be32(m.xid),
        ) + "&type="@ + (match m.message_type() {
            Some(t) => t.label(),
            None => "bootp"@,
        }) + "&mac="@ + m.mac() + "&hostname="@ + name,
        number::hex_digits(number::be32(m.xid)).len() == 8,
        number::number(number::hex_digits(number::be32(m.xid)), 16, 0xffff_ffff) == Some(
            m.xid as int,
        ),
{
    laws::message::law_hostname(m, at, name);
    assert(m.hostname() =~= name);
    number::law_hex_number_reads_back(m.xid);
    laws::number::law_hex_written(number::be32(m.xid));
}

/// A datagram whose first byte is 1 arrives with its origin and its lines; any
/// other message is skipped, and what is no message is refused.
pub proof fn law_arrives(peer: Seq<char>, datagram: Seq<u8>)
    ensures
        transport::received(peer, datagram) == (match wire::decoded(datagram) {
            Ok(m) => if datagram[0] == 1 {
                Ok::<Option<(Seq<char>, Seq<u8>)>, ErrorView>(
                    Some((transport::origin(peer, m), m.option_lines())),
                )
            } else {
                Ok(None)
            },
            Err(error) => Err(error),
        }),
{
    if wire::decoded(datagram) is Ok {
        laws::wire::law_read_fields(datagram);
    }
}

/// What is sent to a target is the datagram of the reply that it describes, to
/// the host of the target.
pub proof fn law_goes(target: Seq<char>, bytes: Seq<u8>)
    ensures
        transport::sent(target, bytes) == (match transport::reply_of(
            target,
            transport::target_parts(target),
            bytes,
        ) {
            Ok((host, m)) => match wire::encoded(m) {
                Ok(datagram) => Ok::<(Seq<char>, Seq<u8>), ErrorView>((host, datagram)),
                Err(error) => Err(error),
            },
            Err(error) => Err(error),
        }),
{
}

/// The parts of a target are seen as their texts.
pub proof fn law_parts_seen(address: &str, rest: &str)
    ensures
        transport::parts_text(Some((address, rest))) == Some((address@, rest@)),
        transport::parts_text(None) is None,
{
}

}
