//! What arrives, and what a target answers.

use std::time::Duration;

use dhcp::message::{
    decode, encode, OPTION_DNS, OPTION_LEASE_TIME, OPTION_MESSAGE_TYPE, OPTION_SERVER,
    OPTION_SUBNET_MASK,
};
use dhcp::transport::{arrived, parse_xid, reply_to_parts};
use dhcp::{DhcpTransport, Error, Ipv4Addr, Message, MessageType, BOOTREPLY, BOOTREQUEST};

const MAC: [u8; 6] = [0xaa, 0xbb, 0xcc, 0xdd, 0xee, 0xff];
const PEER: &str = "127.0.0.1:50068";

fn node() -> DhcpTransport {
    DhcpTransport::new("127.0.0.1:0").timing_out_after(Duration::from_secs(2))
}

#[test]
fn a_discover_arrives_as_its_options_with_the_client_in_the_origin() {
    let discover = Message::new(BOOTREQUEST, 0x3903_f326, &MAC)
        .with_lines(b"message-type=discover\nhostname=printer-7\nrequested-address=10.0.0.9\n")
        .expect("lines");
    let datagram = encode(&discover).expect("encode");
    let came = DhcpTransport::take_datagram(PEER, &datagram)
        .expect("receiving")
        .expect("a request");
    assert!(
        came.origin_uri
            .ends_with("?xid=0x3903f326&type=discover&mac=aa:bb:cc:dd:ee:ff&hostname=printer-7"),
        "{}",
        came.origin_uri
    );
    assert_eq!(
        came.origin_uri,
        "dhcp://127.0.0.1:50068?xid=0x3903f326&type=discover&mac=aa:bb:cc:dd:ee:ff\
         &hostname=printer-7"
    );
    assert_eq!(
        came.bytes,
        b"message-type=discover\nhostname=printer-7\nrequested-address=10.0.0.9\n"
    );
    assert_eq!(arrived(PEER, &discover), came);
    let bootp = Message::new(BOOTREQUEST, 7, &MAC[..4]);
    let datagram = encode(&bootp).expect("encode");
    let plain = DhcpTransport::take_datagram(PEER, &datagram)
        .expect("receiving")
        .expect("a request");
    assert!(plain
        .origin_uri
        .ends_with("?xid=0x00000007&type=bootp&mac=aa:bb:cc:dd&hostname="));
    assert!(plain.bytes.is_empty());
}

#[test]
fn an_offer_reaches_the_client_with_its_lease() {
    let address = PEER;
    let (to, datagram) = DhcpTransport::datagram_for(
        &format!(
            "dhcp://{address}?xid=0x3903f326&mac=aa:bb:cc:dd:ee:ff&type=offer\
             &yiaddr=10.0.0.9&server=10.0.0.1"
        ),
        b"subnet-mask=255.255.255.0\nrouter=10.0.0.1\ndns=10.0.0.1,10.0.0.2\nlease-time=3600\n",
    )
    .expect("offering");
    assert_eq!(to, address);
    let offer = decode(&datagram).expect("decode");
    assert_eq!(offer.op, BOOTREPLY);
    assert_eq!(offer.xid, 0x3903_f326);
    assert_eq!(offer.mac(), "aa:bb:cc:dd:ee:ff");
    assert_eq!(offer.yiaddr, Ipv4Addr::new(10, 0, 0, 9));
    assert_eq!(offer.siaddr, Ipv4Addr::new(10, 0, 0, 1));
    assert_eq!(offer.message_type(), Some(MessageType::Offer));
    assert_eq!(offer.option(OPTION_SERVER), Some(&[10, 0, 0, 1][..]));
    assert_eq!(
        offer.option(OPTION_SUBNET_MASK),
        Some(&[255, 255, 255, 0][..])
    );
    assert_eq!(offer.option(OPTION_DNS).map(<[u8]>::len), Some(8));
    assert_eq!(
        offer.option(OPTION_LEASE_TIME),
        Some(&[0, 0, 0x0e, 0x10][..])
    );
    let (_, datagram) = DhcpTransport::datagram_for(
        &format!("dhcp://{address}?xid=99&mac=aa:bb:cc:dd:ee:ff&type=nak"),
        b"",
    )
    .expect("refusing");
    let nak = decode(&datagram).expect("decode");
    assert_eq!(nak.message_type(), Some(MessageType::Nak));
    assert_eq!(nak.xid, 99);
    assert!(nak.option(OPTION_SERVER).is_none());
}

#[test]
fn what_is_not_dhcp_is_refused_and_a_reply_arriving_is_skipped() {
    let junk = DhcpTransport::take_datagram(PEER, &[0; 100]).expect_err("junk");
    assert_eq!(junk, Error::TooShort);
    let reply = Message::new(BOOTREPLY, 1, &MAC);
    let datagram = encode(&reply).expect("encode");
    assert_eq!(DhcpTransport::take_datagram(PEER, &datagram), Ok(None));
    for target in [
        PEER,
        "dhcp://127.0.0.1:68",
        "dhcp://127.0.0.1:68?xid=1",
        "dhcp://127.0.0.1:68?xid=x&mac=aa",
        "dhcp://127.0.0.1:68?xid=1&mac=aa&type=lease",
        "dhcp://127.0.0.1:68?xid=1&mac=aa&yiaddr=here",
        "http://127.0.0.1:68?xid=1&mac=aa",
    ] {
        assert!(DhcpTransport::datagram_for(target, b"").is_err(), "{target}");
    }
    let bad_lines = DhcpTransport::datagram_for("dhcp://127.0.0.1:68?xid=1&mac=aa", b"router=nowhere");
    assert!(bad_lines.is_err());
    assert_eq!(node().name(), "dhcp");
}

#[test]
fn each_target_that_is_refused_says_why() {
    let refusals = [
        (
            "127.0.0.1:68",
            Error::NotTarget {
                target: "127.0.0.1:68".to_string(),
            },
            "a dhcp target answers a transaction: dhcp://host:port?xid=\u{2026}&mac=\u{2026}, \
             got 127.0.0.1:68",
        ),
        (
            "dhcp://h:68?mac=aa",
            Error::NoXid {
                target: "dhcp://h:68?mac=aa".to_string(),
            },
            "a reply without ?xid=: dhcp://h:68?mac=aa",
        ),
        (
            "dhcp://h:68?xid=1&mac=",
            Error::NoMac {
                target: "dhcp://h:68?xid=1&mac=".to_string(),
            },
            "a reply without &mac=: dhcp://h:68?xid=1&mac=",
        ),
        (
            "dhcp://h:68?xid=1&mac=aa&type=lease",
            Error::NotReplyType {
                name: "lease".to_string(),
            },
            "not a message type: lease",
        ),
        (
            "dhcp://h:68?xid=1&mac=aa&yiaddr=here",
            Error::NotReplyAddress {
                key: "yiaddr".to_string(),
                value: "here".to_string(),
            },
            "&yiaddr= is not an address: here",
        ),
        (
            "dhcp://h:68?xid=1&mac=aa&server=there",
            Error::NotReplyAddress {
                key: "server".to_string(),
                value: "there".to_string(),
            },
            "&server= is not an address: there",
        ),
    ];
    for (target, error, message) in refusals {
        assert_eq!(DhcpTransport::reply_for(target, b""), Err(error.clone()));
        assert_eq!(error.message(), message);
    }
    assert_eq!(
        DhcpTransport::reply_for("dhcp://h:68?xid=1&mac=aa", b"router=nowhere"),
        Err(Error::NotAddress {
            part: "nowhere".to_string()
        })
    );
    assert_eq!(
        DhcpTransport::datagram_for(
            "dhcp://h:68?xid=1&mac=aa",
            format!("option-60=0x{}", "00".repeat(256)).as_bytes()
        ),
        Err(Error::OptionTooLong { code: 60 })
    );
}

#[test]
fn a_reply_is_an_acknowledgement_unless_it_says_otherwise() {
    let (host, reply) =
        DhcpTransport::reply_for("dhcp://10.0.0.5:68?xid=0xff&mac=01:02", b"").expect("reply");
    assert_eq!(host, "10.0.0.5:68");
    assert_eq!(reply.op, BOOTREPLY);
    assert_eq!(reply.xid, 255);
    assert_eq!(reply.mac(), "01:02");
    assert_eq!(reply.options, vec![(OPTION_MESSAGE_TYPE, vec![5])]);
    assert_eq!(reply.yiaddr, Ipv4Addr::unspecified());
    assert_eq!(reply.siaddr, Ipv4Addr::unspecified());
    let (_, lined) = DhcpTransport::reply_for(
        "dhcp://10.0.0.5:68?xid=1&mac=aa&server=10.0.0.1",
        b"message-type=offer\nserver=10.0.0.2\n",
    )
    .expect("reply");
    assert_eq!(lined.siaddr, Ipv4Addr::new(10, 0, 0, 1));
    assert_eq!(
        lined.options,
        vec![(53, vec![2]), (54, vec![10, 0, 0, 2])]
    );
}

#[test]
fn a_query_stands_after_the_address_or_after_a_slash() {
    let target = "dhcp://h:68/?xid=1&mac=aa";
    let (host, reply) = DhcpTransport::reply_for(target, b"").expect("after a slash");
    assert_eq!((host.as_str(), reply.xid), ("h:68", 1));
    let (host, reply) =
        reply_to_parts(target, Some(("h:68?xid=2&mac=aa", "?xid=3&mac=bb")), b"").expect("both");
    assert_eq!((host.as_str(), reply.xid), ("h:68", 3));
    assert_eq!(reply.mac(), "bb");
    assert_eq!(
        reply_to_parts(target, None, b""),
        Err(Error::NotTarget {
            target: target.to_string()
        })
    );
    let (_, first) = DhcpTransport::reply_for("dhcp://h:68?xid=1&xid=2&mac=aa&macs=bb", b"")
        .expect("the first of a key");
    assert_eq!((first.xid, first.mac().as_str()), (1, "aa"));
}

#[test]
fn transactions_are_hexadecimal_or_decimal() {
    assert_eq!(parse_xid("0x3903f326"), Some(0x3903_f326));
    assert_eq!(parse_xid("956363558"), Some(956_363_558));
    assert_eq!(parse_xid("4294967295"), Some(u32::MAX));
    assert_eq!(parse_xid("4294967296"), None);
    assert_eq!(parse_xid("0x1ffffffff"), None);
    assert_eq!(parse_xid("0x"), None);
    assert_eq!(parse_xid("0x+f"), Some(15));
    assert_eq!(parse_xid("0x+"), None);
    assert_eq!(parse_xid("ff"), None);
    assert_eq!(parse_xid(""), None);
}

#[test]
fn an_origin_is_a_target_that_answers_its_message() {
    let request = Message::new(BOOTREQUEST, 0x0000_00a7, &MAC)
        .with_lines(b"message-type=request\nhostname=a/b&c\n")
        .expect("lines");
    let came = arrived(PEER, &request);
    let (host, reply) = DhcpTransport::reply_for(&came.origin_uri, b"").expect("answer");
    assert_eq!(host, PEER);
    assert_eq!(reply.xid, 0xa7);
    assert_eq!(reply.mac(), request.mac());
    assert_eq!(reply.message_type(), Some(MessageType::Request));
    assert_eq!(reply.yiaddr, Ipv4Addr::unspecified());
    let odd = request
        .with_lines(b"hostname=x&yiaddr=10.0.0.7\n")
        .expect("lines");
    let (_, reply) =
        DhcpTransport::reply_for(&arrived(PEER, &odd).origin_uri, b"").expect("answer");
    assert_eq!(reply.yiaddr, Ipv4Addr::new(10, 0, 0, 7));
}

#[test]
fn what_is_sent_is_read_by_the_client_and_skipped_by_a_server() {
    let target = "dhcp://h:68?xid=1&mac=aa&type=offer&yiaddr=10.0.0.9";
    let (host, reply) = DhcpTransport::reply_for(target, b"hostname=x\n").expect("reply");
    let (to, datagram) = DhcpTransport::datagram_for(target, b"hostname=x\n").expect("datagram");
    assert_eq!(to, host);
    assert_eq!(decode(&datagram).expect("decode"), reply);
    assert_eq!(DhcpTransport::take_datagram(PEER, &datagram), Ok(None));
}

#[test]
fn a_transport_keeps_what_it_is_given() {
    let transport = DhcpTransport::new("0.0.0.0:67");
    assert_eq!(transport.bind, "0.0.0.0:67");
    assert_eq!(transport.timeout, None);
    let patient = transport.timing_out_after(Duration::from_secs(2));
    assert_eq!(patient.bind, "0.0.0.0:67");
    assert_eq!(patient.timeout, Some(Duration::from_secs(2)));
}

#[test]
fn a_server_that_is_given_is_an_option_whatever_its_address() {
    let (_, reply) =
        DhcpTransport::reply_for("dhcp://127.0.0.1:68?xid=1&mac=aa&server=0.0.0.0", b"")
            .expect("reply");
    assert_eq!(reply.siaddr, Ipv4Addr::new(0, 0, 0, 0));
    assert_eq!(reply.option(54), Some(&[0, 0, 0, 0][..]));
    let (_, reply) =
        DhcpTransport::reply_for("dhcp://127.0.0.1:68?xid=1&mac=aa", b"").expect("reply");
    assert_eq!(reply.option(54), None);
}

#[test]
fn the_order_of_a_query_and_keys_without_meaning_do_not_matter() {
    let expected = DhcpTransport::reply_for(
        "dhcp://h:68?xid=1&mac=aa&type=offer&yiaddr=10.0.0.9&server=10.0.0.1",
        b"hostname=x",
    )
    .expect("reply");
    for query in [
        "server=10.0.0.1&yiaddr=10.0.0.9&type=offer&mac=aa&xid=1",
        "colour=blue&xid=1&mac=aa&&type=offer&yiaddr=10.0.0.9&server=10.0.0.1&xidx=2&=",
    ] {
        let reply = DhcpTransport::reply_for(&format!("dhcp://h:68?{query}"), b"hostname=x");
        assert_eq!(reply.expect(query), expected);
    }
    assert!(DhcpTransport::reply_for("dhcp://h:68?type=lease&mac=aa&xid=1", b"").is_err());
    assert!(DhcpTransport::reply_for("dhcp://h:68?xid=1&type=lease&mac=aa", b"").is_err());
}
