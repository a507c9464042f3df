//! Streams sent from one end to the other.

use std::time::Duration;

use dhcp::loopback::{
    acknowledged, acknowledgement, hex, inform, inform_lines, unhex, Gathered, Served, Step,
};
use dhcp::message::{decode, encode};
use dhcp::{
    Arrived, DhcpTransport, Error, Message, MessageType, BOOTREPLY, BOOTREQUEST, MAX_STREAM,
};

const PEER: &str = "127.0.0.1:50068";

/// `len` bytes that a truncation, a reorder or a duplicate would change.
fn patterned(len: usize) -> Vec<u8> {
    (0..len)
        .map(|at| u8::try_from((at * 31 + at / 251) % 256).unwrap_or(0))
        .collect()
}

/// Both ends, with nothing between them.
fn round(payload: &[u8]) -> Result<Arrived, Error> {
    let mut state = Gathered::new();
    for lines in inform_lines(payload)? {
        let datagram = inform(&lines)?;
        let Served::Answered {
            client,
            answer,
            step,
        } = state.serve(PEER, &datagram)?
        else {
            panic!("an inform was skipped");
        };
        assert_eq!(client, PEER);
        acknowledged(&answer)?;
        state = match step? {
            Step::More(more) => more,
            Step::Done(whole) => return Ok(whole),
        };
    }
    panic!("no inform closed the stream");
}

#[test]
fn hex_reads_back_and_refuses_what_is_not_hex() {
    assert_eq!(hex(&[0, 0x7f, 0xff]), "007fff");
    assert_eq!(unhex("007fff").expect("hex"), [0, 0x7f, 0xff]);
    assert!(unhex("").expect("nothing").is_empty());
    assert!(unhex("abc").is_err(), "odd");
    assert!(unhex("zz").is_err(), "not hex");
}

#[test]
fn a_sign_is_no_digit() {
    assert_eq!(
        unhex("+f"),
        Err(Error::NotHex {
            digits: "+f".to_string()
        })
    );
}

#[test]
fn a_stream_rounds_as_informs_each_acknowledged() {
    let loopback = DhcpTransport::loopback(Duration::from_secs(5));
    let opaque: &[u8] = b"\x00line\r\nbreak \xff";
    let arrived = round(opaque).expect("opaque");
    assert_eq!(arrived.bytes, opaque);
    assert!(
        arrived.origin_uri.starts_with("dhcp://127.0.0.1:"),
        "{}",
        arrived.origin_uri
    );
    assert!(arrived
        .origin_uri
        .contains("?xid=0x786d6970&type=inform&mac=02:00:00:78:6d:69"));
    let long = vec![0x2a; 3000];
    assert_eq!(round(&long).expect("long").bytes, long);
    assert!(round(b"").expect("empty").bytes.is_empty());
    assert_eq!(loopback.ceiling(), Some(MAX_STREAM));
}

#[test]
fn the_loopback_returns_the_edges_whole_and_refuses_over_the_ceiling() {
    let edges: [(&str, Vec<u8>); 7] = [
        ("empty", Vec::new()),
        ("one byte", vec![0x2a]),
        ("every byte", (0..=255).collect()),
        ("nul run", vec![0; 512]),
        ("high bytes", vec![0xff; 512]),
        ("crlf storm", b"\r\n".repeat(400)),
        ("brim", patterned(MAX_STREAM)),
    ];
    for (name, payload) in edges {
        assert_eq!(round(&payload).expect(name).bytes, payload, "{name}");
    }
    let over = round(&vec![0; MAX_STREAM + 1]).expect_err("over");
    assert!(over.message().contains("65291"), "{}", over.message());
    assert_eq!(over, Error::StreamTooLong { length: 65292 });
    assert_eq!(
        over.message(),
        "65292 bytes is over the 65291 the largest DHCP message holds"
    );
}

#[test]
fn a_payload_is_cut_into_informs() {
    assert_eq!(MAX_STREAM, 65291);
    let lines = inform_lines(&[0xab; 256]).expect("lines");
    assert_eq!(lines.len(), 3);
    assert_eq!(
        lines[0],
        format!("message-type=inform\noption-224=0x{}\n", "ab".repeat(255))
    );
    assert_eq!(lines[1], "message-type=inform\noption-224=0xab\n");
    assert_eq!(lines[2], "message-type=inform\n");
    assert_eq!(
        inform_lines(&[1; 255]).expect("lines").len(),
        2,
        "one option holds it"
    );
    assert_eq!(
        inform_lines(b"").expect("lines"),
        ["message-type=inform\n"]
    );
}

#[test]
fn an_inform_is_a_request_with_its_lines() {
    let message = decode(&inform("message-type=inform\noption-224=0x0102\n").expect("inform"))
        .expect("decode");
    assert_eq!(message.op, BOOTREQUEST);
    assert_eq!(message.xid, 0x786d_6970);
    assert_eq!(message.mac(), "02:00:00:78:6d:69");
    assert_eq!(message.options, vec![(53, vec![8]), (224, vec![1, 2])]);
    assert_eq!(
        inform("colour=blue"),
        Err(Error::UnknownOption {
            name: "colour".to_string()
        })
    );
}

#[test]
fn only_an_acknowledgement_is_accepted() {
    let ack = Message::new(BOOTREPLY, 1, &[1]).with(53, vec![5]);
    assert_eq!(acknowledged(&encode(&ack).expect("encode")), Ok(()));
    let nak = Message::new(BOOTREPLY, 1, &[1]).with(53, vec![6]);
    let refused = acknowledged(&encode(&nak).expect("encode")).expect_err("nak");
    assert_eq!(refused, Error::NotAcknowledged);
    assert_eq!(refused.message(), "an answer that is not a DHCPACK");
    let request = Message::new(BOOTREQUEST, 1, &[1]).with(53, vec![5]);
    assert_eq!(
        acknowledged(&encode(&request).expect("encode")),
        Err(Error::NotAcknowledged)
    );
    assert_eq!(acknowledged(&[0; 10]), Err(Error::TooShort));
}

#[test]
fn an_inform_is_answered_where_it_came_from() {
    let (client, answer) = acknowledgement(
        "dhcp://10.0.0.5:68?xid=0x786d6970&type=inform&mac=02:00:00:78:6d:69&hostname=",
    )
    .expect("acknowledging");
    assert_eq!(client, "10.0.0.5:68");
    let ack = decode(&answer).expect("decode");
    assert_eq!(ack.message_type(), Some(MessageType::Ack));
    assert_eq!(ack.xid, 0x786d_6970);
    assert_eq!(ack.mac(), "02:00:00:78:6d:69");
    assert!(acknowledgement("dhcp://10.0.0.5:68").is_err());
}

#[test]
fn what_is_gathered_grows_until_an_inform_carries_nothing() {
    let came = |bytes: &[u8]| Arrived {
        origin_uri: "first".to_string(),
        bytes: bytes.to_vec(),
    };
    let start = Gathered::new();
    let Ok(Step::More(one)) = start.take(came(b"option-224=0x01\nother=1\noption-224=0x0203\n"))
    else {
        panic!("more to come");
    };
    assert_eq!(one.bytes, [1, 2, 3]);
    assert_eq!(one.origin.as_deref(), Some("first"));
    let later = Arrived {
        origin_uri: "second".to_string(),
        bytes: b"message-type=inform\n".to_vec(),
    };
    assert_eq!(
        one.take(later),
        Ok(Step::Done(Arrived {
            origin_uri: "first".to_string(),
            bytes: vec![1, 2, 3]
        }))
    );
    let not_text = Gathered::new().take(came(b"\xff")).expect_err("not text");
    assert_eq!(not_text, Error::LinesNotText);
    assert_eq!(not_text.message(), "option lines that are not text");
    let odd = Gathered::new().take(came(b"option-224=0xabc")).expect_err("odd");
    assert_eq!(
        odd,
        Error::OddHex {
            digits: "abc".to_string()
        }
    );
    assert_eq!(odd.message(), "an odd number of hex digits: \"abc\"");
    let not_hex = Gathered::new().take(came(b"option-224=0xzz")).expect_err("not hex");
    assert_eq!(
        not_hex,
        Error::NotHex {
            digits: "zz".to_string()
        }
    );
    assert_eq!(not_hex.message(), "not hex: \"zz\"");
}

#[test]
fn the_loopback_listens_at_an_ephemeral_port() {
    let loopback = DhcpTransport::loopback(Duration::from_secs(5));
    assert_eq!(loopback.bind, "127.0.0.1:0");
    assert_eq!(loopback.timeout, Some(Duration::from_secs(5)));
}

#[test]
fn a_server_skips_replies_and_answers_requests() {
    let reply = encode(&Message::new(BOOTREPLY, 1, &[1])).expect("encode");
    let state = Gathered {
        bytes: vec![1],
        origin: None,
    };
    assert_eq!(
        state.clone().serve(PEER, &reply),
        Ok(Served::Skipped(state))
    );
    assert_eq!(
        Gathered::new().serve(PEER, &[0; 10]),
        Err(Error::TooShort)
    );
    let bootp = encode(&Message::new(BOOTREQUEST, 1, &[1])).expect("encode");
    assert_eq!(
        Gathered::new().serve(PEER, &bootp),
        Err(Error::NotReplyType {
            name: "bootp".to_string()
        })
    );
    let carrying = encode(
        &Message::new(BOOTREQUEST, 1, &[1])
            .with(53, vec![8])
            .with(12, b"a\noption-224=0xq".to_vec()),
    )
    .expect("encode");
    let Ok(Served::Answered {
        client,
        answer,
        step,
    }) = Gathered::new().serve(PEER, &carrying)
    else {
        panic!("answered");
    };
    assert_eq!(client, PEER);
    assert_eq!(acknowledged(&answer), Ok(()));
    let Ok(Step::Done(whole)) = step else {
        panic!("a host's name carries nothing");
    };
    assert!(whole.bytes.is_empty());
}
