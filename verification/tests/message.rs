//! Messages: their options, their lines and their datagrams.

use dhcp::message::{
    decode, encode, MAGIC, MIN_MESSAGE, OPTION_DNS, OPTION_HOSTNAME, OPTION_LEASE_TIME,
    OPTION_MESSAGE_TYPE, OPTION_ROUTER,
};
use dhcp::{Error, Ipv4Addr, Message, MessageType, BOOTREPLY, BOOTREQUEST, MAX_MESSAGE};

const MAC: [u8; 6] = [0xaa, 0xbb, 0xcc, 0xdd, 0xee, 0xff];

fn request() -> Message {
    Message::new(BOOTREQUEST, 1, &MAC)
}

#[test]
fn a_discover_round_trips_and_its_options_read_as_lines() {
    let discover = Message::new(BOOTREQUEST, 0x3903_f326, &MAC)
        .with(OPTION_HOSTNAME, b"printer-7".to_vec())
        .with_lines(
            b"message-type=discover\nrequested-address=10.0.0.9\n\
              client-id=01:aa:bb:cc:dd:ee:ff\nparameter-list=01:03:06\noption-60=0x786d6970\n",
        )
        .expect("lines");
    let bytes = encode(&discover).expect("encode");
    assert_eq!(bytes.len(), MIN_MESSAGE, "padded");
    assert_eq!(&bytes[236..240], &MAGIC);
    let back = decode(&bytes).expect("decode");
    assert_eq!(back, discover);
    assert_eq!(back.message_type(), Some(MessageType::Discover));
    assert_eq!(back.mac(), "aa:bb:cc:dd:ee:ff");
    assert_eq!(back.hostname(), "printer-7");
    assert_eq!(back.xid, 0x3903_f326);
    let lines = String::from_utf8(back.option_lines()).expect("text");
    assert_eq!(
        lines,
        "hostname=printer-7\nmessage-type=discover\nrequested-address=10.0.0.9\n\
         client-id=01:aa:bb:cc:dd:ee:ff\nparameter-list=01:03:06\noption-60=0x786d6970\n"
    );
    let offer = Message::new(BOOTREPLY, 1, &MAC)
        .with_lines(b"message-type=2\nserver=10.0.0.1\ndns=10.0.0.1, 10.0.0.2\nlease-time=3600\n")
        .expect("lines");
    assert_eq!(
        offer.option(OPTION_LEASE_TIME),
        Some(&[0, 0, 0x0e, 0x10][..])
    );
    assert_eq!(offer.option(OPTION_DNS).map(<[u8]>::len), Some(8));
    assert!(String::from_utf8(offer.option_lines())
        .expect("text")
        .contains("message-type=offer\nserver=10.0.0.1\ndns=10.0.0.1,10.0.0.2\nlease-time=3600\n"));
    let mut long = Message::new(BOOTREQUEST, 1, &MAC);
    long.sname = "s".repeat(80);
    long.file = "f".repeat(200);
    let back = decode(&encode(&long).expect("encode")).expect("decode");
    assert_eq!(back.sname.len(), 63, "cut to the field less its NUL");
    assert_eq!(back.file.len(), 127);
    assert_eq!(MessageType::parse("nak"), Some(MessageType::Nak));
    assert_eq!(Message::parse_mac("aa-bb"), Some(vec![0xaa, 0xbb]));
}

#[test]
fn what_is_not_dhcp_is_refused() {
    assert!(decode(&[0; 239]).is_err(), "short");
    assert!(decode(&[0; 300]).is_err(), "no cookie");
    let mut cut =
        encode(&Message::new(BOOTREQUEST, 1, &MAC).with(12, b"host".to_vec())).expect("encode");
    cut.truncate(243);
    assert!(decode(&cut).is_err(), "option past the end");
    let base = Message::new(BOOTREQUEST, 1, &MAC);
    assert!(base.clone().with_lines(b"no equals").is_err());
    assert!(base.clone().with_lines(b"colour=blue").is_err());
    assert!(base.clone().with_lines(b"router=nowhere").is_err());
    assert!(base.clone().with_lines(b"lease-time=soon").is_err());
    assert!(base.clone().with_lines(b"message-type=hello").is_err());
    assert!(base.clone().with_lines(b"option-60=plain").is_err());
    assert!(base.clone().with_lines(b"client-id=zz").is_err());
    assert!(base.clone().with_lines(&[0xff]).is_err());
    assert!(
        encode(&base.clone().with(60, vec![0; 256])).is_err(),
        "over 255"
    );
    assert!(
        encode(&base.with(60, vec![0; 255]).with(61, vec![0; 255])).is_err(),
        "over 576"
    );
    assert!(Message::parse_mac("").is_none() || Message::parse_mac("").is_some());
    assert!(Message::parse_mac("a:b:c:d:e:f:1:2:3:4:5:6:7:8:9:0:1").is_none());
}

#[test]
fn each_refusal_says_why() {
    let too_short = decode(&[0; 239]).unwrap_err();
    assert_eq!(too_short, Error::TooShort);
    assert_eq!(
        too_short.message(),
        "a message shorter than its fixed fields"
    );
    let no_cookie = decode(&[0; 240]).unwrap_err();
    assert_eq!(no_cookie, Error::WrongCookie);
    assert_eq!(no_cookie.message(), "a cookie that is not DHCP's");
    let mut cut = encode(&request().with(12, b"host".to_vec())).expect("encode");
    cut.truncate(241);
    assert_eq!(decode(&cut), Err(Error::PastEnd), "no length");
    let mut cut = encode(&request().with(12, b"host".to_vec())).expect("encode");
    cut.truncate(245);
    let past = decode(&cut).unwrap_err();
    assert_eq!(past, Error::PastEnd, "no value");
    assert_eq!(past.message(), "an option running past the end");
    let long = encode(&request().with(60, vec![0; 256])).unwrap_err();
    assert_eq!(long, Error::OptionTooLong { code: 60 });
    assert_eq!(long.message(), "option 60 over 255 bytes");
    let longer = encode(&request().with(60, vec![0; 255]).with(61, vec![0; 255])).unwrap_err();
    assert_eq!(longer, Error::MessageTooLong);
    assert_eq!(longer.message(), "a message over what a client must take");
}

#[test]
fn each_line_that_is_refused_says_why() {
    let refusals: [(&[u8], Error, &str); 8] = [
        (b"\xff", Error::NotUtf8, "options not UTF-8"),
        (
            b"no \"equals\"",
            Error::NoEquals {
                line: "no \"equals\"".to_string(),
            },
            "an option without =: \"no \\\"equals\\\"\"",
        ),
        (
            b" colour =blue",
            Error::UnknownOption {
                name: " colour ".to_string(),
            },
            "an option not known: \" colour \"",
        ),
        (
            b"router=10.0.0.1, nowhere",
            Error::NotAddress {
                part: " nowhere".to_string(),
            },
            "not an address: \" nowhere\"",
        ),
        (
            b"lease-time=soon",
            Error::NotSeconds {
                value: "soon".to_string(),
            },
            "not seconds: \"soon\"",
        ),
        (
            b"message-type=hello",
            Error::NotMessageType {
                value: "hello".to_string(),
            },
            "not a message type: \"hello\"",
        ),
        (
            b"client-id=zz",
            Error::NotColonHex {
                value: "zz".to_string(),
            },
            "not colon-separated hex: \"zz\"",
        ),
        (
            b"option-60=plain",
            Error::NotHexValue {
                code: 60,
                value: "plain".to_string(),
            },
            "option 60 takes 0x hex: \"plain\"",
        ),
    ];
    for (lines, error, message) in refusals {
        assert_eq!(request().with_lines(lines), Err(error.clone()));
        assert_eq!(error.message(), message);
    }
}

#[test]
fn the_largest_message_is_sent_and_one_byte_more_is_not() {
    let room = MAX_MESSAGE - 240 - 1 - 2 - 255 - 2;
    let full = request()
        .with(60, vec![7; 255])
        .with(61, vec![8; room]);
    let bytes = encode(&full).expect("encode");
    assert_eq!(bytes.len(), MAX_MESSAGE);
    assert_eq!(decode(&bytes).expect("decode"), full);
    let over = request()
        .with(60, vec![7; 255])
        .with(61, vec![8; room + 1]);
    assert_eq!(encode(&over), Err(Error::MessageTooLong));
}

#[test]
fn the_fixed_fields_stand_where_they_belong() {
    let mut message = Message::new(BOOTREPLY, 0x0102_0304, &MAC);
    message.hops = 5;
    message.secs = 0x0607;
    message.flags = 0x8000;
    message.ciaddr = Ipv4Addr::new(1, 2, 3, 4);
    message.yiaddr = Ipv4Addr::new(5, 6, 7, 8);
    message.siaddr = Ipv4Addr::new(9, 10, 11, 12);
    message.giaddr = Ipv4Addr::new(13, 14, 15, 16);
    message.sname = "boot".to_string();
    message.file = "image".to_string();
    let bytes = encode(&message).expect("encode");
    assert_eq!(
        &bytes[..34],
        &[
            2, 1, 6, 5, 1, 2, 3, 4, 6, 7, 0x80, 0, 1, 2, 3, 4, 5, 6, 7, 8, 9, 10, 11, 12, 13, 14,
            15, 16, 0xaa, 0xbb, 0xcc, 0xdd, 0xee, 0xff
        ]
    );
    assert_eq!(&bytes[44..49], b"boot\0");
    assert_eq!(&bytes[108..114], b"image\0");
    assert_eq!(bytes[240], 255);
    assert!(bytes[241..].iter().all(|b| *b == 0));
    assert_eq!(decode(&bytes).expect("decode"), message);
}

#[test]
fn padding_between_options_is_skipped_and_nothing_is_read_past_the_end() {
    let mut bytes = encode(&request()).expect("encode");
    bytes[240..250].copy_from_slice(&[0, 0, 12, 2, b'h', b'i', 0, 255, 53, 9]);
    let message = decode(&bytes).expect("decode");
    assert_eq!(message.options, vec![(12, b"hi".to_vec())]);
    bytes.truncate(247);
    assert_eq!(
        decode(&bytes).expect("no end").options,
        vec![(12, b"hi".to_vec())]
    );
}

#[test]
fn a_text_cut_within_a_character_is_read_as_far_as_it_goes() {
    let mut message = request();
    message.sname = format!("{}é", "s".repeat(62));
    let back = decode(&encode(&message).expect("encode")).expect("decode");
    assert_eq!(back.sname, format!("{}\u{fffd}", "s".repeat(62)));
    message.sname = format!("{}é", "s".repeat(61));
    let back = decode(&encode(&message).expect("encode")).expect("decode");
    assert_eq!(back, message);
    message.sname = format!("{}é{}", "s".repeat(61), "t".repeat(9));
    let back = decode(&encode(&message).expect("encode")).expect("decode");
    assert_eq!(back.sname, format!("{}é", "s".repeat(61)));
}

#[test]
fn setting_an_option_replaces_it_and_leaves_the_others() {
    let message = request()
        .with(12, b"one".to_vec())
        .with(60, vec![6])
        .with(12, b"two".to_vec());
    assert_eq!(
        message.options,
        vec![(60, vec![6]), (12, b"two".to_vec())]
    );
    assert_eq!(message.option(12), Some(&b"two"[..]));
    assert_eq!(message.option(60), Some(&[6][..]));
    assert_eq!(message.option(61), None);
    let lined = message
        .with_lines(b"hostname=three\noption-60=0x\n\n \t\nhostname=four")
        .expect("lines");
    assert_eq!(
        lined.options,
        vec![(60, vec![]), (12, b"four".to_vec())]
    );
}

#[test]
fn lines_are_read_with_white_space_and_either_ending() {
    let message = request()
        .with_lines("  hostname =  caf\u{e9} = bar \r\n\u{3000}\nrouter= 10.0.0.1 ,10.0.0.2\r\n".as_bytes())
        .expect("lines");
    assert_eq!(message.hostname(), "caf\u{e9} = bar");
    assert_eq!(
        message.option(OPTION_ROUTER),
        Some(&[10, 0, 0, 1, 10, 0, 0, 2][..])
    );
}

#[test]
fn the_lines_of_a_message_set_the_same_options() {
    let message = request()
        .with(53, vec![8])
        .with(54, vec![10, 0, 0, 1])
        .with(51, vec![0xff, 0xff, 0xff, 0xff])
        .with(12, b"printer-7".to_vec())
        .with(61, vec![1, 2, 0xff])
        .with(60, vec![])
        .with(254, vec![0, 1, 0xfe]);
    let lines = message.option_lines();
    assert_eq!(
        String::from_utf8(lines.clone()).expect("text"),
        "message-type=inform\nserver=10.0.0.1\nlease-time=4294967295\nhostname=printer-7\n\
         client-id=01:02:ff\noption-60=0x\noption-254=0x0001fe\n"
    );
    assert_eq!(request().with_lines(&lines).expect("lines"), message);
}

#[test]
fn values_that_are_not_of_their_shape_are_still_written() {
    let message = request()
        .with(53, vec![9, 0xab])
        .with(54, vec![10, 0, 0])
        .with(51, vec![1])
        .with(12, vec![b'a', 0xff, b'b']);
    assert_eq!(
        String::from_utf8(message.option_lines()).expect("text"),
        "message-type=0x09ab\nserver=0x0a0000\nlease-time=0x01\nhostname=a\u{fffd}b\n"
    );
    assert_eq!(message.message_type(), None);
    assert_eq!(message.hostname(), "a\u{fffd}b");
    assert_eq!(request().with(53, vec![]).message_type(), None);
    assert_eq!(request().hostname(), "");
}

#[test]
fn message_types_are_found_by_name_and_by_number() {
    let types = [
        (MessageType::Discover, 1u8, "discover"),
        (MessageType::Offer, 2, "offer"),
        (MessageType::Request, 3, "request"),
        (MessageType::Decline, 4, "decline"),
        (MessageType::Ack, 5, "ack"),
        (MessageType::Nak, 6, "nak"),
        (MessageType::Release, 7, "release"),
        (MessageType::Inform, 8, "inform"),
    ];
    for (kind, code, name) in types {
        assert_eq!(kind.code(), code);
        assert_eq!(kind.name(), name);
        assert_eq!(MessageType::from_code(code), Some(kind));
        assert_eq!(MessageType::parse(name), Some(kind));
        assert_eq!(MessageType::parse(&code.to_string()), Some(kind));
        assert_eq!(
            request().with(OPTION_MESSAGE_TYPE, vec![code]).message_type(),
            Some(kind)
        );
    }
    for other in ["", "0", "9", "01", "Ack", "ack "] {
        assert_eq!(MessageType::parse(other), None, "{other}");
    }
    assert_eq!(MessageType::from_code(0), None);
    assert_eq!(MessageType::from_code(9), None);
}

#[test]
fn hardware_addresses_are_read_and_written() {
    assert_eq!(Message::parse_mac("aa:bb:cc:dd:ee:ff"), Some(MAC.to_vec()));
    assert_eq!(Message::parse_mac("AA-0b:c"), Some(vec![0xaa, 0x0b, 0x0c]));
    assert_eq!(Message::parse_mac("+a"), Some(vec![0x0a]));
    assert_eq!(Message::parse_mac("aa:+"), None);
    assert_eq!(Message::parse_mac(""), None);
    assert_eq!(Message::parse_mac("aa:"), None);
    assert_eq!(Message::parse_mac("100"), None);
    assert_eq!(
        Message::parse_mac("0:1:2:3:4:5:6:7:8:9:a:b:c:d:e:f"),
        Some((0..16).collect())
    );
    let long = Message::new(BOOTREQUEST, 1, &[7; 20]);
    assert_eq!(long.hlen, 16);
    assert_eq!(long.chaddr, [7; 16]);
    let mut beyond = Message::new(BOOTREQUEST, 1, &MAC);
    beyond.hlen = 200;
    assert_eq!(beyond.mac(), "aa:bb:cc:dd:ee:ff:00:00:00:00:00:00:00:00:00:00");
    assert_eq!(Message::new(BOOTREQUEST, 1, &[]).mac(), "");
}

#[test]
fn a_datagram_is_of_its_size_whatever_the_message() {
    for length in [0usize, 1, 50, 56, 57, 58, 255] {
        let bytes = encode(&request().with(60, vec![1; length])).expect("encode");
        assert!(bytes.len() >= MIN_MESSAGE && bytes.len() <= MAX_MESSAGE);
        assert_eq!(bytes.len(), (240 + 2 + length + 1).max(MIN_MESSAGE));
    }
}

#[test]
fn an_option_is_one_line_whatever_it_holds() {
    let message = Message::new(BOOTREQUEST, 1, &[0xaa]).with(12, b"a\nserver=10.0.0.1".to_vec());
    let lines = String::from_utf8(message.option_lines()).expect("text");
    assert_eq!(lines, "hostname=0x610a7365727665723d31302e302e302e31\n");
    let message = request()
        .with(12, b"\n".to_vec())
        .with(53, vec![])
        .with(60, b"\n\r\n".to_vec())
        .with(61, vec![10]);
    let lines = String::from_utf8(message.option_lines()).expect("text");
    assert_eq!(
        lines,
        "hostname=0x0a\nmessage-type=0x\noption-60=0x0a0d0a\nclient-id=0a\n"
    );
    assert_eq!(lines.lines().count(), message.options.len());
    let returning = request().with(12, b"a\rb\r".to_vec());
    assert_eq!(returning.option_lines(), b"hostname=a\rb\r\n");
}

#[test]
fn two_streams_are_set_one_after_the_other() {
    let cases: [(&[u8], &[u8]); 7] = [
        (b"hostname=a", b"router=10.0.0.1\nhostname=b"),
        (b"hostname=a\r", b"lease-time=7"),
        (b"hostname=a\n", b"\n"),
        (b"", b"hostname=a"),
        (b"hostname=a\nrouter", b"hostname=b"),
        (b"hostname=a", b"router"),
        (b"hostname=\xc3", b"\xa9"),
    ];
    for (a, b) in cases {
        let mut both = a.to_vec();
        both.push(b'\n');
        both.extend_from_slice(b);
        let whole = request().with_lines(&both).ok();
        let turn = request()
            .with_lines(a)
            .and_then(|first| first.with_lines(b))
            .ok();
        assert_eq!(whole, turn);
    }
    assert_eq!(
        request().with_lines(b"hostname=a\rx\r\n \t\r\n").expect("lines").hostname(),
        "a\rx"
    );
    let blank = request().with(12, b"a".to_vec());
    assert_eq!(
        blank.clone().with_lines("\n \r\n\u{2003}".as_bytes()),
        Ok(blank)
    );
}
