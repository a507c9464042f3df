//! Names, values, numbers and addresses as text.

use dhcp::number::{of_be16, of_be32, parse_number, parse_unsigned, to_be16, to_be32, to_decimal};
use dhcp::option::{
    hex_pairs, hex_string, option_code, option_name, parse_option, render_option, unhex,
};
use dhcp::text::{chars_of, replace, split, split_lines, split_once, string_of, trim};
use dhcp::utf8::read_text;
use dhcp::wire::fixed_text;
use dhcp::{Error, Ipv4Addr};

fn chars(s: &str) -> Vec<char> {
    s.chars().collect()
}

#[test]
fn names_find_their_codes() {
    let names = [
        (53u8, "message-type"),
        (54, "server"),
        (50, "requested-address"),
        (51, "lease-time"),
        (1, "subnet-mask"),
        (3, "router"),
        (6, "dns"),
        (12, "hostname"),
        (61, "client-id"),
        (55, "parameter-list"),
        (0, "option-0"),
        (60, "option-60"),
        (255, "option-255"),
    ];
    for (code, name) in names {
        assert_eq!(option_name(code), name);
        assert_eq!(option_code(name), Some(code));
    }
    for code in 0..=255u8 {
        assert_eq!(option_code(&option_name(code)), Some(code));
    }
    assert_eq!(option_code("option-53"), Some(53));
    for other in ["", "option-", "option-256", "option--1", "Router", "option-1 "] {
        assert_eq!(option_code(other), None, "{other}");
    }
}

#[test]
fn values_are_read_back_from_what_is_written() {
    let values: [(u8, &[u8], &str); 8] = [
        (53, &[2], "offer"),
        (1, &[255, 255, 255, 0], "255.255.255.0"),
        (6, &[10, 0, 0, 1, 10, 0, 0, 2], "10.0.0.1,10.0.0.2"),
        (51, &[0, 0, 0x0e, 0x10], "3600"),
        (12, b"printer-7", "printer-7"),
        (61, &[1, 0xaa, 0xbb], "01:aa:bb"),
        (55, &[1, 3, 6], "01:03:06"),
        (60, &[0x78, 0x6d, 0x69, 0x70], "0x786d6970"),
    ];
    for (code, value, text) in values {
        assert_eq!(render_option(code, value), text);
        assert_eq!(parse_option(code, text), Ok(value.to_vec()));
    }
    assert_eq!(parse_option(60, "0x"), Ok(vec![]));
    assert_eq!(render_option(53, &[9]), "0x09");
    assert_eq!(parse_option(60, "0xFfAb"), Ok(vec![0xff, 0xab]));
    assert_eq!(
        parse_option(60, "0x+f"),
        Err(Error::NotHexValue {
            code: 60,
            value: "0x+f".to_string()
        })
    );
    assert_eq!(parse_option(12, " a "), Ok(b" a ".to_vec()));
    assert_eq!(render_option(12, b" a "), " a ");
    assert_eq!(
        parse_option(51, "4294967296"),
        Err(Error::NotSeconds {
            value: "4294967296".to_string()
        })
    );
    assert_eq!(
        parse_option(6, "10.0.0.1,,10.0.0.2"),
        Err(Error::NotAddress {
            part: String::new()
        })
    );
}

#[test]
fn pairs_and_digits() {
    assert_eq!(hex_pairs(&[0, 0x7f, 0xff], ":"), "00:7f:ff");
    assert_eq!(hex_pairs(&[0, 0x7f, 0xff], ""), "007fff");
    assert_eq!(hex_string(&[0, 0x7f, 0xff]), "007fff");
    assert_eq!(hex_pairs(&[], ":"), "");
    assert_eq!(unhex("007FfF"), Some(vec![0, 0x7f, 0xff]));
    assert_eq!(unhex("+f"), None);
    assert_eq!(unhex("f+"), None);
    assert_eq!(unhex(""), Some(vec![]));
    assert_eq!(unhex("abc"), None);
    assert_eq!(unhex("é"), None);
    assert_eq!(unhex("zz"), None);
}

#[test]
fn addresses_are_four_decimal_octets() {
    let address = Ipv4Addr::new(10, 0, 255, 9);
    assert_eq!(string_of(&address.to_dotted()), "10.0.255.9");
    assert_eq!(Ipv4Addr::parse(&chars("10.0.255.9")), Some(address));
    assert_eq!(address.octets(), [10, 0, 255, 9]);
    assert_eq!(Ipv4Addr::unspecified(), Ipv4Addr::new(0, 0, 0, 0));
    for other in [
        "", "10.0.0", "10.0.0.1.2", "10.0.0.256", "010.0.0.1", "10.0.0.+1", "10.0.0.", " 10.0.0.1",
        "10.0.0.1 ", "10..0.1", "a.b.c.d", "10.0.0.1000",
    ] {
        assert_eq!(Ipv4Addr::parse(&chars(other)), None, "{other}");
    }
}

#[test]
fn numbers_are_read_within_their_bounds() {
    assert_eq!(parse_number(&chars("0"), 10, 255), Some(0));
    assert_eq!(parse_number(&chars("000255"), 10, 255), Some(255));
    assert_eq!(parse_number(&chars("256"), 10, 255), None);
    assert_eq!(parse_number(&chars("+7"), 10, 255), Some(7));
    assert_eq!(parse_number(&chars("+f"), 16, 255), Some(15));
    for other in ["", "+", "-1", "1 ", "++1", "a"] {
        assert_eq!(parse_number(&chars(other), 10, 255), None, "{other}");
    }
    assert_eq!(parse_unsigned(&chars("fF"), 16, 255), Some(255));
    assert_eq!(
        parse_unsigned(&chars("ffffffff"), 16, 0xffff_ffff),
        Some(0xffff_ffff)
    );
    assert_eq!(parse_unsigned(&chars("100000000"), 16, 0xffff_ffff), None);
    assert_eq!(parse_unsigned(&chars("+f"), 16, 255), None);
    assert_eq!(string_of(&to_decimal(0)), "0");
    assert_eq!(string_of(&to_decimal(65291)), "65291");
    assert_eq!(to_be32(0x3903_f326), [0x39, 0x03, 0xf3, 0x26]);
    assert_eq!(to_be16(0x0607), [6, 7]);
    assert_eq!(of_be32(0x39, 0x03, 0xf3, 0x26), 0x3903_f326);
    assert_eq!(of_be16(6, 7), 0x0607);
}

#[test]
fn text_is_cut_trimmed_and_rewritten() {
    let s = chars_of("a=b=c");
    let (before, after) = split_once(&s, '=').expect("cut");
    assert_eq!((string_of(before), string_of(after)), ("a".to_string(), "b=c".to_string()));
    assert!(split_once(&s, ';').is_none());
    let pieces: Vec<String> = split(&chars(":a-:b"), &[':', '-'])
        .into_iter()
        .map(string_of)
        .collect();
    assert_eq!(pieces, ["", "a", "", "b"]);
    let lines: Vec<String> = split_lines(&chars("one\r\n\ntwo\nthree\r"))
        .into_iter()
        .map(string_of)
        .collect();
    assert_eq!(lines, ["one", "", "two", "three\r"]);
    assert!(split_lines(&[]).is_empty());
    assert_eq!(string_of(trim(&chars("\u{a0}\t a b\u{2003}\r\n"))), "a b");
    assert_eq!(
        string_of(&replace(&chars("aaa-aa"), "aa", "b")),
        "ba-b"
    );
}

#[test]
fn bytes_are_read_as_text() {
    assert_eq!(read_text("caf\u{e9}".as_bytes()), "caf\u{e9}");
    assert_eq!(read_text(&[b'a', 0xc3, b'b']), "a\u{fffd}b");
}

#[test]
fn a_field_is_cut_and_filled() {
    let mut out = vec![9u8];
    fixed_text(&mut out, "abc", 5);
    assert_eq!(out, [9, b'a', b'b', b'c', 0, 0]);
    fixed_text(&mut out, "abcdef", 4);
    assert_eq!(out, [9, b'a', b'b', b'c', 0, 0, b'a', b'b', b'c', 0]);
}
