//! Numbers: digits, decimals, hexadecimal pairs, big-endian bytes and addresses.

use vstd::prelude::*;

use crate::ipv4;
use crate::ipv4::Ipv4Addr;
use crate::number;

verus! {

/// The sixteen digits, letters in lower case.
pub open spec fn lower() -> Seq<char> {
    seq!['0', '1', '2', '3', '4', '5', '6', '7', '8', '9', 'a', 'b', 'c', 'd', 'e', 'f']
}

/// The sixteen digits, letters in upper case.
pub open spec fn upper() -> Seq<char> {
    seq!['0', '1', '2', '3', '4', '5', '6', '7', '8', '9', 'A', 'B', 'C', 'D', 'E', 'F']
}

/// A digit is worth its place among the sixteen, and nothing else is a digit.
pub proof fn law_digit(d: int, c: char)
    ensures
        0 <= d < 16 ==> number::digit(d) == lower()[d],
        number::digit_value(c) == Some(d) <==> 0 <= d < 16 && (c == lower()[d] || c == upper()[d]),
{
}

/// A number is read digit by digit: one digit more makes what stands before it
/// worth `radix` times as much, a plus sign may stand before the first, and
/// nothing else is a number, nor what is over the largest.
pub proof fn law_number(s: Seq<char>, c: char, radix: int, max: int)
    requires
        2 <= radix <= 16,
        max >= 0,
    ensures
        number::number(Seq::empty(), radix, max) is None,
        s == seq!['+'] ==> number::number(s, radix, max) is None,
        s.len() == 0 || s == seq!['+'] ==> number::number(s.push(c), radix, max) == (
        match number::digit_value(c) {
            Some(v) => if v < radix && v <= max {
                Some(v)
            } else {
                None
            },
            None => None,
        }),
        s.len() > 0 && s != seq!['+'] ==> number::number(s.push(c), radix, max) == (
        match (number::number(s, radix, max), number::digit_value(c)) {
            (Some(n), Some(v)) => if v < radix && n * radix + v <= max {
                Some(n * radix + v)
            } else {
                None
            },
            _ => None,
        }),
{
    let none = Seq::<char>::empty();
    let whole = s.push(c);
    if s.len() == 0 {
        assert(whole == seq![c]);
        assert(whole.drop_last() == none);
        assert(number::digits_value(none, radix) == 0);
        assert(whole.skip(1) == none);
        if number::digit_value(c) is Some {
            assert(number::unsigned_part(whole) == whole);
            assert(number::digits_value(whole, radix) == 0 * radix + number::digit_value(c)->0);
            assert(0 * radix == 0) by (nonlinear_arith);
        } else {
            assert(whole[0] == c);
        }
    } else if s == seq!['+'] {
        assert(s[0] == '+');
        assert(s.skip(1) == none);
        let part = whole.skip(1);
        assert(part == seq![c]);
        assert(part.drop_last() == none);
        assert(number::digits_value(none, radix) == 0);
        assert(0 * radix == 0) by (nonlinear_arith);
        assert(part[0] == c);
        if number::digit_value(c) is Some {
            assert(number::digits_value(part, radix) == 0 * radix + number::digit_value(c)->0);
        }
    } else {
        let t = number::unsigned_part(s);
        let part = number::unsigned_part(whole);
        assert(whole[0] == s[0]);
        assert(part == t.push(c));
        if s[0] == '+' && t.len() == 0 {
            assert(s =~= seq!['+']);
        }
        assert(t.len() > 0);
        assert(part.drop_last() == t);
        assert(part.last() == c);
        let last = part.len() - 1;
        assert(part[last] == c);
        if number::all_digits(part, radix) {
            assert(number::digit_value(part[last]) is Some);
            assert forall|i: int| 0 <= i < t.len() implies (number::digit_value(
                #[trigger] t[i],
            ) matches Some(v) && v < radix) by {
                assert(t[i] == part[i]);
            }
            number::lemma_digits_grow(part, radix, last);
            assert(part.take(last) == t);
        } else if number::all_digits(t, radix) && number::digit_value(c) is Some
            && number::digit_value(c)->0 < radix {
            assert forall|i: int| 0 <= i < part.len() implies (number::digit_value(
                #[trigger] part[i],
            ) matches Some(v) && v < radix) by {
                if i < t.len() {
                    assert(part[i] == t[i]);
                }
            }
        }
    }
}

/// A decimal is digits without a leading zero, worth the number.
pub proof fn law_decimal(n: nat)
    ensures
        number::decimal(n).len() > 0,
        forall|i: int|
            0 <= i < number::decimal(n).len() ==> '0' <= #[trigger] number::decimal(n)[i] <= '9',
        number::decimal(n).len() > 1 ==> number::decimal(n)[0] != '0',
        number::number(number::decimal(n), 10, n as int) == Some(n as int),
    decreases n,
{
    number::law_decimal_reads_back(n, n as int);
    if n >= 10 {
        law_decimal(n / 10);
        let front = number::decimal(n / 10);
        let s = number::decimal(n);
        assert(s == front.push(number::digit((n % 10) as int)));
        assert(s[0] == front[0]);
        if front.len() == 1 && front[0] == '0' {
            assert(front =~= seq!['0']);
            assert(n / 10 >= 1);
            law_digit((n / 10) as int, front[0]);
            if n / 10 < 10 {
                assert(front == seq![number::digit((n / 10) as int)]);
            } else {
                assert(front.len() > 1) by {
                    assert(front == number::decimal((n / 10) / 10).push(
                        number::digit(((n / 10) % 10) as int),
                    ));
                    law_decimal((n / 10) / 10);
                }
            }
        }
        assert forall|i: int| 0 <= i < s.len() implies '0' <= #[trigger] s[i] <= '9' by {
            if i < front.len() {
                assert(s[i] == front[i]);
            }
        }
    }
}

/// Bytes in hexadecimal are two digits each, the sixteens before the ones.
pub proof fn law_hex_written(bytes: Seq<u8>)
    ensures
        number::hex_digits(bytes).len() == 2 * bytes.len(),
        forall|i: int|
            0 <= i < bytes.len() ==> number::hex_digits(bytes)[2 * i] == lower()[(
            #[trigger] bytes[i]) as int / 16] && number::hex_digits(bytes)[2 * i + 1]
                == lower()[bytes[i] as int % 16],
    decreases bytes.len(),
{
    if bytes.len() > 0 {
        let front = bytes.drop_last();
        let s = number::hex_digits(front);
        let pair = number::hex_pair(bytes.last());
        let whole = number::hex_digits(bytes);
        law_hex_written(front);
        assert(whole == s + pair);
        assert forall|i: int| 0 <= i < bytes.len() implies whole[2 * i] == lower()[(
        #[trigger] bytes[i]) as int / 16] && whole[2 * i + 1] == lower()[bytes[i] as int % 16] by {
            if i < front.len() {
                assert(front[i] == bytes[i]);
                assert(whole[2 * i] == s[2 * i] && whole[2 * i + 1] == s[2 * i + 1]);
            } else {
                assert(whole[2 * i] == pair[0] && whole[2 * i + 1] == pair[1]);
                law_digit(bytes[i] as int / 16, pair[0]);
                law_digit(bytes[i] as int % 16, pair[1]);
            }
        }
    }
}

/// Digits are read as bytes where they are two for each byte, the sixteens
/// before the ones, and not otherwise.
pub proof fn law_hex_read(s: Seq<char>, bytes: Seq<u8>)
    ensures
        number::hex_bytes(s) == Some(bytes) <==> s.len() == 2 * bytes.len() && forall|i: int|
            0 <= i < bytes.len() ==> number::digit_value(s[2 * i]) == Some((
            #[trigger] bytes[i]) as int / 16) && number::digit_value(s[2 * i + 1]) == Some(
                bytes[i] as int % 16,
            ),
    decreases s.len(),
{
    if s.len() >= 2 {
        let tail = s.skip(2);
        if bytes.len() > 0 {
            let rest = bytes.skip(1);
            law_hex_read(tail, rest);
            assert forall|i: int| 0 <= i < rest.len() implies rest[i] == bytes[i + 1] by {}
            if number::hex_bytes(s) == Some(bytes) {
                let high = number::digit_value(s[0])->0;
                let low = number::digit_value(s[1])->0;
                let more = number::hex_bytes(tail)->0;
                assert(bytes == seq![(high * 16 + low) as u8] + more);
                assert(bytes[0] == (high * 16 + low) as u8);
                assert(rest =~= more);
                assert forall|i: int| 0 <= i < bytes.len() implies number::digit_value(s[2 * i])
                    == Some((#[trigger] bytes[i]) as int / 16) && number::digit_value(s[2 * i + 1])
                    == Some(bytes[i] as int % 16) by {
                    if i > 0 {
                        assert(rest[i - 1] == bytes[i]);
                        assert(tail[2 * (i - 1)] == s[2 * i]);
                        assert(tail[2 * (i - 1) + 1] == s[2 * i + 1]);
                    }
                }
            }
            if s.len() == 2 * bytes.len() && forall|i: int|
                0 <= i < bytes.len() ==> number::digit_value(s[2 * i]) == Some((
                #[trigger] bytes[i]) as int / 16) && number::digit_value(s[2 * i + 1]) == Some(
                    bytes[i] as int % 16,
                ) {
                assert forall|i: int| 0 <= i < rest.len() implies number::digit_value(tail[2 * i])
                    == Some((#[trigger] rest[i]) as int / 16) && number::digit_value(
                    tail[2 * i + 1],
                ) == Some(rest[i] as int % 16) by {
                    assert(bytes[i + 1] == rest[i]);
                    assert(tail[2 * i] == s[2 * (i + 1)]);
                    assert(tail[2 * i + 1] == s[2 * (i + 1) + 1]);
                }
                let zero: int = 0;
                assert(bytes[zero] == bytes[0]);
                assert(number::digit_value(s[2 * zero]) == Some(bytes[zero] as int / 16));
                assert(number::hex_bytes(tail) == Some(rest));
                assert(seq![bytes[0]] + rest =~= bytes);
            }
        } else {
            assert(number::hex_bytes(s) != Some(bytes)) by {
                if number::hex_bytes(s) is Some {
                    assert(number::hex_bytes(s)->0.len() > 0);
                }
            }
        }
    } else if s.len() == 0 {
        if bytes.len() == 0 {
            assert(bytes =~= Seq::<u8>::empty());
        }
    }
}

/// Numbers stand in their bytes with the most significant first.
pub proof fn law_big_endian(n: u32, k: u16, a: u8, b: u8, c: u8, d: u8)
    ensures
        number::be32(n).len() == 4,
        number::be32(n)[0] * 0x100_0000 + number::be32(n)[1] * 0x1_0000 + number::be32(n)[2] * 0x100
            + number::be32(n)[3] == n,
        number::be16(k).len() == 2,
        number::be16(k)[0] * 0x100 + number::be16(k)[1] == k,
        number::from_be32(a, b, c, d) == a * 0x100_0000 + b * 0x1_0000 + c * 0x100 + d,
        number::from_be16(a, b) == a * 0x100 + b,
{
    number::law_be_reads_back(k, n);
}

/// An address is written as its four octets in decimal, in their order, with a
/// full stop between each two, and is read from that and from nothing else.
pub proof fn law_address(s: Seq<char>, a: u8, b: u8, c: u8, d: u8)
    ensures
        (Ipv4Addr { a, b, c, d }).dotted() == number::decimal(a as nat) + seq!['.']
            + number::decimal(b as nat) + seq!['.'] + number::decimal(c as nat) + seq!['.']
            + number::decimal(d as nat),
        (Ipv4Addr { a, b, c, d }).bytes() == seq![a, b, c, d],
        Ipv4Addr::at(seq![a, b, c, d], 0) == (Ipv4Addr { a, b, c, d }),
        Ipv4Addr::zero() == (Ipv4Addr { a: 0, b: 0, c: 0, d: 0 }),
        ipv4::dotted_read(s) == Some(Ipv4Addr { a, b, c, d }) <==> s == number::decimal(a as nat)
            + seq!['.'] + number::decimal(b as nat) + seq!['.'] + number::decimal(c as nat)
            + seq!['.'] + number::decimal(d as nat),
{
    let address = Ipv4Addr { a, b, c, d };
    ipv4::lemma_dotted(address);
    ipv4::law_dotted_reads_back(s, address);
    assert(address.bytes() =~= seq![a, b, c, d]);
}

/// A number that is read is not negative and at most the largest.
pub proof fn lemma_number_bounded(s: Seq<char>, radix: int, max: int)
    requires
        radix >= 1,
        number::number(s, radix, max) is Some,
    ensures
        0 <= number::number(s, radix, max)->0 <= max,
{
    let t = number::unsigned_part(s);
    number::lemma_digits_grow(t, radix, 0);
}

/// Digits alone are the number without a sign.
pub proof fn law_unsigned(s: Seq<char>, radix: int, max: int)
    ensures
        s.len() > 0 && s[0] == '+' ==> number::unsigned(s, radix, max) is None,
        s.len() == 0 || s[0] != '+' ==> number::unsigned(s, radix, max) == number::number(
            s,
            radix,
            max,
        ),
{
}

}
