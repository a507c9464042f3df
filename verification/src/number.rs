//! Numbers as text spells them and as the wire carries them: decimal digits,
//! hexadecimal pairs, and big-endian bytes.

use vstd::prelude::*;
use vstd::slice::slice_subrange;

verus! {

// ---------------------------------------------------------------------------
// Digits
// ---------------------------------------------------------------------------

/// The digit worth `d`, letters in lower case.
pub open spec fn digit(d: int) -> char {
    if d < 10 {
        (48 + d) as char
    } else {
        (87 + d) as char
    }
}

/// What the digit `c` is worth, letters in either case; `None` for a character
/// that is no hexadecimal digit.
pub open spec fn digit_value(c: char) -> Option<int> {
    if '0' <= c <= '9' {
        Some(c as int - 48)
    } else if 'a' <= c <= 'f' {
        Some(c as int - 87)
    } else if 'A' <= c <= 'F' {
        Some(c as int - 55)
    } else {
        None
    }
}

/// Writing a digit and reading it gives its worth back.
pub proof fn lemma_digit(d: int)
    requires
        0 <= d < 16,
    ensures
        digit_value(digit(d)) == Some(d),
        digit(d) != '+',
{
}

/// The digit worth `d`.
pub fn digit_of(d: u8) -> (c: char)
    requires
        d < 16,
    ensures
        c == digit(d as int),
{
    if d < 10 {
        (48 + d) as char
    } else {
        (87 + d) as char
    }
}

/// What the digit `c` is worth.
pub fn value_of(c: char) -> (r: Option<u32>)
    ensures
        match r {
            Some(v) => digit_value(c) == Some(v as int),
            None => digit_value(c) is None,
        },
{
    if '0' <= c && c <= '9' {
        Some(c as u32 - 48)
    } else if 'a' <= c && c <= 'f' {
        Some(c as u32 - 87)
    } else if 'A' <= c && c <= 'F' {
        Some(c as u32 - 55)
    } else {
        None
    }
}

// ---------------------------------------------------------------------------
// Reading a number
// ---------------------------------------------------------------------------

/// Every character of `s` is a digit below `radix`.
pub open spec fn all_digits(s: Seq<char>, radix: int) -> bool {
    forall|i: int|
        0 <= i < s.len() ==> (digit_value(#[trigger] s[i]) matches Some(v) && v < radix)
}

/// What the digits `s` are worth together.
pub open spec fn digits_value(s: Seq<char>, radix: int) -> int
    decreases s.len(),
{
    if s.len() == 0 {
        0
    } else {
        digits_value(s.drop_last(), radix) * radix + digit_value(s.last())->0
    }
}

/// The number that `s` spells in `radix`: one digit or more and nothing else,
/// worth at most `max`.
pub open spec fn unsigned(s: Seq<char>, radix: int, max: int) -> Option<int> {
    if s.len() > 0 && all_digits(s, radix) && digits_value(s, radix) <= max {
        Some(digits_value(s, radix))
    } else {
        None
    }
}

/// `s` without the plus sign that may stand before a number.
pub open spec fn unsigned_part(s: Seq<char>) -> Seq<char> {
    if s.len() > 0 && s[0] == '+' {
        s.skip(1)
    } else {
        s
    }
}

/// The number that `s` spells in `radix`: a plus sign or none, and after it
/// digits alone, worth at most `max`.
pub open spec fn number(s: Seq<char>, radix: int, max: int) -> Option<int> {
    unsigned(unsigned_part(s), radix, max)
}

/// More digits are worth no less.
pub proof fn lemma_digits_grow(s: Seq<char>, radix: int, k: int)
    requires
        radix >= 1,
        all_digits(s, radix),
        0 <= k <= s.len(),
    ensures
        0 <= digits_value(s.take(k), radix) <= digits_value(s, radix),
    decreases s.len(),
{
    assert forall|i: int| 0 <= i < s.drop_last().len() && s.len() > 0 implies (digit_value(
        #[trigger] s.drop_last()[i],
    ) matches Some(v) && v < radix) by {
        assert(s.drop_last()[i] == s[i]);
    }
    if k == s.len() {
        assert(s.take(k) == s);
        if s.len() > 0 {
            lemma_digits_grow(s.drop_last(), radix, 0);
            lemma_digits_grow(s.drop_last(), radix, k - 1);
            assert(s.drop_last().take(k - 1) == s.drop_last());
            assert(digit_value(s[s.len() - 1]) is Some);
            assert(digits_value(s.drop_last(), radix) * radix >= 0) by (nonlinear_arith)
                requires
                    digits_value(s.drop_last(), radix) >= 0,
                    radix >= 1,
            ;
        }
    } else {
        lemma_digits_grow(s.drop_last(), radix, k);
        assert(s.drop_last().take(k) == s.take(k));
        assert(digit_value(s[s.len() - 1]) is Some);
        let d = digits_value(s.drop_last(), radix);
        assert(d * radix >= d) by (nonlinear_arith)
            requires
                d >= 0,
                radix >= 1,
        ;
    }
}

/// One digit more: the digits before it are worth `radix` times as much.
proof fn lemma_digits_step(s: Seq<char>, radix: int, k: int)
    requires
        0 <= k < s.len(),
        all_digits(s.take(k), radix),
        digit_value(s[k]) matches Some(v) && v < radix,
    ensures
        all_digits(s.take(k + 1), radix),
        digits_value(s.take(k + 1), radix) == digits_value(s.take(k), radix) * radix + digit_value(
            s[k],
        )->0,
{
    assert(s.take(k + 1).drop_last() == s.take(k));
    assert(s.take(k + 1).last() == s[k]);
    assert forall|j: int| 0 <= j < k + 1 implies (digit_value(#[trigger] s.take(k + 1)[j]) matches Some(
        v,
    ) && v < radix) by {
        if j < k {
            assert(s.take(k)[j] == s.take(k + 1)[j]);
        }
    }
}

/// The number that the digits `s` spell in `radix`, up to `max`.
pub fn parse_unsigned(s: &[char], radix: u32, max: u32) -> (r: Option<u32>)
    requires
        2 <= radix <= 16,
    ensures
        match r {
            Some(n) => unsigned(s@, radix as int, max as int) == Some(n as int),
            None => unsigned(s@, radix as int, max as int) is None,
        },
{
    if s.len() == 0 {
        return None;
    }
    let mut i: usize = 0;
    let mut total: u64 = 0;
    while i < s.len()
        invariant
            i <= s.len(),
            2 <= radix <= 16,
            all_digits(s@.take(i as int), radix as int),
            total == digits_value(s@.take(i as int), radix as int),
            total <= max,
        decreases s.len() - i,
    {
        match value_of(s[i]) {
            Some(v) if v < radix => {
                proof {
                    lemma_digits_step(s@, radix as int, i as int);
                }
                assert(total * radix <= 0xffff_ffff * 16) by (nonlinear_arith)
                    requires
                        total <= 0xffff_ffff,
                        radix <= 16,
                ;
                total = total * radix as u64 + v as u64;
                if total > max as u64 {
                    proof {
                        if all_digits(s@, radix as int) {
                            lemma_digits_grow(s@, radix as int, i + 1);
                        }
                    }
                    return None;
                }
            },
            _ => {
                assert(!all_digits(s@, radix as int));
                return None;
            },
        }
        i += 1;
    }
    assert(s@.take(i as int) == s@);
    Some(total as u32)
}

/// The number that `s` spells in `radix`, with a plus sign or without, up to
/// `max`.
pub fn parse_number(s: &[char], radix: u32, max: u32) -> (r: Option<u32>)
    requires
        2 <= radix <= 16,
    ensures
        match r {
            Some(n) => number(s@, radix as int, max as int) == Some(n as int),
            None => number(s@, radix as int, max as int) is None,
        },
{
    if s.len() > 0 && s[0] == '+' {
        let digits = slice_subrange(s, 1, s.len());
        assert(digits@ == s@.skip(1));
        parse_unsigned(digits, radix, max)
    } else {
        parse_unsigned(s, radix, max)
    }
}

// ---------------------------------------------------------------------------
// Decimal
// ---------------------------------------------------------------------------

/// `n` in decimal, without leading zeros.
pub open spec fn decimal(n: nat) -> Seq<char>
    decreases n,
{
    if n < 10 {
        seq![digit(n as int)]
    } else {
        decimal(n / 10).push(digit((n % 10) as int))
    }
}

/// `n` in decimal.
pub fn to_decimal(n: u64) -> (out: Vec<char>)
    ensures
        out@ == decimal(n as nat),
    decreases n,
{
    if n < 10 {
        let mut out: Vec<char> = Vec::new();
        out.push(digit_of(n as u8));
        assert(out@ == seq![digit(n as int)]);
        out
    } else {
        let mut out: Vec<char> = to_decimal(n / 10);
        out.push(digit_of((n % 10) as u8));
        out
    }
}

/// Decimal digits read back as the number that they were written from.
pub proof fn lemma_decimal_digits(n: nat)
    ensures
        decimal(n).len() >= 1,
        all_digits(decimal(n), 10),
        digits_value(decimal(n), 10) == n,
    decreases n,
{
    if n < 10 {
        let s = seq![digit(n as int)];
        lemma_digit(n as int);
        assert(s.drop_last() == Seq::<char>::empty());
        assert(digits_value(s.drop_last(), 10) == 0);
        assert(s.last() == digit(n as int));
    } else {
        lemma_decimal_digits(n / 10);
        lemma_digit((n % 10) as int);
        let s = decimal(n);
        assert(s.drop_last() == decimal(n / 10));
        assert(s.last() == digit((n % 10) as int));
        assert forall|i: int| 0 <= i < s.len() implies (digit_value(#[trigger] s[i]) matches Some(
            v,
        ) && v < 10) by {
            if i < s.len() - 1 {
                assert(decimal(n / 10)[i] == s[i]);
            }
        }
    }
}

/// A number written in decimal is read as itself.
pub proof fn law_decimal_reads_back(n: nat, max: int)
    requires
        n <= max,
    ensures
        unsigned(decimal(n), 10, max) == Some(n as int),
        number(decimal(n), 10, max) == Some(n as int),
{
    lemma_decimal_digits(n);
    let s = decimal(n);
    assert(digit_value(s[0]) is Some);
    assert(unsigned_part(s) == s);
}

/// Digits without a leading zero are the decimal of what they are worth.
pub proof fn lemma_decimal_of_digits(s: Seq<char>)
    requires
        s.len() >= 1,
        all_digits(s, 10),
        s.len() == 1 || s[0] != '0',
    ensures
        digits_value(s, 10) >= 0,
        decimal(digits_value(s, 10) as nat) == s,
    decreases s.len(),
{
    let front = s.drop_last();
    let d = digit_value(s[s.len() - 1])->0;
    assert(digit(d) == s.last());
    if s.len() == 1 {
        assert(front == Seq::<char>::empty());
        assert(digits_value(front, 10) == 0);
        assert(seq![digit(d)] == s);
    } else {
        assert forall|i: int| 0 <= i < front.len() implies (digit_value(
            #[trigger] front[i],
        ) matches Some(v) && v < 10) by {
            assert(front[i] == s[i]);
        }
        lemma_decimal_of_digits(front);
        let v = digits_value(front, 10);
        if v == 0 {
            assert(front == seq![digit(0)]);
            assert(front[0] == '0');
        }
        let n = (v * 10 + d) as nat;
        assert(n / 10 == v as nat);
        assert(n % 10 == d as nat);
        assert(decimal(v as nat).push(digit(d)) == s);
    }
}

// ---------------------------------------------------------------------------
// Hexadecimal pairs
// ---------------------------------------------------------------------------

/// `b` as two hexadecimal digits.
pub open spec fn hex_pair(b: u8) -> Seq<char> {
    seq![digit(b as int / 16), digit(b as int % 16)]
}

/// `bytes` as two hexadecimal digits each.
pub open spec fn hex_digits(bytes: Seq<u8>) -> Seq<char>
    decreases bytes.len(),
{
    if bytes.len() == 0 {
        seq![]
    } else {
        hex_digits(bytes.drop_last()) + hex_pair(bytes.last())
    }
}

/// The bytes that `s` spells in hexadecimal, two digits each; `None` where a
/// character is left over or is no digit.
pub open spec fn hex_bytes(s: Seq<char>) -> Option<Seq<u8>>
    decreases s.len(),
{
    if s.len() == 0 {
        Some(seq![])
    } else if s.len() == 1 {
        None
    } else {
        match (digit_value(s[0]), digit_value(s[1]), hex_bytes(s.skip(2))) {
            (Some(high), Some(low), Some(rest)) => Some(seq![(high * 16 + low) as u8] + rest),
            _ => None,
        }
    }
}

/// `s` and `t` are the same hexadecimal digits, letters in either case.
pub open spec fn same_digits(s: Seq<char>, t: Seq<char>) -> bool {
    &&& s.len() == t.len()
    &&& forall|i: int|
        0 <= i < s.len() ==> digit_value(#[trigger] s[i]) is Some && digit_value(s[i])
            == digit_value(t[i])
}

/// The digits of bytes are digits.
pub proof fn lemma_hex_digits_same(bytes: Seq<u8>)
    ensures
        same_digits(hex_digits(bytes), hex_digits(bytes)),
    decreases bytes.len(),
{
    if bytes.len() > 0 {
        let front = hex_digits(bytes.drop_last());
        let pair = hex_pair(bytes.last());
        let s = hex_digits(bytes);
        lemma_hex_digits_same(bytes.drop_last());
        lemma_hex_pair_same(bytes.last());
        assert forall|i: int| 0 <= i < s.len() implies digit_value(#[trigger] s[i]) is Some by {
            if i < front.len() {
                assert(s[i] == front[i]);
            } else {
                assert(s[i] == pair[i - front.len()]);
            }
        }
    }
}

/// The digits of a byte are digits.
pub proof fn lemma_hex_pair_same(b: u8)
    ensures
        same_digits(hex_pair(b), hex_pair(b)),
{
    lemma_digit(b as int / 16);
    lemma_digit(b as int % 16);
}

/// A byte written as two digits is read as itself.
pub proof fn lemma_hex_pair(s: Seq<char>, b: u8)
    requires
        same_digits(s, hex_pair(b)),
    ensures
        number(s, 16, 255) == Some(b as int),
        digit_value(s[0]) == Some(b as int / 16),
        digit_value(s[1]) == Some(b as int % 16),
{
    lemma_digit(b as int / 16);
    lemma_digit(b as int % 16);
    assert(digit_value(s[0]) == digit_value(hex_pair(b)[0]));
    assert(digit_value(s[1]) == digit_value(hex_pair(b)[1]));
    assert(s.drop_last().drop_last() == Seq::<char>::empty());
    assert(digits_value(s.drop_last().drop_last(), 16) == 0);
    assert(s.drop_last().last() == s[0]);
    assert(digits_value(s.drop_last(), 16) == b as int / 16);
    assert(s.last() == s[1]);
    assert(unsigned_part(s) == s);
}

/// Reading pairs one after the other.
proof fn lemma_hex_bytes_append(s: Seq<char>, pair: Seq<char>, b: u8)
    requires
        hex_bytes(s) is Some,
        same_digits(pair, hex_pair(b)),
    ensures
        hex_bytes(s + pair) == Some(hex_bytes(s)->0.push(b)),
    decreases s.len(),
{
    let whole = s + pair;
    if s.len() == 0 {
        assert(whole == pair);
        lemma_hex_pair(pair, b);
        assert(hex_bytes(pair.skip(2)) == Some(Seq::<u8>::empty()));
        assert(hex_bytes(s)->0 == Seq::<u8>::empty());
        assert(seq![b] + Seq::<u8>::empty() == Seq::<u8>::empty().push(b));
    } else {
        assert(whole[0] == s[0] && whole[1] == s[1]);
        assert(whole.skip(2) == s.skip(2) + pair);
        lemma_hex_bytes_append(s.skip(2), pair, b);
        let first = (digit_value(s[0])->0 * 16 + digit_value(s[1])->0) as u8;
        let rest = hex_bytes(s.skip(2))->0;
        assert(seq![first] + rest.push(b) == (seq![first] + rest).push(b));
    }
}

/// Bytes written as hexadecimal pairs, letters in either case, are read as
/// themselves.
pub proof fn law_hex_reads_back(bytes: Seq<u8>, s: Seq<char>)
    requires
        same_digits(s, hex_digits(bytes)),
    ensures
        hex_bytes(s) == Some(bytes),
    decreases bytes.len(),
{
    let digits = hex_digits(bytes);
    if bytes.len() == 0 {
        assert(bytes == Seq::<u8>::empty());
    } else {
        let n = digits.len() - 2;
        let front = hex_digits(bytes.drop_last());
        let pair = hex_pair(bytes.last());
        assert forall|i: int| 0 <= i < n implies digit_value(#[trigger] s.take(n)[i]) is Some
            && digit_value(s.take(n)[i]) == digit_value(front[i]) by {
            assert(s.take(n)[i] == s[i] && digits[i] == front[i]);
        }
        assert forall|i: int| 0 <= i < 2 implies digit_value(#[trigger] s.skip(n)[i]) is Some
            && digit_value(s.skip(n)[i]) == digit_value(pair[i]) by {
            assert(s.skip(n)[i] == s[n + i] && digits[n + i] == pair[i]);
        }
        law_hex_reads_back(bytes.drop_last(), s.take(n));
        lemma_hex_bytes_append(s.take(n), s.skip(n), bytes.last());
        assert(s.take(n) + s.skip(n) == s);
        assert(bytes.drop_last().push(bytes.last()) == bytes);
    }
}

/// What is read as hexadecimal pairs is digits alone.
pub proof fn law_hex_refuses(s: Seq<char>)
    ensures
        hex_bytes(s) is Some <==> s.len() % 2 == 0 && forall|i: int|
            0 <= i < s.len() ==> digit_value(#[trigger] s[i]) is Some,
    decreases s.len(),
{
    if s.len() >= 2 {
        let tail = s.skip(2);
        law_hex_refuses(tail);
        assert forall|i: int| 0 <= i < tail.len() implies tail[i] == s[i + 2] by {}
        if hex_bytes(s) is Some {
            assert forall|i: int| 0 <= i < s.len() implies digit_value(#[trigger] s[i]) is Some by {
                if i >= 2 {
                    assert(s[i] == tail[i - 2]);
                }
            }
        }
    }
}

// ---------------------------------------------------------------------------
// Big-endian bytes
// ---------------------------------------------------------------------------

/// The two bytes of `n`, the most significant first.
pub open spec fn be16(n: u16) -> Seq<u8> {
    seq![(n / 256) as u8, (n % 256) as u8]
}

/// The four bytes of `n`, the most significant first.
pub open spec fn be32(n: u32) -> Seq<u8> {
    seq![
        (n / 0x100_0000) as u8,
        (n / 0x1_0000 % 256) as u8,
        (n / 256 % 256) as u8,
        (n % 256) as u8,
    ]
}

/// The number whose bytes are `a` and `b`, the most significant first.
pub open spec fn from_be16(a: u8, b: u8) -> u16 {
    (a * 256 + b) as u16
}

/// The number whose bytes are `a` to `d`, the most significant first.
pub open spec fn from_be32(a: u8, b: u8, c: u8, d: u8) -> u32 {
    (a * 0x100_0000 + b * 0x1_0000 + c * 256 + d) as u32
}

/// Bytes taken from a number make the same number.
pub proof fn law_be_reads_back(n: u16, m: u32)
    ensures
        from_be16(be16(n)[0], be16(n)[1]) == n,
        from_be32(be32(m)[0], be32(m)[1], be32(m)[2], be32(m)[3]) == m,
{
}

/// Two hexadecimal digits more.
proof fn lemma_digits_pair(s: Seq<char>, b: u8)
    requires
        all_digits(s, 16),
    ensures
        all_digits(s + hex_pair(b), 16),
        digits_value(s + hex_pair(b), 16) == digits_value(s, 16) * 256 + b,
{
    let whole = s + hex_pair(b);
    let n = s.len() as int;
    lemma_digit(b as int / 16);
    lemma_digit(b as int % 16);
    assert(whole.take(n) == s);
    assert(whole[n] == digit(b as int / 16));
    assert(whole[n + 1] == digit(b as int % 16));
    lemma_digits_step(whole, 16, n);
    lemma_digits_step(whole, 16, n + 1);
    assert(whole.take(n + 2) == whole);
}

/// A number written as the eight hexadecimal digits of its bytes is read back.
pub proof fn law_hex_number_reads_back(n: u32)
    ensures
        number(hex_digits(be32(n)), 16, 0xffff_ffff) == Some(n as int),
{
    let b = be32(n);
    let none = Seq::<u8>::empty();
    assert(b.drop_last().drop_last().drop_last().drop_last() == none);
    let one = hex_digits(b.take(1));
    let two = hex_digits(b.take(2));
    let three = hex_digits(b.take(3));
    let four = hex_digits(b);
    assert(b.take(1).drop_last() == none);
    assert(b.take(2).drop_last() == b.take(1));
    assert(b.take(3).drop_last() == b.take(2));
    assert(b.drop_last() == b.take(3));
    assert(hex_digits(none) == Seq::<char>::empty());
    assert(digits_value(Seq::<char>::empty(), 16) == 0);
    lemma_digits_pair(Seq::<char>::empty(), b[0]);
    lemma_digits_pair(one, b[1]);
    lemma_digits_pair(two, b[2]);
    lemma_digits_pair(three, b[3]);
    assert(digits_value(four, 16) == ((b[0] * 256 + b[1]) * 256 + b[2]) * 256 + b[3]);
    law_be_reads_back(0, n);
    assert(digit_value(four[0]) is Some);
    assert(unsigned_part(four) == four);
}

/// Four bytes make a number that has them.
pub proof fn lemma_be32_of(a: u8, b: u8, c: u8, d: u8)
    ensures
        be32(from_be32(a, b, c, d)) == seq![a, b, c, d],
{
    let n = from_be32(a, b, c, d);
    let low: int = b * 0x1_0000 + c * 256 + d;
    let lower: int = c * 256 + d;
    assert(n == a * 0x100_0000 + low && 0 <= low < 0x100_0000);
    assert(n / 0x100_0000 == a);
    assert(n / 0x1_0000 == a * 256 + b) by {
        assert(n == (a * 256 + b) * 0x1_0000 + lower && 0 <= lower < 0x1_0000);
    }
    assert(n / 256 == (a * 256 + b) * 256 + c) by {
        assert(n == ((a * 256 + b) * 256 + c) * 256 + d);
    }
}

/// The four bytes of `n`.
pub fn to_be32(n: u32) -> (out: [u8; 4])
    ensures
        out@ == be32(n),
{
    let out: [u8; 4] = [
        (n / 0x100_0000) as u8,
        (n / 0x1_0000 % 256) as u8,
        (n / 256 % 256) as u8,
        (n % 256) as u8,
    ];
    assert(out@ == be32(n));
    out
}

/// The two bytes of `n`.
pub fn to_be16(n: u16) -> (out: [u8; 2])
    ensures
        out@ == be16(n),
{
    let out: [u8; 2] = [(n / 256) as u8, (n % 256) as u8];
    assert(out@ == be16(n));
    out
}

/// The number whose bytes are `a` and `b`.
pub fn of_be16(a: u8, b: u8) -> (n: u16)
    ensures
        n == from_be16(a, b),
{
    a as u16 * 256 + b as u16
}

/// The number whose bytes are `a` to `d`.
pub fn of_be32(a: u8, b: u8, c: u8, d: u8) -> (n: u32)
    ensures
        n == from_be32(a, b, c, d),
{
    a as u32 * 0x100_0000 + b as u32 * 0x1_0000 + c as u32 * 256 + d as u32
}

}
