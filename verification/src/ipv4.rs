//! IPv4 addresses and their dotted form.

use vstd::prelude::*;

use crate::number;
use crate::number::{parse_unsigned, to_decimal};
use crate::text;
use crate::text::{push_all, split};

verus! {

/// An IPv4 address, by its four octets.
#[derive(Clone, Copy, Debug, PartialEq, Eq, Structural)]
pub struct Ipv4Addr {
    pub a: u8,
    pub b: u8,
    pub c: u8,
    pub d: u8,
}

/// The octet that `s` spells: the decimal of a byte, without sign or leading
/// zero.
pub open spec fn octet(s: Seq<char>) -> Option<u8> {
    match number::unsigned(s, 10, 255) {
        Some(n) => if s.len() == 1 || s[0] != '0' {
            Some(n as u8)
        } else {
            None
        },
        None => None,
    }
}

/// The address that `s` spells: four octets with full stops between them.
pub open spec fn dotted_read(s: Seq<char>) -> Option<Ipv4Addr> {
    let parts = text::pieces(s, seq!['.']);
    if parts.len() != 4 {
        None
    } else {
        match (octet(parts[0]), octet(parts[1]), octet(parts[2]), octet(parts[3])) {
            (Some(a), Some(b), Some(c), Some(d)) => Some(Ipv4Addr { a, b, c, d }),
            _ => None,
        }
    }
}

impl Ipv4Addr {
    /// The dotted form: the octets in decimal with full stops between them.
    pub open spec fn dotted(self) -> Seq<char> {
        text::joined(
            seq![
                number::decimal(self.a as nat),
                number::decimal(self.b as nat),
                number::decimal(self.c as nat),
                number::decimal(self.d as nat),
            ],
            seq!['.'],
        )
    }

    /// The four octets.
    pub open spec fn bytes(self) -> Seq<u8> {
        seq![self.a, self.b, self.c, self.d]
    }

    /// The address in the four bytes from `at`.
    pub open spec fn at(bytes: Seq<u8>, at: int) -> Self {
        Ipv4Addr { a: bytes[at], b: bytes[at + 1], c: bytes[at + 2], d: bytes[at + 3] }
    }

    /// The address `a.b.c.d`.
    pub fn new(a: u8, b: u8, c: u8, d: u8) -> (r: Self)
        ensures
            r == (Ipv4Addr { a, b, c, d }),
    {
        Ipv4Addr { a, b, c, d }
    }

    /// The address `0.0.0.0`.
    pub open spec fn zero() -> Self {
        Ipv4Addr { a: 0, b: 0, c: 0, d: 0 }
    }

    /// The address `0.0.0.0`.
    pub fn unspecified() -> (r: Self)
        ensures
            r == Self::zero(),
    {
        Ipv4Addr { a: 0, b: 0, c: 0, d: 0 }
    }

    /// The four octets.
    pub fn octets(&self) -> (r: [u8; 4])
        ensures
            r@ == self.bytes(),
    {
        let r: [u8; 4] = [self.a, self.b, self.c, self.d];
        assert(r@ == self.bytes());
        r
    }

    /// The dotted form.
    pub fn to_dotted(&self) -> (out: Vec<char>)
        ensures
            out@ == self.dotted(),
    {
        let dot: [char; 1] = ['.'];
        assert(dot@ == seq!['.']);
        let mut out: Vec<char> = to_decimal(self.a as u64);
        push_all(&mut out, dot.as_slice());
        let b: Vec<char> = to_decimal(self.b as u64);
        push_all(&mut out, b.as_slice());
        push_all(&mut out, dot.as_slice());
        let c: Vec<char> = to_decimal(self.c as u64);
        push_all(&mut out, c.as_slice());
        push_all(&mut out, dot.as_slice());
        let d: Vec<char> = to_decimal(self.d as u64);
        push_all(&mut out, d.as_slice());
        proof {
            lemma_join_four(a_parts(*self));
        }
        out
    }

    /// The address whose dotted form is `s`.
    pub fn parse(s: &[char]) -> (r: Option<Self>)
        ensures
            r == dotted_read(s@),
    {
        let dot: [char; 1] = ['.'];
        assert(dot@ == seq!['.']);
        let parts: Vec<&[char]> = split(s, dot.as_slice());
        let ghost cut = text::pieces(s@, seq!['.']);
        assert(text::texts(parts@) == cut);
        if parts.len() != 4 {
            return None;
        }
        assert(cut[0] == parts@[0]@ && cut[1] == parts@[1]@ && cut[2] == parts@[2]@ && cut[3]
            == parts@[3]@);
        match (
            parse_octet(parts[0]),
            parse_octet(parts[1]),
            parse_octet(parts[2]),
            parse_octet(parts[3]),
        ) {
            (Some(a), Some(b), Some(c), Some(d)) => Some(Ipv4Addr { a, b, c, d }),
            _ => None,
        }
    }
}

/// The octet that `s` spells.
fn parse_octet(s: &[char]) -> (r: Option<u8>)
    ensures
        r == octet(s@),
{
    match parse_unsigned(s, 10, 255) {
        Some(n) => if s.len() == 1 || s[0] != '0' {
            Some(n as u8)
        } else {
            None
        },
        None => None,
    }
}

/// The four decimals of an address.
spec fn a_parts(address: Ipv4Addr) -> Seq<Seq<char>> {
    seq![
        number::decimal(address.a as nat),
        number::decimal(address.b as nat),
        number::decimal(address.c as nat),
        number::decimal(address.d as nat),
    ]
}

/// Four parts joined, written out.
proof fn lemma_join_four(parts: Seq<Seq<char>>)
    requires
        parts.len() == 4,
    ensures
        text::joined(parts, seq!['.']) == parts[0] + seq!['.'] + parts[1] + seq!['.']
            + parts[2] + seq!['.'] + parts[3],
{
    let p3 = parts.drop_last();
    let p2 = p3.drop_last();
    let p1 = p2.drop_last();
    assert(text::joined(p1, seq!['.']) == parts[0]);
    assert(text::joined(p2, seq!['.']) == parts[0] + seq!['.'] + parts[1]);
    assert(text::joined(p3, seq!['.']) == parts[0] + seq!['.'] + parts[1] + seq!['.']
        + parts[2]);
}

/// A dotted form, written out.
pub proof fn lemma_dotted(address: Ipv4Addr)
    ensures
        address.dotted() == number::decimal(address.a as nat) + seq!['.'] + number::decimal(
            address.b as nat,
        ) + seq!['.'] + number::decimal(address.c as nat) + seq!['.'] + number::decimal(
            address.d as nat,
        ),
{
    lemma_join_four(a_parts(address));
}

/// A byte written in decimal is an octet, with no full stop in it.
proof fn lemma_octet(n: u8)
    ensures
        octet(number::decimal(n as nat)) == Some(n),
        text::lacks(number::decimal(n as nat), seq!['.']),
{
    let s = number::decimal(n as nat);
    number::law_decimal_reads_back(n as nat, 255);
    number::lemma_decimal_digits(n as nat);
    assert(number::digit_value(s[0]) is Some);
    assert forall|i: int| 0 <= i < s.len() implies !seq!['.'].contains(#[trigger] s[i]) by {
        assert(number::digit_value(s[i]) is Some);
    }
    if n >= 10 {
        lemma_decimal_leads(n as nat);
    }
}

/// A decimal of two digits or more has no leading zero.
proof fn lemma_decimal_leads(n: nat)
    requires
        n >= 1,
    ensures
        number::decimal(n).len() >= 1,
        number::decimal(n)[0] != '0',
    decreases n,
{
    if n >= 10 {
        lemma_decimal_leads(n / 10);
    }
}

/// An octet is the decimal of the byte.
proof fn lemma_octet_of(s: Seq<char>)
    requires
        octet(s) is Some,
    ensures
        s == number::decimal(octet(s)->0 as nat),
{
    number::lemma_decimal_of_digits(s);
}

/// An address is read from its dotted form and from nothing else.
pub proof fn law_dotted_reads_back(s: Seq<char>, address: Ipv4Addr)
    ensures
        dotted_read(s) == Some(address) <==> s == address.dotted(),
{
    let cut = text::pieces(s, seq!['.']);
    let parts = a_parts(address);
    lemma_octet(address.a);
    lemma_octet(address.b);
    lemma_octet(address.c);
    lemma_octet(address.d);
    if s == address.dotted() {
        assert(seq!['.'][0] == '.');
        text::law_joined_cuts_back(parts, '.', seq!['.']);
    }
    if dotted_read(s) == Some(address) {
        lemma_octet_of(cut[0]);
        lemma_octet_of(cut[1]);
        lemma_octet_of(cut[2]);
        lemma_octet_of(cut[3]);
        assert(cut == parts);
        text::law_pieces_join_back(s, '.');
    }
}

/// A dotted form holds digits and full stops alone.
pub proof fn lemma_dotted_chars(address: Ipv4Addr)
    ensures
        address.dotted().len() >= 1,
        forall|i: int|
            0 <= i < address.dotted().len() ==> ('0' <= #[trigger] address.dotted()[i] <= '9'
                || address.dotted()[i] == '.'),
{
    let parts = a_parts(address);
    lemma_join_four(parts);
    number::lemma_decimal_digits(address.a as nat);
    number::lemma_decimal_digits(address.b as nat);
    number::lemma_decimal_digits(address.c as nat);
    number::lemma_decimal_digits(address.d as nat);
    lemma_digit_chars(parts[0]);
    lemma_digit_chars(parts[1]);
    lemma_digit_chars(parts[2]);
    lemma_digit_chars(parts[3]);
}

/// Decimal digits are the characters from `0` to `9`.
proof fn lemma_digit_chars(s: Seq<char>)
    requires
        number::all_digits(s, 10),
    ensures
        forall|i: int| 0 <= i < s.len() ==> '0' <= #[trigger] s[i] <= '9',
{
    assert forall|i: int| 0 <= i < s.len() implies '0' <= #[trigger] s[i] <= '9' by {
        assert(number::digit_value(s[i]) is Some);
    }
}

}
