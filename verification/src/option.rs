//! RFC 2132 options in their `name=value` line form: the ten names a Stream
//! reads and writes, and the shape each value renders in: a type name, dotted
//! addresses, seconds, text or `0x` hex.

use vstd::prelude::*;

use crate::error::{Error, ErrorView};
use crate::ipv4;
use crate::ipv4::Ipv4Addr;
use crate::message;
use crate::message::{
    Message, MessageType, OPTION_CLIENT_ID, OPTION_DNS, OPTION_HOSTNAME, OPTION_LEASE_TIME,
    OPTION_MESSAGE_TYPE, OPTION_PARAMETER_LIST, OPTION_REQUESTED_ADDRESS, OPTION_ROUTER,
    OPTION_SERVER, OPTION_SUBNET_MASK,
};
use crate::number;
use crate::number::{digit_of, of_be32, parse_number, to_be32, to_decimal, value_of};
use crate::text;
use crate::text::{chars_of, find_first, push_all, spells, split, string_of, strip_prefix, trim};
use crate::utf8;
use crate::utf8::read_text;
use crate::wire::push_bytes;
use vstd::slice::{slice_subrange, slice_to_vec};

verus! {

// ---------------------------------------------------------------------------
// Hexadecimal
// ---------------------------------------------------------------------------

/// `bytes` as hexadecimal pairs.
pub open spec fn pairs(bytes: Seq<u8>) -> Seq<Seq<char>> {
    Seq::new(bytes.len(), |i: int| number::hex_pair(bytes[i]))
}

/// `bytes` as hexadecimal pairs with `between` between them.
#[must_use]
pub fn hex_pairs(bytes: &[u8], between: &str) -> (r: String)
    ensures
        r@ == text::joined(pairs(bytes@), between@),
{
    let between_chars: Vec<char> = chars_of(between);
    let mut out: Vec<char> = Vec::new();
    let mut i: usize = 0;
    let ghost all = pairs(bytes@);
    assert(all.take(0) == Seq::<Seq<char>>::empty());
    while i < bytes.len()
        invariant
            i <= bytes.len(),
            all == pairs(bytes@),
            between_chars@ == between@,
            out@ == text::joined(all.take(i as int), between@),
        decreases bytes.len() - i,
    {
        let ghost before = out@;
        if i > 0 {
            push_all(&mut out, between_chars.as_slice());
        }
        let ghost middle = out@;
        out.push(digit_of(bytes[i] / 16));
        out.push(digit_of(bytes[i] % 16));
        assert(out@ == middle + number::hex_pair(bytes@[i as int]));
        i += 1;
        assert(all.take(i as int).drop_last() == all.take(i - 1));
        assert(all.take(i as int).last() == number::hex_pair(bytes@[i - 1]));
        assert(i == 1 ==> out@ == all.take(1)[0]);
    }
    assert(all.take(i as int) == all);
    string_of(out.as_slice())
}

/// Pairs with nothing between them are the digits of the bytes.
pub proof fn lemma_pairs_joined(bytes: Seq<u8>)
    ensures
        text::joined(pairs(bytes), seq![]) == number::hex_digits(bytes),
    decreases bytes.len(),
{
    if bytes.len() > 0 {
        lemma_pairs_joined(bytes.drop_last());
        assert(pairs(bytes).drop_last() == pairs(bytes.drop_last()));
        if bytes.len() == 1 {
            assert(number::hex_digits(bytes.drop_last()) == Seq::<char>::empty());
            assert(Seq::<char>::empty() + number::hex_pair(bytes.last()) == number::hex_pair(
                bytes.last(),
            ));
        }
    }
}

/// The bytes that `digits` spell in hexadecimal, two each.
#[must_use]
pub fn unhex(digits: &str) -> (r: Option<Vec<u8>>)
    ensures
        match r {
            Some(bytes) => number::hex_bytes(digits@) == Some(bytes@),
            None => number::hex_bytes(digits@) is None,
        },
{
    let s: Vec<char> = chars_of(digits);
    let s: &[char] = s.as_slice();
    let mut out: Vec<u8> = Vec::new();
    let mut i: usize = 0;
    assert(s@.skip(0) == s@);
    while i < s.len()
        invariant
            i <= s.len(),
            s@ == digits@,
            number::hex_bytes(s@) == (match number::hex_bytes(s@.skip(i as int)) {
                Some(rest) => Some(out@ + rest),
                None => None,
            }),
        decreases s.len() - i,
    {
        let ghost rest = s@.skip(i as int);
        if s.len() - i < 2 {
            return None;
        }
        assert(rest[0] == s@[i as int] && rest[1] == s@[i + 1]);
        assert(rest.skip(2) == s@.skip(i + 2));
        let ghost had = out@;
        match (value_of(s[i]), value_of(s[i + 1])) {
            (Some(high), Some(low)) => {
                let b: u8 = (high * 16 + low) as u8;
                out.push(b);
                proof {
                    if let Some(tail) = number::hex_bytes(rest.skip(2)) {
                        assert(had + (seq![b] + tail) == out@ + tail);
                    }
                }
            },
            _ => {
                return None;
            },
        }
        i += 2;
    }
    assert(s@.skip(i as int) == Seq::<char>::empty());
    assert(out@ + Seq::<u8>::empty() == out@);
    Some(out)
}

// ---------------------------------------------------------------------------
// Names
// ---------------------------------------------------------------------------

/// The name that a line writes for option `code`.
pub open spec fn name_of(code: u8) -> Seq<char> {
    if code == OPTION_MESSAGE_TYPE {
        "message-type"@
    } else if code == OPTION_SERVER {
        "server"@
    } else if code == OPTION_REQUESTED_ADDRESS {
        "requested-address"@
    } else if code == OPTION_LEASE_TIME {
        "lease-time"@
    } else if code == OPTION_SUBNET_MASK {
        "subnet-mask"@
    } else if code == OPTION_ROUTER {
        "router"@
    } else if code == OPTION_DNS {
        "dns"@
    } else if code == OPTION_HOSTNAME {
        "hostname"@
    } else if code == OPTION_CLIENT_ID {
        "client-id"@
    } else if code == OPTION_PARAMETER_LIST {
        "parameter-list"@
    } else {
        "option-"@ + number::decimal(code as nat)
    }
}

/// The option that a line calls `name`.
pub open spec fn code_of(name: Seq<char>) -> Option<u8> {
    if name == "message-type"@ {
        Some(OPTION_MESSAGE_TYPE)
    } else if name == "server"@ {
        Some(OPTION_SERVER)
    } else if name == "requested-address"@ {
        Some(OPTION_REQUESTED_ADDRESS)
    } else if name == "lease-time"@ {
        Some(OPTION_LEASE_TIME)
    } else if name == "subnet-mask"@ {
        Some(OPTION_SUBNET_MASK)
    } else if name == "router"@ {
        Some(OPTION_ROUTER)
    } else if name == "dns"@ {
        Some(OPTION_DNS)
    } else if name == "hostname"@ {
        Some(OPTION_HOSTNAME)
    } else if name == "client-id"@ {
        Some(OPTION_CLIENT_ID)
    } else if name == "parameter-list"@ {
        Some(OPTION_PARAMETER_LIST)
    } else if text::starts_with(name, "option-"@) {
        match number::number(name.skip("option-"@.len() as int), 10, 255) {
            Some(code) => Some(code as u8),
            None => None,
        }
    } else {
        None
    }
}

/// The name that a line writes for option `code`.
#[must_use]
pub fn option_name(code: u8) -> (r: String)
    ensures
        r@ == name_of(code),
{
    if code == OPTION_MESSAGE_TYPE {
        "message-type".to_owned()
    } else if code == OPTION_SERVER {
        "server".to_owned()
    } else if code == OPTION_REQUESTED_ADDRESS {
        "requested-address".to_owned()
    } else if code == OPTION_LEASE_TIME {
        "lease-time".to_owned()
    } else if code == OPTION_SUBNET_MASK {
        "subnet-mask".to_owned()
    } else if code == OPTION_ROUTER {
        "router".to_owned()
    } else if code == OPTION_DNS {
        "dns".to_owned()
    } else if code == OPTION_HOSTNAME {
        "hostname".to_owned()
    } else if code == OPTION_CLIENT_ID {
        "client-id".to_owned()
    } else if code == OPTION_PARAMETER_LIST {
        "parameter-list".to_owned()
    } else {
        let mut name: Vec<char> = chars_of("option-");
        let digits: Vec<char> = to_decimal(code as u64);
        push_all(&mut name, digits.as_slice());
        string_of(name.as_slice())
    }
}

/// The option that a line calls `name`: one of the ten, or `option-` and a
/// number.
#[must_use]
pub fn option_code(name: &str) -> (r: Option<u8>)
    ensures
        r == code_of(name@),
{
    let s: Vec<char> = chars_of(name);
    let s: &[char] = s.as_slice();
    if spells(s, "message-type") {
        Some(OPTION_MESSAGE_TYPE)
    } else if spells(s, "server") {
        Some(OPTION_SERVER)
    } else if spells(s, "requested-address") {
        Some(OPTION_REQUESTED_ADDRESS)
    } else if spells(s, "lease-time") {
        Some(OPTION_LEASE_TIME)
    } else if spells(s, "subnet-mask") {
        Some(OPTION_SUBNET_MASK)
    } else if spells(s, "router") {
        Some(OPTION_ROUTER)
    } else if spells(s, "dns") {
        Some(OPTION_DNS)
    } else if spells(s, "hostname") {
        Some(OPTION_HOSTNAME)
    } else if spells(s, "client-id") {
        Some(OPTION_CLIENT_ID)
    } else if spells(s, "parameter-list") {
        Some(OPTION_PARAMETER_LIST)
    } else {
        match strip_prefix(s, "option-") {
            Some(digits) => match parse_number(digits, 10, 255) {
                Some(code) => Some(code as u8),
                None => None,
            },
            None => None,
        }
    }
}

// ---------------------------------------------------------------------------
// Values
// ---------------------------------------------------------------------------

/// The options whose value is a list of addresses.
pub open spec fn lists_addresses(code: u8) -> bool {
    code == OPTION_SUBNET_MASK || code == OPTION_ROUTER || code == OPTION_DNS || code
        == OPTION_REQUESTED_ADDRESS || code == OPTION_SERVER
}

/// The options whose value is written in pairs with colons.
pub open spec fn lists_pairs(code: u8) -> bool {
    code == OPTION_CLIENT_ID || code == OPTION_PARAMETER_LIST
}

/// The dotted forms of the addresses that `value` holds.
pub open spec fn dotted_forms(value: Seq<u8>) -> Seq<Seq<char>> {
    Seq::new((value.len() / 4) as nat, |i: int| Ipv4Addr::at(value, 4 * i).dotted())
}

/// The message type whose number begins `value`.
pub open spec fn leading_type(value: Seq<u8>) -> Option<MessageType> {
    if value.len() > 0 {
        message::type_coded(value[0])
    } else {
        None
    }
}

/// `0x` and the digits of `value`: how a value is written that is not of its
/// option's shape, or whose option has none.
pub open spec fn plain_hex(value: Seq<u8>) -> Seq<char> {
    "0x"@ + number::hex_digits(value)
}

/// `value` as the shape of option `code` writes it, in one line.
pub open spec fn rendered(code: u8, value: Seq<u8>) -> Seq<char> {
    if code == OPTION_MESSAGE_TYPE {
        match leading_type(value) {
            Some(t) => t.label(),
            None => plain_hex(value),
        }
    } else if lists_addresses(code) && value.len() % 4 == 0 && value.len() > 0 {
        text::joined(dotted_forms(value), seq![','])
    } else if code == OPTION_LEASE_TIME && value.len() == 4 {
        number::decimal(number::from_be32(value[0], value[1], value[2], value[3]) as nat)
    } else if code == OPTION_HOSTNAME && text::lacks(utf8::text_of(value), seq!['\n']) {
        utf8::text_of(value)
    } else if lists_pairs(code) {
        text::joined(pairs(value), ":"@)
    } else {
        plain_hex(value)
    }
}

/// The bytes of the addresses that `parts` spell, white space around each left
/// aside, or the first part that spells none.
pub open spec fn addresses_read(parts: Seq<Seq<char>>) -> Result<Seq<u8>, ErrorView>
    decreases parts.len(),
{
    if parts.len() == 0 {
        Ok(seq![])
    } else {
        match ipv4::dotted_read(text::trimmed(parts[0])) {
            Some(address) => match addresses_read(parts.skip(1)) {
                Ok(rest) => Ok(address.bytes() + rest),
                Err(error) => Err(error),
            },
            None => Err(ErrorView::NotAddress { part: parts[0] }),
        }
    }
}

/// The value that `s` writes for option `code`, or why it writes none.
pub open spec fn parsed(code: u8, s: Seq<char>) -> Result<Seq<u8>, ErrorView> {
    if code == OPTION_MESSAGE_TYPE {
        match message::type_called(s) {
            Some(t) => Ok(seq![t.number()]),
            None => Err(ErrorView::NotMessageType { value: s }),
        }
    } else if lists_addresses(code) {
        addresses_read(text::pieces(s, seq![',']))
    } else if code == OPTION_LEASE_TIME {
        match number::number(s, 10, 0xffff_ffff) {
            Some(seconds) => Ok(number::be32(seconds as u32)),
            None => Err(ErrorView::NotSeconds { value: s }),
        }
    } else if code == OPTION_HOSTNAME {
        Ok(vstd::utf8::encode_utf8(s))
    } else if lists_pairs(code) {
        match message::mac_octets(s) {
            Some(octets) => Ok(octets),
            None => Err(ErrorView::NotColonHex { value: s }),
        }
    } else if text::starts_with(s, "0x"@) && number::hex_bytes(s.skip("0x"@.len() as int)) is Some {
        Ok(number::hex_bytes(s.skip("0x"@.len() as int))->0)
    } else {
        Err(ErrorView::NotHexValue { code, value: s })
    }
}

/// Whether the value of option `code` is a list of addresses.
fn is_address_list(code: u8) -> (r: bool)
    ensures
        r == lists_addresses(code),
{
    code == OPTION_SUBNET_MASK || code == OPTION_ROUTER || code == OPTION_DNS || code
        == OPTION_REQUESTED_ADDRESS || code == OPTION_SERVER
}

/// The addresses that `value` holds, dotted and comma-separated.
fn render_addresses(value: &[u8]) -> (r: String)
    requires
        value@.len() % 4 == 0,
        value@.len() > 0,
    ensures
        r@ == text::joined(dotted_forms(value@), seq![',']),
{
    let mut out: Vec<char> = Vec::new();
    let mut i: usize = 0;
    let ghost all = dotted_forms(value@);
    let ghost mut n: int = 0;
    assert(all.take(0) == Seq::<Seq<char>>::empty());
    while i < value.len()
        invariant
            i <= value@.len(),
            i == 4 * n,
            value@.len() % 4 == 0,
            0 <= n <= all.len(),
            all == dotted_forms(value@),
            out@ == text::joined(all.take(n), seq![',']),
        decreases value.len() - i,
    {
        if i > 0 {
            out.push(',');
        }
        let address = Ipv4Addr::new(value[i], value[i + 1], value[i + 2], value[i + 3]);
        let dotted: Vec<char> = address.to_dotted();
        push_all(&mut out, dotted.as_slice());
        proof {
            assert(all[n] == address.dotted());
            assert(all.take(n + 1).drop_last() == all.take(n));
            assert(all.take(n + 1).last() == all[n]);
            assert(n == 0 ==> out@ == all.take(1)[0]);
            assert(n > 0 ==> out@ == text::joined(all.take(n), seq![',']) + seq![','] + all[n]);
            n = n + 1;
        }
        i += 4;
    }
    assert(all.take(n) == all);
    string_of(out.as_slice())
}

/// `bytes` as hexadecimal pairs with nothing between them.
pub fn hex_string(bytes: &[u8]) -> (r: String)
    ensures
        r@ == number::hex_digits(bytes@),
{
    proof {
        lemma_pairs_joined(bytes@);
        reveal_strlit("");
        assert(""@ =~= Seq::<char>::empty());
    }
    hex_pairs(bytes, "")
}

/// `0x` and the digits of `value`.
fn render_hex(value: &[u8]) -> (r: String)
    ensures
        r@ == plain_hex(value@),
{
    "0x".to_owned().concat(hex_string(value).as_str())
}

/// A host's name as text where that stands in one line, and otherwise as `0x`
/// hex.
fn render_hostname(value: &[u8]) -> (r: String)
    ensures
        r@ == rendered(OPTION_HOSTNAME, value@),
{
    let name: String = read_text(value);
    let chars: Vec<char> = chars_of(name.as_str());
    let feed: [char; 1] = ['\n'];
    assert(feed@ == seq!['\n']);
    let at: usize = find_first(chars.as_slice(), feed.as_slice());
    proof {
        text::lemma_first_of_found(name@, seq!['\n']);
    }
    if at == chars.len() {
        name
    } else {
        assert(seq!['\n'].contains(name@[at as int]));
        render_hex(value)
    }
}

/// A value as its option's shape writes it: a type name, addresses dotted
/// and comma-separated, a time in seconds, text, or `0x` hex.
#[must_use]
pub fn render_option(code: u8, value: &[u8]) -> (r: String)
    ensures
        r@ == rendered(code, value@),
{
    if code == OPTION_MESSAGE_TYPE {
        if value.len() > 0 {
            match MessageType::from_code(value[0]) {
                Some(t) => t.name().to_owned(),
                None => render_hex(value),
            }
        } else {
            render_hex(value)
        }
    } else if is_address_list(code) && value.len() % 4 == 0 && value.len() > 0 {
        render_addresses(value)
    } else if code == OPTION_LEASE_TIME && value.len() == 4 {
        let digits: Vec<char> = to_decimal(
            of_be32(value[0], value[1], value[2], value[3]) as u64,
        );
        string_of(digits.as_slice())
    } else if code == OPTION_HOSTNAME {
        render_hostname(value)
    } else if code == OPTION_CLIENT_ID || code == OPTION_PARAMETER_LIST {
        hex_pairs(value, ":")
    } else {
        render_hex(value)
    }
}

/// The bytes of the addresses that `text` lists.
fn parse_addresses(text: &str) -> (r: Result<Vec<u8>, Error>)
    ensures
        match r {
            Ok(value) => addresses_read(text::pieces(text@, seq![','])) == Ok::<Seq<u8>, ErrorView>(
                value@,
            ),
            Err(error) => addresses_read(text::pieces(text@, seq![','])) == Err::<
                Seq<u8>,
                ErrorView,
            >(error@),
        },
{
    let s: Vec<char> = chars_of(text);
    let comma: [char; 1] = [','];
    assert(comma@ == seq![',']);
    let parts: Vec<&[char]> = split(s.as_slice(), comma.as_slice());
    let ghost cut = text::pieces(text@, seq![',']);
    assert(text::texts(parts@) == cut);
    let mut out: Vec<u8> = Vec::new();
    let mut i: usize = 0;
    proof {
        assert(cut.skip(0) == cut);
        if let Ok(rest) = addresses_read(cut) {
            assert(out@ + rest == rest);
        }
    }
    while i < parts.len()
        invariant
            i <= parts@.len(),
            text::texts(parts@) == cut,
            cut == text::pieces(text@, seq![',']),
            addresses_read(cut) == (match addresses_read(cut.skip(i as int)) {
                Ok(rest) => Ok::<Seq<u8>, ErrorView>(out@ + rest),
                Err(error) => Err(error),
            }),
        decreases parts.len() - i,
    {
        let ghost here = cut.skip(i as int);
        assert(here[0] == parts@[i as int]@);
        assert(here.skip(1) == cut.skip(i + 1));
        match Ipv4Addr::parse(trim(parts[i])) {
            Some(address) => {
                let ghost had = out@;
                push_bytes(&mut out, address.octets().as_slice());
                proof {
                    if let Ok(rest) = addresses_read(cut.skip(i + 1)) {
                        assert(had + (address.bytes() + rest) == out@ + rest);
                    }
                }
            },
            None => {
                return Err(Error::NotAddress { part: string_of(parts[i]) });
            },
        }
        i += 1;
    }
    assert(cut.skip(i as int).len() == 0);
    assert(out@ + Seq::<u8>::empty() == out@);
    Ok(out)
}

/// The value that `text` writes for option `code`.
///
/// # Errors
/// A value not shaped for its option.
pub fn parse_option(code: u8, text: &str) -> (r: Result<Vec<u8>, Error>)
    ensures
        match r {
            Ok(value) => parsed(code, text@) == Ok::<Seq<u8>, ErrorView>(value@),
            Err(error) => parsed(code, text@) == Err::<Seq<u8>, ErrorView>(error@),
        },
{
    if code == OPTION_MESSAGE_TYPE {
        match MessageType::parse(text) {
            Some(t) => {
                let mut value: Vec<u8> = Vec::new();
                value.push(t.code());
                assert(value@ == seq![t.number()]);
                Ok(value)
            },
            None => Err(Error::NotMessageType { value: text.to_owned() }),
        }
    } else if is_address_list(code) {
        parse_addresses(text)
    } else if code == OPTION_LEASE_TIME {
        let s: Vec<char> = chars_of(text);
        match parse_number(s.as_slice(), 10, 0xffff_ffff) {
            Some(seconds) => Ok(slice_to_vec(to_be32(seconds).as_slice())),
            None => Err(Error::NotSeconds { value: text.to_owned() }),
        }
    } else if code == OPTION_HOSTNAME {
        Ok(slice_to_vec(text.as_bytes()))
    } else if code == OPTION_CLIENT_ID || code == OPTION_PARAMETER_LIST {
        match Message::parse_mac(text) {
            Some(octets) => Ok(octets),
            None => Err(Error::NotColonHex { value: text.to_owned() }),
        }
    } else {
        let s: Vec<char> = chars_of(text);
        match strip_prefix(s.as_slice(), "0x") {
            Some(digits) => match unhex(string_of(digits).as_str()) {
                Some(value) => Ok(value),
                None => Err(Error::NotHexValue { code, value: text.to_owned() }),
            },
            None => Err(Error::NotHexValue { code, value: text.to_owned() }),
        }
    }
}

// ---------------------------------------------------------------------------
// What is written is read
// ---------------------------------------------------------------------------

/// The names of options, letter by letter.
pub proof fn lemma_names()
    ensures
        "message-type"@ == seq!['m', 'e', 's', 's', 'a', 'g', 'e', '-', 't', 'y', 'p', 'e'],
        "server"@ == seq!['s', 'e', 'r', 'v', 'e', 'r'],
        "requested-address"@ == seq!['r', 'e', 'q', 'u', 'e', 's', 't', 'e', 'd', '-']
            + seq!['a', 'd', 'd', 'r', 'e', 's', 's'],
        "lease-time"@ == seq!['l', 'e', 'a', 's', 'e', '-', 't', 'i', 'm', 'e'],
        "subnet-mask"@ == seq!['s', 'u', 'b', 'n', 'e', 't', '-', 'm', 'a', 's', 'k'],
        "router"@ == seq!['r', 'o', 'u', 't', 'e', 'r'],
        "dns"@ == seq!['d', 'n', 's'],
        "hostname"@ == seq!['h', 'o', 's', 't', 'n', 'a', 'm', 'e'],
        "client-id"@ == seq!['c', 'l', 'i', 'e', 'n', 't', '-', 'i', 'd'],
        "parameter-list"@ == seq!['p', 'a', 'r', 'a', 'm', 'e', 't', 'e', 'r', '-']
            + seq!['l', 'i', 's', 't'],
        "option-"@ == seq!['o', 'p', 't', 'i', 'o', 'n', '-'],
{
    reveal_strlit("message-type");
    reveal_strlit("server");
    reveal_strlit("requested-address");
    reveal_strlit("lease-time");
    reveal_strlit("subnet-mask");
    reveal_strlit("router");
    reveal_strlit("dns");
    reveal_strlit("hostname");
    reveal_strlit("client-id");
    reveal_strlit("parameter-list");
    reveal_strlit("option-");
}

/// Names are visible and have no equals sign in them.
pub proof fn lemma_name_plain(code: u8)
    ensures
        name_of(code).len() > 0,
        text::visible(name_of(code)),
        text::lacks(name_of(code), seq!['=']),
{
    lemma_names();
    number::lemma_decimal_digits(code as nat);
    let digits = number::decimal(code as nat);
    let name = name_of(code);
    assert forall|i: int| 0 <= i < name.len() implies text::is_visible(#[trigger] name[i])
        && name[i] != '=' by {
        if i >= 7 && name == "option-"@ + digits {
            assert(name[i] == digits[i - 7]);
            assert(number::digit_value(digits[i - 7]) is Some);
        }
    }
}

/// An option is found again by the name that is written for it.
pub proof fn law_name_finds_code(code: u8)
    ensures
        code_of(name_of(code)) == Some(code),
{
    lemma_names();
    let digits = number::decimal(code as nat);
    number::law_decimal_reads_back(code as nat, 255);
    let name = "option-"@ + digits;
    assert(name[0] == 'o');
    assert(name.take(7) == "option-"@);
    assert(name.skip(7) == digits);
    assert("message-type"@[0] == 'm' && "server"@[0] == 's' && "requested-address"@[0] == 'r'
        && "lease-time"@[0] == 'l' && "subnet-mask"@[0] == 's' && "router"@[0] == 'r' && "dns"@[0]
        == 'd' && "hostname"@[0] == 'h' && "client-id"@[0] == 'c' && "parameter-list"@[0] == 'p');
}

/// A pair is visible, and neither a colon nor a hyphen is in it.
proof fn lemma_pair_plain(b: u8)
    ensures
        text::visible(number::hex_pair(b)),
        text::lacks(number::hex_pair(b), seq![':', '-']),
{
    let s = number::hex_pair(b);
    number::lemma_digit(b as int / 16);
    number::lemma_digit(b as int % 16);
    assert forall|i: int| 0 <= i < s.len() implies text::is_visible(#[trigger] s[i]) && !seq![
        ':',
        '-',
    ].contains(s[i]) by {
        assert(i == 0 || i == 1);
    }
}

/// Up to sixteen bytes written as pairs, letters in either case, with colons or
/// with hyphens between them, are read as a hardware address of those bytes.
pub proof fn law_mac_reads_back(bytes: Seq<u8>, parts: Seq<Seq<char>>, mark: char)
    requires
        1 <= bytes.len() <= 16,
        mark == ':' || mark == '-',
        parts.len() == bytes.len(),
        forall|i: int|
            0 <= i < parts.len() ==> number::same_digits(
                #[trigger] parts[i],
                number::hex_pair(bytes[i]),
            ),
    ensures
        message::mac_octets(text::joined(parts, seq![mark])) == Some(bytes),
{
    let marks = seq![':', '-'];
    assert(marks[0] == ':' && marks[1] == '-');
    assert forall|i: int| 0 <= i < parts.len() implies text::lacks(#[trigger] parts[i], marks) by {
        assert(number::same_digits(parts[i], number::hex_pair(bytes[i])));
    }
    text::law_joined_cuts_back(parts, mark, marks);
    assert forall|i: int| 0 <= i < parts.len() implies number::number(
        #[trigger] parts[i],
        16,
        255,
    ) == Some(bytes[i] as int) by {
        number::lemma_hex_pair(parts[i], bytes[i]);
    }
    assert(message::mac_octets(text::joined(parts, seq![mark]))->0 =~= bytes);
}

/// The pairs of bytes are read back.
pub proof fn lemma_pairs_read_back(bytes: Seq<u8>)
    requires
        1 <= bytes.len() <= 16,
    ensures
        message::mac_octets(text::joined(pairs(bytes), ":"@)) == Some(bytes),
{
    reveal_strlit(":");
    assert(":"@ =~= seq![':']);
    let parts = pairs(bytes);
    assert forall|i: int| 0 <= i < parts.len() implies number::same_digits(
        #[trigger] parts[i],
        number::hex_pair(bytes[i]),
    ) by {
        number::lemma_hex_pair_same(bytes[i]);
    }
    law_mac_reads_back(bytes, parts, ':');
}

/// The digits of bytes are visible.
proof fn lemma_hex_digits_visible(bytes: Seq<u8>)
    ensures
        text::visible(number::hex_digits(bytes)),
    decreases bytes.len(),
{
    if bytes.len() > 0 {
        lemma_hex_digits_visible(bytes.drop_last());
        lemma_pair_plain(bytes.last());
        text::lemma_visible_concat(
            number::hex_digits(bytes.drop_last()),
            number::hex_pair(bytes.last()),
        );
    }
}

/// A dotted form is visible and has no comma in it.
pub proof fn lemma_dotted_plain(address: Ipv4Addr)
    ensures
        text::visible(address.dotted()),
        text::lacks(address.dotted(), seq![',']),
{
    ipv4::lemma_dotted_chars(address);
    let s = address.dotted();
    assert forall|i: int| 0 <= i < s.len() implies text::is_visible(#[trigger] s[i]) && !seq![
        ',',
    ].contains(s[i]) by {
        assert('0' <= s[i] <= '9' || s[i] == '.');
    }
}

/// Addresses are read from their dotted forms.
proof fn lemma_addresses_read_back(value: Seq<u8>)
    requires
        value.len() % 4 == 0,
    ensures
        addresses_read(dotted_forms(value)) == Ok::<Seq<u8>, ErrorView>(value),
    decreases value.len(),
{
    if value.len() == 0 {
        assert(value == Seq::<u8>::empty());
    } else {
        let forms = dotted_forms(value);
        let rest = value.skip(4);
        assert(forms.skip(1) =~= dotted_forms(rest)) by {
            assert forall|i: int| 0 <= i < forms.len() - 1 implies #[trigger] forms.skip(1)[i]
                == dotted_forms(rest)[i] by {
                assert(Ipv4Addr::at(value, 4 * (i + 1)) == Ipv4Addr::at(rest, 4 * i));
            }
        }
        lemma_addresses_read_back(rest);
        let address = Ipv4Addr::at(value, 0);
        lemma_dotted_plain(address);
        text::lemma_visible(address.dotted());
        ipv4::law_dotted_reads_back(address.dotted(), address);
        assert(address.bytes() + rest == value);
    }
}

/// A value that the shape of its option writes whole: a message type alone;
/// addresses, at least one; a time of four bytes; text without a line feed; one
/// to sixteen bytes for pairs; and any bytes for an option without a name of its
/// own.
pub open spec fn shaped(code: u8, value: Seq<u8>) -> bool {
    if code == OPTION_MESSAGE_TYPE {
        value.len() == 1 && leading_type(value) is Some
    } else if lists_addresses(code) {
        value.len() > 0 && value.len() % 4 == 0
    } else if code == OPTION_LEASE_TIME {
        value.len() == 4
    } else if code == OPTION_HOSTNAME {
        &&& vstd::utf8::valid_utf8(value)
        &&& text::lacks(vstd::utf8::decode_utf8(value), seq!['\n'])
    } else if lists_pairs(code) {
        1 <= value.len() <= 16
    } else {
        true
    }
}

/// A value that its option's shape writes whole is read back from what is
/// written.
pub proof fn law_value_reads_back(code: u8, value: Seq<u8>)
    requires
        shaped(code, value),
    ensures
        parsed(code, rendered(code, value)) == Ok::<Seq<u8>, ErrorView>(value),
{
    reveal_strlit("0x");
    if code == OPTION_MESSAGE_TYPE {
        message::law_message_type_found(leading_type(value)->0);
        assert(value =~= seq![value[0]]);
    } else if lists_addresses(code) {
        let forms = dotted_forms(value);
        assert forall|i: int| 0 <= i < forms.len() implies text::lacks(
            #[trigger] forms[i],
            seq![','],
        ) by {
            lemma_dotted_plain(Ipv4Addr::at(value, 4 * i));
        }
        assert(seq![','][0] == ',');
        text::law_joined_cuts_back(forms, ',', seq![',']);
        lemma_addresses_read_back(value);
    } else if code == OPTION_LEASE_TIME {
        let seconds = number::from_be32(value[0], value[1], value[2], value[3]);
        number::law_decimal_reads_back(seconds as nat, 0xffff_ffff);
        number::lemma_be32_of(value[0], value[1], value[2], value[3]);
        assert(value =~= seq![value[0], value[1], value[2], value[3]]);
    } else if code == OPTION_HOSTNAME {
        vstd::utf8::decode_utf8_encode_utf8(value);
    } else if lists_pairs(code) {
        lemma_pairs_read_back(value);
    } else {
        let s = "0x"@ + number::hex_digits(value);
        assert(s.take(2) == "0x"@);
        assert(s.skip(2) == number::hex_digits(value));
        number::lemma_hex_digits_same(value);
        number::law_hex_reads_back(value, number::hex_digits(value));
    }
}

/// What is written of a value stands in one line.
pub proof fn lemma_rendered_in_line(code: u8, value: Seq<u8>)
    ensures
        text::lacks(rendered(code, value), seq!['\n']),
{
    let s = rendered(code, value);
    if code != OPTION_HOSTNAME || s == plain_hex(value) {
        lemma_rendered_visible(code, value);
        text::lemma_visible(s);
    }
}

/// What is written of a value has no white space at its ends, but for a host's
/// name.
pub proof fn lemma_rendered_trimmed(code: u8, value: Seq<u8>)
    requires
        code != OPTION_HOSTNAME,
    ensures
        text::trimmed(rendered(code, value)) == rendered(code, value),
{
    lemma_rendered_visible(code, value);
    text::lemma_visible(rendered(code, value));
}

/// What is written of a value is visible, but for a host's name.
proof fn lemma_rendered_visible(code: u8, value: Seq<u8>)
    requires
        code != OPTION_HOSTNAME || rendered(code, value) == plain_hex(value),
    ensures
        text::visible(rendered(code, value)),
{
    reveal_strlit(":");
    reveal_strlit("0x");
    assert(":"@ =~= seq![':']);
    let s = rendered(code, value);
    lemma_hex_digits_visible(value);
    text::lemma_visible_concat("0x"@, number::hex_digits(value));
    if code == OPTION_MESSAGE_TYPE {
        message::lemma_labels();
    } else if lists_addresses(code) && value.len() % 4 == 0 && value.len() > 0 {
        let forms = dotted_forms(value);
        assert forall|i: int| 0 <= i < forms.len() implies text::visible(#[trigger] forms[i]) by {
            lemma_dotted_plain(Ipv4Addr::at(value, 4 * i));
        }
        text::lemma_visible_joined(forms, seq![',']);
    } else if code == OPTION_LEASE_TIME && value.len() == 4 {
        number::lemma_decimal_digits(
            number::from_be32(value[0], value[1], value[2], value[3]) as nat,
        );
        assert forall|i: int| 0 <= i < s.len() implies text::is_visible(#[trigger] s[i]) by {
            assert(number::digit_value(s[i]) is Some);
        }
    } else if lists_pairs(code) {
        let parts = pairs(value);
        assert forall|i: int| 0 <= i < parts.len() implies text::visible(#[trigger] parts[i]) by {
            lemma_pair_plain(value[i]);
        }
        text::lemma_visible_joined(parts, ":"@);
    }
}

/// Only digits stand in the digits of bytes.
pub proof fn lemma_hex_digits_lack(bytes: Seq<u8>, mark: char)
    requires
        number::digit_value(mark) is None,
    ensures
        text::lacks(number::hex_digits(bytes), seq![mark]),
    decreases bytes.len(),
{
    if bytes.len() > 0 {
        lemma_hex_digits_lack(bytes.drop_last(), mark);
        lemma_pair_lacks(bytes.last(), mark);
        text::lemma_lacks_concat(
            number::hex_digits(bytes.drop_last()),
            number::hex_pair(bytes.last()),
            seq![mark],
        );
    }
}

/// Only digits stand in a pair.
pub proof fn lemma_pair_lacks(b: u8, mark: char)
    requires
        number::digit_value(mark) is None,
    ensures
        text::lacks(number::hex_pair(b), seq![mark]),
{
    let s = number::hex_pair(b);
    number::lemma_digit(b as int / 16);
    number::lemma_digit(b as int % 16);
    assert forall|i: int| 0 <= i < s.len() implies !seq![mark].contains(#[trigger] s[i]) by {
        assert(i == 0 || i == 1);
    }
}

/// Only digits and colons stand in pairs with colons.
pub proof fn lemma_pairs_lack(bytes: Seq<u8>, mark: char)
    requires
        number::digit_value(mark) is None,
        mark != ':',
    ensures
        text::lacks(text::joined(pairs(bytes), ":"@), seq![mark]),
{
    reveal_strlit(":");
    let parts = pairs(bytes);
    assert forall|i: int| 0 <= i < parts.len() implies text::lacks(
        #[trigger] parts[i],
        seq![mark],
    ) by {
        lemma_pair_lacks(bytes[i], mark);
    }
    text::lemma_lacks_joined(parts, ":"@, seq![mark]);
}

/// Only small letters stand in the name of a message type.
pub proof fn lemma_label_lacks(t: MessageType, mark: char)
    requires
        !('a' <= mark <= 'z'),
    ensures
        text::lacks(t.label(), seq![mark]),
{
    message::lemma_labels();
    let s = t.label();
    assert forall|i: int| 0 <= i < s.len() implies !seq![mark].contains(#[trigger] s[i]) by {
        assert('a' <= s[i] <= 'z');
    }
}

}
