//! Options: their names, and their values as text.

use vstd::prelude::*;

use crate::error::ErrorView;
use crate::ipv4;
use crate::ipv4::Ipv4Addr;
use crate::laws;
use crate::message;
use crate::message::MessageType;
use crate::number;
use crate::option;
use crate::text;
use crate::utf8;

verus! {

/// Pairs with colons are two digits for each byte, with a colon between each
/// two, however many bytes there are.
pub proof fn law_pairs(bytes: Seq<u8>)
    ensures
        bytes.len() == 0 ==> text::joined(option::pairs(bytes), ":"@).len() == 0,
        bytes.len() > 0 ==> text::joined(option::pairs(bytes), ":"@).len() == 3 * bytes.len() - 1,
        forall|i: int|
            0 <= i < bytes.len() ==> text::joined(option::pairs(bytes), ":"@)[3 * i]
                == laws::number::lower()[(#[trigger] bytes[i]) as int / 16] && text::joined(
                option::pairs(bytes),
                ":"@,
            )[3 * i + 1] == laws::number::lower()[bytes[i] as int % 16] && (i > 0 ==> text::joined(
                option::pairs(bytes),
                ":"@,
            )[3 * i - 1] == ':'),
    decreases bytes.len(),
{
    reveal_strlit(":");
    assert(":"@ =~= seq![':']);
    let parts = option::pairs(bytes);
    let whole = text::joined(parts, ":"@);
    if bytes.len() > 0 {
        let front = bytes.drop_last();
        let pair = number::hex_pair(bytes.last());
        laws::number::law_digit(bytes.last() as int / 16, pair[0]);
        laws::number::law_digit(bytes.last() as int % 16, pair[1]);
        law_pairs(front);
        assert(parts.drop_last() =~= option::pairs(front));
        assert(parts.last() == pair);
        let s = text::joined(option::pairs(front), ":"@);
        if bytes.len() == 1 {
            assert(whole == pair);
        } else {
            assert(whole == s + ":"@ + pair);
        }
        let n = bytes.len() - 1;
        assert forall|i: int| 0 <= i < bytes.len() implies whole[3 * i] == laws::number::lower()[(
        #[trigger] bytes[i]) as int / 16] && whole[3 * i + 1] == laws::number::lower()[
            bytes[i] as int % 16] && (i > 0 ==> whole[3 * i - 1] == ':') by {
            if i < n {
                assert(front[i] == bytes[i]);
                assert(whole[3 * i] == s[3 * i] && whole[3 * i + 1] == s[3 * i + 1]);
                assert(i > 0 ==> whole[3 * i - 1] == s[3 * i - 1]);
            } else {
                assert(whole[3 * i] == pair[0] && whole[3 * i + 1] == pair[1]);
                assert(i > 0 ==> whole[3 * i - 1] == ":"@[0]);
            }
        }
    }
}

/// Each option has its name, and is found by it; any other is found by
/// `option-` and its number, and nothing else is an option.
pub proof fn law_names(code: u8, s: Seq<char>)
    ensures
        option::name_of(53) == "message-type"@,
        option::name_of(54) == "server"@,
        option::name_of(50) == "requested-address"@,
        option::name_of(51) == "lease-time"@,
        option::name_of(1) == "subnet-mask"@,
        option::name_of(3) == "router"@,
        option::name_of(6) == "dns"@,
        option::name_of(12) == "hostname"@,
        option::name_of(61) == "client-id"@,
        option::name_of(55) == "parameter-list"@,
        ![53u8, 54, 50, 51, 1, 3, 6, 12, 61, 55]@.contains(code) ==> option::name_of(code)
            == "option-"@ + number::decimal(code as nat),
        option::code_of(s) == Some(code) <==> ({
            ||| code == 53 && s == "message-type"@
            ||| code == 54 && s == "server"@
            ||| code == 50 && s == "requested-address"@
            ||| code == 51 && s == "lease-time"@
            ||| code == 1 && s == "subnet-mask"@
            ||| code == 3 && s == "router"@
            ||| code == 6 && s == "dns"@
            ||| code == 12 && s == "hostname"@
            ||| code == 61 && s == "client-id"@
            ||| code == 55 && s == "parameter-list"@
            ||| s.len() > 7 && s.take(7) == "option-"@ && number::number(s.skip(7), 10, 255)
                == Some(code as int)
        }),
{
    option::lemma_names();
    let named = [53u8, 54, 50, 51, 1, 3, 6, 12, 61, 55]@;
    assert(named[0] == 53 && named[1] == 54 && named[2] == 50 && named[3] == 51 && named[4] == 1);
    assert(named[5] == 3 && named[6] == 6 && named[7] == 12 && named[8] == 61 && named[9] == 55);
    assert("message-type"@[0] == 'm' && "server"@[0] == 's' && "requested-address"@[0] == 'r');
    assert("lease-time"@[0] == 'l' && "subnet-mask"@[0] == 's' && "router"@[0] == 'r');
    assert("dns"@[0] == 'd' && "hostname"@[0] == 'h' && "client-id"@[0] == 'c');
    assert("parameter-list"@[0] == 'p' && "option-"@[0] == 'o');
    assert("server"@[1] == 'e' && "subnet-mask"@[1] == 'u');
    assert("requested-address"@[1] == 'e' && "router"@[1] == 'o');
    if s.len() >= 7 && s.take(7) == "option-"@ {
        assert(s.take(7)[0] == s[0]);
        if number::number(s.skip(7), 10, 255) is Some {
            laws::number::lemma_number_bounded(s.skip(7), 10, 255);
            assert(s.skip(7).len() > 0);
        }
    }
}

/// A value as `0x` hex: two digits for each byte.
pub proof fn law_plain_hex(value: Seq<u8>)
    ensures
        option::plain_hex(value).len() == 2 + 2 * value.len(),
        option::plain_hex(value)[0] == '0' && option::plain_hex(value)[1] == 'x',
        forall|i: int|
            0 <= i < value.len() ==> option::plain_hex(value)[2 + 2 * i] == laws::number::lower()[(
            #[trigger] value[i]) as int / 16] && option::plain_hex(value)[3 + 2 * i]
                == laws::number::lower()[value[i] as int % 16],
{
    reveal_strlit("0x");
    laws::number::law_hex_written(value);
    let s = option::plain_hex(value);
    let digits = number::hex_digits(value);
    assert forall|i: int| 0 <= i < value.len() implies s[2 + 2 * i] == laws::number::lower()[(
    #[trigger] value[i]) as int / 16] && s[3 + 2 * i] == laws::number::lower()[value[i] as int
        % 16] by {
        assert(s[2 + 2 * i] == digits[2 * i] && s[3 + 2 * i] == digits[2 * i + 1]);
    }
}

/// Option 53 is written as the name of the type whose number it begins with,
/// and as `0x` hex where there is none.
pub proof fn law_type_written(value: Seq<u8>, t: MessageType)
    ensures
        value.len() > 0 && value[0] == t.number() ==> option::rendered(53, value) == t.label(),
        value.len() == 0 || value[0] == 0 || value[0] > 8 ==> option::rendered(53, value)
            == option::plain_hex(value),
{
    if value.len() > 0 {
        laws::message::law_types(t, value[0], Seq::empty());
    }
}

/// An option of addresses is written as the dotted form of each four bytes, in
/// their order, with a comma between each two, and as `0x` hex where its bytes
/// are not four for each address.
pub proof fn law_addresses_written(code: u8, value: Seq<u8>)
    requires
        code == 1 || code == 3 || code == 6 || code == 50 || code == 54,
    ensures
        value.len() == 0 || value.len() % 4 != 0 ==> option::rendered(code, value)
            == option::plain_hex(value),
        value.len() > 0 && value.len() % 4 == 0 ==> ({
            let parts = text::pieces(option::rendered(code, value), seq![',']);
            &&& 4 * parts.len() == value.len()
            &&& forall|i: int|
                0 <= i < parts.len() ==> #[trigger] parts[i] == number::decimal(
                    value[4 * i] as nat,
                ) + seq!['.'] + number::decimal(value[4 * i + 1] as nat) + seq!['.']
                    + number::decimal(value[4 * i + 2] as nat) + seq!['.'] + number::decimal(
                    value[4 * i + 3] as nat,
                )
        }),
{
    if value.len() > 0 && value.len() % 4 == 0 {
        let forms = option::dotted_forms(value);
        assert(seq![','][0] == ',');
        assert forall|i: int| 0 <= i < forms.len() implies text::lacks(
            #[trigger] forms[i],
            seq![','],
        ) by {
            option::lemma_dotted_plain(Ipv4Addr::at(value, 4 * i));
        }
        text::law_joined_cuts_back(forms, ',', seq![',']);
        assert forall|i: int| 0 <= i < forms.len() implies #[trigger] forms[i] == number::decimal(
            value[4 * i] as nat,
        ) + seq!['.'] + number::decimal(value[4 * i + 1] as nat) + seq!['.'] + number::decimal(
            value[4 * i + 2] as nat,
        ) + seq!['.'] + number::decimal(value[4 * i + 3] as nat) by {
            laws::number::law_address(
                Seq::empty(),
                value[4 * i],
                value[4 * i + 1],
                value[4 * i + 2],
                value[4 * i + 3],
            );
        }
    }
}

/// A lease time is written as the number that its four bytes are, the most
/// significant first, and as `0x` hex where it has not four.
pub proof fn law_time_written(value: Seq<u8>)
    ensures
        value.len() != 4 ==> option::rendered(51, value) == option::plain_hex(value),
        value.len() == 4 ==> option::rendered(51, value) == number::decimal(
            (value[0] * 0x100_0000 + value[1] * 0x1_0000 + value[2] * 0x100 + value[3]) as nat,
        ),
{
    if value.len() == 4 {
        laws::number::law_big_endian(0, 0, value[0], value[1], value[2], value[3]);
    }
}

/// A host's name is written as it is, whole, and as `0x` hex where it would not
/// stand in one line.
pub proof fn law_name_written(s: Seq<char>, value: Seq<u8>)
    ensures
        !s.contains('\n') ==> option::rendered(12, vstd::utf8::encode_utf8(s)) == s,
        s.contains('\n') ==> option::rendered(12, vstd::utf8::encode_utf8(s)) == option::plain_hex(
            vstd::utf8::encode_utf8(s),
        ),
        !vstd::utf8::valid_utf8(value) ==> option::rendered(12, value) == (
        if utf8::lossy_text(value).contains('\n') {
            option::plain_hex(value)
        } else {
            utf8::lossy_text(value)
        }),
{
    laws::message::law_text(s, value);
    lemma_lacks_one(s, '\n');
    lemma_lacks_one(utf8::lossy_text(value), '\n');
}

/// To lack one mark is not to hold it.
pub proof fn lemma_lacks_one(s: Seq<char>, mark: char)
    ensures
        text::lacks(s, seq![mark]) <==> !s.contains(mark),
{
    assert(seq![mark][0] == mark);
    if text::lacks(s, seq![mark]) {
        assert forall|i: int| 0 <= i < s.len() implies s[i] != mark by {
            assert(!seq![mark].contains(s[i]));
        }
    }
    if !s.contains(mark) {
        assert forall|i: int| 0 <= i < s.len() implies !seq![mark].contains(#[trigger] s[i]) by {
            assert(s.contains(s[i]));
        }
    }
}

/// A client's identifier and its list of parameters are written as two digits
/// for each byte with a colon between each two, however many bytes there are.
pub proof fn law_list_written(code: u8, value: Seq<u8>)
    requires
        code == 55 || code == 61,
    ensures
        value.len() == 0 ==> option::rendered(code, value).len() == 0,
        value.len() > 0 ==> option::rendered(code, value).len() == 3 * value.len() - 1,
        forall|i: int|
            0 <= i < value.len() ==> option::rendered(code, value)[3 * i]
                == laws::number::lower()[(#[trigger] value[i]) as int / 16] && option::rendered(
                code,
                value,
            )[3 * i + 1] == laws::number::lower()[value[i] as int % 16] && (i > 0
                ==> option::rendered(code, value)[3 * i - 1] == ':'),
        value.len() > 0 ==> text::pieces(option::rendered(code, value), seq![':']) == Seq::new(
            value.len(),
            |i: int|
                seq![
                    laws::number::lower()[value[i] as int / 16],
                    laws::number::lower()[value[i] as int % 16],
                ],
        ),
{
    law_pairs(value);
    if value.len() > 0 {
        reveal_strlit(":");
        assert(":"@ =~= seq![':']);
        assert(seq![':'][0] == ':');
        let parts = option::pairs(value);
        assert forall|i: int| 0 <= i < parts.len() implies text::lacks(
            #[trigger] parts[i],
            seq![':'],
        ) by {
            option::lemma_pair_lacks(value[i], ':');
        }
        text::law_joined_cuts_back(parts, ':', seq![':']);
        assert forall|i: int| 0 <= i < parts.len() implies #[trigger] parts[i] == seq![
            laws::number::lower()[value[i] as int / 16],
            laws::number::lower()[value[i] as int % 16],
        ] by {
            laws::number::law_digit(value[i] as int / 16, '0');
            laws::number::law_digit(value[i] as int % 16, '0');
        }
        assert(parts =~= Seq::new(
            value.len(),
            |i: int|
                seq![
                    laws::number::lower()[value[i] as int / 16],
                    laws::number::lower()[value[i] as int % 16],
                ],
        ));
    }
}

/// Different identifiers, and different lists of parameters, are written
/// differently.
pub proof fn law_lists_differ(code: u8, a: Seq<u8>, b: Seq<u8>)
    requires
        code == 55 || code == 61,
        option::rendered(code, a) == option::rendered(code, b),
    ensures
        a == b,
{
    law_list_written(code, a);
    law_list_written(code, b);
    assert(a.len() == b.len());
    assert forall|i: int| 0 <= i < a.len() implies a[i] == b[i] by {
        assert(option::rendered(code, a)[3 * i] == laws::number::lower()[a[i] as int / 16]);
        assert(option::rendered(code, b)[3 * i] == laws::number::lower()[b[i] as int / 16]);
        laws::number::law_digit(a[i] as int / 16, laws::number::lower()[a[i] as int / 16]);
        laws::number::law_digit(b[i] as int / 16, laws::number::lower()[b[i] as int / 16]);
        laws::number::law_digit(a[i] as int % 16, laws::number::lower()[a[i] as int % 16]);
        laws::number::law_digit(b[i] as int % 16, laws::number::lower()[b[i] as int % 16]);
    }
    assert(a =~= b);
}

/// An option without a shape of its own is written as `0x` hex.
pub proof fn law_other_written(code: u8, value: Seq<u8>)
    requires
        ![53u8, 54, 50, 51, 1, 3, 6, 12, 61, 55]@.contains(code),
    ensures
        option::rendered(code, value) == option::plain_hex(value),
{
    let named = [53u8, 54, 50, 51, 1, 3, 6, 12, 61, 55]@;
    assert(named[0] == 53 && named[1] == 54 && named[2] == 50 && named[3] == 51 && named[4] == 1);
    assert(named[5] == 3 && named[6] == 6 && named[7] == 12 && named[8] == 61 && named[9] == 55);
}

/// A message type is read from its name or its number, as the one byte that is
/// its number.
pub proof fn law_type_read(s: Seq<char>, t: MessageType)
    ensures
        option::parsed(53, s) == Ok::<Seq<u8>, ErrorView>(seq![t.number()]) <==> s == t.label() || s
            == number::decimal(t.number() as nat),
        option::parsed(53, s) is Err ==> option::parsed(53, s) == Err::<Seq<u8>, ErrorView>(
            ErrorView::NotMessageType { value: s },
        ),
        option::parsed(53, s) is Err <==> message::type_called(s) is None,
{
    laws::message::law_types(t, 0, s);
    if let Some(u) = message::type_called(s) {
        assert(seq![u.number()][0] == u.number());
        assert(seq![t.number()][0] == t.number());
        laws::message::law_types(u, t.number(), s);
        laws::message::law_types(t, u.number(), s);
    }
}

/// A list of addresses is read part by part: each is an address with nothing
/// but white space around it, and gives its four octets in their order. Where
/// one is none, the first such part is what is refused.
pub proof fn law_addresses_read(code: u8, parts: Seq<Seq<char>>)
    requires
        code == 1 || code == 3 || code == 6 || code == 50 || code == 54,
        parts.len() >= 1,
        forall|i: int| 0 <= i < parts.len() ==> !(#[trigger] parts[i]).contains(','),
    ensures
        match option::parsed(code, text::joined(parts, seq![','])) {
            Ok(value) => value.len() == 4 * parts.len() && forall|i: int|
                0 <= i < parts.len() ==> text::trimmed(#[trigger] parts[i]) == (Ipv4Addr {
                    a: value[4 * i],
                    b: value[4 * i + 1],
                    c: value[4 * i + 2],
                    d: value[4 * i + 3],
                }).dotted(),
            Err(error) => exists|at: int|
                0 <= at < parts.len() && error == (ErrorView::NotAddress {
                    part: #[trigger] parts[at],
                }) && (forall|address: Ipv4Addr|
                    text::trimmed(parts[at]) != #[trigger] address.dotted()) && (forall|i: int|
                    0 <= i < at ==> exists|address: Ipv4Addr|
                        text::trimmed(#[trigger] parts[i]) == #[trigger] address.dotted()),
        },
{
    assert(seq![','][0] == ',');
    assert forall|i: int| 0 <= i < parts.len() implies text::lacks(
        #[trigger] parts[i],
        seq![','],
    ) by {
        lemma_lacks_one(parts[i], ',');
    }
    text::law_joined_cuts_back(parts, ',', seq![',']);
    lemma_addresses_read(parts);
}

/// What a list of parts is read as.
proof fn lemma_addresses_read(parts: Seq<Seq<char>>)
    ensures
        match option::addresses_read(parts) {
            Ok(value) => value.len() == 4 * parts.len() && forall|i: int|
                0 <= i < parts.len() ==> text::trimmed(#[trigger] parts[i]) == (Ipv4Addr {
                    a: value[4 * i],
                    b: value[4 * i + 1],
                    c: value[4 * i + 2],
                    d: value[4 * i + 3],
                }).dotted(),
            Err(error) => exists|at: int|
                0 <= at < parts.len() && error == (ErrorView::NotAddress {
                    part: #[trigger] parts[at],
                }) && (forall|address: Ipv4Addr|
                    text::trimmed(parts[at]) != #[trigger] address.dotted()) && (forall|i: int|
                    0 <= i < at ==> exists|address: Ipv4Addr|
                        text::trimmed(#[trigger] parts[i]) == #[trigger] address.dotted()),
        },
    decreases parts.len(),
{
    if parts.len() > 0 {
        let s = text::trimmed(parts[0]);
        let tail = parts.skip(1);
        lemma_addresses_read(tail);
        match ipv4::dotted_read(s) {
            Some(address) => {
                ipv4::law_dotted_reads_back(s, address);
                match option::addresses_read(tail) {
                    Ok(rest) => {
                        let value = address.bytes() + rest;
                        assert forall|i: int| 0 <= i < parts.len() implies text::trimmed(
                            #[trigger] parts[i],
                        ) == (Ipv4Addr {
                            a: value[4 * i],
                            b: value[4 * i + 1],
                            c: value[4 * i + 2],
                            d: value[4 * i + 3],
                        }).dotted() by {
                            if i > 0 {
                                assert(tail[i - 1] == parts[i]);
                                assert(value[4 * i] == rest[4 * (i - 1)]);
                                assert(value[4 * i + 1] == rest[4 * (i - 1) + 1]);
                                assert(value[4 * i + 2] == rest[4 * (i - 1) + 2]);
                                assert(value[4 * i + 3] == rest[4 * (i - 1) + 3]);
                            }
                        }
                    },
                    Err(error) => {
                        let k = choose|at: int|
                            0 <= at < tail.len() && error == (ErrorView::NotAddress {
                                part: #[trigger] tail[at],
                            }) && (forall|address: Ipv4Addr|
                                text::trimmed(tail[at]) != #[trigger] address.dotted()) && (forall|
                                i: int,
                            |
                                0 <= i < at ==> exists|address: Ipv4Addr|
                                    text::trimmed(#[trigger] tail[i])
                                        == #[trigger] address.dotted());
                        assert(parts[k + 1] == tail[k]);
                        assert forall|i: int| 0 <= i < k + 1 implies exists|address: Ipv4Addr|
                            text::trimmed(#[trigger] parts[i]) == #[trigger] address.dotted() by {
                            if i > 0 {
                                assert(parts[i] == tail[i - 1]);
                            } else {
                                assert(text::trimmed(parts[0]) == address.dotted());
                            }
                        }
                    },
                }
            },
            None => {
                assert forall|address: Ipv4Addr| s != #[trigger] address.dotted() by {
                    ipv4::law_dotted_reads_back(s, address);
                }
                assert(parts[0] == parts[0]);
            },
        }
    }
}

/// Every address of a list is read, in its order, whatever white space stands
/// around it.
pub proof fn law_spaced_addresses_read(
    code: u8,
    addresses: Seq<Ipv4Addr>,
    before: Seq<Seq<char>>,
    after: Seq<Seq<char>>,
    parts: Seq<Seq<char>>,
)
    requires
        code == 1 || code == 3 || code == 6 || code == 50 || code == 54,
        addresses.len() >= 1,
        before.len() == addresses.len() && after.len() == addresses.len() && parts.len()
            == addresses.len(),
        forall|i: int, j: int|
            0 <= i < before.len() && 0 <= j < before[i].len() ==> text::is_space(
                #[trigger] before[i][j],
            ),
        forall|i: int, j: int|
            0 <= i < after.len() && 0 <= j < after[i].len() ==> text::is_space(
                #[trigger] after[i][j],
            ),
        forall|i: int|
            0 <= i < parts.len() ==> #[trigger] parts[i] == before[i] + addresses[i].dotted()
                + after[i],
    ensures
        ({
            let read = option::parsed(code, text::joined(parts, seq![',']));
            &&& read is Ok
            &&& read->Ok_0.len() == 4 * addresses.len()
            &&& forall|i: int|
                0 <= i < addresses.len() ==> (#[trigger] addresses[i]).a == read->Ok_0[4 * i]
                    && addresses[i].b == read->Ok_0[4 * i + 1] && addresses[i].c == read->Ok_0[4 * i
                    + 2] && addresses[i].d == read->Ok_0[4 * i + 3]
        }),
{
    assert forall|i: int| 0 <= i < parts.len() implies !(#[trigger] parts[i]).contains(',')
        && text::trimmed(parts[i]) == addresses[i].dotted() by {
        let form = addresses[i].dotted();
        option::lemma_dotted_plain(addresses[i]);
        lemma_lacks_one(form, ',');
        assert(form.len() > 0) by {
            ipv4::lemma_dotted_chars(addresses[i]);
        }
        assert(text::is_visible(form[0]) && text::is_visible(form[form.len() - 1]));
        laws::text::law_trimmed(before[i], form, after[i]);
        assert forall|j: int| 0 <= j < parts[i].len() implies parts[i][j] != ',' by {
            let b = before[i].len() as int;
            if j < b {
                assert(parts[i][j] == before[i][j]);
            } else if j < b + form.len() {
                assert(parts[i][j] == form[j - b]);
                assert(form.contains(form[j - b]));
            } else {
                assert(parts[i][j] == after[i][j - b - form.len()]);
            }
        }
    }
    law_addresses_read(code, parts);
    let read = option::parsed(code, text::joined(parts, seq![',']));
    if read is Err {
        let at = choose|at: int|
            0 <= at < parts.len() && read->Err_0 == (ErrorView::NotAddress {
                part: #[trigger] parts[at],
            }) && (forall|address: Ipv4Addr|
                text::trimmed(parts[at]) != #[trigger] address.dotted()) && (forall|i: int|
                0 <= i < at ==> exists|address: Ipv4Addr|
                    text::trimmed(#[trigger] parts[i]) == #[trigger] address.dotted());
        assert(text::trimmed(parts[at]) == addresses[at].dotted());
    } else {
        let value = read->Ok_0;
        assert forall|i: int| 0 <= i < addresses.len() implies (#[trigger] addresses[i]).a
            == value[4 * i] && addresses[i].b == value[4 * i + 1] && addresses[i].c == value[4 * i
            + 2] && addresses[i].d == value[4 * i + 3] by {
            let got = Ipv4Addr {
                a: value[4 * i],
                b: value[4 * i + 1],
                c: value[4 * i + 2],
                d: value[4 * i + 3],
            };
            assert(text::trimmed(parts[i]) == got.dotted());
            ipv4::law_dotted_reads_back(got.dotted(), got);
            ipv4::law_dotted_reads_back(got.dotted(), addresses[i]);
        }
    }
}

/// A lease time is read as four bytes that are the number, the most significant
/// first.
pub proof fn law_time_read(s: Seq<char>)
    ensures
        match number::number(s, 10, 0xffff_ffff) {
            Some(n) => match option::parsed(51, s) {
                Ok(value) => value.len() == 4 && value[0] * 0x100_0000 + value[1] * 0x1_0000
                    + value[2] * 0x100 + value[3] == n,
                Err(_) => false,
            },
            None => option::parsed(51, s) == Err::<Seq<u8>, ErrorView>(
                ErrorView::NotSeconds { value: s },
            ),
        },
{
    if let Some(n) = number::number(s, 10, 0xffff_ffff) {
        laws::number::lemma_number_bounded(s, 10, 0xffff_ffff);
        laws::number::law_big_endian(n as u32, 0, 0, 0, 0, 0);
    }
}

/// A host's name is read as the bytes of the whole text.
pub proof fn law_name_read(s: Seq<char>)
    ensures
        option::parsed(12, s) == Ok::<Seq<u8>, ErrorView>(vstd::utf8::encode_utf8(s)),
{
}

/// A client's identifier and its list of parameters are read as a hardware
/// address is.
pub proof fn law_list_read(code: u8, s: Seq<char>)
    requires
        code == 55 || code == 61,
    ensures
        option::parsed(code, s) == (match message::mac_octets(s) {
            Some(bytes) => Ok::<Seq<u8>, ErrorView>(bytes),
            None => Err(ErrorView::NotColonHex { value: s }),
        }),
{
}

/// An option without a shape of its own is read from `0x` and two digits for
/// each byte, and from nothing else.
pub proof fn law_other_read(code: u8, s: Seq<char>, bytes: Seq<u8>)
    requires
        ![53u8, 54, 50, 51, 1, 3, 6, 12, 61, 55]@.contains(code),
    ensures
        option::parsed(code, s) == Ok::<Seq<u8>, ErrorView>(bytes) <==> s.len() == 2 + 2
            * bytes.len() && s[0] == '0' && s[1] == 'x' && forall|i: int|
            0 <= i < bytes.len() ==> number::digit_value(s[2 + 2 * i]) == Some((
            #[trigger] bytes[i]) as int / 16) && number::digit_value(s[3 + 2 * i]) == Some(
                bytes[i] as int % 16,
            ),
        option::parsed(code, s) is Err ==> option::parsed(code, s) == Err::<Seq<u8>, ErrorView>(
            ErrorView::NotHexValue { code, value: s },
        ),
{
    reveal_strlit("0x");
    let named = [53u8, 54, 50, 51, 1, 3, 6, 12, 61, 55]@;
    assert(named[0] == 53 && named[1] == 54 && named[2] == 50 && named[3] == 51 && named[4] == 1);
    assert(named[5] == 3 && named[6] == 6 && named[7] == 12 && named[8] == 61 && named[9] == 55);
    laws::text::law_begins(s, "0x"@);
    if s.len() >= 2 && s[0] == '0' && s[1] == 'x' {
        let digits = s.skip(2);
        assert forall|i: int| 0 <= i < 2 implies s[i] == "0x"@[i] by {}
        laws::number::law_hex_read(digits, bytes);
        assert forall|i: int| 0 <= i < bytes.len() && s.len() == 2 + 2 * bytes.len() implies digits[
            2 * i] == s[2 + 2 * i] && digits[2 * i + 1] == s[3 + 2 * i] && (#[trigger] bytes[i])
            == bytes[i] by {}
        if option::parsed(code, s) == Ok::<Seq<u8>, ErrorView>(bytes) {
            assert forall|i: int| 0 <= i < bytes.len() implies number::digit_value(s[2 + 2 * i])
                == Some((#[trigger] bytes[i]) as int / 16) && number::digit_value(s[3 + 2 * i])
                == Some(bytes[i] as int % 16) by {
                assert(digits[2 * i] == s[2 + 2 * i] && digits[2 * i + 1] == s[3 + 2 * i]);
            }
        }
        if s.len() == 2 + 2 * bytes.len() && forall|i: int|
            0 <= i < bytes.len() ==> number::digit_value(s[2 + 2 * i]) == Some((
            #[trigger] bytes[i]) as int / 16) && number::digit_value(s[3 + 2 * i]) == Some(
                bytes[i] as int % 16,
            ) {
            assert forall|i: int| 0 <= i < bytes.len() implies number::digit_value(digits[2 * i])
                == Some((#[trigger] bytes[i]) as int / 16) && number::digit_value(
                digits[2 * i + 1],
            ) == Some(bytes[i] as int % 16) by {
                assert(digits[2 * i] == s[2 + 2 * i] && digits[2 * i + 1] == s[3 + 2 * i]);
            }
        }
    } else {
        if s.len() >= 2 {
            assert("0x"@[0] == '0' && "0x"@[1] == 'x');
        }
    }
}

/// The pairs of bytes are two digits each.
pub proof fn law_pair(bytes: Seq<u8>, i: int)
    requires
        0 <= i < bytes.len(),
    ensures
        option::pairs(bytes).len() == bytes.len(),
        option::pairs(bytes)[i] == seq![
            laws::number::lower()[bytes[i] as int / 16],
            laws::number::lower()[bytes[i] as int % 16],
        ],
{
    laws::number::law_digit(bytes[i] as int / 16, '0');
    laws::number::law_digit(bytes[i] as int % 16, '0');
}

}
