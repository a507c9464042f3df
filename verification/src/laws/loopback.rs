//! The loopback: how a Stream is cut, carried, taken and answered.

use vstd::prelude::*;

use crate::error::ErrorView;
use crate::laws;
use crate::loopback;
use crate::loopback::{Gathered, GatheredView, Served, ServedView, Step, StepView};
use crate::message::{MessageType, MessageView};
use crate::number;
use crate::text;
use crate::transport;
use crate::transport::Arrived;
use crate::wire;

verus! {

/// The numbers that a conversation has.
pub proof fn law_conversation_numbers()
    ensures
        loopback::MAX_STREAM == 65291,
        loopback::OPTION == 255,
        loopback::XID == 0x786d_6970,
        loopback::MAC@ == seq![2u8, 0, 0, 0x78, 0x6d, 0x69],
{
    assert(loopback::MAC@ =~= seq![2u8, 0, 0, 0x78, 0x6d, 0x69]);
}

/// What arrived, and what a server has and does, are seen as what they hold.
pub proof fn law_states_seen(arrived: Arrived, state: Gathered, step: Step, done: Served)
    ensures
        arrived@ == (arrived.origin_uri@, arrived.bytes@),
        state@.bytes == state.bytes@,
        state@.origin is None <==> state.origin is None,
        state.origin is Some ==> state@.origin == Some(state.origin->0@),
        match step {
            Step::More(more) => step@ == StepView::More(more@),
            Step::Done(came) => step@ == StepView::Done(came@),
        },
        match done {
            Served::Skipped(same) => done@ == ServedView::Skipped(same@),
            Served::Answered { client, answer, step } => match done@ {
                ServedView::Answered { client: c, answer: a, step: s } => c == client@ && a
                    == answer@ && match (step, s) {
                    (Ok(x), Ok(y)) => y == x@,
                    (Err(x), Err(y)) => y == x@,
                    _ => false,
                },
                ServedView::Skipped(_) => false,
            },
        },
{
}

/// A payload is cut into runs of 255 bytes, in their order, the last of what is
/// left; each is carried by one inform, and one more inform carries nothing.
pub proof fn law_informs(payload: Seq<u8>, i: int)
    requires
        0 <= i,
    ensures
        ({
            let texts = loopback::inform_texts(payload);
            let n = (payload.len() as int + 254) / 255;
            &&& texts.len() == n + 1
            &&& texts[n] == "message-type=inform\n"@
            &&& i < n ==> ({
                let end = if 255 * i + 255 < payload.len() {
                    255 * i + 255
                } else {
                    payload.len() as int
                };
                texts[i] == "message-type=inform\noption-224=0x"@ + number::hex_digits(
                    payload.subrange(255 * i, end),
                ) + "\n"@
            })
        }),
{
    lemma_chunk_at(payload, i);
}

/// The chunk at a position.
proof fn lemma_chunk_at(payload: Seq<u8>, i: int)
    requires
        0 <= i,
    ensures
        loopback::chunks(payload).len() == (payload.len() + 254) / 255,
        i < loopback::chunks(payload).len() ==> loopback::chunks(payload)[i] == payload.subrange(
            255 * i,
            if 255 * i + 255 < payload.len() {
                255 * i + 255
            } else {
                payload.len() as int
            },
        ),
    decreases payload.len(),
{
    if payload.len() == 0 {
    } else if payload.len() <= 255 {
        assert(payload.subrange(0, payload.len() as int) =~= payload);
    } else {
        let tail = payload.skip(255);
        lemma_chunk_at(tail, if i > 0 {
            i - 1
        } else {
            0
        });
        assert(payload.take(255) =~= payload.subrange(0, 255));
        if 0 < i < loopback::chunks(payload).len() {
            let k = i - 1;
            assert(loopback::chunks(payload)[i] == loopback::chunks(tail)[k]);
            let end = if 255 * k + 255 < tail.len() {
                255 * k + 255
            } else {
                tail.len() as int
            };
            assert(tail.subrange(255 * k, end) =~= payload.subrange(255 * i, 255 + end));
        }
    }
}

/// An inform is a request of the loopback's transaction and client with the
/// lines that it is given.
pub proof fn law_inform(text: Seq<char>)
    ensures
        loopback::inform_datagram(text) == (match MessageView::fresh(
            1,
            0x786d_6970,
            seq![2u8, 0, 0, 0x78, 0x6d, 0x69],
        ).with_lines(vstd::utf8::encode_utf8(text)) {
            Ok(m) => wire::encoded(m),
            Err(error) => Err::<Seq<u8>, ErrorView>(error),
        }),
{
    law_conversation_numbers();
}

/// The inform of a run of bytes carries them as option 224 after its type, and
/// nothing else.
#[verifier::spinoff_prover]
pub proof fn law_inform_carries(chunk: Seq<u8>)
    requires
        chunk.len() <= 255,
    ensures
        loopback::carrying_text(chunk) == "message-type=inform\noption-224=0x"@
            + number::hex_digits(chunk) + "\n"@,
        ({
            let sent = loopback::inform_datagram(loopback::carrying_text(chunk));
            &&& sent is Ok
            &&& match wire::decoded(sent->Ok_0) {
                Ok(m) => {
                    &&& m.op == 1 && m.xid == 0x786d_6970
                    &&& m.hardware() == seq![2u8, 0, 0, 0x78, 0x6d, 0x69]
                    &&& m.options.len() == 2
                    &&& m.options[0].0 == 53 && m.options[0].1 == seq![8u8]
                    &&& m.options[1].0 == 224 && m.options[1].1 == chunk
                },
                Err(_) => false,
            }
        }),
{
    lemma_inform_read(chunk);
    lemma_inform_fields(chunk);
}

/// The inform of a run of bytes is read back.
#[verifier::spinoff_prover]
proof fn lemma_inform_read(chunk: Seq<u8>)
    requires
        chunk.len() <= 255,
    ensures
        ({
            let m = loopback::inform_message(loopback::carrying_options(chunk));
            let sent = loopback::inform_datagram(loopback::carrying_text(chunk));
            sent is Ok && wire::decoded(sent->Ok_0) == Ok::<MessageView, ErrorView>(
                wire::cut_to_fields(m),
            )
        }),
{
    let options = loopback::carrying_options(chunk);
    let m = loopback::inform_message(options);
    loopback::lemma_carrying_lines(chunk);
    loopback::lemma_inform_listed(chunk);
    loopback::lemma_inform_datagram(options);
    loopback::lemma_inform_encoded(chunk);
    wire::law_read_as_written(m);
}

/// What the inform of a run of bytes says.
proof fn lemma_inform_fields(chunk: Seq<u8>)
    ensures
        ({
            let m = wire::cut_to_fields(
                loopback::inform_message(loopback::carrying_options(chunk)),
            );
            &&& m.op == 1 && m.xid == 0x786d_6970
            &&& m.hardware() == seq![2u8, 0, 0, 0x78, 0x6d, 0x69]
            &&& m.options.len() == 2
            &&& m.options[0].0 == 53 && m.options[0].1 == seq![8u8]
            &&& m.options[1].0 == 224 && m.options[1].1 == chunk
        }),
{
    let m = loopback::inform_message(loopback::carrying_options(chunk));
    law_conversation_numbers();
    laws::message::law_fresh(1, 0x786d_6970, seq![2u8, 0, 0, 0x78, 0x6d, 0x69]);
    assert(m.hardware() =~= seq![2u8, 0, 0, 0x78, 0x6d, 0x69]);
}

/// An answer is accepted where it is a server's message of type 5, and refused
/// otherwise.
pub proof fn law_accepted(datagram: Seq<u8>)
    ensures
        match wire::decoded(datagram) {
            Ok(m) => loopback::acknowledging(datagram) == (if datagram[0] == 2 && m.message_type()
                == Some(MessageType::Ack) {
                Ok::<(), ErrorView>(())
            } else {
                Err(ErrorView::NotAcknowledged)
            }),
            Err(error) => loopback::acknowledging(datagram) == Err::<(), ErrorView>(error),
        },
{
    if wire::decoded(datagram) is Ok {
        laws::wire::law_read_fields(datagram);
    }
}

/// Digits are two for each byte, the sixteens before the ones; an odd number of
/// bytes is refused as odd, and anything else that is no such digits as no
/// digits.
pub proof fn law_digits_read(s: Seq<char>, bytes: Seq<u8>)
    ensures
        loopback::unhexed(s) == Ok::<Seq<u8>, ErrorView>(bytes) <==> s.len() == 2 * bytes.len()
            && forall|i: int|
            0 <= i < bytes.len() ==> number::digit_value(s[2 * i]) == Some((
            #[trigger] bytes[i]) as int / 16) && number::digit_value(s[2 * i + 1]) == Some(
                bytes[i] as int % 16,
            ),
        loopback::unhexed(s) is Err ==> loopback::unhexed(s) == Err::<Seq<u8>, ErrorView>(
            if vstd::utf8::encode_utf8(s).len() % 2 != 0 {
                ErrorView::OddHex { digits: s }
            } else {
                ErrorView::NotHex { digits: s }
            },
        ),
{
    laws::number::law_hex_read(s, bytes);
    number::law_hex_refuses(s);
    if number::hex_bytes(s) is Some {
        assert(vstd::utf8::is_ascii_chars(s)) by {
            assert forall|i: int| 0 <= i < s.len() implies '\0' <= #[trigger] s[i] <= '\u{7f}' by {
                assert(number::digit_value(s[i]) is Some);
            }
        }
        vstd::utf8::is_ascii_chars_encode_utf8(s);
    }
}

/// Of the lines of an inform those that begin with `option-224=0x` carry the
/// bytes that their digits are, after those before them; the others carry
/// nothing.
pub proof fn law_gathered(
    bytes: Seq<u8>,
    carried: bool,
    digits: Seq<char>,
    line: Seq<char>,
    rest: Seq<Seq<char>>,
)
    ensures
        loopback::gather(bytes, carried, Seq::empty()) == Ok::<(Seq<u8>, bool), ErrorView>(
            (bytes, carried),
        ),
        loopback::gather(bytes, carried, seq!["option-224=0x"@ + digits] + rest) == (
        match loopback::unhexed(digits) {
            Ok(more) => loopback::gather(bytes + more, true, rest),
            Err(error) => Err::<(Seq<u8>, bool), ErrorView>(error),
        }),
        line.len() < 13 || line.take(13) != "option-224=0x"@ ==> loopback::gather(
            bytes,
            carried,
            seq![line] + rest,
        ) == loopback::gather(bytes, carried, rest),
{
    reveal_strlit("option-224=0x");
    let start = "option-224=0x"@;
    let whole = start + digits;
    let all = seq![whole] + rest;
    assert(all[0] == whole);
    assert(all.skip(1) =~= rest);
    assert(whole.take(13) =~= start);
    assert(whole.skip(13) =~= digits);
    let others = seq![line] + rest;
    assert(others[0] == line);
    assert(others.skip(1) =~= rest);
}

/// An inform that carries bytes leaves them taken and more to come; one that
/// carries none makes the Stream whole, with the bytes taken and the origin of
/// the first inform.
pub proof fn law_step(state: GatheredView, origin: Seq<char>, s: Seq<char>, bytes: Seq<u8>)
    ensures
        ({
            let from = if state.origin is Some {
                state.origin->0
            } else {
                origin
            };
            loopback::step_of(state, (origin, vstd::utf8::encode_utf8(s))) == (
            match loopback::gather(state.bytes, false, text::lines(s)) {
                Ok((taken, carried)) => if carried {
                    Ok::<StepView, ErrorView>(
                        StepView::More(GatheredView { bytes: taken, origin: Some(from) }),
                    )
                } else {
                    Ok(StepView::Done((from, taken)))
                },
                Err(error) => Err(error),
            })
        }),
        !vstd::utf8::valid_utf8(bytes) ==> loopback::step_of(state, (origin, bytes)) == Err::<
            StepView,
            ErrorView,
        >(ErrorView::LinesNotText),
{
    vstd::utf8::encode_utf8_valid_utf8(s);
    vstd::utf8::encode_utf8_decode_utf8(s);
}

/// A client's datagram is answered to its origin as a target, with its type
/// made `ack`, and after that what it carries is taken; a server's is skipped.
pub proof fn law_serves(state: GatheredView, peer: Seq<char>, datagram: Seq<u8>)
    ensures
        loopback::served(state, peer, datagram) == (match transport::received(peer, datagram) {
            Ok(Some((origin, lines))) => match transport::sent(
                text::replaced(origin, "type=inform"@, "type=ack"@),
                Seq::empty(),
            ) {
                Ok((client, answer)) => Ok::<ServedView, ErrorView>(
                    ServedView::Answered {
                        client,
                        answer,
                        step: loopback::step_of(state, (origin, lines)),
                    },
                ),
                Err(error) => Err(error),
            },
            Ok(None) => Ok(ServedView::Skipped(state)),
            Err(error) => Err(error),
        }),
        forall|origin: Seq<char>| #[trigger]
            loopback::acknowledgement_of(origin) == transport::sent(
                text::replaced(origin, "type=inform"@, "type=ack"@),
                Seq::empty(),
            ),
{
}

/// Every inform of the loopback's client is answered to that client with an
/// acknowledgement of its transaction and its hardware address.
pub proof fn law_answer(peer: Seq<char>)
    requires
        !peer.contains('/') && !peer.contains('?'),
        !text::holds(peer, "type=inform"@),
    ensures
        match loopback::acknowledgement_of(
            "dhcp://"@ + peer + "?xid=0x786d6970&type=inform&mac=02:00:00:78:6d:69&hostname="@,
        ) {
            Ok((client, answer)) => client == peer && match wire::decoded(answer) {
                Ok(m) => m.op == 2 && m.xid == 0x786d_6970 && m.hardware() == seq![
                    2u8,
                    0,
                    0,
                    0x78,
                    0x6d,
                    0x69,
                ] && m.options == seq![(53u8, seq![5u8])],
                Err(_) => false,
            },
            Err(_) => false,
        },
{
    laws::option::lemma_lacks_one(peer, '/');
    laws::option::lemma_lacks_one(peer, '?');
    loopback::lemma_answer(peer);
    law_conversation_numbers();
    let reply = transport::bare_reply(
        loopback::XID,
        loopback::MAC@,
        MessageType::Ack,
        None,
        None,
    );
    laws::transport::lemma_bare_fields(
        loopback::XID,
        loopback::MAC@,
        MessageType::Ack,
        None,
        None,
    );
    assert(reply.hardware() =~= seq![2u8, 0, 0, 0x78, 0x6d, 0x69]);
}

/// The texts of strings are their characters, one for one.
pub proof fn law_strings(v: Seq<String>, i: int)
    requires
        0 <= i < v.len(),
    ensures
        loopback::strings(v).len() == v.len(),
        loopback::strings(v)[i] == v[i]@,
{
}

}
