//! Both ends of one DHCP exchange on this machine: a server takes the Stream a
//! client sends as informs of one site-specific option each, what an option
//! holds, and acknowledges every one before the next goes, as RFC 2131 answers
//! a DHCPINFORM with a DHCPACK; then an inform with none closes it.
//!
//! The ceiling is a fact about the protocol: option 57, Maximum DHCP Message
//! Size, is sixteen bits (RFC 2132 section 9.10), so a Stream larger than that
//! is not a DHCP conversation, however many informs it were cut into.

use std::time::Duration;

use vstd::prelude::*;

use crate::error::{Error, ErrorView};
use crate::lines;
use crate::message;
use crate::message::{
    Message, MessageType, MessageView, BOOTREPLY, BOOTREQUEST, OPTION_MESSAGE_TYPE,
};
use crate::number;
use crate::option;
use crate::option::hex_string;
use crate::text;
use crate::text::{chars_of, replace, split_lines, string_of, strip_prefix};
use crate::transport;
use crate::transport::{Arrived, DhcpTransport};
use crate::utf8::from_utf8;
use crate::wire;
use crate::wire::{decode, encode, push_bytes};
use vstd::slice::slice_subrange;

verus! {

/// The most a DHCP conversation carries: the 65535 bytes of the largest message
/// that option 57 can name, less the 240 of the fixed fields and the cookie, and
/// four more.
pub const MAX_STREAM: usize = 65291;

/// What one option holds, and so what one inform carries.
pub const OPTION: usize = 255;

/// A locally administered hardware address, so no vendor's is borrowed.
pub const MAC: [u8; 6] = [0x02, 0x00, 0x00, 0x78, 0x6d, 0x69];

/// The transaction every inform is part of: `xmip`.
pub const XID: u32 = 0x786d_6970;

// ---------------------------------------------------------------------------
// What the client says
// ---------------------------------------------------------------------------

/// A payload cut into what informs carry: all of the same size but the last.
pub open spec fn chunks(payload: Seq<u8>) -> Seq<Seq<u8>>
    decreases payload.len(),
{
    if payload.len() == 0 {
        seq![]
    } else if payload.len() <= OPTION {
        seq![payload]
    } else {
        seq![payload.take(OPTION as int)] + chunks(payload.skip(OPTION as int))
    }
}

/// The lines of the inform that carries `chunk`.
pub open spec fn carrying_text(chunk: Seq<u8>) -> Seq<char> {
    "message-type=inform\noption-224=0x"@ + number::hex_digits(chunk) + "\n"@
}

/// The lines of the inform that carries nothing.
pub open spec fn closing_text() -> Seq<char> {
    "message-type=inform\n"@
}

/// The lines of the informs that a payload is sent as: one for each chunk, and
/// one to close.
pub open spec fn inform_texts(payload: Seq<u8>) -> Seq<Seq<char>> {
    let cut = chunks(payload);
    Seq::new(cut.len(), |i: int| carrying_text(cut[i])).push(closing_text())
}

/// The datagram of the inform carrying `lines`.
pub open spec fn inform_datagram(lines: Seq<char>) -> Result<Seq<u8>, ErrorView> {
    match MessageView::fresh(BOOTREQUEST, XID, MAC@).with_lines(vstd::utf8::encode_utf8(lines)) {
        Ok(m) => wire::encoded(m),
        Err(error) => Err(error),
    }
}

/// Whether a datagram is the acknowledgement that a client waits for.
pub open spec fn acknowledging(datagram: Seq<u8>) -> Result<(), ErrorView> {
    match wire::decoded(datagram) {
        Err(error) => Err(error),
        Ok(m) => if m.op == BOOTREPLY && m.message_type() == Some(MessageType::Ack) {
            Ok(())
        } else {
            Err(ErrorView::NotAcknowledged)
        },
    }
}

// ---------------------------------------------------------------------------
// What the server makes of it
// ---------------------------------------------------------------------------

/// What hexadecimal digits spell, or why they spell nothing.
pub open spec fn unhexed(digits: Seq<char>) -> Result<Seq<u8>, ErrorView> {
    if vstd::utf8::encode_utf8(digits).len() % 2 != 0 {
        Err(ErrorView::OddHex { digits })
    } else {
        match number::hex_bytes(digits) {
            Some(bytes) => Ok(bytes),
            None => Err(ErrorView::NotHex { digits }),
        }
    }
}

/// Where the acknowledgement of the inform that `origin` names goes, and its
/// datagram.
pub open spec fn acknowledgement_of(origin: Seq<char>) -> Result<
    (Seq<char>, Seq<u8>),
    ErrorView,
> {
    transport::sent(text::replaced(origin, "type=inform"@, "type=ack"@), seq![])
}

/// What a server has taken so far: the bytes, and where the first inform came
/// from.
pub struct GatheredView {
    pub bytes: Seq<u8>,
    pub origin: Option<Seq<char>>,
}

/// What comes of an inform: more is awaited, or the Stream is whole.
pub enum StepView {
    More(GatheredView),
    Done((Seq<char>, Seq<u8>)),
}

/// `bytes` with what each of `lines` carries after them, and whether one
/// carries anything, one before them having done so or not.
pub open spec fn gather(bytes: Seq<u8>, carried: bool, lines: Seq<Seq<char>>) -> Result<
    (Seq<u8>, bool),
    ErrorView,
>
    decreases lines.len(),
{
    if lines.len() == 0 {
        Ok((bytes, carried))
    } else if text::starts_with(lines[0], "option-224=0x"@) {
        match unhexed(lines[0].skip("option-224=0x"@.len() as int)) {
            Ok(more) => gather(bytes + more, true, lines.skip(1)),
            Err(error) => Err(error),
        }
    } else {
        gather(bytes, carried, lines.skip(1))
    }
}

/// What comes of the Stream that an inform arrived as: the bytes that its lines
/// carry are kept; where they carry none, the Stream is whole.
pub open spec fn step_of(state: GatheredView, came: (Seq<char>, Seq<u8>)) -> Result<
    StepView,
    ErrorView,
> {
    if !vstd::utf8::valid_utf8(came.1) {
        Err(ErrorView::LinesNotText)
    } else {
        match gather(state.bytes, false, text::lines(vstd::utf8::decode_utf8(came.1))) {
            Err(error) => Err(error),
            Ok((bytes, carried)) => {
                let origin = match state.origin {
                    Some(origin) => origin,
                    None => came.0,
                };
                if carried {
                    Ok(StepView::More(GatheredView { bytes, origin: Some(origin) }))
                } else {
                    Ok(StepView::Done((origin, bytes)))
                }
            },
        }
    }
}

/// What a server does about a datagram.
pub enum ServedView {
    Skipped(GatheredView),
    Answered { client: Seq<char>, answer: Seq<u8>, step: Result<StepView, ErrorView> },
}

/// What a server that has taken `state` does about a datagram from `peer`: it
/// skips a server's message, and answers a client's, whatever comes of it.
pub open spec fn served(state: GatheredView, peer: Seq<char>, datagram: Seq<u8>) -> Result<
    ServedView,
    ErrorView,
> {
    match transport::received(peer, datagram) {
        Err(error) => Err(error),
        Ok(None) => Ok(ServedView::Skipped(state)),
        Ok(Some(came)) => match acknowledgement_of(came.0) {
            Err(error) => Err(error),
            Ok((client, answer)) => Ok(
                ServedView::Answered { client, answer, step: step_of(state, came) },
            ),
        },
    }
}

// ---------------------------------------------------------------------------
// Hexadecimal
// ---------------------------------------------------------------------------

/// `bytes` as lower-case hex pairs, the form an option line takes.
#[must_use]
pub fn hex(bytes: &[u8]) -> (r: String)
    ensures
        r@ == number::hex_digits(bytes@),
{
    hex_string(bytes)
}

/// The bytes `digits` spell, refused where they do not.
///
/// # Errors
/// An odd number of bytes, or a pair that is no hexadecimal number.
pub fn unhex(digits: &str) -> (r: Result<Vec<u8>, Error>)
    ensures
        match r {
            Ok(bytes) => unhexed(digits@) == Ok::<Seq<u8>, ErrorView>(bytes@),
            Err(error) => unhexed(digits@) == Err::<Seq<u8>, ErrorView>(error@),
        },
{
    if digits.as_bytes().len() % 2 != 0 {
        return Err(Error::OddHex { digits: digits.to_owned() });
    }
    match option::unhex(digits) {
        Some(bytes) => Ok(bytes),
        None => Err(Error::NotHex { digits: digits.to_owned() }),
    }
}

// ---------------------------------------------------------------------------
// The client
// ---------------------------------------------------------------------------

/// The texts that a list of strings holds.
pub open spec fn strings(v: Seq<String>) -> Seq<Seq<char>> {
    Seq::new(v.len(), |i: int| v[i]@)
}

/// The lines of the informs that `payload` is sent as, in their order.
///
/// # Errors
/// A payload over [`MAX_STREAM`].
pub fn inform_lines(payload: &[u8]) -> (r: Result<Vec<String>, Error>)
    ensures
        match r {
            Ok(list) => payload@.len() <= MAX_STREAM && strings(list@) == inform_texts(payload@),
            Err(error) => payload@.len() > MAX_STREAM && error@ == (ErrorView::StreamTooLong {
                length: payload@.len() as usize,
            }),
        },
{
    if payload.len() > MAX_STREAM {
        return Err(Error::StreamTooLong { length: payload.len() });
    }
    let mut out: Vec<String> = Vec::new();
    let mut at: usize = 0;
    let ghost cut = chunks(payload@);
    let ghost all = Seq::new(cut.len(), |i: int| carrying_text(cut[i]));
    assert(payload@.skip(0) == payload@);
    assert(strings(out@) == all.take(0));
    assert(cut.skip(0) == cut);
    while at < payload.len()
        invariant
            at <= payload@.len(),
            cut == chunks(payload@),
            all == Seq::new(cut.len(), |i: int| carrying_text(cut[i])),
            out@.len() <= cut.len(),
            strings(out@) == all.take(out@.len() as int),
            cut.skip(out@.len() as int) == chunks(payload@.skip(at as int)),
        decreases payload.len() - at,
    {
        let size: usize = if payload.len() - at < OPTION {
            payload.len() - at
        } else {
            OPTION
        };
        let chunk = slice_subrange(payload, at, at + size);
        let ghost rest = payload@.skip(at as int);
        let ghost n = out@.len() as int;
        assert(chunk@ == rest.take(size as int));
        assert(rest.take(rest.len() as int) == rest);
        assert(rest.skip(size as int) == payload@.skip(at + size));
        assert(chunks(rest) == seq![chunk@] + chunks(rest.skip(size as int)));
        assert(cut.skip(n)[0] == chunk@);
        assert(cut[n] == chunk@);
        out.push(
            "message-type=inform\noption-224=0x".to_owned().concat(hex(chunk).as_str()).concat(
                "\n",
            ),
        );
        assert(all[n] == carrying_text(chunk@));
        assert(strings(out@) == all.take(n).push(all[n]));
        assert(all.take(n + 1) == all.take(n).push(all[n]));
        assert(cut.skip(n + 1) == cut.skip(n).skip(1));
        assert((seq![chunk@] + chunks(rest.skip(size as int))).skip(1) == chunks(
            rest.skip(size as int),
        ));
        at += size;
    }
    assert(payload@.skip(at as int).len() == 0);
    assert(cut.skip(out@.len() as int).len() == 0);
    assert(all.take(out@.len() as int) == all);
    out.push("message-type=inform\n".to_owned());
    assert(strings(out@) == all.push(closing_text()));
    Ok(out)
}

/// The DHCPINFORM carrying `lines`.
///
/// # Errors
/// Lines that are not options, or a message with no datagram.
pub fn inform(lines: &str) -> (r: Result<Vec<u8>, Error>)
    ensures
        match r {
            Ok(datagram) => inform_datagram(lines@) == Ok::<Seq<u8>, ErrorView>(datagram@),
            Err(error) => inform_datagram(lines@) == Err::<Seq<u8>, ErrorView>(error@),
        },
{
    match Message::new(BOOTREQUEST, XID, MAC.as_slice()).with_lines(lines.as_bytes()) {
        Ok(message) => encode(&message),
        Err(error) => Err(error),
    }
}

impl DhcpTransport {
    /// Both ends on this machine: a server at an ephemeral local port, giving up
    /// after `timeout`.
    #[must_use]
    pub fn loopback(timeout: Duration) -> (r: Self)
        ensures
            r.bind@ == "127.0.0.1:0"@,
            r.timeout == Some(timeout),
    {
        DhcpTransport::new("127.0.0.1:0").timing_out_after(timeout)
    }

    /// The most that a Stream sent over the loopback holds.
    #[must_use]
    pub fn ceiling(&self) -> (r: Option<usize>)
        ensures
            r == Some(MAX_STREAM),
    {
        Some(MAX_STREAM)
    }
}

/// The DHCPACK a client waits for after each inform.
///
/// # Errors
/// A datagram that is no message, or a message that is no acknowledgement.
pub fn acknowledged(datagram: &[u8]) -> (r: Result<(), Error>)
    ensures
        match r {
            Ok(()) => acknowledging(datagram@) == Ok::<(), ErrorView>(()),
            Err(error) => acknowledging(datagram@) == Err::<(), ErrorView>(error@),
        },
{
    match decode(datagram) {
        Ok(reply) => if reply.op == BOOTREPLY && reply.message_type() == Some(MessageType::Ack) {
            Ok(())
        } else {
            Err(Error::NotAcknowledged)
        },
        Err(error) => Err(error),
    }
}

// ---------------------------------------------------------------------------
// The server
// ---------------------------------------------------------------------------

/// The DHCPACK answering the inform `origin` names: where it goes, and its
/// datagram.
///
/// # Errors
/// An origin that is no target of a reply.
pub fn acknowledgement(origin: &str) -> (r: Result<(String, Vec<u8>), Error>)
    ensures
        match r {
            Ok((host, datagram)) => acknowledgement_of(origin@) == Ok::<
                (Seq<char>, Seq<u8>),
                ErrorView,
            >((host@, datagram@)),
            Err(error) => acknowledgement_of(origin@) == Err::<(Seq<char>, Seq<u8>), ErrorView>(
                error@,
            ),
        },
{
    let chars: Vec<char> = chars_of(origin);
    proof {
        reveal_strlit("type=inform");
    }
    let target: Vec<char> = replace(chars.as_slice(), "type=inform", "type=ack");
    let none: Vec<u8> = Vec::new();
    assert(none@ == Seq::<u8>::empty());
    DhcpTransport::datagram_for(string_of(target.as_slice()).as_str(), none.as_slice())
}

/// What a server has taken so far.
#[derive(Clone, Debug, PartialEq, Eq)]
pub struct Gathered {
    pub bytes: Vec<u8>,
    pub origin: Option<String>,
}

/// What comes of an inform.
#[derive(Clone, Debug, PartialEq, Eq)]
pub enum Step {
    /// More is awaited.
    More(Gathered),
    /// The Stream is whole.
    Done(Arrived),
}

/// What a server does about a datagram.
#[derive(Debug, PartialEq, Eq)]
pub enum Served {
    /// Nothing: it is another server's.
    Skipped(Gathered),
    /// It sends `answer` to `client`, and this comes of the inform.
    Answered { client: String, answer: Vec<u8>, step: Result<Step, Error> },
}

impl View for Gathered {
    type V = GatheredView;

    open spec fn view(&self) -> GatheredView {
        GatheredView {
            bytes: self.bytes@,
            origin: match self.origin {
                Some(origin) => Some(origin@),
                None => None,
            },
        }
    }
}

impl View for Step {
    type V = StepView;

    open spec fn view(&self) -> StepView {
        match *self {
            Step::More(state) => StepView::More(state@),
            Step::Done(came) => StepView::Done(came@),
        }
    }
}

/// What comes of an inform, or why nothing does, over views.
pub open spec fn step_view(step: Result<Step, Error>) -> Result<StepView, ErrorView> {
    match step {
        Ok(step) => Ok(step@),
        Err(error) => Err(error@),
    }
}

impl View for Served {
    type V = ServedView;

    open spec fn view(&self) -> ServedView {
        match *self {
            Served::Skipped(state) => ServedView::Skipped(state@),
            Served::Answered { client, answer, step } => ServedView::Answered {
                client: client@,
                answer: answer@,
                step: step_view(step),
            },
        }
    }
}

impl Gathered {
    /// Nothing taken yet.
    #[must_use]
    pub fn new() -> (r: Self)
        ensures
            r@ == (GatheredView { bytes: seq![], origin: None }),
    {
        let r = Gathered { bytes: Vec::new(), origin: None };
        assert(r@.bytes == Seq::<u8>::empty());
        r
    }

    /// What comes of the Stream that one more inform arrived as.
    ///
    /// # Errors
    /// Lines that are not text, or a line that carries what is not hexadecimal.
    pub fn take(self, arrived: Arrived) -> (r: Result<Step, Error>)
        ensures
            match r {
                Ok(step) => step_of(self@, arrived@) == Ok::<StepView, ErrorView>(step@),
                Err(error) => step_of(self@, arrived@) == Err::<StepView, ErrorView>(error@),
            },
    {
        let ghost before = self@;
        let mut bytes: Vec<u8> = self.bytes;
        let mut carried: bool = false;
        match from_utf8(arrived.bytes.as_slice()) {
            None => {
                return Err(Error::LinesNotText);
            },
            Some(whole) => {
                let chars: Vec<char> = chars_of(whole);
                let list: Vec<&[char]> = split_lines(chars.as_slice());
                let ghost all = text::lines(whole@);
                let mut i: usize = 0;
                assert(all.skip(0) == all);
                while i < list.len()
                    invariant
                        i <= list@.len(),
                        text::texts(list@) == all,
                        vstd::utf8::valid_utf8(arrived@.1),
                        all == text::lines(vstd::utf8::decode_utf8(arrived@.1)),
                        before == self@,
                        gather(before.bytes, false, all) == gather(
                            bytes@,
                            carried,
                            all.skip(i as int),
                        ),
                    decreases list.len() - i,
                {
                    let ghost here = all.skip(i as int);
                    assert(here[0] == list@[i as int]@);
                    assert(here.skip(1) == all.skip(i + 1));
                    if let Some(digits) = strip_prefix(list[i], "option-224=0x") {
                        match unhex(string_of(digits).as_str()) {
                            Ok(more) => {
                                push_bytes(&mut bytes, more.as_slice());
                                carried = true;
                            },
                            Err(error) => {
                                return Err(error);
                            },
                        }
                    }
                    i += 1;
                }
                assert(all.skip(i as int).len() == 0);
            },
        }
        let origin: String = match self.origin {
            Some(origin) => origin,
            None => arrived.origin_uri,
        };
        if carried {
            Ok(Step::More(Gathered { bytes, origin: Some(origin) }))
        } else {
            Ok(Step::Done(Arrived { origin_uri: origin, bytes }))
        }
    }

    /// What to do about one more datagram, from `peer`.
    ///
    /// # Errors
    /// A datagram that is not DHCP, or that has no answer.
    pub fn serve(self, peer: &str, datagram: &[u8]) -> (r: Result<Served, Error>)
        ensures
            match r {
                Ok(done) => served(self@, peer@, datagram@) == Ok::<ServedView, ErrorView>(done@),
                Err(error) => served(self@, peer@, datagram@) == Err::<ServedView, ErrorView>(
                    error@,
                ),
            },
    {
        match DhcpTransport::take_datagram(peer, datagram) {
            Err(error) => Err(error),
            Ok(None) => Ok(Served::Skipped(self)),
            Ok(Some(came)) => match acknowledgement(came.origin_uri.as_str()) {
                Err(error) => Err(error),
                Ok((client, answer)) => Ok(
                    Served::Answered { client, answer, step: self.take(came) },
                ),
            },
        }
    }
}

// ---------------------------------------------------------------------------
// What is sent is taken
// ---------------------------------------------------------------------------

/// The options of the inform that carries `chunk`.
pub open spec fn carrying_options(chunk: Seq<u8>) -> Seq<(u8, Seq<u8>)> {
    seq![(OPTION_MESSAGE_TYPE, seq![MessageType::Inform.number()]), (224u8, chunk)]
}

/// The options of the inform that carries nothing.
pub open spec fn closing_options() -> Seq<(u8, Seq<u8>)> {
    seq![(OPTION_MESSAGE_TYPE, seq![MessageType::Inform.number()])]
}

/// The inform with `options`.
pub open spec fn inform_message(options: Seq<(u8, Seq<u8>)>) -> MessageView {
    MessageView { options, ..MessageView::fresh(BOOTREQUEST, XID, MAC@) }
}

/// Where every inform of a client at `peer` comes from.
pub open spec fn inform_origin(peer: Seq<char>) -> Seq<char> {
    "dhcp://"@ + peer + "?xid=0x786d6970&type=inform&mac=02:00:00:78:6d:69&hostname="@
}

/// What one inform comes to at a server that has taken `state`: the client
/// sends the datagram of `lines` from `peer`, the server takes it and
/// acknowledges it, and the client accepts the acknowledgement. `None` where
/// any of these does not happen.
#[verifier::opaque]
pub open spec fn exchange(state: GatheredView, peer: Seq<char>, lines: Seq<char>) -> Option<
    StepView,
> {
    match inform_datagram(lines) {
        Ok(datagram) => match served(state, peer, datagram) {
            Ok(ServedView::Answered { client, answer, step: Ok(step) }) => if client == peer
                && acknowledging(answer) is Ok {
                Some(step)
            } else {
                None
            },
            _ => None,
        },
        Err(_) => None,
    }
}

/// What a server that has taken `state` takes in all from a client at `peer`
/// that sends informs of `texts`, each once the one before is acknowledged.
/// `None` where one is not, or where the Stream is not whole at the last inform
/// and not before.
pub open spec fn conversation(
    state: GatheredView,
    peer: Seq<char>,
    texts: Seq<Seq<char>>,
) -> Option<(Seq<char>, Seq<u8>)>
    decreases texts.len(),
{
    if texts.len() == 0 {
        None
    } else {
        match exchange(state, peer, texts[0]) {
            Some(StepView::More(state)) => conversation(state, peer, texts.skip(1)),
            Some(StepView::Done(came)) => if texts.len() == 1 {
                Some(came)
            } else {
                None
            },
            None => None,
        }
    }
}

/// The lines of an inform that carries a chunk are those of its options.
#[verifier::spinoff_prover]
pub proof fn lemma_carrying_lines(chunk: Seq<u8>)
    ensures
        lines::bodies(carrying_options(chunk)) == seq![
            "message-type=inform"@,
            "option-224=0x"@ + number::hex_digits(chunk),
        ],
        lines::lines_text(carrying_options(chunk)) == carrying_text(chunk),
        lines::bodies(closing_options()) == seq!["message-type=inform"@],
        lines::lines_text(closing_options()) == closing_text(),
{
    reveal_strlit("message-type=inform\noption-224=0x");
    reveal_strlit("message-type=inform\n");
    reveal_strlit("message-type=inform");
    reveal_strlit("message-type");
    reveal_strlit("inform");
    reveal_strlit("option-224=0x");
    reveal_strlit("option-");
    reveal_strlit("0x");
    reveal_strlit("\n");
    let both = carrying_options(chunk);
    let one = closing_options();
    assert(number::decimal(2) == seq!['2']);
    assert(number::decimal(22) == seq!['2', '2']);
    assert(number::decimal(224) == seq!['2', '2', '4']);
    let first = lines::body(one[0]);
    let second = lines::body(both[1]);
    assert(both[0] == one[0]);
    assert(first == "message-type=inform"@);
    assert(second == "option-224=0x"@ + number::hex_digits(chunk));
    assert(lines::bodies(both) == seq![first, second]);
    assert(lines::bodies(one) == seq![first]);
    assert(one.drop_last() == Seq::<(u8, Seq<u8>)>::empty());
    assert(lines::lines_text(one.drop_last()) == Seq::<char>::empty());
    assert(lines::lines_text(one) == Seq::<char>::empty() + first + seq!['\n']);
    assert(lines::lines_text(one) == closing_text());
    assert(both.drop_last() == one);
    assert(lines::lines_text(both) == lines::lines_text(one) + second + seq!['\n']);
    assert(lines::lines_text(both) == carrying_text(chunk));
}

/// The options of informs are listed.
pub proof fn lemma_inform_listed(chunk: Seq<u8>)
    ensures
        lines::listed(carrying_options(chunk)),
        lines::listed(closing_options()),
{
    let both = carrying_options(chunk);
    option::lemma_rendered_trimmed(both[0].0, both[0].1);
    option::lemma_rendered_trimmed(both[1].0, both[1].1);
    assert forall|i: int| 0 <= i < both.len() implies lines::fits_line(#[trigger] both[i]) by {
        assert(i == 0 || i == 1);
    }
    assert(closing_options()[0] == both[0]);
}

/// The datagram of listed options that are not too long.
pub proof fn lemma_inform_datagram(options: Seq<(u8, Seq<u8>)>)
    requires
        lines::listed(options),
    ensures
        inform_datagram(lines::lines_text(options)) == wire::encoded(inform_message(options)),
{
    let m = inform_message(options);
    lines::law_lines_read_back(m);
    assert((MessageView { options: seq![], ..m }) == MessageView::fresh(BOOTREQUEST, XID, MAC@));
}

/// An inform has a datagram.
pub proof fn lemma_inform_encoded(chunk: Seq<u8>)
    requires
        chunk.len() <= OPTION,
    ensures
        wire::encoded(inform_message(carrying_options(chunk))) is Ok,
        wire::encoded(inform_message(closing_options())) is Ok,
        wire::sound(inform_message(carrying_options(chunk))),
        wire::sound(inform_message(closing_options())),
{
    let both = carrying_options(chunk);
    let one = closing_options();
    assert(both.skip(1)[0] == both[1]);
    assert(both.skip(1).skip(1).len() == 0);
    assert(wire::first_too_long(both.skip(1).skip(1)) is None);
    assert(wire::first_too_long(both.skip(1)) is None);
    assert(wire::first_too_long(both) is None);
    assert(one.skip(1).len() == 0);
    assert(wire::first_too_long(one.skip(1)) is None);
    assert(wire::first_too_long(one) is None);
    assert(both.drop_last() == one);
    assert(one.drop_last().len() == 0);
    assert(wire::items(one.drop_last()).len() == 0);
    assert(wire::items(one).len() == 3);
    assert(wire::items(both).len() == 5 + chunk.len());
    assert(wire::header(inform_message(both)).len() == 28);
    assert(wire::header(inform_message(one)).len() == 28);
    assert(wire::field(Seq::<char>::empty(), 64).len() == 64);
    assert(wire::field(Seq::<char>::empty(), 128).len() == 128);
    assert(wire::fixed(inform_message(both)).len() == 240);
    assert(wire::fixed(inform_message(one)).len() == 240);
    assert forall|i: int| 0 <= i < both.len() implies wire::carried(#[trigger] both[i]) by {
        assert(i == 0 || i == 1);
    }
}

/// What the client of an inform is called.
#[verifier::spinoff_prover]
proof fn lemma_client_text(m: MessageView)
    requires
        m.xid == XID,
        m.hlen == 6,
        m.chaddr == MessageView::fresh(BOOTREQUEST, XID, MAC@).chaddr,
    ensures
        number::hex_digits(number::be32(m.xid)) == "786d6970"@,
        m.hardware() == MAC@,
        m.mac() == "02:00:00:78:6d:69"@,
{
    reveal_strlit("786d6970");
    reveal_strlit("02:00:00:78:6d:69");
    reveal_strlit(":");
    let x = number::be32(XID);
    assert(x == seq![0x78u8, 0x6du8, 0x69u8, 0x70u8]);
    reveal_with_fuel(number::hex_digits, 5);
    assert(number::hex_digits(x) =~= "786d6970"@);
    assert(m.hardware() =~= MAC@);
    reveal_with_fuel(text::joined, 7);
    let parts = option::pairs(MAC@);
    assert(parts =~= seq![
        seq!['0', '2'],
        seq!['0', '0'],
        seq!['0', '0'],
        seq!['7', '8'],
        seq!['6', 'd'],
        seq!['6', '9'],
    ]);
    assert(text::joined(parts, ":"@) =~= "02:00:00:78:6d:69"@);
}

/// Where an inform comes from.
#[verifier::spinoff_prover]
proof fn lemma_inform_origin(peer: Seq<char>, chunk: Seq<u8>)
    ensures
        transport::origin(peer, inform_message(carrying_options(chunk))) == inform_origin(peer),
        transport::origin(peer, inform_message(closing_options())) == inform_origin(peer),
{
    reveal_strlit("?xid=0x786d6970&type=inform&mac=02:00:00:78:6d:69&hostname=");
    reveal_strlit("?xid=0x");
    reveal_strlit("786d6970");
    reveal_strlit("&type=");
    reveal_strlit("inform");
    reveal_strlit("&mac=");
    reveal_strlit("02:00:00:78:6d:69");
    reveal_strlit("&hostname=");
    let both = carrying_options(chunk);
    let one = closing_options();
    lemma_client_text(inform_message(both));
    lemma_client_text(inform_message(one));
    assert(one.skip(1).len() == 0);
    assert(both.skip(1)[0] == both[1]);
    assert(both.skip(1).skip(1).len() == 0);
    assert(message::lookup(one.skip(1), message::OPTION_HOSTNAME) is None);
    assert(message::lookup(both.skip(1).skip(1), message::OPTION_HOSTNAME) is None);
    assert(message::lookup(both.skip(1), message::OPTION_HOSTNAME) is None);
    assert(inform_message(both).hostname() == Seq::<char>::empty());
    assert(inform_message(one).hostname() == Seq::<char>::empty());
    let tail = "?xid=0x"@ + "786d6970"@ + "&type="@ + "inform"@ + "&mac="@ + "02:00:00:78:6d:69"@
        + "&hostname="@;
    assert(tail =~= "?xid=0x786d6970&type=inform&mac=02:00:00:78:6d:69&hostname="@);
    assert(transport::origin(peer, inform_message(both)) =~= "dhcp://"@ + peer + tail);
    assert(transport::origin(peer, inform_message(one)) =~= "dhcp://"@ + peer + tail);
}

/// The digits of a chunk are read back.
pub proof fn law_chunk_reads_back(chunk: Seq<u8>)
    ensures
        unhexed(number::hex_digits(chunk)) == Ok::<Seq<u8>, ErrorView>(chunk),
{
    let digits = number::hex_digits(chunk);
    lemma_digits_ascii(chunk);
    vstd::utf8::is_ascii_chars_encode_utf8(digits);
    number::lemma_hex_digits_same(chunk);
    number::law_hex_reads_back(chunk, digits);
}

/// The digits of bytes are two characters of ASCII each.
proof fn lemma_digits_ascii(bytes: Seq<u8>)
    ensures
        number::hex_digits(bytes).len() == 2 * bytes.len(),
        vstd::utf8::is_ascii_chars(number::hex_digits(bytes)),
    decreases bytes.len(),
{
    if bytes.len() > 0 {
        let front = number::hex_digits(bytes.drop_last());
        let pair = number::hex_pair(bytes.last());
        lemma_digits_ascii(bytes.drop_last());
        number::lemma_digit(bytes.last() as int / 16);
        number::lemma_digit(bytes.last() as int % 16);
        let all = front + pair;
        assert forall|i: int| 0 <= i < all.len() implies '\0' <= #[trigger] all[i] <= '\u{7f}' by {
            if i < front.len() {
                assert(all[i] == front[i]);
            } else {
                assert(all[i] == pair[i - front.len()]);
                assert(i - front.len() == 0 || i - front.len() == 1);
            }
        }
    }
}

/// What the lines of an inform come to at a server.
#[verifier::spinoff_prover]
proof fn lemma_inform_taken(state: GatheredView, origin: Seq<char>, chunk: Seq<u8>)
    ensures
        ({
            let from = match state.origin {
                Some(first) => first,
                None => origin,
            };
            &&& step_of(state, (origin, inform_message(carrying_options(chunk)).option_lines()))
                == Ok::<StepView, ErrorView>(
                StepView::More(GatheredView { bytes: state.bytes + chunk, origin: Some(from) }),
            )
            &&& step_of(state, (origin, inform_message(closing_options()).option_lines())) == Ok::<
                StepView,
                ErrorView,
            >(StepView::Done((from, state.bytes)))
        }),
{
    reveal_strlit("message-type=inform");
    reveal_strlit("option-224=0x");
    let both = carrying_options(chunk);
    let one = closing_options();
    let start = "option-224=0x"@;
    let first = "message-type=inform"@;
    let second = start + number::hex_digits(chunk);
    lemma_carrying_lines(chunk);
    lemma_inform_listed(chunk);
    lines::lemma_lines_of_listed(both);
    lines::lemma_lines_of_listed(one);
    vstd::utf8::encode_utf8_valid_utf8(lines::lines_text(both));
    vstd::utf8::encode_utf8_decode_utf8(lines::lines_text(both));
    vstd::utf8::encode_utf8_valid_utf8(lines::lines_text(one));
    vstd::utf8::encode_utf8_decode_utf8(lines::lines_text(one));
    law_chunk_reads_back(chunk);
    let two = seq![first, second];
    let single = seq![first];
    assert(first.take(start.len() as int)[0] == 'm');
    assert(!text::starts_with(first, start));
    assert(second.take(start.len() as int) == start);
    assert(second.skip(start.len() as int) == number::hex_digits(chunk));
    assert(single.skip(1).len() == 0);
    assert(two.skip(1)[0] == second);
    assert(two.skip(1).skip(1).len() == 0);
    let bytes = state.bytes;
    let more = bytes + chunk;
    assert(gather(more, true, two.skip(1).skip(1)) == Ok::<(Seq<u8>, bool), ErrorView>(
        (more, true),
    ));
    assert(gather(bytes, false, two.skip(1)) == Ok::<(Seq<u8>, bool), ErrorView>((more, true)));
    assert(gather(bytes, false, two) == Ok::<(Seq<u8>, bool), ErrorView>((more, true)));
    assert(gather(bytes, false, single.skip(1)) == Ok::<(Seq<u8>, bool), ErrorView>(
        (bytes, false),
    ));
    assert(gather(bytes, false, single) == Ok::<(Seq<u8>, bool), ErrorView>((bytes, false)));
}

/// The origin of an inform with its type made an acknowledgement.
#[verifier::spinoff_prover]
proof fn lemma_acknowledgement_target(peer: Seq<char>)
    requires
        !text::holds(peer, "type=inform"@),
    ensures
        text::replaced(inform_origin(peer), "type=inform"@, "type=ack"@) == "dhcp://"@ + peer
            + "?xid=0x786d6970&type=ack&mac=02:00:00:78:6d:69&hostname="@,
{
    reveal_strlit("dhcp://");
    reveal_strlit("type=inform");
    reveal_strlit("type=ack");
    reveal_strlit("?xid=0x786d6970&");
    reveal_strlit("&mac=02:00:00:78:6d:69&hostname=");
    reveal_strlit("?xid=0x786d6970&type=inform&mac=02:00:00:78:6d:69&hostname=");
    reveal_strlit("?xid=0x786d6970&type=ack&mac=02:00:00:78:6d:69&hostname=");
    let from = "type=inform"@;
    let to = "type=ack"@;
    let before = "dhcp://"@ + peer + "?xid=0x786d6970&"@;
    let after = "&mac=02:00:00:78:6d:69&hostname="@;
    let whole = before + (from + after);
    assert(inform_origin(peer) =~= whole);
    let n = peer.len() as int;
    assert forall|i: int| 0 <= i < before.len() implies !text::starts_with(
        #[trigger] whole.skip(i),
        from,
    ) by {
        let here = whole.skip(i);
        if text::starts_with(here, from) {
            assert forall|j: int| 0 <= j < from.len() implies whole[i + j]
                == #[trigger] from[j] by {
                assert(here.take(from.len() as int)[j] == here[j]);
            }
            assert(from[0] == 't');
            if i < 7 {
                assert(whole[i] == "dhcp://"@[i]);
            } else if i >= 7 + n {
                assert(whole[i] == "?xid=0x786d6970&"@[i - 7 - n]);
            } else if i + 11 <= 7 + n {
                let part = peer.skip(i - 7);
                assert(part.take(11) =~= from) by {
                    assert forall|j: int| 0 <= j < 11 implies part[j] == from[j] by {
                        assert(whole[i + j] == peer[i - 7 + j]);
                    }
                }
                assert(text::starts_with(peer.skip(i - 7), from));
            } else {
                let j = 7 + n - i;
                assert(whole[i + j] == '?');
                assert(from[j] != '?');
            }
        }
    }
    text::lemma_replaced_after(before, from + after, from, to);
    assert((from + after).take(from.len() as int) == from);
    assert((from + after).skip(from.len() as int) == after);
    let none = Seq::<char>::empty();
    assert(after + none == after);
    assert forall|i: int| 0 <= i < after.len() implies !text::starts_with(
        #[trigger] (after + none).skip(i),
        from,
    ) by {
        let here = after.skip(i);
        if text::starts_with(here, from) {
            assert(here.take(from.len() as int)[0] == here[0]);
            assert(here.take(from.len() as int)[1] == here[1]);
            assert(after[i] == 't');
            assert(after[i + 1] == 'y');
        }
    }
    text::lemma_replaced_after(after, none, from, to);
    assert(text::replaced(none, from, to) == none);
    assert(text::replaced(from + after, from, to) == to + after);
    assert(before + (to + after) =~= "dhcp://"@ + peer
        + "?xid=0x786d6970&type=ack&mac=02:00:00:78:6d:69&hostname="@);
}

/// What every inform of a client is answered with.
#[verifier::spinoff_prover]
pub proof fn lemma_answer(peer: Seq<char>)
    requires
        text::lacks(peer, seq!['/']),
        text::lacks(peer, seq!['?']),
        !text::holds(peer, "type=inform"@),
    ensures
        match acknowledgement_of(inform_origin(peer)) {
            Ok((client, answer)) => client == peer && wire::decoded(answer) == Ok::<
                MessageView,
                ErrorView,
            >(transport::bare_reply(XID, MAC@, MessageType::Ack, None, None)),
            Err(_) => false,
        },
{
    reveal_strlit("?xid=0x786d6970&type=ack&mac=02:00:00:78:6d:69&hostname=");
    reveal_strlit("?xid=0x");
    reveal_strlit("786d6970");
    reveal_strlit("&type=");
    reveal_strlit("ack");
    reveal_strlit("&mac=");
    reveal_strlit("02:00:00:78:6d:69");
    reveal_strlit("&hostname=");
    let options = seq![(OPTION_MESSAGE_TYPE, seq![MessageType::Ack.number()])];
    let m = inform_message(options);
    let none = Seq::<char>::empty();
    lemma_acknowledgement_target(peer);
    lemma_client_text(m);
    assert(options.skip(1).len() == 0);
    assert(message::lookup(options.skip(1), message::OPTION_HOSTNAME) is None);
    assert(m.hostname() == none);
    assert(m.message_type() == Some(MessageType::Ack));
    let target = transport::origin(peer, m);
    let tail = "?xid=0x"@ + "786d6970"@ + "&type="@ + "ack"@ + "&mac="@ + "02:00:00:78:6d:69"@
        + "&hostname="@;
    assert(tail =~= "?xid=0x786d6970&type=ack&mac=02:00:00:78:6d:69&hostname="@);
    assert(target =~= "dhcp://"@ + peer + tail);
    assert(transport::name_seen(none) == none);
    assert(text::pieces(none, seq!['&']) == seq![none]);
    assert(transport::pairs_in_name(none).len() == 0);
    transport::law_origin_answers(peer, m);
    let reply = transport::bare_reply(XID, MAC@, MessageType::Ack, None, None);
    transport::lemma_bare_reply(XID, MAC@, MessageType::Ack, None, None);
    assert(reply.options =~= options);
    lemma_reply_encoded(reply);
    transport::law_reply_reaches(target, seq![], peer);
}

/// Every inform of a client is answered with an acknowledgement that the client
/// accepts.
#[verifier::spinoff_prover]
pub proof fn law_inform_acknowledged(peer: Seq<char>)
    requires
        text::lacks(peer, seq!['/']),
        text::lacks(peer, seq!['?']),
        !text::holds(peer, "type=inform"@),
    ensures
        match acknowledgement_of(inform_origin(peer)) {
            Ok((client, answer)) => client == peer && acknowledging(answer) == Ok::<(), ErrorView>(
                (),
            ),
            Err(_) => false,
        },
{
    lemma_answer(peer);
    transport::lemma_bare_reply(XID, MAC@, MessageType::Ack, None, None);
}

/// A reply whose one option is its type has a datagram.
proof fn lemma_reply_encoded(m: MessageView)
    requires
        m.options == seq![(OPTION_MESSAGE_TYPE, seq![MessageType::Ack.number()])],
        m.chaddr.len() == 16,
    ensures
        wire::encoded(m) is Ok,
        wire::sound(m),
{
    let one = m.options;
    assert(one.skip(1).len() == 0);
    assert(wire::first_too_long(one.skip(1)) is None);
    assert(wire::first_too_long(one) is None);
    assert(one.drop_last().len() == 0);
    assert(wire::items(one.drop_last()).len() == 0);
    assert(wire::items(one).len() == 3);
    assert(wire::header(m).len() == 28);
    assert(wire::fixed(m).len() == 240);
}

/// An exchange in which each part goes well.
#[verifier::spinoff_prover]
proof fn lemma_exchange_goes(
    state: GatheredView,
    peer: Seq<char>,
    lines: Seq<char>,
    datagram: Seq<u8>,
    came: (Seq<char>, Seq<u8>),
    answer: Seq<u8>,
    step: StepView,
)
    requires
        inform_datagram(lines) == Ok::<Seq<u8>, ErrorView>(datagram),
        transport::received(peer, datagram) == Ok::<Option<(Seq<char>, Seq<u8>)>, ErrorView>(
            Some(came),
        ),
        acknowledgement_of(came.0) == Ok::<(Seq<char>, Seq<u8>), ErrorView>((peer, answer)),
        acknowledging(answer) == Ok::<(), ErrorView>(()),
        step_of(state, came) == Ok::<StepView, ErrorView>(step),
    ensures
        exchange(state, peer, lines) == Some(step),
{
    reveal(exchange);
}

/// The exchange of an inform with `options`.
#[verifier::spinoff_prover]
proof fn lemma_exchange_of(
    state: GatheredView,
    peer: Seq<char>,
    options: Seq<(u8, Seq<u8>)>,
    step: StepView,
)
    requires
        text::lacks(peer, seq!['/']),
        text::lacks(peer, seq!['?']),
        !text::holds(peer, "type=inform"@),
        lines::listed(options),
        wire::sound(inform_message(options)),
        wire::encoded(inform_message(options)) is Ok,
        transport::origin(peer, inform_message(options)) == inform_origin(peer),
        step_of(state, (inform_origin(peer), inform_message(options).option_lines())) == Ok::<
            StepView,
            ErrorView,
        >(step),
    ensures
        exchange(state, peer, lines::lines_text(options)) == Some(step),
{
    let m = inform_message(options);
    lemma_inform_datagram(options);
    transport::law_request_arrives(peer, m);
    law_inform_acknowledged(peer);
    lemma_exchange_goes(
        state,
        peer,
        lines::lines_text(options),
        wire::encoded(m)->Ok_0,
        (inform_origin(peer), m.option_lines()),
        acknowledgement_of(inform_origin(peer))->Ok_0.1,
        step,
    );
}

/// One exchange of a conversation.
#[verifier::spinoff_prover]
proof fn lemma_exchange(state: GatheredView, peer: Seq<char>, chunk: Seq<u8>)
    requires
        text::lacks(peer, seq!['/']),
        text::lacks(peer, seq!['?']),
        !text::holds(peer, "type=inform"@),
        chunk.len() <= OPTION,
    ensures
        ({
            let from = match state.origin {
                Some(first) => first,
                None => inform_origin(peer),
            };
            &&& exchange(state, peer, carrying_text(chunk)) == Some(
                StepView::More(GatheredView { bytes: state.bytes + chunk, origin: Some(from) }),
            )
            &&& exchange(state, peer, closing_text()) == Some(
                StepView::Done((from, state.bytes)),
            )
        }),
{
    let from = match state.origin {
        Some(first) => first,
        None => inform_origin(peer),
    };
    lemma_carrying_lines(chunk);
    lemma_inform_listed(chunk);
    lemma_inform_encoded(chunk);
    lemma_inform_origin(peer, chunk);
    lemma_inform_taken(state, inform_origin(peer), chunk);
    lemma_exchange_of(
        state,
        peer,
        carrying_options(chunk),
        StepView::More(GatheredView { bytes: state.bytes + chunk, origin: Some(from) }),
    );
    lemma_exchange_of(state, peer, closing_options(), StepView::Done((from, state.bytes)));
}

/// The informs of a payload: those of its first chunk and of what follows.
proof fn lemma_inform_texts_front(payload: Seq<u8>)
    requires
        payload.len() > 0,
    ensures
        ({
            let size: int = if payload.len() <= OPTION {
                payload.len() as int
            } else {
                OPTION as int
            };
            inform_texts(payload) == seq![carrying_text(payload.take(size))] + inform_texts(
                payload.skip(size),
            )
        }),
{
    if payload.len() <= OPTION {
        assert(payload.take(payload.len() as int) == payload);
        assert(payload.skip(payload.len() as int).len() == 0);
        assert(chunks(payload.skip(payload.len() as int)) == Seq::<Seq<u8>>::empty());
        assert(chunks(payload) == seq![payload]);
    } else {
        let first = payload.take(OPTION as int);
        let rest = chunks(payload.skip(OPTION as int));
        assert(chunks(payload) == seq![first] + rest);
    }
}

/// What a conversation adds to what a server has taken.
#[verifier::spinoff_prover]
proof fn lemma_conversation(state: GatheredView, peer: Seq<char>, payload: Seq<u8>)
    requires
        text::lacks(peer, seq!['/']),
        text::lacks(peer, seq!['?']),
        !text::holds(peer, "type=inform"@),
    ensures
        conversation(state, peer, inform_texts(payload)) == Some(
            (
                match state.origin {
                    Some(first) => first,
                    None => inform_origin(peer),
                },
                state.bytes + payload,
            ),
        ),
    decreases payload.len(),
{
    let texts = inform_texts(payload);
    if payload.len() == 0 {
        assert(chunks(payload) == Seq::<Seq<u8>>::empty());
        assert(texts == seq![closing_text()]);
        lemma_exchange(state, peer, Seq::empty());
        assert(state.bytes + payload == state.bytes);
    } else {
        let size: int = if payload.len() <= OPTION {
            payload.len() as int
        } else {
            OPTION as int
        };
        let chunk = payload.take(size);
        let rest = payload.skip(size);
        lemma_inform_texts_front(payload);
        lemma_exchange(state, peer, chunk);
        assert(texts[0] == carrying_text(chunk));
        assert(texts.skip(1) == inform_texts(rest));
        let from = match state.origin {
            Some(first) => first,
            None => inform_origin(peer),
        };
        let next = GatheredView { bytes: state.bytes + chunk, origin: Some(from) };
        lemma_conversation(next, peer, rest);
        assert(state.bytes + chunk + rest == state.bytes + payload);
    }
}

/// What a client sends is what the server takes: of every payload that the
/// loopback sends, each inform is acknowledged, and at the last of them the
/// server has the payload, byte for byte, from the client that sent it.
pub proof fn law_stream_rounds(peer: Seq<char>, payload: Seq<u8>)
    requires
        text::lacks(peer, seq!['/']),
        text::lacks(peer, seq!['?']),
        !text::holds(peer, "type=inform"@),
    ensures
        conversation(
            GatheredView { bytes: seq![], origin: None },
            peer,
            inform_texts(payload),
        ) == Some((inform_origin(peer), payload)),
{
    let none = Seq::<u8>::empty();
    lemma_conversation(GatheredView { bytes: none, origin: None }, peer, payload);
    assert(none + payload == payload);
}

}
