//! Messages as datagrams.

use vstd::prelude::*;

use crate::error::{Error, ErrorView};
use crate::ipv4::Ipv4Addr;
use crate::message::{
    options_view, Message, MessageView, MAGIC, MAX_MESSAGE, MIN_MESSAGE, OPTION_END,
};
use crate::number;
use crate::number::{of_be16, of_be32, to_be16, to_be32};
use crate::utf8;
use crate::utf8::read_text;
use vstd::slice::{slice_subrange, slice_to_vec};

verus! {

// ---------------------------------------------------------------------------
// What a datagram holds
// ---------------------------------------------------------------------------

/// `n` zero bytes.
pub open spec fn zeros(n: int) -> Seq<u8> {
    Seq::new(n as nat, |i: int| 0u8)
}

/// `text` in a field of `width` bytes: cut to one byte less, then zeros.
pub open spec fn field(text: Seq<char>, width: int) -> Seq<u8> {
    let bytes = vstd::utf8::encode_utf8(text);
    let taken: int = if bytes.len() < width - 1 {
        bytes.len() as int
    } else {
        width - 1
    };
    bytes.take(taken) + zeros(width - taken)
}

/// The fixed fields before the hardware address.
pub open spec fn header(m: MessageView) -> Seq<u8> {
    seq![m.op, m.htype, m.hlen, m.hops] + number::be32(m.xid) + number::be16(m.secs)
        + number::be16(m.flags) + m.ciaddr.bytes() + m.yiaddr.bytes() + m.siaddr.bytes()
        + m.giaddr.bytes()
}

/// The fixed fields and the cookie.
pub open spec fn fixed(m: MessageView) -> Seq<u8> {
    header(m) + m.chaddr + field(m.sname, 64) + field(m.file, 128) + MAGIC@
}

/// One option: its code, the length of its value, and the value.
pub open spec fn item(option: (u8, Seq<u8>)) -> Seq<u8> {
    seq![option.0, option.1.len() as u8] + option.1
}

/// The options one after the other.
pub open spec fn items(options: Seq<(u8, Seq<u8>)>) -> Seq<u8>
    decreases options.len(),
{
    if options.len() == 0 {
        seq![]
    } else {
        items(options.drop_last()) + item(options.last())
    }
}

/// A message before it is padded: the fixed fields, the options, the end.
pub open spec fn unpadded(m: MessageView) -> Seq<u8> {
    fixed(m) + items(m.options) + seq![OPTION_END]
}

/// The code of the first option whose value is over 255 bytes.
pub open spec fn first_too_long(options: Seq<(u8, Seq<u8>)>) -> Option<u8>
    decreases options.len(),
{
    if options.len() == 0 {
        None
    } else if options[0].1.len() > 255 {
        Some(options[0].0)
    } else {
        first_too_long(options.skip(1))
    }
}

/// `bytes` with zeros after them as far as the smallest datagram.
pub open spec fn padded(bytes: Seq<u8>) -> Seq<u8> {
    if bytes.len() < MIN_MESSAGE {
        bytes + zeros(MIN_MESSAGE - bytes.len())
    } else {
        bytes
    }
}

/// The datagram of `m`, or why it has none.
pub open spec fn encoded(m: MessageView) -> Result<Seq<u8>, ErrorView> {
    match first_too_long(m.options) {
        Some(code) => Err(ErrorView::OptionTooLong { code }),
        None => if unpadded(m).len() > MAX_MESSAGE {
            Err(ErrorView::MessageTooLong)
        } else {
            Ok(padded(unpadded(m)))
        },
    }
}

/// The options in `bytes` up to the end option or the end of `bytes`; `None`
/// where one runs past it. A zero byte in the place of a code is skipped.
pub open spec fn read_items(bytes: Seq<u8>) -> Option<Seq<(u8, Seq<u8>)>>
    decreases bytes.len(),
{
    if bytes.len() == 0 || bytes[0] == OPTION_END {
        Some(seq![])
    } else if bytes[0] == 0 {
        read_items(bytes.skip(1))
    } else if bytes.len() < 2 || bytes.len() < 2 + bytes[1] {
        None
    } else {
        match read_items(bytes.skip(2 + bytes[1])) {
            Some(rest) => Some(seq![(bytes[0], bytes.subrange(2, 2 + bytes[1]))] + rest),
            None => None,
        }
    }
}

/// The position of the first zero of `bytes`; their length where there is none.
pub open spec fn first_zero(bytes: Seq<u8>) -> int
    decreases bytes.len(),
{
    if bytes.len() == 0 || bytes[0] == 0 {
        0
    } else {
        1 + first_zero(bytes.skip(1))
    }
}

/// The text in a field: what stands before its first zero.
pub open spec fn field_text(bytes: Seq<u8>) -> Seq<char> {
    utf8::text_of(bytes.take(first_zero(bytes)))
}

/// The message that the fixed fields of `bytes` and `options` make.
pub open spec fn read_fixed(bytes: Seq<u8>, options: Seq<(u8, Seq<u8>)>) -> MessageView {
    MessageView {
        op: bytes[0],
        htype: bytes[1],
        hlen: bytes[2],
        hops: bytes[3],
        xid: number::from_be32(bytes[4], bytes[5], bytes[6], bytes[7]),
        secs: number::from_be16(bytes[8], bytes[9]),
        flags: number::from_be16(bytes[10], bytes[11]),
        ciaddr: Ipv4Addr::at(bytes, 12),
        yiaddr: Ipv4Addr::at(bytes, 16),
        siaddr: Ipv4Addr::at(bytes, 20),
        giaddr: Ipv4Addr::at(bytes, 24),
        chaddr: bytes.subrange(28, 44),
        sname: field_text(bytes.subrange(44, 108)),
        file: field_text(bytes.subrange(108, 236)),
        options,
    }
}

/// The message in the datagram `bytes`, or why there is none.
pub open spec fn decoded(bytes: Seq<u8>) -> Result<MessageView, ErrorView> {
    if bytes.len() < 240 {
        Err(ErrorView::TooShort)
    } else if bytes.subrange(236, 240) != MAGIC@ {
        Err(ErrorView::WrongCookie)
    } else {
        match read_items(bytes.skip(240)) {
            Some(options) => Ok(read_fixed(bytes, options)),
            None => Err(ErrorView::PastEnd),
        }
    }
}

// ---------------------------------------------------------------------------
// Writing
// ---------------------------------------------------------------------------

/// `more` appended to `out`.
pub fn push_bytes(out: &mut Vec<u8>, more: &[u8])
    ensures
        final(out)@ == old(out)@ + more@,
{
    let mut i: usize = 0;
    assert(out@ == old(out)@ + more@.take(0));
    while i < more.len()
        invariant
            i <= more.len(),
            out@ == old(out)@ + more@.take(i as int),
        decreases more.len() - i,
    {
        out.push(more[i]);
        i += 1;
        assert(old(out)@ + more@.take(i as int) == (old(out)@ + more@.take(i - 1)).push(
            more@[i - 1],
        ));
    }
    assert(more@.take(i as int) == more@);
}

/// `n` zeros appended to `out`.
fn push_zeros(out: &mut Vec<u8>, n: usize)
    ensures
        final(out)@ == old(out)@ + zeros(n as int),
{
    let mut i: usize = 0;
    assert(out@ == old(out)@ + zeros(0));
    while i < n
        invariant
            i <= n,
            out@ == old(out)@ + zeros(i as int),
        decreases n - i,
    {
        out.push(0);
        i += 1;
        assert(old(out)@ + zeros(i as int) == (old(out)@ + zeros(i - 1)).push(0));
    }
}

/// `text` appended to `out` as a field of `width` bytes, cut so that it ends in
/// a zero.
pub fn fixed_text(out: &mut Vec<u8>, text: &str, width: usize)
    requires
        width >= 1,
    ensures
        final(out)@ == old(out)@ + field(text@, width as int),
{
    let bytes = text.as_bytes();
    let take: usize = if bytes.len() < width - 1 {
        bytes.len()
    } else {
        width - 1
    };
    let taken = slice_subrange(bytes, 0, take);
    assert(taken@ == bytes@.take(take as int));
    push_bytes(out, taken);
    push_zeros(out, width - take);
    assert(old(out)@ + bytes@.take(take as int) + zeros(width - take) == old(out)@ + (bytes@.take(
        take as int,
    ) + zeros(width - take)));
}

/// The fixed fields and the cookie of `message`.
fn fixed_fields(message: &Message) -> (out: Vec<u8>)
    ensures
        out@ == fixed(message@),
{
    let mut out: Vec<u8> = Vec::with_capacity(MIN_MESSAGE);
    out.push(message.op);
    out.push(message.htype);
    out.push(message.hlen);
    out.push(message.hops);
    assert(out@ == seq![message.op, message.htype, message.hlen, message.hops]);
    push_bytes(&mut out, to_be32(message.xid).as_slice());
    push_bytes(&mut out, to_be16(message.secs).as_slice());
    push_bytes(&mut out, to_be16(message.flags).as_slice());
    push_bytes(&mut out, message.ciaddr.octets().as_slice());
    push_bytes(&mut out, message.yiaddr.octets().as_slice());
    push_bytes(&mut out, message.siaddr.octets().as_slice());
    push_bytes(&mut out, message.giaddr.octets().as_slice());
    assert(out@ == header(message@));
    push_bytes(&mut out, message.chaddr.as_slice());
    fixed_text(&mut out, message.sname.as_str(), 64);
    fixed_text(&mut out, message.file.as_str(), 128);
    push_bytes(&mut out, MAGIC.as_slice());
    out
}

/// Where the options before the one at `at` are short enough and that one is
/// not, it is the first that is too long.
pub proof fn lemma_first_too_long(options: Seq<(u8, Seq<u8>)>, at: int)
    requires
        0 <= at <= options.len(),
        forall|i: int| 0 <= i < at ==> (#[trigger] options[i]).1.len() <= 255,
        at < options.len() ==> options[at].1.len() > 255,
    ensures
        first_too_long(options) == (if at < options.len() {
            Some(options[at].0)
        } else {
            None
        }),
    decreases at,
{
    if at > 0 {
        assert(options[0].1.len() <= 255);
        assert forall|i: int| 0 <= i < at - 1 implies (#[trigger] options.skip(1)[i]).1.len()
            <= 255 by {
            assert(options.skip(1)[i] == options[i + 1]);
        }
        lemma_first_too_long(options.skip(1), at - 1);
    }
}

/// `message` on the wire, padded to [`MIN_MESSAGE`].
///
/// # Errors
/// An option value over 255 bytes, or a message over [`MAX_MESSAGE`].
pub fn encode(message: &Message) -> (r: Result<Vec<u8>, Error>)
    ensures
        match r {
            Ok(bytes) => encoded(message@) == Ok::<Seq<u8>, ErrorView>(bytes@),
            Err(error) => encoded(message@) == Err::<Seq<u8>, ErrorView>(error@),
        },
{
    let mut out: Vec<u8> = fixed_fields(message);
    let ghost options = message@.options;
    let mut i: usize = 0;
    assert(options.take(0) == Seq::<(u8, Seq<u8>)>::empty());
    assert(out@ == fixed(message@) + items(options.take(0)));
    while i < message.options.len()
        invariant
            i <= message.options@.len(),
            options == options_view(message.options@),
            forall|j: int| 0 <= j < i ==> (#[trigger] options[j]).1.len() <= 255,
            out@ == fixed(message@) + items(options.take(i as int)),
            message@.options == options,
        decreases message.options.len() - i,
    {
        let code: u8 = message.options[i].0;
        let value: &[u8] = message.options[i].1.as_slice();
        assert(options[i as int] == (code, value@));
        if value.len() > 255 {
            proof {
                lemma_first_too_long(options, i as int);
            }
            return Err(Error::OptionTooLong { code });
        }
        let ghost before = out@;
        out.push(code);
        out.push(value.len() as u8);
        push_bytes(&mut out, value);
        assert(out@ == before + item(options[i as int]));
        assert(options.take(i + 1).drop_last() == options.take(i as int));
        assert(options.take(i + 1).last() == options[i as int]);
        assert(fixed(message@) + items(options.take(i as int)) + item(options[i as int]) == fixed(
            message@,
        ) + (items(options.take(i as int)) + item(options[i as int])));
        i += 1;
    }
    proof {
        lemma_first_too_long(options, i as int);
        assert(options.take(i as int) == options);
    }
    out.push(OPTION_END);
    assert(out@ == unpadded(message@));
    if out.len() > MAX_MESSAGE {
        return Err(Error::MessageTooLong);
    }
    if out.len() < MIN_MESSAGE {
        let missing: usize = MIN_MESSAGE - out.len();
        push_zeros(&mut out, missing);
    }
    Ok(out)
}

// ---------------------------------------------------------------------------
// Reading
// ---------------------------------------------------------------------------

/// [`first_zero`] is the one position with no zero before it and a zero, or the
/// end, at it.
pub proof fn lemma_first_zero(bytes: Seq<u8>, at: int)
    requires
        0 <= at <= bytes.len(),
        forall|i: int| 0 <= i < at ==> #[trigger] bytes[i] != 0,
        at < bytes.len() ==> bytes[at] == 0,
    ensures
        first_zero(bytes) == at,
    decreases at,
{
    if at > 0 {
        assert(bytes[0] != 0);
        assert forall|i: int| 0 <= i < at - 1 implies #[trigger] bytes.skip(1)[i] != 0 by {
            assert(bytes.skip(1)[i] == bytes[i + 1]);
        }
        lemma_first_zero(bytes.skip(1), at - 1);
    }
}

/// The text in the field that is `bytes` from `from` to `to`.
fn read_field(bytes: &[u8], from: usize, to: usize) -> (r: String)
    requires
        from <= to <= bytes@.len(),
    ensures
        r@ == field_text(bytes@.subrange(from as int, to as int)),
{
    let f = slice_subrange(bytes, from, to);
    let mut i: usize = 0;
    while i < f.len() && f[i] != 0
        invariant
            i <= f.len(),
            forall|j: int| 0 <= j < i ==> #[trigger] f@[j] != 0,
        decreases f.len() - i,
    {
        i += 1;
    }
    proof {
        lemma_first_zero(f@, i as int);
    }
    let head = slice_subrange(f, 0, i);
    assert(head@ == f@.take(i as int));
    read_text(head)
}

/// The options in `bytes` from position 240.
fn read_options(bytes: &[u8]) -> (r: Option<Vec<(u8, Vec<u8>)>>)
    requires
        bytes@.len() >= 240,
    ensures
        match r {
            Some(options) => read_items(bytes@.skip(240)) == Some(options_view(options@)),
            None => read_items(bytes@.skip(240)) is None,
        },
{
    let mut options: Vec<(u8, Vec<u8>)> = Vec::new();
    let mut at: usize = 240;
    let ghost area = bytes@.skip(240);
    proof {
        if let Some(rest) = read_items(area) {
            assert(options_view(options@) + rest == rest);
        }
    }
    while at < bytes.len() && bytes[at] != OPTION_END
        invariant
            240 <= at <= bytes@.len(),
            area == bytes@.skip(240),
            read_items(area) == (match read_items(bytes@.skip(at as int)) {
                Some(rest) => Some(options_view(options@) + rest),
                None => None,
            }),
        decreases bytes.len() - at,
    {
        let ghost here = bytes@.skip(at as int);
        let code: u8 = bytes[at];
        assert(here[0] == code);
        if code == 0 {
            assert(here.skip(1) == bytes@.skip(at + 1));
            at += 1;
        } else {
            if bytes.len() - at < 2 {
                return None;
            }
            let length: usize = bytes[at + 1] as usize;
            assert(here[1] == length);
            if bytes.len() - at < 2 + length {
                return None;
            }
            let value = slice_subrange(bytes, at + 2, at + 2 + length);
            assert(value@ == here.subrange(2, 2 + length));
            let ghost had = options_view(options@);
            options.push((code, slice_to_vec(value)));
            assert(options_view(options@) == had.push((code, value@)));
            assert(here.skip(2 + length) == bytes@.skip(at + 2 + length));
            proof {
                if let Some(rest) = read_items(bytes@.skip(at + 2 + length)) {
                    assert(had + (seq![(code, value@)] + rest) == had.push((code, value@)) + rest);
                }
            }
            at += 2 + length;
        }
    }
    let ghost here = bytes@.skip(at as int);
    proof {
        if at < bytes@.len() {
            assert(here[0] == OPTION_END);
        }
        assert(read_items(here) == Some(Seq::<(u8, Seq<u8>)>::empty()));
        assert(options_view(options@) + Seq::<(u8, Seq<u8>)>::empty() == options_view(options@));
    }
    Some(options)
}

/// One datagram.
///
/// # Errors
/// Shorter than the fixed fields and the cookie, a cookie that is not the
/// magic, or an option running past the end.
pub fn decode(bytes: &[u8]) -> (r: Result<Message, Error>)
    ensures
        match r {
            Ok(message) => decoded(bytes@) == Ok::<MessageView, ErrorView>(message@),
            Err(error) => decoded(bytes@) == Err::<MessageView, ErrorView>(error@),
        },
{
    if bytes.len() < 240 {
        return Err(Error::TooShort);
    }
    let ghost cookie = bytes@.subrange(236, 240);
    if bytes[236] != MAGIC[0] || bytes[237] != MAGIC[1] || bytes[238] != MAGIC[2] || bytes[239]
        != MAGIC[3] {
        assert(cookie[0] == bytes@[236] && cookie[1] == bytes@[237] && cookie[2] == bytes@[238]
            && cookie[3] == bytes@[239]);
        return Err(Error::WrongCookie);
    }
    assert(cookie == MAGIC@);
    let options = match read_options(bytes) {
        Some(options) => options,
        None => {
            return Err(Error::PastEnd);
        },
    };
    let mut chaddr: [u8; 16] = [0; 16];
    let mut i: usize = 0;
    while i < 16
        invariant
            i <= 16,
            bytes@.len() >= 240,
            forall|j: int| 0 <= j < i ==> chaddr@[j] == bytes@[28 + j],
        decreases 16 - i,
    {
        chaddr[i] = bytes[28 + i];
        i += 1;
    }
    assert(chaddr@ == bytes@.subrange(28, 44));
    Ok(
        Message {
            op: bytes[0],
            htype: bytes[1],
            hlen: bytes[2],
            hops: bytes[3],
            xid: of_be32(bytes[4], bytes[5], bytes[6], bytes[7]),
            secs: of_be16(bytes[8], bytes[9]),
            flags: of_be16(bytes[10], bytes[11]),
            ciaddr: Ipv4Addr::new(bytes[12], bytes[13], bytes[14], bytes[15]),
            yiaddr: Ipv4Addr::new(bytes[16], bytes[17], bytes[18], bytes[19]),
            siaddr: Ipv4Addr::new(bytes[20], bytes[21], bytes[22], bytes[23]),
            giaddr: Ipv4Addr::new(bytes[24], bytes[25], bytes[26], bytes[27]),
            chaddr,
            sname: read_field(bytes, 44, 108),
            file: read_field(bytes, 108, 236),
            options,
        },
    )
}

// ---------------------------------------------------------------------------
// What is written is read
// ---------------------------------------------------------------------------

/// A text that its field holds whole: it has no zero in it, and the field has a
/// byte for the zero after it.
pub open spec fn fits(text: Seq<char>, width: int) -> bool {
    let bytes = vstd::utf8::encode_utf8(text);
    &&& bytes.len() < width
    &&& forall|i: int| 0 <= i < bytes.len() ==> #[trigger] bytes[i] != 0
}

/// An option that is read as it is written: its code is neither padding nor the
/// end.
pub open spec fn carried(option: (u8, Seq<u8>)) -> bool {
    option.0 != 0 && option.0 != OPTION_END
}

/// A message whose options its datagram holds whole.
pub open spec fn sound(m: MessageView) -> bool {
    &&& m.chaddr.len() == 16
    &&& forall|i: int| 0 <= i < m.options.len() ==> carried(#[trigger] m.options[i])
}

/// What the datagram of a message holds of it: of its texts, what their fields
/// hold.
pub open spec fn cut_to_fields(m: MessageView) -> MessageView {
    MessageView {
        sname: field_text(field(m.sname, 64)),
        file: field_text(field(m.file, 128)),
        ..m
    }
}

/// A message that its datagram holds whole.
pub open spec fn whole(m: MessageView) -> bool {
    &&& sound(m)
    &&& fits(m.sname, 64)
    &&& fits(m.file, 128)
}

/// A text in a field that holds it is read back.
proof fn lemma_field_reads_back(text: Seq<char>, width: int)
    requires
        fits(text, width),
    ensures
        field(text, width).len() == width,
        field_text(field(text, width)) == text,
{
    let bytes = vstd::utf8::encode_utf8(text);
    let f = field(text, width);
    assert(f == bytes + zeros(width - bytes.len())) by {
        assert(bytes.take(bytes.len() as int) == bytes);
    }
    assert forall|i: int| 0 <= i < bytes.len() implies #[trigger] f[i] != 0 by {
        assert(f[i] == bytes[i]);
    }
    lemma_first_zero(f, bytes.len() as int);
    assert(f.take(bytes.len() as int) == bytes);
    vstd::utf8::encode_utf8_valid_utf8(text);
    vstd::utf8::encode_utf8_decode_utf8(text);
}

/// The items from the front.
proof fn lemma_items_front(options: Seq<(u8, Seq<u8>)>)
    requires
        options.len() > 0,
    ensures
        items(options) == item(options[0]) + items(options.skip(1)),
    decreases options.len(),
{
    if options.len() == 1 {
        assert(options.drop_last() == options.skip(1));
        assert(options.skip(1).len() == 0);
        assert(Seq::<u8>::empty() + item(options[0]) == item(options[0]) + Seq::<u8>::empty());
    } else {
        lemma_items_front(options.drop_last());
        assert(options.drop_last().skip(1) == options.skip(1).drop_last());
        assert(item(options[0]) + items(options.skip(1).drop_last()) + item(options.last()) == item(
            options[0],
        ) + (items(options.skip(1).drop_last()) + item(options.last())));
    }
}

/// Written options are read back, whatever follows the end.
proof fn lemma_items_read_back(options: Seq<(u8, Seq<u8>)>, after: Seq<u8>)
    requires
        first_too_long(options) is None,
        forall|i: int| 0 <= i < options.len() ==> carried(#[trigger] options[i]),
    ensures
        read_items(items(options) + seq![OPTION_END] + after) == Some(options),
    decreases options.len(),
{
    let bytes = items(options) + seq![OPTION_END] + after;
    if options.len() == 0 {
        assert(bytes[0] == OPTION_END);
        assert(options == Seq::<(u8, Seq<u8>)>::empty());
    } else {
        let (code, value) = options[0];
        let tail = options.skip(1);
        lemma_items_front(options);
        assert forall|i: int| 0 <= i < tail.len() implies carried(#[trigger] tail[i]) by {
            assert(tail[i] == options[i + 1]);
        }
        lemma_items_read_back(tail, after);
        assert(carried(options[0]));
        assert(bytes[0] == code);
        assert(bytes[1] == value.len() as u8);
        assert(value.len() <= 255);
        let length = 2 + bytes[1];
        assert(bytes.subrange(2, length) == value);
        assert(bytes.skip(length) == items(tail) + seq![OPTION_END] + after);
        assert(seq![(code, value)] + tail == options);
    }
}

/// The fixed fields of a datagram are read back.
#[verifier::rlimit(40)]
proof fn lemma_fixed_reads_back(m: MessageView, after: Seq<u8>)
    requires
        m.chaddr.len() == 16,
    ensures
        fixed(m).len() == 240,
        (fixed(m) + after).subrange(236, 240) == MAGIC@,
        (fixed(m) + after).skip(240) == after,
        read_fixed(fixed(m) + after, m.options) == cut_to_fields(m),
{
    let all = fixed(m) + after;
    assert(field(m.sname, 64).len() == 64);
    assert(field(m.file, 128).len() == 128);
    assert(header(m).len() == 28);
    assert(fixed(m).len() == 240);
    assert(all.subrange(236, 240) == MAGIC@);
    assert(all.skip(240) == after);
    assert(all.subrange(28, 44) == m.chaddr);
    assert(all.subrange(44, 108) == field(m.sname, 64));
    assert(all.subrange(108, 236) == field(m.file, 128));
    let h = header(m);
    assert forall|i: int| 0 <= i < 28 implies all[i] == h[i] by {}
    assert(h[0] == m.op && h[1] == m.htype && h[2] == m.hlen && h[3] == m.hops);
    assert(h[4] == number::be32(m.xid)[0] && h[5] == number::be32(m.xid)[1] && h[6]
        == number::be32(m.xid)[2] && h[7] == number::be32(m.xid)[3]);
    assert(h[8] == number::be16(m.secs)[0] && h[9] == number::be16(m.secs)[1]);
    assert(h[10] == number::be16(m.flags)[0] && h[11] == number::be16(m.flags)[1]);
    number::law_be_reads_back(m.secs, m.xid);
    number::law_be_reads_back(m.flags, m.xid);
    assert(Ipv4Addr::at(all, 12) == m.ciaddr);
    assert(Ipv4Addr::at(all, 16) == m.yiaddr);
    assert(Ipv4Addr::at(all, 20) == m.siaddr);
    assert(Ipv4Addr::at(all, 24) == m.giaddr);
}

/// A message that has a datagram, its options neither padding nor the end, is
/// what decoding the datagram gives, its texts cut to what their fields hold.
pub proof fn law_read_as_written(m: MessageView)
    requires
        sound(m),
        encoded(m) is Ok,
    ensures
        decoded(encoded(m)->Ok_0) == Ok::<MessageView, ErrorView>(cut_to_fields(m)),
{
    let short = unpadded(m);
    let bytes = encoded(m)->Ok_0;
    let more = if short.len() < MIN_MESSAGE {
        zeros(MIN_MESSAGE - short.len())
    } else {
        seq![]
    };
    assert(bytes == short + more);
    let after = items(m.options) + seq![OPTION_END] + more;
    assert(bytes == fixed(m) + after);
    lemma_fixed_reads_back(m, after);
    lemma_items_read_back(m.options, more);
}

/// What is written is read back: a message that has a datagram, and that the
/// datagram holds whole, is what decoding the datagram gives.
pub proof fn law_round_trip(m: MessageView)
    requires
        whole(m),
        encoded(m) is Ok,
    ensures
        decoded(encoded(m)->Ok_0) == Ok::<MessageView, ErrorView>(m),
{
    law_read_as_written(m);
    lemma_field_reads_back(m.sname, 64);
    lemma_field_reads_back(m.file, 128);
}

/// A text too long for its field is cut to the field less its zero: where a
/// character of it ends there, what is read back is the text up to that
/// character.
pub proof fn law_long_text_cut(head: Seq<char>, tail: Seq<char>, width: int)
    requires
        width == vstd::utf8::encode_utf8(head).len() + 1,
        forall|i: int|
            0 <= i < vstd::utf8::encode_utf8(head).len()
                ==> #[trigger] vstd::utf8::encode_utf8(head)[i] != 0,
    ensures
        field_text(field(head + tail, width)) == head,
{
    let bytes = vstd::utf8::encode_utf8(head + tail);
    let kept = vstd::utf8::encode_utf8(head);
    utf8::lemma_encode_concat(head, tail);
    assert(bytes.take(width - 1) == kept);
    assert(field(head + tail, width) == field(head, width)) by {
        assert(kept.take(width - 1) == kept);
    }
    lemma_field_reads_back(head, width);
}

/// What a datagram is read as has no padding and no end among its options, no
/// value over 255 bytes, and sixteen bytes of hardware address.
pub proof fn law_read_options(bytes: Seq<u8>)
    requires
        decoded(bytes) is Ok,
    ensures
        sound(decoded(bytes)->Ok_0),
        first_too_long(decoded(bytes)->Ok_0.options) is None,
{
    lemma_read_items(bytes.skip(240));
}

/// What is read as options is neither padding nor the end, nor over 255 bytes.
proof fn lemma_read_items(bytes: Seq<u8>)
    requires
        read_items(bytes) is Some,
    ensures
        forall|i: int|
            0 <= i < read_items(bytes)->0.len() ==> carried(#[trigger] read_items(bytes)->0[i]),
        first_too_long(read_items(bytes)->0) is None,
    decreases bytes.len(),
{
    if bytes.len() == 0 || bytes[0] == OPTION_END {
    } else if bytes[0] == 0 {
        lemma_read_items(bytes.skip(1));
    } else {
        let rest = read_items(bytes.skip(2 + bytes[1]))->0;
        let first = (bytes[0], bytes.subrange(2, 2 + bytes[1]));
        let all = seq![first] + rest;
        lemma_read_items(bytes.skip(2 + bytes[1]));
        assert(all.skip(1) == rest);
        assert forall|i: int| 0 <= i < all.len() implies carried(#[trigger] all[i]) by {
            if i > 0 {
                assert(all[i] == rest[i - 1]);
            }
        }
    }
}

/// A datagram is never shorter than the smallest a relay forwards nor longer
/// than the largest a client must take.
pub proof fn law_datagram_size(m: MessageView)
    requires
        encoded(m) is Ok,
    ensures
        MIN_MESSAGE <= encoded(m)->Ok_0.len() <= MAX_MESSAGE,
{
}

}
