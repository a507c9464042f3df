//! Datagrams: which byte stands where.

use vstd::prelude::*;

use crate::error::ErrorView;
use crate::ipv4::Ipv4Addr;
use crate::laws;
use crate::message::MessageView;
use crate::number;
use crate::utf8;
use crate::wire;

verus! {

// ---------------------------------------------------------------------------
// What is written
// ---------------------------------------------------------------------------

/// Where the option at `i` stands in a datagram: after the fixed fields, the
/// cookie and the options before it, each of which takes two bytes and those of
/// its value. For the number of options, where the end stands.
pub open spec fn place(options: Seq<(u8, Seq<u8>)>, i: int) -> int
    decreases i,
{
    if i <= 0 {
        240
    } else {
        place(options, i - 1) + 2 + options[i - 1].1.len()
    }
}

/// The places of options do not depend on what follows them.
proof fn lemma_place_front(options: Seq<(u8, Seq<u8>)>, i: int)
    requires
        options.len() > 0,
        i < options.len(),
    ensures
        place(options, i) == place(options.drop_last(), i),
        place(options, i) >= 240,
    decreases i,
{
    if i > 0 {
        lemma_place_front(options, i - 1);
        assert(options.drop_last()[i - 1] == options[i - 1]);
    }
}

/// The size of the options one after the other.
proof fn lemma_items_size(options: Seq<(u8, Seq<u8>)>)
    ensures
        wire::items(options).len() == place(options, options.len() as int) - 240,
        place(options, options.len() as int) >= 240,
    decreases options.len(),
{
    if options.len() > 0 {
        let n = options.len() - 1;
        lemma_items_size(options.drop_last());
        lemma_place_front(options, n);
    }
}

/// One option among the others, by position.
proof fn lemma_item_at(options: Seq<(u8, Seq<u8>)>, i: int)
    requires
        0 <= i < options.len(),
        options[i].1.len() <= 255,
    ensures
        ({
            let p = place(options, i) - 240;
            let length = options[i].1.len() as int;
            &&& 0 <= p && p + 2 + length <= wire::items(options).len()
            &&& wire::items(options)[p] == options[i].0
            &&& wire::items(options)[p + 1] == length
            &&& wire::items(options).subrange(p + 2, p + 2 + length) == options[i].1
        }),
    decreases options.len(),
{
    let front = options.drop_last();
    let n = front.len() as int;
    let last = options[n];
    let before = wire::items(front);
    let all = wire::items(options);
    let p = place(options, i) - 240;
    let length = options[i].1.len() as int;
    assert(all == before + wire::item(last));
    lemma_place_front(options, i);
    if i < n {
        assert(front[i] == options[i]);
        lemma_item_at(front, i);
        assert(all[p] == before[p] && all[p + 1] == before[p + 1]);
        assert(all.subrange(p + 2, p + 2 + length) =~= before.subrange(p + 2, p + 2 + length));
    } else {
        lemma_items_size(front);
        assert(p == before.len());
        assert(wire::item(last)[0] == last.0);
        assert(wire::item(last)[1] == last.1.len() as u8);
        assert(all[p] == wire::item(last)[0]);
        assert(all[p + 1] == wire::item(last)[1]);
        assert(all.subrange(p + 2, p + 2 + length) =~= last.1);
    }
}

/// The first option whose value is over 255 bytes; the number of options where
/// there is none.
proof fn lemma_long_one(options: Seq<(u8, Seq<u8>)>) -> (at: int)
    ensures
        0 <= at <= options.len(),
        forall|i: int| 0 <= i < at ==> (#[trigger] options[i]).1.len() <= 255,
        at < options.len() ==> options[at].1.len() > 255,
    decreases options.len(),
{
    if options.len() == 0 {
        0
    } else if options[0].1.len() > 255 {
        0
    } else {
        let tail = options.skip(1);
        let at = lemma_long_one(tail);
        assert forall|i: int| 0 <= i < at + 1 implies (#[trigger] options[i]).1.len() <= 255 by {
            if i > 0 {
                assert(options[i] == tail[i - 1]);
            }
        }
        at + 1
    }
}

/// The sizes of the parts of a datagram.
proof fn lemma_sizes(m: MessageView)
    requires
        m.chaddr.len() == 16,
    ensures
        wire::header(m).len() == 28,
        wire::field(m.sname, 64).len() == 64,
        wire::field(m.file, 128).len() == 128,
        wire::fixed(m).len() == 240,
{
}

/// A message has a datagram where no value is over 255 bytes and all of it is
/// at most 576; otherwise it is refused for the first such value, or for its
/// length.
pub proof fn law_written_when(m: MessageView, at: int)
    requires
        m.chaddr.len() == 16,
        0 <= at <= m.options.len(),
        forall|i: int| 0 <= i < at ==> (#[trigger] m.options[i]).1.len() <= 255,
        at < m.options.len() ==> m.options[at].1.len() > 255,
    ensures
        at < m.options.len() ==> wire::encoded(m) == Err::<Seq<u8>, ErrorView>(
            ErrorView::OptionTooLong { code: m.options[at].0 },
        ),
        at == m.options.len() && place(m.options, at) + 1 > 576 ==> wire::encoded(m) == Err::<
            Seq<u8>,
            ErrorView,
        >(ErrorView::MessageTooLong),
        at == m.options.len() && place(m.options, at) + 1 <= 576 ==> wire::encoded(m) is Ok,
{
    wire::lemma_first_too_long(m.options, at);
    lemma_sizes(m);
    lemma_items_size(m.options);
}

/// What a datagram is made of.
proof fn lemma_written(m: MessageView, d: Seq<u8>)
    requires
        m.chaddr.len() == 16,
        wire::encoded(m) == Ok::<Seq<u8>, ErrorView>(d),
    ensures
        forall|i: int| 0 <= i < m.options.len() ==> (#[trigger] m.options[i]).1.len() <= 255,
        wire::fixed(m).len() == 240,
        ({
            let end = place(m.options, m.options.len() as int);
            &&& end >= 240
            &&& wire::items(m.options).len() == end - 240
            &&& d.len() == if end + 1 < 300 {
                300
            } else {
                end + 1
            }
            &&& forall|j: int| 0 <= j < 240 ==> #[trigger] d[j] == wire::fixed(m)[j]
            &&& forall|j: int|
                240 <= j < end ==> #[trigger] d[j] == wire::items(m.options)[j - 240]
            &&& d[end] == 255
            &&& forall|j: int| end < j < d.len() ==> #[trigger] d[j] == 0
        }),
{
    let at = lemma_long_one(m.options);
    law_written_when(m, at);
    lemma_sizes(m);
    lemma_items_size(m.options);
    let short = wire::fixed(m) + wire::items(m.options) + seq![255u8];
    assert(wire::unpadded(m) == short);
    assert(d == wire::padded(short));
}

/// The fixed fields of a datagram stand at their places: numbers with the most
/// significant byte first, addresses octet by octet, the hardware address byte
/// by byte, and the cookie.
pub proof fn law_written_fields(m: MessageView)
    requires
        m.chaddr.len() == 16,
        wire::encoded(m) is Ok,
    ensures
        ({
            let d = wire::encoded(m)->Ok_0;
            &&& d[0] == m.op && d[1] == m.htype && d[2] == m.hlen && d[3] == m.hops
            &&& d[4] * 0x100_0000 + d[5] * 0x1_0000 + d[6] * 0x100 + d[7] == m.xid
            &&& d[8] * 0x100 + d[9] == m.secs
            &&& d[10] * 0x100 + d[11] == m.flags
            &&& d[12] == m.ciaddr.a && d[13] == m.ciaddr.b && d[14] == m.ciaddr.c && d[15]
                == m.ciaddr.d
            &&& d[16] == m.yiaddr.a && d[17] == m.yiaddr.b && d[18] == m.yiaddr.c && d[19]
                == m.yiaddr.d
            &&& d[20] == m.siaddr.a && d[21] == m.siaddr.b && d[22] == m.siaddr.c && d[23]
                == m.siaddr.d
            &&& d[24] == m.giaddr.a && d[25] == m.giaddr.b && d[26] == m.giaddr.c && d[27]
                == m.giaddr.d
            &&& forall|i: int| 0 <= i < 16 ==> d[28 + i] == #[trigger] m.chaddr[i]
            &&& d[236] == 99 && d[237] == 130 && d[238] == 83 && d[239] == 99
        }),
{
    let d = wire::encoded(m)->Ok_0;
    let f = wire::fixed(m);
    let h = wire::header(m);
    lemma_written(m, d);
    lemma_sizes(m);
    laws::number::law_big_endian(m.xid, m.secs, 0, 0, 0, 0);
    laws::number::law_big_endian(m.xid, m.flags, 0, 0, 0, 0);
    assert forall|j: int| 0 <= j < 28 implies #[trigger] f[j] == h[j] by {}
    assert(d[0] == h[0] && d[1] == h[1] && d[2] == h[2] && d[3] == h[3]);
    assert(d[4] == number::be32(m.xid)[0] && d[5] == number::be32(m.xid)[1] && d[6]
        == number::be32(m.xid)[2] && d[7] == number::be32(m.xid)[3]);
    assert(d[8] == number::be16(m.secs)[0] && d[9] == number::be16(m.secs)[1]);
    assert(d[10] == number::be16(m.flags)[0] && d[11] == number::be16(m.flags)[1]);
    assert(d[12] == h[12] && d[13] == h[13] && d[14] == h[14] && d[15] == h[15]);
    assert(d[16] == h[16] && d[17] == h[17] && d[18] == h[18] && d[19] == h[19]);
    assert(d[20] == h[20] && d[21] == h[21] && d[22] == h[22] && d[23] == h[23]);
    assert(d[24] == h[24] && d[25] == h[25] && d[26] == h[26] && d[27] == h[27]);
    assert forall|i: int| 0 <= i < 16 implies d[28 + i] == #[trigger] m.chaddr[i] by {
        assert(d[28 + i] == f[28 + i]);
    }
    assert(d[236] == f[236] && d[237] == f[237] && d[238] == f[238] && d[239] == f[239]);
    laws::message::law_numbers();
}

/// The texts of a datagram stand at their places: of each as many bytes as fit
/// before the last of its field, and zeros after them.
pub proof fn law_written_texts(m: MessageView)
    requires
        m.chaddr.len() == 16,
        wire::encoded(m) is Ok,
    ensures
        forall|i: int|
            0 <= i < 64 ==> #[trigger] wire::encoded(m)->Ok_0.subrange(44, 108)[i] == (if i < 63
                && i < vstd::utf8::encode_utf8(m.sname).len() {
                vstd::utf8::encode_utf8(m.sname)[i]
            } else {
                0
            }),
        forall|i: int|
            0 <= i < 128 ==> #[trigger] wire::encoded(m)->Ok_0.subrange(108, 236)[i] == (if i < 127
                && i < vstd::utf8::encode_utf8(m.file).len() {
                vstd::utf8::encode_utf8(m.file)[i]
            } else {
                0
            }),
{
    let d = wire::encoded(m)->Ok_0;
    let f = wire::fixed(m);
    lemma_written(m, d);
    lemma_sizes(m);
    assert(d.subrange(44, 108) =~= wire::field(m.sname, 64)) by {
        assert forall|i: int| 0 <= i < 64 implies d.subrange(44, 108)[i] == wire::field(
            m.sname,
            64,
        )[i] by {
            assert(d[44 + i] == f[44 + i]);
        }
    }
    assert(d.subrange(108, 236) =~= wire::field(m.file, 128)) by {
        assert forall|i: int| 0 <= i < 128 implies d.subrange(108, 236)[i] == wire::field(
            m.file,
            128,
        )[i] by {
            assert(d[108 + i] == f[108 + i]);
        }
    }
}

/// The options of a datagram stand one after the other: of each its code, the
/// number of bytes of its value, and those bytes in their order, whatever the
/// code. After the last stands the end, and after that zeros as far as 300
/// bytes.
pub proof fn law_written_options(m: MessageView)
    requires
        m.chaddr.len() == 16,
        wire::encoded(m) is Ok,
    ensures
        ({
            let d = wire::encoded(m)->Ok_0;
            let end = place(m.options, m.options.len() as int);
            &&& d.len() == if end + 1 < 300 {
                300
            } else {
                end + 1
            }
            &&& forall|i: int|
                0 <= i < m.options.len() ==> d[place(m.options, i)] == (#[trigger] m.options[i]).0
                    && d[place(m.options, i) + 1] == m.options[i].1.len() && place(m.options, i) + 2
                    + m.options[i].1.len() <= end
            &&& forall|i: int, j: int|
                0 <= i < m.options.len() && 0 <= j < m.options[i].1.len() ==> d[place(m.options, i)
                    + 2 + j] == #[trigger] m.options[i].1[j]
            &&& d[end] == 255
            &&& forall|j: int| end < j < d.len() ==> #[trigger] d[j] == 0
        }),
{
    let d = wire::encoded(m)->Ok_0;
    let all = wire::items(m.options);
    let end = place(m.options, m.options.len() as int);
    lemma_written(m, d);
    assert forall|i: int| 0 <= i < m.options.len() implies d[place(m.options, i)] == (
    #[trigger] m.options[i]).0 && d[place(m.options, i) + 1] == m.options[i].1.len() && place(
        m.options,
        i,
    ) + 2 + m.options[i].1.len() <= end by {
        let p = place(m.options, i);
        lemma_item_at(m.options, i);
        assert(d[p] == all[p - 240]);
        assert(d[p + 1] == all[p + 1 - 240]);
    }
    assert forall|i: int, j: int|
        0 <= i < m.options.len() && 0 <= j < m.options[i].1.len() implies d[place(m.options, i) + 2
        + j] == #[trigger] m.options[i].1[j] by {
        let p = place(m.options, i);
        let value = m.options[i].1;
        lemma_item_at(m.options, i);
        assert(all.subrange(p - 238, p - 238 + value.len())[j] == all[p - 238 + j]);
        assert(d[p + 2 + j] == all[p + 2 + j - 240]);
    }
}

// ---------------------------------------------------------------------------
// What is read
// ---------------------------------------------------------------------------

/// Bytes under 240, and bytes without the cookie at 236, are no message.
pub proof fn law_not_read(bytes: Seq<u8>)
    ensures
        bytes.len() < 240 ==> wire::decoded(bytes) == Err::<MessageView, ErrorView>(
            ErrorView::TooShort,
        ),
        bytes.len() >= 240 && !(bytes[236] == 99 && bytes[237] == 130 && bytes[238] == 83
            && bytes[239] == 99) ==> wire::decoded(bytes) == Err::<MessageView, ErrorView>(
            ErrorView::WrongCookie,
        ),
{
    laws::message::law_numbers();
    if bytes.len() >= 240 && bytes.subrange(236, 240) == seq![99u8, 130, 83, 99] {
        let cookie = bytes.subrange(236, 240);
        assert(cookie[0] == bytes[236] && cookie[1] == bytes[237] && cookie[2] == bytes[238]
            && cookie[3] == bytes[239]);
    }
}

/// The fixed fields are read from their places.
pub proof fn law_read_fields(bytes: Seq<u8>)
    requires
        wire::decoded(bytes) is Ok,
    ensures
        ({
            let m = wire::decoded(bytes)->Ok_0;
            &&& m.op == bytes[0] && m.htype == bytes[1] && m.hlen == bytes[2] && m.hops == bytes[3]
            &&& m.xid == bytes[4] * 0x100_0000 + bytes[5] * 0x1_0000 + bytes[6] * 0x100 + bytes[7]
            &&& m.secs == bytes[8] * 0x100 + bytes[9]
            &&& m.flags == bytes[10] * 0x100 + bytes[11]
            &&& m.ciaddr == (Ipv4Addr {
                a: bytes[12],
                b: bytes[13],
                c: bytes[14],
                d: bytes[15],
            })
            &&& m.yiaddr == (Ipv4Addr {
                a: bytes[16],
                b: bytes[17],
                c: bytes[18],
                d: bytes[19],
            })
            &&& m.siaddr == (Ipv4Addr {
                a: bytes[20],
                b: bytes[21],
                c: bytes[22],
                d: bytes[23],
            })
            &&& m.giaddr == (Ipv4Addr {
                a: bytes[24],
                b: bytes[25],
                c: bytes[26],
                d: bytes[27],
            })
            &&& m.chaddr.len() == 16
            &&& forall|i: int| 0 <= i < 16 ==> #[trigger] m.chaddr[i] == bytes[28 + i]
        }),
{
    laws::number::law_big_endian(0, 0, bytes[4], bytes[5], bytes[6], bytes[7]);
    laws::number::law_big_endian(0, 0, bytes[8], bytes[9], 0, 0);
    laws::number::law_big_endian(0, 0, bytes[10], bytes[11], 0, 0);
}

/// The texts are read from their places, each up to its first zero or the end
/// of its field.
pub proof fn law_read_texts(bytes: Seq<u8>, j: int, k: int)
    requires
        wire::decoded(bytes) is Ok,
        0 <= j <= 64,
        forall|i: int| 44 <= i < 44 + j ==> #[trigger] bytes[i] != 0,
        j == 64 || bytes[44 + j] == 0,
        0 <= k <= 128,
        forall|i: int| 108 <= i < 108 + k ==> #[trigger] bytes[i] != 0,
        k == 128 || bytes[108 + k] == 0,
    ensures
        ({
            let m = wire::decoded(bytes)->Ok_0;
            let sname = bytes.subrange(44, 44 + j);
            let file = bytes.subrange(108, 108 + k);
            &&& vstd::utf8::valid_utf8(sname) ==> vstd::utf8::encode_utf8(m.sname) == sname
            &&& !vstd::utf8::valid_utf8(sname) ==> m.sname == utf8::lossy_text(sname)
            &&& vstd::utf8::valid_utf8(file) ==> vstd::utf8::encode_utf8(m.file) == file
            &&& !vstd::utf8::valid_utf8(file) ==> m.file == utf8::lossy_text(file)
        }),
{
    lemma_field_read(bytes, 44, 108, j);
    lemma_field_read(bytes, 108, 236, k);
}

/// The text of a field.
proof fn lemma_field_read(bytes: Seq<u8>, from: int, to: int, k: int)
    requires
        0 <= from <= to <= bytes.len(),
        0 <= k <= to - from,
        forall|i: int| from <= i < from + k ==> #[trigger] bytes[i] != 0,
        k == to - from || bytes[from + k] == 0,
    ensures
        ({
            let part = bytes.subrange(from, from + k);
            let s = wire::field_text(bytes.subrange(from, to));
            &&& vstd::utf8::valid_utf8(part) ==> vstd::utf8::encode_utf8(s) == part
            &&& !vstd::utf8::valid_utf8(part) ==> s == utf8::lossy_text(part)
        }),
{
    let f = bytes.subrange(from, to);
    let part = bytes.subrange(from, from + k);
    assert forall|i: int| 0 <= i < k implies #[trigger] f[i] != 0 by {
        assert(f[i] == bytes[from + i]);
    }
    wire::lemma_first_zero(f, k);
    assert(f.take(k) =~= part);
    if vstd::utf8::valid_utf8(part) {
        vstd::utf8::decode_utf8_encode_utf8(part);
    }
}

/// From 240 on, `bytes` hold `options` at `places`: of each its code, which is
/// neither 0 nor 255, the number of bytes of its value, and those bytes, with
/// zeros alone before the first and between each two; the last place is where
/// what follows them begins.
pub open spec fn holds_options(
    bytes: Seq<u8>,
    options: Seq<(u8, Seq<u8>)>,
    places: Seq<int>,
) -> bool {
    &&& places.len() == options.len() + 1
    &&& 240 <= places[0]
    &&& places[options.len() as int] <= bytes.len()
    &&& forall|j: int| 240 <= j < places[0] ==> #[trigger] bytes[j] == 0
    &&& forall|i: int|
        0 <= i < options.len() ==> (#[trigger] options[i]).0 != 0 && options[i].0 != 255
            && options[i].1.len() <= 255 && places[i] + 2 + options[i].1.len() <= places[i + 1]
            && bytes[places[i]] == options[i].0 && bytes[places[i] + 1] == options[i].1.len()
    &&& forall|i: int, j: int|
        0 <= i < options.len() && 0 <= j < options[i].1.len() ==> bytes[places[i] + 2 + j]
            == #[trigger] options[i].1[j]
    &&& forall|i: int, j: int|
        #![trigger options[i], bytes[j]]
        0 <= i < options.len() && places[i] + 2 + options[i].1.len() <= j < places[i + 1]
            ==> bytes[j] == 0
}

/// Zeros are skipped.
proof fn lemma_zeros_skipped(bytes: Seq<u8>, from: int, to: int)
    requires
        0 <= from <= to <= bytes.len(),
        forall|j: int| from <= j < to ==> #[trigger] bytes[j] == 0,
    ensures
        wire::read_items(bytes.skip(from)) == wire::read_items(bytes.skip(to)),
    decreases to - from,
{
    if from < to {
        let here = bytes.skip(from);
        assert(here[0] == bytes[from]);
        assert(here.skip(1) =~= bytes.skip(from + 1));
        lemma_zeros_skipped(bytes, from + 1, to);
    }
}

/// Places only go up.
proof fn lemma_places_rise(
    bytes: Seq<u8>,
    options: Seq<(u8, Seq<u8>)>,
    places: Seq<int>,
    i: int,
)
    requires
        holds_options(bytes, options, places),
        0 <= i <= options.len(),
    ensures
        240 <= places[i] <= places[options.len() as int],
    decreases options.len() - i,
{
    if i < options.len() {
        assert(options[i].0 != 0);
        lemma_places_rise(bytes, options, places, i + 1);
    }
    lemma_places_start(bytes, options, places, i);
}

/// Places are past the cookie.
proof fn lemma_places_start(
    bytes: Seq<u8>,
    options: Seq<(u8, Seq<u8>)>,
    places: Seq<int>,
    i: int,
)
    requires
        holds_options(bytes, options, places),
        0 <= i <= options.len(),
    ensures
        240 <= places[i],
    decreases i,
{
    if i > 0 {
        assert(options[i - 1].0 != 0);
        lemma_places_start(bytes, options, places, i - 1);
    }
}

/// Options from one place on are read, and after them what follows.
proof fn lemma_walk(bytes: Seq<u8>, options: Seq<(u8, Seq<u8>)>, places: Seq<int>, i: int)
    requires
        holds_options(bytes, options, places),
        0 <= i <= options.len(),
    ensures
        wire::read_items(bytes.skip(places[i])) == (match wire::read_items(
            bytes.skip(places[options.len() as int]),
        ) {
            Some(rest) => Some(options.skip(i) + rest),
            None => None,
        }),
    decreases options.len() - i,
{
    let n = options.len() as int;
    lemma_places_rise(bytes, options, places, i);
    if i == n {
        if let Some(rest) = wire::read_items(bytes.skip(places[n])) {
            assert(options.skip(n) + rest =~= rest);
        }
    } else {
        let at = places[i];
        let (code, value) = options[i];
        let here = bytes.skip(at);
        assert(options[i].0 != 0);
        lemma_places_rise(bytes, options, places, i + 1);
        let length: int = value.len() as int;
        let next = at + 2 + length;
        assert(here[0] == bytes[at] && here[1] == bytes[at + 1]);
        assert(here.subrange(2, 2 + length) =~= value) by {
            assert forall|j: int| 0 <= j < value.len() implies here.subrange(2, 2 + length)[j]
                == value[j] by {
                assert(bytes[places[i] + 2 + j] == options[i].1[j]);
            }
        }
        assert(here.skip(2 + length) =~= bytes.skip(next));
        assert forall|j: int| next <= j < places[i + 1] implies #[trigger] bytes[j] == 0 by {
            assert(options[i].1 == value);
        }
        lemma_zeros_skipped(bytes, next, places[i + 1]);
        lemma_walk(bytes, options, places, i + 1);
        if let Some(rest) = wire::read_items(bytes.skip(places[n])) {
            assert(seq![(code, value)] + (options.skip(i + 1) + rest) =~= options.skip(i) + rest);
        }
    }
}

/// Options are read where they stand, each with the bytes of its value in their
/// order, up to the end option or the end of the datagram.
pub proof fn law_read_options(bytes: Seq<u8>, options: Seq<(u8, Seq<u8>)>, places: Seq<int>)
    requires
        bytes.len() >= 240,
        bytes[236] == 99 && bytes[237] == 130 && bytes[238] == 83 && bytes[239] == 99,
        holds_options(bytes, options, places),
        places[options.len() as int] == bytes.len() || bytes[places[options.len() as int]] == 255,
    ensures
        wire::decoded(bytes) is Ok,
        wire::decoded(bytes)->Ok_0.options == options,
{
    let n = options.len() as int;
    let none = Seq::<(u8, Seq<u8>)>::empty();
    laws::message::law_numbers();
    assert(bytes.subrange(236, 240) =~= seq![99u8, 130, 83, 99]);
    lemma_places_rise(bytes, options, places, 0);
    lemma_zeros_skipped(bytes, 240, places[0]);
    lemma_walk(bytes, options, places, 0);
    let after = bytes.skip(places[n]);
    if places[n] < bytes.len() {
        assert(after[0] == bytes[places[n]]);
    }
    assert(wire::read_items(after) == Some(none));
    assert(options.skip(0) + none =~= options);
}

/// Where an option after those that are read has no length, or its value has
/// fewer bytes than that says, the datagram is refused.
pub proof fn law_read_past(bytes: Seq<u8>, options: Seq<(u8, Seq<u8>)>, places: Seq<int>)
    requires
        bytes.len() >= 240,
        bytes[236] == 99 && bytes[237] == 130 && bytes[238] == 83 && bytes[239] == 99,
        holds_options(bytes, options, places),
        places[options.len() as int] < bytes.len(),
        bytes[places[options.len() as int]] != 0,
        bytes[places[options.len() as int]] != 255,
        places[options.len() as int] + 1 == bytes.len() || places[options.len() as int] + 2
            + bytes[places[options.len() as int] + 1] > bytes.len(),
    ensures
        wire::decoded(bytes) == Err::<MessageView, ErrorView>(ErrorView::PastEnd),
{
    let n = options.len() as int;
    laws::message::law_numbers();
    assert(bytes.subrange(236, 240) =~= seq![99u8, 130, 83, 99]);
    lemma_places_rise(bytes, options, places, 0);
    lemma_zeros_skipped(bytes, 240, places[0]);
    lemma_walk(bytes, options, places, 0);
    let after = bytes.skip(places[n]);
    assert(after[0] == bytes[places[n]]);
    if places[n] + 1 < bytes.len() {
        assert(after[1] == bytes[places[n] + 1]);
    }
    assert(wire::read_items(after) is None);
}

/// A field has the first bytes of its text, as many as leave one byte of it,
/// and zeros after them.
pub proof fn law_field(s: Seq<char>, width: int)
    requires
        width >= 1,
    ensures
        wire::field(s, width).len() == width,
        forall|i: int|
            0 <= i < width ==> #[trigger] wire::field(s, width)[i] == (if i < width - 1 && i
                < vstd::utf8::encode_utf8(s).len() {
                vstd::utf8::encode_utf8(s)[i]
            } else {
                0
            }),
{
}

}
