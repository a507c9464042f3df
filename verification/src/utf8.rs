//! Bytes that are meant to be text.

use vstd::prelude::*;

verus! {

/// What is read of bytes that are not UTF-8 where every byte has to be read as
/// something.
pub uninterp spec fn lossy_text(bytes: Seq<u8>) -> Seq<char>;

/// What is read of `bytes`: their text where they are UTF-8, and otherwise
/// their [`lossy_text`].
pub open spec fn text_of(bytes: Seq<u8>) -> Seq<char> {
    if vstd::utf8::valid_utf8(bytes) {
        vstd::utf8::decode_utf8(bytes)
    } else {
        lossy_text(bytes)
    }
}

/// `String::from_utf8_lossy`: bytes that are UTF-8 are read as their text; of
/// any others it is said only that what is read is a function of them. Which
/// replacement characters stand where is left unsaid.
#[verifier::external_body]
fn from_utf8_lossy(bytes: &[u8]) -> (r: String)
    ensures
        r@ == lossy_text(bytes@),
        vstd::utf8::valid_utf8(bytes@) ==> r@ == vstd::utf8::decode_utf8(bytes@),
{
    String::from_utf8_lossy(bytes).into_owned()
}

/// `std::str::from_utf8`: bytes that are UTF-8 give their text, and any others
/// give nothing.
#[verifier::external_body]
pub(crate) fn from_utf8(bytes: &[u8]) -> (r: Option<&str>)
    ensures
        match r {
            Some(text) => {
                &&& vstd::utf8::valid_utf8(bytes@)
                &&& text@ == vstd::utf8::decode_utf8(bytes@)
            },
            None => !vstd::utf8::valid_utf8(bytes@),
        },
{
    std::str::from_utf8(bytes).ok()
}

/// The text that is read of `bytes`.
pub fn read_text(bytes: &[u8]) -> (r: String)
    ensures
        r@ == text_of(bytes@),
{
    from_utf8_lossy(bytes)
}

/// The bytes of two texts one after the other.
pub proof fn lemma_encode_concat(a: Seq<char>, b: Seq<char>)
    ensures
        vstd::utf8::encode_utf8(a + b) == vstd::utf8::encode_utf8(a) + vstd::utf8::encode_utf8(b),
    decreases a.len(),
{
    if a.len() == 0 {
        assert(a + b == b);
        assert(Seq::<u8>::empty() + vstd::utf8::encode_utf8(b) == vstd::utf8::encode_utf8(b));
    } else {
        assert((a + b).drop_first() == a.drop_first() + b);
        lemma_encode_concat(a.drop_first(), b);
        assert((a + b)[0] == a[0]);
    }
}


/// A line feed is one byte.
proof fn lemma_feed_byte()
    ensures
        vstd::utf8::encode_utf8(seq!['\n']) == seq![10u8],
{
    assert(10u32 & 0x7f == 10) by (bit_vector);
    assert(seq!['\n'].drop_first() == Seq::<char>::empty());
    assert(vstd::utf8::encode_utf8(seq!['\n'].drop_first()) == Seq::<u8>::empty());
    assert(vstd::utf8::encode_scalar(10) == seq![10u8]);
    assert(seq!['\n'][0] as u32 == 10);
    assert(seq![10u8] + Seq::<u8>::empty() == seq![10u8]);
}

/// Bytes with a line feed between them are UTF-8 where both are, and are read
/// as the texts of both with a line feed between them.
pub proof fn lemma_feed_between(a: Seq<u8>, b: Seq<u8>)
    ensures
        vstd::utf8::valid_utf8(a + seq![10u8] + b) <==> vstd::utf8::valid_utf8(a)
            && vstd::utf8::valid_utf8(b),
        vstd::utf8::valid_utf8(a) && vstd::utf8::valid_utf8(b) ==> vstd::utf8::decode_utf8(
            a + seq![10u8] + b,
        ) == vstd::utf8::decode_utf8(a) + seq!['\n'] + vstd::utf8::decode_utf8(b),
{
    let whole = a + seq![10u8] + b;
    let n = a.len() as int;
    if vstd::utf8::valid_utf8(whole) {
        assert(whole[n] == 10);
        vstd::utf8::is_char_boundary_iff_not_is_continuation_byte(whole, n);
        vstd::utf8::valid_utf8_split(whole, n);
        assert(whole.subrange(0, n) == a);
        let tail = whole.subrange(n, whole.len() as int);
        assert(tail == seq![10u8] + b);
        assert(tail[0] == 10);
        assert(vstd::utf8::pop_first_scalar(tail) =~= b);
    }
    if vstd::utf8::valid_utf8(a) && vstd::utf8::valid_utf8(b) {
        let first = vstd::utf8::decode_utf8(a);
        let second = vstd::utf8::decode_utf8(b);
        vstd::utf8::decode_utf8_encode_utf8(a);
        vstd::utf8::decode_utf8_encode_utf8(b);
        lemma_feed_byte();
        lemma_encode_concat(first, seq!['\n']);
        lemma_encode_concat(first + seq!['\n'], second);
        let text = first + seq!['\n'] + second;
        vstd::utf8::encode_utf8_valid_utf8(text);
        vstd::utf8::encode_utf8_decode_utf8(text);
    }
}

}
