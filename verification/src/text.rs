//! Text as sequences of characters: searching, cutting, trimming, joining and
//! rewriting it.
//!
//! Specifications speak of `Seq<char>`, the view that `str` and `String` have.
//! Executable code works on slices of characters, which can be cut anywhere
//! without copying.

use vstd::prelude::*;
use vstd::slice::slice_subrange;

verus! {

// ---------------------------------------------------------------------------
// Strings and their characters
// ---------------------------------------------------------------------------

/// `String::push`: the character is appended at the end.
pub assume_specification[ String::push ](s: &mut String, c: char)
    ensures
        final(s)@ == old(s)@.push(c),
;

/// The characters of `s`.
pub fn chars_of(s: &str) -> (out: Vec<char>)
    ensures
        out@ == s@,
{
    let mut out: Vec<char> = Vec::new();
    for c in it: s.chars()
        invariant
            out@ == s@.take(it.index()),
            it.seq() == s@,
    {
        out.push(c);
        assert(s@.take(it.index() + 1) == s@.take(it.index()).push(c));
    }
    assert(s@.take(s@.len() as int) == s@);
    out
}

/// The string whose characters are `s`.
pub fn string_of(s: &[char]) -> (out: String)
    ensures
        out@ == s@,
{
    let mut out: String = String::new();
    let mut i: usize = 0;
    while i < s.len()
        invariant
            i <= s.len(),
            out@ == s@.take(i as int),
        decreases s.len() - i,
    {
        out.push(s[i]);
        i += 1;
        assert(s@.take(i as int) == s@.take(i - 1).push(s@[i - 1]));
    }
    assert(s@.take(i as int) == s@);
    out
}

/// Whether `a` and `b` are the same characters.
pub fn same(a: &[char], b: &[char]) -> (r: bool)
    ensures
        r == (a@ == b@),
{
    if a.len() != b.len() {
        return false;
    }
    let mut i: usize = 0;
    while i < a.len()
        invariant
            i <= a.len(),
            a@.len() == b@.len(),
            a@.take(i as int) == b@.take(i as int),
        decreases a.len() - i,
    {
        if a[i] != b[i] {
            return false;
        }
        i += 1;
        assert(a@.take(i as int) == a@.take(i - 1).push(a@[i - 1]));
        assert(b@.take(i as int) == b@.take(i - 1).push(b@[i - 1]));
    }
    assert(a@.take(i as int) == a@);
    assert(b@.take(i as int) == b@);
    true
}

/// Whether the characters `a` are those of the string `b`.
pub fn spells(a: &[char], b: &str) -> (r: bool)
    ensures
        r == (a@ == b@),
{
    let b: Vec<char> = chars_of(b);
    same(a, b.as_slice())
}

// ---------------------------------------------------------------------------
// Prefixes
// ---------------------------------------------------------------------------

/// `s` begins with `prefix`.
pub open spec fn starts_with(s: Seq<char>, prefix: Seq<char>) -> bool {
    prefix.len() <= s.len() && s.take(prefix.len() as int) == prefix
}

/// What follows `prefix` at the start of `s`, where it is there.
pub fn strip_prefix<'a>(s: &'a [char], prefix: &str) -> (r: Option<&'a [char]>)
    ensures
        match r {
            Some(rest) => starts_with(s@, prefix@) && rest@ == s@.skip(prefix@.len() as int),
            None => !starts_with(s@, prefix@),
        },
{
    let prefix: Vec<char> = chars_of(prefix);
    if s.len() < prefix.len() {
        return None;
    }
    let head = slice_subrange(s, 0, prefix.len());
    assert(head@ == s@.take(prefix@.len() as int));
    if same(head, prefix.as_slice()) {
        Some(slice_subrange(s, prefix.len(), s.len()))
    } else {
        None
    }
}

// ---------------------------------------------------------------------------
// Cutting at separators
// ---------------------------------------------------------------------------

/// The position of the first character of `s` among `marks`; the length of
/// `s` where there is none.
pub open spec fn first_of(s: Seq<char>, marks: Seq<char>) -> int
    decreases s.len(),
{
    if s.len() == 0 || marks.contains(s[0]) {
        0
    } else {
        1 + first_of(s.skip(1), marks)
    }
}

/// [`first_of`] is the one position that has no mark before it and a mark, or
/// the end, at it.
pub proof fn lemma_first_of(s: Seq<char>, marks: Seq<char>, at: int)
    requires
        0 <= at <= s.len(),
        forall|i: int| 0 <= i < at ==> !marks.contains(#[trigger] s[i]),
        at == s.len() || marks.contains(s[at]),
    ensures
        first_of(s, marks) == at,
    decreases at,
{
    if at > 0 {
        assert(!marks.contains(s[0]));
        assert forall|i: int| 0 <= i < at - 1 implies !marks.contains(#[trigger] s.skip(1)[i]) by {
            assert(s.skip(1)[i] == s[i + 1]);
        }
        lemma_first_of(s.skip(1), marks, at - 1);
    }
}

/// What [`first_of`] finds has no mark before it and a mark, or the end, at it.
pub proof fn lemma_first_of_found(s: Seq<char>, marks: Seq<char>)
    ensures
        0 <= first_of(s, marks) <= s.len(),
        forall|i: int| 0 <= i < first_of(s, marks) ==> !marks.contains(#[trigger] s[i]),
        first_of(s, marks) < s.len() ==> marks.contains(s[first_of(s, marks)]),
    decreases s.len(),
{
    if s.len() == 0 || marks.contains(s[0]) {
    } else {
        lemma_first_of_found(s.skip(1), marks);
        let at = first_of(s.skip(1), marks);
        assert forall|i: int| 0 <= i < 1 + at implies !marks.contains(#[trigger] s[i]) by {
            if i > 0 {
                assert(s[i] == s.skip(1)[i - 1]);
            }
        }
    }
}

/// Whether `c` is among `marks`.
fn is_mark(c: char, marks: &[char]) -> (r: bool)
    ensures
        r == marks@.contains(c),
{
    let mut i: usize = 0;
    while i < marks.len()
        invariant
            i <= marks.len(),
            forall|j: int| 0 <= j < i ==> marks@[j] != c,
        decreases marks.len() - i,
    {
        if marks[i] == c {
            assert(marks@[i as int] == c);
            return true;
        }
        i += 1;
    }
    false
}

/// The position of the first character of `s` among `marks`.
pub fn find_first(s: &[char], marks: &[char]) -> (at: usize)
    ensures
        at == first_of(s@, marks@),
        at <= s@.len(),
{
    let mut i: usize = 0;
    while i < s.len()
        invariant
            i <= s.len(),
            forall|j: int| 0 <= j < i ==> !marks@.contains(#[trigger] s@[j]),
        decreases s.len() - i,
    {
        if is_mark(s[i], marks) {
            proof {
                lemma_first_of(s@, marks@, i as int);
            }
            return i;
        }
        i += 1;
    }
    proof {
        lemma_first_of(s@, marks@, i as int);
    }
    i
}

/// What stands before and after the first `mark` of `s`.
pub open spec fn cut_at(s: Seq<char>, mark: char) -> Option<(Seq<char>, Seq<char>)> {
    let at = first_of(s, seq![mark]);
    if at >= s.len() {
        None
    } else {
        Some((s.take(at), s.skip(at + 1)))
    }
}

/// What stands before and after the first `mark` of `s`.
pub fn split_once(s: &[char], mark: char) -> (r: Option<(&[char], &[char])>)
    ensures
        match r {
            Some((before, after)) => cut_at(s@, mark) == Some((before@, after@)),
            None => cut_at(s@, mark) is None,
        },
{
    let marks: [char; 1] = [mark];
    let at: usize = find_first(s, marks.as_slice());
    assert(marks@ == seq![mark]);
    if at == s.len() {
        None
    } else {
        let before = slice_subrange(s, 0, at);
        let after = slice_subrange(s, at + 1, s.len());
        assert(before@ == s@.take(at as int));
        assert(after@ == s@.skip(at + 1));
        Some((before, after))
    }
}

/// The pieces of `s` between the characters of `marks`: one more than there
/// are marks in `s`.
pub open spec fn pieces(s: Seq<char>, marks: Seq<char>) -> Seq<Seq<char>>
    decreases s.len(),
{
    let at = first_of(s, marks);
    if at < 0 || at >= s.len() {
        seq![s]
    } else {
        seq![s.take(at)] + pieces(s.skip(at + 1), marks)
    }
}

/// The texts that a list of character slices holds.
pub open spec fn texts(v: Seq<&[char]>) -> Seq<Seq<char>> {
    Seq::new(v.len(), |i: int| v[i]@)
}

/// The pieces of `s` between the characters of `marks`.
pub fn split<'a>(s: &'a [char], marks: &[char]) -> (out: Vec<&'a [char]>)
    ensures
        texts(out@) == pieces(s@, marks@),
        out@.len() >= 1,
{
    let mut out: Vec<&'a [char]> = Vec::new();
    let mut rest: &'a [char] = s;
    assert(texts(out@) + pieces(rest@, marks@) == pieces(s@, marks@));
    loop
        invariant
            texts(out@) + pieces(rest@, marks@) == pieces(s@, marks@),
        decreases rest@.len(),
    {
        let at: usize = find_first(rest, marks);
        let ghost had = texts(out@);
        if at == rest.len() {
            out.push(rest);
            assert(texts(out@) == had.push(rest@));
            assert(texts(out@) == pieces(s@, marks@));
            return out;
        }
        let piece = slice_subrange(rest, 0, at);
        assert(piece@ == rest@.take(at as int));
        out.push(piece);
        assert(texts(out@) == had.push(piece@));
        let after = slice_subrange(rest, at + 1, rest.len());
        assert(after@ == rest@.skip(at + 1));
        assert(had + pieces(rest@, marks@) == had.push(piece@) + pieces(after@, marks@));
        rest = after;
    }
}

// ---------------------------------------------------------------------------
// Lines
// ---------------------------------------------------------------------------

/// `s` without the carriage return at its end, where it has one.
pub open spec fn chomped(s: Seq<char>) -> Seq<char> {
    if s.len() > 0 && s.last() == '\r' {
        s.drop_last()
    } else {
        s
    }
}

/// The lines of `s`: each ends in a line feed, or in a carriage return and a
/// line feed, neither being part of it; the last may lack its ending, and then
/// keeps what it has.
pub open spec fn lines(s: Seq<char>) -> Seq<Seq<char>>
    decreases s.len(),
{
    let at = first_of(s, seq!['\n']);
    if s.len() == 0 {
        seq![]
    } else if at < 0 || at >= s.len() {
        seq![s]
    } else {
        seq![chomped(s.take(at))] + lines(s.skip(at + 1))
    }
}

/// The lines of `s`.
pub fn split_lines<'a>(s: &'a [char]) -> (out: Vec<&'a [char]>)
    ensures
        texts(out@) == lines(s@),
{
    let mut out: Vec<&'a [char]> = Vec::new();
    let mut rest: &'a [char] = s;
    let marks: [char; 1] = ['\n'];
    assert(marks@ == seq!['\n']);
    assert(texts(out@) + lines(rest@) == lines(s@));
    while rest.len() > 0
        invariant
            marks@ == seq!['\n'],
            texts(out@) + lines(rest@) == lines(s@),
        decreases rest@.len(),
    {
        let at: usize = find_first(rest, marks.as_slice());
        let ghost had = texts(out@);
        if at == rest.len() {
            out.push(rest);
            assert(texts(out@) == had.push(rest@));
            assert(texts(out@) == lines(s@));
            return out;
        }
        let mut end: usize = at;
        if at > 0 && rest[at - 1] == '\r' {
            end = at - 1;
        }
        let line = slice_subrange(rest, 0, end);
        assert(line@ == chomped(rest@.take(at as int)));
        out.push(line);
        assert(texts(out@) == had.push(line@));
        let after = slice_subrange(rest, at + 1, rest.len());
        assert(after@ == rest@.skip(at + 1));
        assert(had + lines(rest@) == had.push(line@) + lines(after@));
        rest = after;
    }
    assert(lines(rest@) == Seq::<Seq<char>>::empty());
    assert(texts(out@) + lines(rest@) == texts(out@));
    out
}

// ---------------------------------------------------------------------------
// White space
// ---------------------------------------------------------------------------

/// The characters with Unicode's property White_Space.
pub open spec fn is_space(c: char) -> bool {
    ||| '\u{9}' <= c <= '\u{d}'
    ||| c == ' '
    ||| c == '\u{85}'
    ||| c == '\u{a0}'
    ||| c == '\u{1680}'
    ||| '\u{2000}' <= c <= '\u{200a}'
    ||| c == '\u{2028}'
    ||| c == '\u{2029}'
    ||| c == '\u{202f}'
    ||| c == '\u{205f}'
    ||| c == '\u{3000}'
}

/// Whether `c` has Unicode's property White_Space.
fn space(c: char) -> (r: bool)
    ensures
        r == is_space(c),
{
    ('\u{9}' <= c && c <= '\u{d}') || c == ' ' || c == '\u{85}' || c == '\u{a0}' || c == '\u{1680}'
        || ('\u{2000}' <= c && c <= '\u{200a}') || c == '\u{2028}' || c == '\u{2029}' || c
        == '\u{202f}' || c == '\u{205f}' || c == '\u{3000}'
}

/// `s` from its first character that is not white space.
pub open spec fn trimmed_start(s: Seq<char>) -> Seq<char>
    decreases s.len(),
{
    if s.len() > 0 && is_space(s[0]) {
        trimmed_start(s.skip(1))
    } else {
        s
    }
}

/// `s` up to its last character that is not white space.
pub open spec fn trimmed_end(s: Seq<char>) -> Seq<char>
    decreases s.len(),
{
    if s.len() > 0 && is_space(s.last()) {
        trimmed_end(s.drop_last())
    } else {
        s
    }
}

/// `s` without the white space at its ends.
pub open spec fn trimmed(s: Seq<char>) -> Seq<char> {
    trimmed_end(trimmed_start(s))
}

/// `s` without the white space at its ends.
pub fn trim(s: &[char]) -> (r: &[char])
    ensures
        r@ == trimmed(s@),
{
    let mut i: usize = 0;
    assert(s@.skip(0) == s@);
    while i < s.len() && space(s[i])
        invariant
            i <= s.len(),
            trimmed_start(s@.skip(i as int)) == trimmed_start(s@),
        decreases s.len() - i,
    {
        assert(s@.skip(i as int).skip(1) == s@.skip(i + 1));
        i += 1;
    }
    assert(trimmed_start(s@) == s@.skip(i as int));
    let mut j: usize = s.len();
    assert(s@.subrange(i as int, j as int) == s@.skip(i as int));
    while i < j && space(s[j - 1])
        invariant
            i <= j <= s.len(),
            trimmed_end(s@.subrange(i as int, j as int)) == trimmed(s@),
        decreases j - i,
    {
        assert(s@.subrange(i as int, j as int).drop_last() == s@.subrange(i as int, j - 1));
        j -= 1;
    }
    slice_subrange(s, i, j)
}

// ---------------------------------------------------------------------------
// Rewriting
// ---------------------------------------------------------------------------

/// `s` with every occurrence of `from` replaced by `to`, found from the left
/// and not overlapping.
pub open spec fn replaced(s: Seq<char>, from: Seq<char>, to: Seq<char>) -> Seq<char>
    decreases s.len(),
{
    if from.len() == 0 || s.len() < from.len() {
        s
    } else if starts_with(s, from) {
        to + replaced(s.skip(from.len() as int), from, to)
    } else {
        seq![s[0]] + replaced(s.skip(1), from, to)
    }
}

/// `s` with every occurrence of `from` replaced by `to`.
pub fn replace(s: &[char], from: &str, to: &str) -> (out: Vec<char>)
    requires
        from@.len() > 0,
    ensures
        out@ == replaced(s@, from@, to@),
{
    let from_chars: Vec<char> = chars_of(from);
    let to_chars: Vec<char> = chars_of(to);
    let mut out: Vec<char> = Vec::new();
    let mut i: usize = 0;
    assert(out@ + replaced(s@.skip(0), from@, to@) == replaced(s@, from@, to@)) by {
        assert(s@.skip(0) == s@);
    }
    while i < s.len()
        invariant
            i <= s.len(),
            from_chars@ == from@,
            to_chars@ == to@,
            from@.len() > 0,
            out@ + replaced(s@.skip(i as int), from@, to@) == replaced(s@, from@, to@),
        decreases s.len() - i,
    {
        let rest = slice_subrange(s, i, s.len());
        let ghost had = out@;
        assert(rest@ == s@.skip(i as int));
        if strip_prefix(rest, from).is_some() {
            assert(rest@.skip(from@.len() as int) == s@.skip(i + from@.len()));
            push_all(&mut out, to_chars.as_slice());
            assert(had + (to@ + replaced(s@.skip(i + from@.len()), from@, to@)) == (had + to@)
                + replaced(s@.skip(i + from@.len()), from@, to@));
            i += from_chars.len();
        } else {
            out.push(s[i]);
            assert(rest@.skip(1) == s@.skip(i + 1));
            proof {
                lemma_replaced_step(rest@, from@, to@);
            }
            assert(had + (seq![rest@[0]] + replaced(s@.skip(i + 1), from@, to@)) == had.push(
                rest@[0],
            ) + replaced(s@.skip(i + 1), from@, to@));
            i += 1;
        }
    }
    assert(s@.skip(i as int) == Seq::<char>::empty());
    assert(out@ + Seq::<char>::empty() == out@);
    out
}

/// Where `from` does not begin `s`, replacing it in `s` leaves the first
/// character and replaces it in the others.
pub proof fn lemma_replaced_step(s: Seq<char>, from: Seq<char>, to: Seq<char>)
    requires
        s.len() > 0,
        from.len() > 0,
        !starts_with(s, from),
    ensures
        replaced(s, from, to) == seq![s[0]] + replaced(s.skip(1), from, to),
{
    if s.len() < from.len() {
        assert(seq![s[0]] + s.skip(1) == s);
    }
}

/// `part` stands somewhere in `s`.
pub open spec fn holds(s: Seq<char>, part: Seq<char>) -> bool {
    exists|i: int| 0 <= i <= s.len() && #[trigger] starts_with(s.skip(i), part)
}

/// Replacing leaves a beginning alone in which no occurrence begins.
pub proof fn lemma_replaced_after(a: Seq<char>, b: Seq<char>, from: Seq<char>, to: Seq<char>)
    requires
        from.len() > 0,
        forall|i: int| 0 <= i < a.len() ==> !starts_with(#[trigger] (a + b).skip(i), from),
    ensures
        replaced(a + b, from, to) == a + replaced(b, from, to),
    decreases a.len(),
{
    let whole = a + b;
    if a.len() == 0 {
        assert(whole == b);
        assert(a + replaced(b, from, to) == replaced(b, from, to));
    } else {
        let tail = a.skip(1);
        assert(whole.skip(1) == tail + b);
        assert(whole.skip(0) == whole);
        lemma_replaced_step(whole, from, to);
        assert forall|i: int| 0 <= i < tail.len() implies !starts_with(
            #[trigger] (tail + b).skip(i),
            from,
        ) by {
            assert((tail + b).skip(i) == whole.skip(i + 1));
        }
        lemma_replaced_after(tail, b, from, to);
        assert(seq![whole[0]] + (tail + replaced(b, from, to)) == a + replaced(b, from, to));
    }
}

/// The characters `more` appended to `out`.
pub fn push_all(out: &mut Vec<char>, more: &[char])
    ensures
        final(out)@ == old(out)@ + more@,
{
    let mut i: usize = 0;
    assert(out@ == old(out)@ + more@.take(0));
    while i < more.len()
        invariant
            i <= more.len(),
            out@ == old(out)@ + more@.take(i as int),
        decreases more.len() - i,
    {
        out.push(more[i]);
        i += 1;
        assert(old(out)@ + more@.take(i as int) == (old(out)@ + more@.take(i - 1)).push(
            more@[i - 1],
        ));
    }
    assert(more@.take(i as int) == more@);
}

// ---------------------------------------------------------------------------
// Lists
// ---------------------------------------------------------------------------

/// `parts` one after the other with `between` between each two.
pub open spec fn joined(parts: Seq<Seq<char>>, between: Seq<char>) -> Seq<char>
    decreases parts.len(),
{
    if parts.len() == 0 {
        seq![]
    } else if parts.len() == 1 {
        parts[0]
    } else {
        joined(parts.drop_last(), between) + between + parts.last()
    }
}

/// No character of `s` is among `marks`.
pub open spec fn lacks(s: Seq<char>, marks: Seq<char>) -> bool {
    forall|i: int| 0 <= i < s.len() ==> !marks.contains(#[trigger] s[i])
}

/// A text without marks is one piece.
pub proof fn lemma_pieces_whole(s: Seq<char>, marks: Seq<char>)
    requires
        lacks(s, marks),
    ensures
        pieces(s, marks) == seq![s],
{
    lemma_first_of(s, marks, s.len() as int);
}

/// A mark and a text without marks after it are one piece more.
pub proof fn lemma_pieces_append(s: Seq<char>, mark: char, last: Seq<char>, marks: Seq<char>)
    requires
        marks.contains(mark),
        lacks(last, marks),
    ensures
        pieces(s + seq![mark] + last, marks) == pieces(s, marks).push(last),
    decreases s.len(),
{
    let whole = s + seq![mark] + last;
    let at = first_of(s, marks);
    lemma_first_of_found(s, marks);
    assert forall|i: int| 0 <= i < at implies !marks.contains(#[trigger] whole[i]) by {
        assert(whole[i] == s[i]);
    }
    if at == s.len() {
        assert(whole[at] == mark);
        lemma_first_of(whole, marks, at);
        assert(whole.take(at) == s);
        assert(whole.skip(at + 1) == last);
        lemma_pieces_whole(last, marks);
        lemma_pieces_whole(s, marks);
        assert(seq![s] + seq![last] == seq![s].push(last));
    } else {
        assert(whole[at] == s[at]);
        lemma_first_of(whole, marks, at);
        assert(whole.take(at) == s.take(at));
        assert(whole.skip(at + 1) == s.skip(at + 1) + seq![mark] + last);
        lemma_pieces_append(s.skip(at + 1), mark, last, marks);
        assert(seq![s.take(at)] + pieces(s.skip(at + 1), marks).push(last) == (seq![s.take(at)]
            + pieces(s.skip(at + 1), marks)).push(last));
    }
}

/// Texts without marks one after the other have none.
pub proof fn lemma_lacks_concat(a: Seq<char>, b: Seq<char>, marks: Seq<char>)
    requires
        lacks(a, marks),
        lacks(b, marks),
    ensures
        lacks(a + b, marks),
{
    assert forall|i: int| 0 <= i < (a + b).len() implies !marks.contains(
        #[trigger] (a + b)[i],
    ) by {
        if i < a.len() {
            assert((a + b)[i] == a[i]);
        } else {
            assert((a + b)[i] == b[i - a.len()]);
        }
    }
}

/// Texts without marks joined with one that has none have none.
pub proof fn lemma_lacks_joined(parts: Seq<Seq<char>>, between: Seq<char>, marks: Seq<char>)
    requires
        lacks(between, marks),
        forall|i: int| 0 <= i < parts.len() ==> lacks(#[trigger] parts[i], marks),
    ensures
        lacks(joined(parts, between), marks),
    decreases parts.len(),
{
    if parts.len() == 1 {
        assert(lacks(parts[0], marks));
    } else if parts.len() > 1 {
        let front = parts.drop_last();
        assert forall|i: int| 0 <= i < front.len() implies lacks(#[trigger] front[i], marks) by {
            assert(front[i] == parts[i]);
        }
        lemma_lacks_joined(front, between, marks);
        assert(lacks(parts[parts.len() - 1], marks));
        lemma_lacks_concat(joined(front, between), between, marks);
        lemma_lacks_concat(joined(front, between) + between, parts.last(), marks);
    }
}

/// A text without marks before another puts the first mark off by its length.
pub proof fn lemma_first_of_after(a: Seq<char>, b: Seq<char>, marks: Seq<char>)
    requires
        lacks(a, marks),
    ensures
        first_of(a + b, marks) == a.len() + first_of(b, marks),
{
    let whole = a + b;
    let at = a.len() + first_of(b, marks);
    lemma_first_of_found(b, marks);
    assert forall|i: int| 0 <= i < at implies !marks.contains(#[trigger] whole[i]) by {
        if i < a.len() {
            assert(whole[i] == a[i]);
        } else {
            assert(whole[i] == b[i - a.len()]);
        }
    }
    if at < whole.len() {
        assert(whole[at] == b[at - a.len()]);
    }
    lemma_first_of(whole, marks, at);
}

/// A text without the mark, the mark, and anything after it are cut there.
pub proof fn lemma_cut_after(a: Seq<char>, mark: char, b: Seq<char>)
    requires
        lacks(a, seq![mark]),
    ensures
        cut_at(a + seq![mark] + b, mark) == Some((a, b)),
{
    let whole = a + seq![mark] + b;
    let rest = seq![mark] + b;
    assert(whole == a + rest);
    assert(rest[0] == mark);
    assert(seq![mark][0] == mark);
    lemma_first_of_after(a, rest, seq![mark]);
    assert(whole.take(a.len() as int) == a);
    assert(whole.skip(a.len() as int + 1) == b);
}

/// A text without marks and a mark after it are one piece more at the front.
pub proof fn lemma_pieces_front(a: Seq<char>, mark: char, b: Seq<char>, marks: Seq<char>)
    requires
        lacks(a, marks),
        marks.contains(mark),
    ensures
        pieces(a + seq![mark] + b, marks) == seq![a] + pieces(b, marks),
{
    let whole = a + seq![mark] + b;
    let rest = seq![mark] + b;
    assert(whole == a + rest);
    assert(rest[0] == mark);
    lemma_first_of_after(a, rest, marks);
    assert(whole.take(a.len() as int) == a);
    assert(whole.skip(a.len() as int + 1) == b);
}

/// A text without marks before another makes its first piece longer.
pub proof fn lemma_pieces_after(a: Seq<char>, b: Seq<char>, marks: Seq<char>)
    requires
        lacks(a, marks),
    ensures
        pieces(b, marks).len() >= 1,
        pieces(a + b, marks) == seq![a + pieces(b, marks)[0]] + pieces(b, marks).skip(1),
{
    lemma_first_of_after(a, b, marks);
    lemma_first_of_found(b, marks);
    let at = first_of(b, marks);
    if at < b.len() {
        let tail = pieces(b.skip(at + 1), marks);
        assert((a + b).take(a.len() + at) == a + b.take(at));
        assert((a + b).skip(a.len() + at + 1) == b.skip(at + 1));
        assert((seq![b.take(at)] + tail).skip(1) == tail);
    } else {
        assert(pieces(b, marks).skip(1) == Seq::<Seq<char>>::empty());
        assert(seq![a + b] + Seq::<Seq<char>>::empty() == seq![a + b]);
    }
}

/// Joining texts that have no mark in them with a mark, and cutting at the
/// marks, gives the texts back.
pub proof fn law_joined_cuts_back(parts: Seq<Seq<char>>, mark: char, marks: Seq<char>)
    requires
        parts.len() >= 1,
        marks.contains(mark),
        forall|i: int| 0 <= i < parts.len() ==> lacks(#[trigger] parts[i], marks),
    ensures
        pieces(joined(parts, seq![mark]), marks) == parts,
    decreases parts.len(),
{
    if parts.len() == 1 {
        lemma_pieces_whole(parts[0], marks);
        assert(seq![parts[0]] == parts);
    } else {
        let front = parts.drop_last();
        assert forall|i: int| 0 <= i < front.len() implies lacks(#[trigger] front[i], marks) by {
            assert(front[i] == parts[i]);
        }
        law_joined_cuts_back(front, mark, marks);
        lemma_pieces_append(joined(front, seq![mark]), mark, parts.last(), marks);
        assert(front.push(parts.last()) == parts);
    }
}

/// Joining from the front.
pub proof fn lemma_joined_front(first: Seq<char>, rest: Seq<Seq<char>>, between: Seq<char>)
    requires
        rest.len() >= 1,
    ensures
        joined(seq![first] + rest, between) == first + between + joined(rest, between),
    decreases rest.len(),
{
    let all = seq![first] + rest;
    assert(all.drop_last() == seq![first] + rest.drop_last());
    assert(all.last() == rest.last());
    if rest.len() == 1 {
        assert(all.drop_last() == seq![first]);
        assert(joined(all.drop_last(), between) == first);
    } else {
        lemma_joined_front(first, rest.drop_last(), between);
        assert(joined(all, between) == first + between + joined(rest.drop_last(), between) + between
            + rest.last());
        assert(joined(all, between) == first + between + (joined(rest.drop_last(), between)
            + between + rest.last()));
    }
}

/// Cutting a text at a mark and joining the pieces with it gives the text back.
pub proof fn law_pieces_join_back(s: Seq<char>, mark: char)
    ensures
        joined(pieces(s, seq![mark]), seq![mark]) == s,
        pieces(s, seq![mark]).len() >= 1,
    decreases s.len(),
{
    let marks = seq![mark];
    lemma_first_of_found(s, marks);
    let at = first_of(s, marks);
    if at < s.len() {
        law_pieces_join_back(s.skip(at + 1), mark);
        lemma_joined_front(s.take(at), pieces(s.skip(at + 1), marks), marks);
        assert(s[at] == mark);
        assert(s.take(at) + marks + s.skip(at + 1) == s);
    }
}

// ---------------------------------------------------------------------------
// Lines and white space, read back
// ---------------------------------------------------------------------------

/// The characters of ASCII that print and are not a space.
pub open spec fn is_visible(c: char) -> bool {
    '!' <= c <= '~'
}

/// Every character of `s` is visible.
pub open spec fn visible(s: Seq<char>) -> bool {
    forall|i: int| 0 <= i < s.len() ==> is_visible(#[trigger] s[i])
}

/// A visible text has no white space to trim and no line ending in it.
pub proof fn lemma_visible(s: Seq<char>)
    requires
        visible(s),
    ensures
        trimmed(s) == s,
        lacks(s, seq!['\n']),
        chomped(s) == s,
{
    if s.len() > 0 {
        assert(is_visible(s[0]));
        assert(is_visible(s[s.len() - 1]));
    }
    assert forall|i: int| 0 <= i < s.len() implies !seq!['\n'].contains(#[trigger] s[i]) by {
        assert(is_visible(s[i]));
    }
}

/// Visible texts one after the other are visible.
pub proof fn lemma_visible_concat(a: Seq<char>, b: Seq<char>)
    requires
        visible(a),
        visible(b),
    ensures
        visible(a + b),
{
    assert forall|i: int| 0 <= i < (a + b).len() implies is_visible(#[trigger] (a + b)[i]) by {
        if i < a.len() {
            assert(is_visible(a[i]));
        } else {
            assert(is_visible(b[i - a.len()]));
        }
    }
}

/// Visible texts joined with a visible one are visible.
pub proof fn lemma_visible_joined(parts: Seq<Seq<char>>, between: Seq<char>)
    requires
        visible(between),
        forall|i: int| 0 <= i < parts.len() ==> visible(#[trigger] parts[i]),
    ensures
        visible(joined(parts, between)),
    decreases parts.len(),
{
    if parts.len() == 1 {
        assert(visible(parts[0]));
    } else if parts.len() > 1 {
        let front = parts.drop_last();
        assert forall|i: int| 0 <= i < front.len() implies visible(#[trigger] front[i]) by {
            assert(front[i] == parts[i]);
        }
        lemma_visible_joined(front, between);
        assert(visible(parts[parts.len() - 1]));
        lemma_visible_concat(joined(front, between), between);
        lemma_visible_concat(joined(front, between) + between, parts.last());
    }
}

/// A text that begins with no white space is not white space alone.
pub proof fn lemma_trimmed_some(s: Seq<char>)
    requires
        s.len() > 0,
        !is_space(s[0]),
    ensures
        trimmed(s).len() > 0,
    decreases s.len(),
{
    if s.len() > 1 && is_space(s.last()) {
        lemma_trimmed_some(s.drop_last());
    }
}

/// One line more after lines that have their endings.
pub proof fn lemma_lines_append(s: Seq<char>, line: Seq<char>)
    requires
        s.len() == 0 || s.last() == '\n',
        lacks(line, seq!['\n']),
    ensures
        lines(s + line + seq!['\n']) == lines(s).push(chomped(line)),
    decreases s.len(),
{
    let marks = seq!['\n'];
    let whole = s + line + marks;
    assert(marks[0] == '\n');
    if s.len() == 0 {
        assert forall|i: int| 0 <= i < line.len() implies !marks.contains(#[trigger] whole[i]) by {
            assert(whole[i] == line[i]);
        }
        assert(whole[line.len() as int] == '\n');
        lemma_first_of(whole, marks, line.len() as int);
        assert(whole.take(line.len() as int) == line);
        assert(whole.skip(line.len() as int + 1) == Seq::<char>::empty());
        assert(lines(Seq::<char>::empty()) == Seq::<Seq<char>>::empty());
        assert(lines(s) == Seq::<Seq<char>>::empty());
        let none = Seq::<Seq<char>>::empty();
        assert(lines(whole) == seq![chomped(line)] + none);
        assert(seq![chomped(line)] + none == none.push(chomped(line)));
    } else {
        lemma_first_of_found(s, marks);
        let at = first_of(s, marks);
        if at == s.len() {
            assert(!marks.contains(s[s.len() - 1]));
        }
        assert forall|i: int| 0 <= i < at implies !marks.contains(#[trigger] whole[i]) by {
            assert(whole[i] == s[i]);
        }
        assert(whole[at] == s[at]);
        lemma_first_of(whole, marks, at);
        assert(whole.take(at) == s.take(at));
        assert(whole.skip(at + 1) == s.skip(at + 1) + line + marks);
        lemma_lines_append(s.skip(at + 1), line);
        assert(lines(whole) == seq![chomped(s.take(at))] + lines(whole.skip(at + 1)));
        let last = chomped(line);
        assert(seq![chomped(s.take(at))] + lines(s.skip(at + 1)).push(last) == (seq![
            chomped(s.take(at)),
        ] + lines(s.skip(at + 1))).push(last));
    }
}

/// Trimming never makes a text longer.
proof fn lemma_trimmed_len(s: Seq<char>)
    ensures
        trimmed_start(s).len() <= s.len(),
        trimmed_end(s).len() <= s.len(),
    decreases s.len(),
{
    if s.len() > 0 {
        lemma_trimmed_len(s.skip(1));
        lemma_trimmed_len(s.drop_last());
    }
}

/// A text with nothing to trim has no white space at its ends.
pub proof fn lemma_trimmed_ends(s: Seq<char>)
    requires
        trimmed(s) == s,
        s.len() > 0,
    ensures
        !is_space(s[0]),
        !is_space(s.last()),
{
    lemma_trimmed_len(trimmed_start(s));
    if is_space(s[0]) {
        lemma_trimmed_len(s.skip(1));
    } else if is_space(s.last()) {
        lemma_trimmed_len(s.drop_last());
    }
}

/// Lines that have their endings, and lines after them.
pub proof fn lemma_lines_concat(s: Seq<char>, t: Seq<char>)
    requires
        s.len() == 0 || s.last() == '\n',
    ensures
        lines(s + t) == lines(s) + lines(t),
    decreases s.len(),
{
    let marks = seq!['\n'];
    let whole = s + t;
    assert(marks[0] == '\n');
    if s.len() == 0 {
        assert(whole == t);
        assert(lines(s) == Seq::<Seq<char>>::empty());
        assert(Seq::<Seq<char>>::empty() + lines(t) == lines(t));
    } else {
        lemma_first_of_found(s, marks);
        let at = first_of(s, marks);
        if at == s.len() {
            assert(!marks.contains(s[s.len() - 1]));
        }
        assert forall|i: int| 0 <= i < at implies !marks.contains(#[trigger] whole[i]) by {
            assert(whole[i] == s[i]);
        }
        assert(whole[at] == s[at]);
        lemma_first_of(whole, marks, at);
        assert(whole.take(at) == s.take(at));
        assert(whole.skip(at + 1) == s.skip(at + 1) + t);
        lemma_lines_concat(s.skip(at + 1), t);
        assert(seq![chomped(s.take(at))] + (lines(s.skip(at + 1)) + lines(t)) == (seq![
            chomped(s.take(at)),
        ] + lines(s.skip(at + 1))) + lines(t));
    }
}

/// White space at the end of a text is trimmed.
pub proof fn lemma_trimmed_push(s: Seq<char>, c: char)
    requires
        is_space(c),
    ensures
        trimmed(s.push(c)) == trimmed(s),
{
    lemma_trimmed_start_push(s, c);
    let start = trimmed_start(s);
    if start.len() > 0 {
        assert(start.push(c).drop_last() == start);
    }
}

/// White space after a text, trimmed at its start.
proof fn lemma_trimmed_start_push(s: Seq<char>, c: char)
    requires
        is_space(c),
    ensures
        trimmed_start(s.push(c)) == (if trimmed_start(s).len() == 0 {
            Seq::empty()
        } else {
            trimmed_start(s).push(c)
        }),
    decreases s.len(),
{
    let whole = s.push(c);
    if s.len() == 0 {
        assert(whole.skip(1) == Seq::<char>::empty());
        assert(trimmed_start(whole.skip(1)) == Seq::<char>::empty());
    } else {
        assert(whole[0] == s[0]);
        assert(whole.skip(1) == s.skip(1).push(c));
        lemma_trimmed_start_push(s.skip(1), c);
    }
}

/// Every character of `s` is white space.
pub open spec fn blank(s: Seq<char>) -> bool {
    forall|i: int| 0 <= i < s.len() ==> is_space(#[trigger] s[i])
}

/// Nothing is left of a blank text that is trimmed.
pub proof fn lemma_blank_trimmed(s: Seq<char>)
    requires
        blank(s),
    ensures
        trimmed(s).len() == 0,
    decreases s.len(),
{
    if s.len() > 0 {
        let front = s.drop_last();
        assert forall|i: int| 0 <= i < front.len() implies is_space(#[trigger] front[i]) by {
            assert(front[i] == s[i]);
        }
        lemma_blank_trimmed(front);
        assert(is_space(s[s.len() - 1]));
        lemma_trimmed_push(front, s.last());
        assert(front.push(s.last()) == s);
    }
}

/// The lines of a blank text are blank.
pub proof fn lemma_blank_lines(s: Seq<char>)
    requires
        blank(s),
    ensures
        forall|i: int| 0 <= i < lines(s).len() ==> blank(#[trigger] lines(s)[i]),
    decreases s.len(),
{
    let at = first_of(s, seq!['\n']);
    lemma_first_of_found(s, seq!['\n']);
    if s.len() > 0 && at < s.len() {
        let head = chomped(s.take(at));
        let tail = s.skip(at + 1);
        assert(blank(head)) by {
            assert forall|i: int| 0 <= i < head.len() implies is_space(#[trigger] head[i]) by {
                assert(head[i] == s[i]);
            }
        }
        assert(blank(tail)) by {
            assert forall|i: int| 0 <= i < tail.len() implies is_space(#[trigger] tail[i]) by {
                assert(tail[i] == s[at + 1 + i]);
            }
        }
        lemma_blank_lines(tail);
        assert forall|i: int| 0 <= i < lines(s).len() implies blank(#[trigger] lines(s)[i]) by {
            if i > 0 {
                assert(lines(s)[i] == lines(tail)[i - 1]);
            }
        }
    }
}

}
