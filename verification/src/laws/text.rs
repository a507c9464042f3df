//! Text: prefixes, cuts, lines, white space and rewriting.

use vstd::prelude::*;

use crate::text;

verus! {

/// A text begins with another where it has the same characters at the same
/// positions.
pub proof fn law_begins(s: Seq<char>, prefix: Seq<char>)
    ensures
        text::starts_with(s, prefix) <==> prefix.len() <= s.len() && forall|i: int|
            0 <= i < prefix.len() ==> s[i] == prefix[i],
{
    if text::starts_with(s, prefix) {
        assert forall|i: int| 0 <= i < prefix.len() implies s[i] == prefix[i] by {
            assert(s.take(prefix.len() as int)[i] == s[i]);
        }
    } else if prefix.len() <= s.len() {
        if forall|i: int| 0 <= i < prefix.len() ==> s[i] == prefix[i] {
            assert(s.take(prefix.len() as int) =~= prefix);
        }
    }
}

/// A cut is at the first mark: before it there is none, and what stands before
/// it, the mark and what stands after it are the text.
pub proof fn law_cut(s: Seq<char>, mark: char)
    ensures
        match text::cut_at(s, mark) {
            Some((before, after)) => s == before + seq![mark] + after && !before.contains(mark),
            None => !s.contains(mark),
        },
{
    let marks = seq![mark];
    assert(marks[0] == mark);
    text::lemma_first_of_found(s, marks);
    let at = text::first_of(s, marks);
    if at < s.len() {
        assert(s =~= s.take(at) + marks + s.skip(at + 1));
        assert forall|i: int| 0 <= i < at implies s.take(at)[i] != mark by {
            assert(!marks.contains(s[i]));
        }
    } else {
        assert forall|i: int| 0 <= i < s.len() implies s[i] != mark by {
            assert(!marks.contains(s[i]));
        }
    }
}

/// A text without a mark is one piece; with a mark and another text after it,
/// it is the first piece, before the pieces of the other.
pub proof fn law_pieces(first: Seq<char>, mark: char, rest: Seq<char>, marks: Seq<char>)
    requires
        forall|i: int| 0 <= i < first.len() ==> !marks.contains(#[trigger] first[i]),
        marks.contains(mark),
    ensures
        text::pieces(first, marks) == seq![first],
        text::pieces(first + seq![mark] + rest, marks) == seq![first] + text::pieces(rest, marks),
{
    text::lemma_pieces_whole(first, marks);
    text::lemma_pieces_front(first, mark, rest, marks);
}

/// Texts are joined in their order, with what stands between them between each
/// two.
pub proof fn law_joined(first: Seq<char>, rest: Seq<Seq<char>>, between: Seq<char>)
    ensures
        text::joined(Seq::empty(), between) == Seq::<char>::empty(),
        text::joined(seq![first], between) == first,
        rest.len() > 0 ==> text::joined(seq![first] + rest, between) == first + between
            + text::joined(rest, between),
{
    if rest.len() > 0 {
        text::lemma_joined_front(first, rest, between);
    }
}

/// A line ends at its line feed, and a carriage return just before that is not
/// part of it; a last line without a line feed is as it stands.
pub proof fn law_lines(line: Seq<char>, rest: Seq<char>)
    requires
        !line.contains('\n'),
    ensures
        text::lines(Seq::empty()) == Seq::<Seq<char>>::empty(),
        line.len() > 0 ==> text::lines(line) == seq![line],
        line.len() > 0 && line.last() == '\r' ==> text::lines(line + seq!['\n'] + rest) == seq![
            line.take(line.len() - 1),
        ] + text::lines(rest),
        line.len() == 0 || line.last() != '\r' ==> text::lines(line + seq!['\n'] + rest) == seq![
            line,
        ] + text::lines(rest),
{
    let marks = seq!['\n'];
    let whole = line + marks + rest;
    assert(marks[0] == '\n');
    assert forall|i: int| 0 <= i < line.len() implies !marks.contains(#[trigger] line[i]) by {
        assert(line.contains(line[i]));
    }
    text::lemma_first_of(line, marks, line.len() as int);
    assert forall|i: int| 0 <= i < line.len() implies !marks.contains(#[trigger] whole[i]) by {
        assert(whole[i] == line[i]);
    }
    assert(whole[line.len() as int] == '\n');
    text::lemma_first_of(whole, marks, line.len() as int);
    assert(whole.take(line.len() as int) == line);
    assert(whole.skip(line.len() as int + 1) == rest);
    if line.len() > 0 {
        assert(line.drop_last() == line.take(line.len() - 1));
    }
}

/// The characters that are white space.
pub proof fn law_space(c: char)
    ensures
        text::is_space(c) <==> seq![
            9int,
            10,
            11,
            12,
            13,
            32,
            133,
            160,
            5760,
            8192,
            8193,
            8194,
            8195,
            8196,
            8197,
            8198,
            8199,
            8200,
            8201,
            8202,
            8232,
            8233,
            8239,
            8287,
            12288,
        ].contains(c as int),
{
    let all = seq![
        9int,
        10,
        11,
        12,
        13,
        32,
        133,
        160,
        5760,
        8192,
        8193,
        8194,
        8195,
        8196,
        8197,
        8198,
        8199,
        8200,
        8201,
        8202,
        8232,
        8233,
        8239,
        8287,
        12288,
    ];
    let n = c as int;
    assert(all[0] == 9 && all[1] == 10 && all[2] == 11 && all[3] == 12 && all[4] == 13);
    assert(all[5] == 32 && all[6] == 133 && all[7] == 160 && all[8] == 5760 && all[9] == 8192);
    assert(all[10] == 8193 && all[11] == 8194 && all[12] == 8195 && all[13] == 8196);
    assert(all[14] == 8197 && all[15] == 8198 && all[16] == 8199 && all[17] == 8200);
    assert(all[18] == 8201 && all[19] == 8202 && all[20] == 8232 && all[21] == 8233);
    assert(all[22] == 8239 && all[23] == 8287 && all[24] == 12288);
    if all.contains(n) {
        let i = choose|i: int| 0 <= i < all.len() && all[i] == n;
        assert(0 <= i < 25);
    }
}

/// Trimming takes the white space before and after a text and nothing else.
pub proof fn law_trimmed(before: Seq<char>, s: Seq<char>, after: Seq<char>)
    requires
        forall|i: int| 0 <= i < before.len() ==> text::is_space(#[trigger] before[i]),
        forall|i: int| 0 <= i < after.len() ==> text::is_space(#[trigger] after[i]),
        s.len() > 0 ==> !text::is_space(s[0]) && !text::is_space(s[s.len() - 1]),
    ensures
        text::trimmed(before + s + after) == s,
    decreases before.len() + after.len(),
{
    let whole = before + s + after;
    if after.len() > 0 {
        let fewer = after.drop_last();
        assert forall|i: int| 0 <= i < fewer.len() implies text::is_space(#[trigger] fewer[i]) by {
            assert(fewer[i] == after[i]);
        }
        law_trimmed(before, s, fewer);
        assert(text::is_space(after[after.len() - 1]));
        text::lemma_trimmed_push(before + s + fewer, after.last());
        assert((before + s + fewer).push(after.last()) =~= whole);
    } else if before.len() > 0 {
        let fewer = before.skip(1);
        assert forall|i: int| 0 <= i < fewer.len() implies text::is_space(#[trigger] fewer[i]) by {
            assert(fewer[i] == before[i + 1]);
        }
        law_trimmed(fewer, s, after);
        assert(text::is_space(before[0]));
        assert(whole[0] == before[0]);
        assert(whole.skip(1) =~= fewer + s + after);
    } else {
        assert(whole =~= s);
    }
}

/// Rewriting changes each occurrence that is found from the left, and leaves a
/// text alone in which there is none.
pub proof fn law_replaced(before: Seq<char>, after: Seq<char>, from: Seq<char>, to: Seq<char>)
    requires
        from.len() > 0,
    ensures
        (forall|i: int|
            0 <= i < before.len() ==> !text::starts_with(
                #[trigger] (before + (from + after)).skip(i),
                from,
            )) ==> text::replaced(before + (from + after), from, to) == before + to
            + text::replaced(after, from, to),
        (forall|i: int| 0 <= i < after.len() ==> !text::starts_with(#[trigger] after.skip(i), from))
            ==> text::replaced(after, from, to) == after,
{
    let tail = from + after;
    if forall|i: int|
        0 <= i < before.len() ==> !text::starts_with(#[trigger] (before + tail).skip(i), from) {
        text::lemma_replaced_after(before, tail, from, to);
        assert(tail.take(from.len() as int) == from);
        assert(tail.skip(from.len() as int) == after);
        assert(before + (to + text::replaced(after, from, to)) =~= before + to + text::replaced(
            after,
            from,
            to,
        ));
    }
    if forall|i: int|
        0 <= i < after.len() ==> !text::starts_with(#[trigger] after.skip(i), from) {
        let none = Seq::<char>::empty();
        assert(after + none =~= after);
        text::lemma_replaced_after(after, none, from, to);
        assert(text::replaced(none, from, to) == none);
    }
}

/// The texts of slices are the slices' characters, one for one.
pub proof fn law_texts(v: Seq<&[char]>, i: int)
    requires
        0 <= i < v.len(),
    ensures
        text::texts(v).len() == v.len(),
        text::texts(v)[i] == v[i]@,
{
}

}
