//! Options as lines: what a line is made of, and what it sets.

use vstd::prelude::*;

use crate::error::ErrorView;
use crate::lines;
use crate::laws;
use crate::message::MessageView;
use crate::option;
use crate::text;
use crate::utf8;

verus! {

/// The Stream of a message is the lines of its options in their order: of each
/// its name, an equals sign, its value as written and a line feed.
pub proof fn law_lines_written(m: MessageView, last: (u8, Seq<u8>))
    ensures
        (MessageView { options: Seq::empty(), ..m }).option_lines() == Seq::<u8>::empty(),
        (MessageView { options: m.options.push(last), ..m }).option_lines() == m.option_lines()
            + vstd::utf8::encode_utf8(
            option::name_of(last.0) + seq!['='] + option::rendered(last.0, last.1) + seq!['\n'],
        ),
{
    let more = m.options.push(last);
    let line = option::name_of(last.0) + seq!['='] + option::rendered(last.0, last.1);
    assert(more.drop_last() =~= m.options);
    assert(more.last() == last);
    assert(lines::lines_text(more) == lines::lines_text(m.options) + line + seq!['\n']);
    assert(lines::lines_text(m.options) + line + seq!['\n'] =~= lines::lines_text(m.options) + (line
        + seq!['\n']));
    utf8::lemma_encode_concat(lines::lines_text(m.options), line + seq!['\n']);
    let none = Seq::<(u8, Seq<u8>)>::empty();
    assert(lines::lines_text(none) == Seq::<char>::empty());
    assert(vstd::utf8::encode_utf8(Seq::<char>::empty()) =~= Seq::<u8>::empty());
}

/// A line sets the option that it names to the value that it gives, white space
/// around both left aside; it is refused where it names no option or gives no
/// value for it.
pub proof fn law_line_read(m: MessageView, name: Seq<char>, value: Seq<char>)
    requires
        !name.contains('='),
        !name.contains('\n'),
        !value.contains('\n'),
    ensures
        m.with_lines(vstd::utf8::encode_utf8(name + seq!['='] + value)) == (match option::code_of(
            text::trimmed(name),
        ) {
            None => Err::<MessageView, ErrorView>(ErrorView::UnknownOption { name }),
            Some(code) => match option::parsed(code, text::trimmed(value)) {
                Ok(bytes) => Ok(m.with(code, bytes)),
                Err(error) => Err(error),
            },
        }),
{
    let line = name + seq!['='] + value;
    lemma_single(m, line);
    laws::option::lemma_lacks_one(name, '=');
    text::lemma_cut_after(name, '=', value);
    assert(line[name.len() as int] == '=');
    assert(text::trimmed(line).len() > 0) by {
        if text::trimmed(line).len() == 0 {
            lemma_trimmed_blank(line);
            assert(text::is_space(line[name.len() as int]));
        }
    }
}

/// A line that is not white space and has no equals sign is refused, and so are
/// bytes that are not UTF-8.
pub proof fn law_line_refused(m: MessageView, line: Seq<char>, at: int, bytes: Seq<u8>)
    requires
        !line.contains('='),
        !line.contains('\n'),
        0 <= at < line.len(),
        !text::is_space(line[at]),
    ensures
        m.with_lines(vstd::utf8::encode_utf8(line)) == Err::<MessageView, ErrorView>(
            ErrorView::NoEquals { line },
        ),
        !vstd::utf8::valid_utf8(bytes) ==> m.with_lines(bytes) == Err::<MessageView, ErrorView>(
            ErrorView::NotUtf8,
        ),
{
    lemma_single(m, line);
    laws::text::law_cut(line, '=');
    if let Some((before, after)) = text::cut_at(line, '=') {
        assert(line[before.len() as int] == '=');
        assert(line.contains('='));
    }
    if text::trimmed(line).len() == 0 {
        lemma_trimmed_blank(line);
    }
}

/// Of two texts with a line feed between them the first is set and after it the
/// second, and what is refused is refused as the first such line is. A carriage
/// return at the end of the first is left aside here, since it is part of a
/// last line and no part of one with a line feed.
pub proof fn law_texts_in_turn(m: MessageView, s: Seq<char>, t: Seq<char>)
    requires
        s.len() == 0 || s.last() != '\r',
    ensures
        m.with_lines(vstd::utf8::encode_utf8(s + seq!['\n'] + t)) == (match m.with_lines(
            vstd::utf8::encode_utf8(s),
        ) {
            Ok(first) => first.with_lines(vstd::utf8::encode_utf8(t)),
            Err(error) => Err::<MessageView, ErrorView>(error),
        }),
{
    let whole = s + seq!['\n'] + t;
    let ended = s + seq!['\n'];
    vstd::utf8::encode_utf8_valid_utf8(whole);
    vstd::utf8::encode_utf8_decode_utf8(whole);
    vstd::utf8::encode_utf8_valid_utf8(s);
    vstd::utf8::encode_utf8_decode_utf8(s);
    vstd::utf8::encode_utf8_valid_utf8(t);
    vstd::utf8::encode_utf8_decode_utf8(t);
    text::lemma_lines_concat(ended, t);
    lines::lemma_set_by_lines_concat(m.options, text::lines(ended), text::lines(t));
    lemma_lines_feed(s);
    if s.len() == 0 || s.last() == '\n' {
        let none = Seq::<char>::empty();
        lines::lemma_set_by_lines_push(m.options, text::lines(s), none);
        assert(text::trimmed(none).len() == 0);
    }
}

/// A line feed ends a last line, or is a line of its own.
proof fn lemma_lines_feed(s: Seq<char>)
    requires
        s.len() == 0 || s.last() != '\r',
    ensures
        text::lines(s + seq!['\n']) == (if s.len() == 0 || s.last() == '\n' {
            text::lines(s).push(Seq::empty())
        } else {
            text::lines(s)
        }),
    decreases s.len(),
{
    let marks = seq!['\n'];
    let whole = s + marks;
    let none = Seq::<char>::empty();
    assert(marks[0] == '\n');
    text::lemma_first_of_found(s, marks);
    let at = text::first_of(s, marks);
    assert forall|i: int| 0 <= i < at implies !marks.contains(#[trigger] whole[i]) by {
        assert(whole[i] == s[i]);
    }
    if at < s.len() {
        assert(whole[at] == s[at]);
        text::lemma_first_of(whole, marks, at);
        let head = text::chomped(s.take(at));
        let tail = s.skip(at + 1);
        assert(whole.take(at) == s.take(at));
        assert(whole.skip(at + 1) == tail + marks);
        if tail.len() > 0 {
            assert(tail.last() == s.last());
        }
        assert(s[at] == '\n');
        lemma_lines_feed(tail);
        assert(text::lines(whole) == seq![head] + text::lines(tail + marks));
        assert(text::lines(s) == seq![head] + text::lines(tail));
        if tail.len() == 0 {
            assert(s.last() == s[at]);
        }
        assert(seq![head] + text::lines(tail).push(none) =~= (seq![head] + text::lines(tail)).push(
            none,
        ));
    } else {
        assert(whole[at] == '\n');
        text::lemma_first_of(whole, marks, at);
        assert(whole.take(at) == s);
        assert(whole.skip(at + 1) == none);
        assert(text::lines(none) == Seq::<Seq<char>>::empty());
        assert(text::chomped(s) == s);
        assert(text::lines(whole) =~= seq![s]);
        if s.len() == 0 {
            assert(s == none);
            assert(text::lines(s) == Seq::<Seq<char>>::empty());
            assert(Seq::<Seq<char>>::empty().push(none) =~= seq![s]);
        } else {
            assert(!marks.contains(s[s.len() - 1]));
        }
    }
}

/// A text without a line feed is set as a line.
proof fn lemma_single(m: MessageView, line: Seq<char>)
    requires
        line.len() > 0,
        forall|i: int| 0 <= i < line.len() ==> line[i] != '\n',
    ensures
        m.with_lines(vstd::utf8::encode_utf8(line)) == (match lines::set_by_line(m.options, line) {
            Ok(options) => Ok::<MessageView, ErrorView>(MessageView { options, ..m }),
            Err(error) => Err(error),
        }),
{
    vstd::utf8::encode_utf8_valid_utf8(line);
    vstd::utf8::encode_utf8_decode_utf8(line);
    laws::text::law_lines(line, Seq::empty());
    lines::lemma_set_single(m.options, line);
}

/// Where nothing is left of a text that is trimmed, all of it is white space.
proof fn lemma_trimmed_blank(s: Seq<char>)
    requires
        text::trimmed(s).len() == 0,
    ensures
        forall|i: int| 0 <= i < s.len() ==> text::is_space(#[trigger] s[i]),
    decreases s.len(),
{
    if s.len() > 0 {
        if text::is_space(s[0]) {
            let tail = s.skip(1);
            lemma_trimmed_blank(tail);
            assert forall|i: int| 0 <= i < s.len() implies text::is_space(#[trigger] s[i]) by {
                if i > 0 {
                    assert(s[i] == tail[i - 1]);
                }
            }
        } else {
            text::lemma_trimmed_some(s);
        }
    }
}

}
