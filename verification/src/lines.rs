//! The options of a message as a Stream: one `name=value` line each.

use vstd::prelude::*;

use crate::error;
use crate::error::{Error, ErrorView};
use crate::message;
use crate::message::{options_view, Message, MessageView};
use crate::option;
use crate::option::{option_code, option_name, parse_option, render_option};
use crate::text;
use crate::text::{chars_of, push_all, split_lines, split_once, string_of, trim};
use crate::utf8;
use crate::utf8::from_utf8;
use vstd::slice::slice_to_vec;

verus! {

// ---------------------------------------------------------------------------
// What the lines say
// ---------------------------------------------------------------------------

/// The line of an option, without its ending.
pub open spec fn body(option: (u8, Seq<u8>)) -> Seq<char> {
    option::name_of(option.0) + seq!['='] + option::rendered(option.0, option.1)
}

/// The lines of `options`, each with its ending.
pub open spec fn lines_text(options: Seq<(u8, Seq<u8>)>) -> Seq<char>
    decreases options.len(),
{
    if options.len() == 0 {
        seq![]
    } else {
        lines_text(options.drop_last()) + body(options.last()) + seq!['\n']
    }
}

/// `options` with what `line` says set, or why it says nothing. A line of white
/// space sets nothing.
pub open spec fn set_by_line(options: Seq<(u8, Seq<u8>)>, line: Seq<char>) -> Result<
    Seq<(u8, Seq<u8>)>,
    ErrorView,
> {
    if text::trimmed(line).len() == 0 {
        Ok(options)
    } else {
        match text::cut_at(line, '=') {
            None => Err(ErrorView::NoEquals { line }),
            Some((name, value)) => match option::code_of(text::trimmed(name)) {
                None => Err(ErrorView::UnknownOption { name }),
                Some(code) => match option::parsed(code, text::trimmed(value)) {
                    Ok(bytes) => Ok(message::setting(options, code, bytes)),
                    Err(error) => Err(error),
                },
            },
        }
    }
}

/// `options` with what each of `lines` says set in turn, or why the first that
/// says nothing does so.
pub open spec fn set_by_lines(options: Seq<(u8, Seq<u8>)>, lines: Seq<Seq<char>>) -> Result<
    Seq<(u8, Seq<u8>)>,
    ErrorView,
>
    decreases lines.len(),
{
    if lines.len() == 0 {
        Ok(options)
    } else {
        match set_by_line(options, lines[0]) {
            Ok(more) => set_by_lines(more, lines.skip(1)),
            Err(error) => Err(error),
        }
    }
}

impl MessageView {
    /// The options as the Stream.
    pub open spec fn option_lines(self) -> Seq<u8> {
        vstd::utf8::encode_utf8(lines_text(self.options))
    }

    /// This message with every line of `bytes` set as an option, or why not.
    pub open spec fn with_lines(self, bytes: Seq<u8>) -> Result<Self, ErrorView> {
        if !vstd::utf8::valid_utf8(bytes) {
            Err(ErrorView::NotUtf8)
        } else {
            match set_by_lines(self.options, text::lines(vstd::utf8::decode_utf8(bytes))) {
                Ok(options) => Ok(MessageView { options, ..self }),
                Err(error) => Err(error),
            }
        }
    }
}

// ---------------------------------------------------------------------------
// Writing and reading them
// ---------------------------------------------------------------------------

impl Message {
    /// The options as the Stream: one `name=value` line each.
    #[must_use]
    pub fn option_lines(&self) -> (r: Vec<u8>)
        ensures
            r@ == self@.option_lines(),
    {
        let ghost all = self@.options;
        let mut out: Vec<char> = Vec::new();
        let mut i: usize = 0;
        assert(all.take(0) == Seq::<(u8, Seq<u8>)>::empty());
        while i < self.options.len()
            invariant
                i <= self.options@.len(),
                all == options_view(self.options@),
                out@ == lines_text(all.take(i as int)),
            decreases self.options.len() - i,
        {
            let code: u8 = self.options[i].0;
            let ghost before = out@;
            let name: Vec<char> = chars_of(option_name(code).as_str());
            push_all(&mut out, name.as_slice());
            out.push('=');
            let value: Vec<char> = chars_of(
                render_option(code, self.options[i].1.as_slice()).as_str(),
            );
            push_all(&mut out, value.as_slice());
            out.push('\n');
            assert(all[i as int] == (code, self.options@[i as int].1@));
            assert(out@ == before + body(all[i as int]) + seq!['\n']);
            assert(all.take(i + 1).drop_last() == all.take(i as int));
            assert(all.take(i + 1).last() == all[i as int]);
            i += 1;
        }
        assert(all.take(i as int) == all);
        slice_to_vec(string_of(out.as_slice()).as_str().as_bytes())
    }

    /// With what one line says set as an option.
    fn with_line(self, line: &[char]) -> (r: Result<Self, Error>)
        ensures
            match r {
                Ok(m) => set_by_line(self@.options, line@) == Ok::<Seq<(u8, Seq<u8>)>, ErrorView>(
                    m@.options,
                ) && m@ == (MessageView { options: m@.options, ..self@ }),
                Err(error) => set_by_line(self@.options, line@) == Err::<
                    Seq<(u8, Seq<u8>)>,
                    ErrorView,
                >(error@),
            },
    {
        if trim(line).len() == 0 {
            return Ok(self);
        }
        match split_once(line, '=') {
            None => Err(Error::NoEquals { line: string_of(line) }),
            Some((name, value)) => match option_code(string_of(trim(name)).as_str()) {
                None => Err(Error::UnknownOption { name: string_of(name) }),
                Some(code) => match parse_option(code, string_of(trim(value)).as_str()) {
                    Ok(bytes) => Ok(self.with(code, bytes)),
                    Err(error) => Err(error),
                },
            },
        }
    }

    /// With every `name=value` line of `bytes` set as an option.
    ///
    /// # Errors
    /// A line without `=`, a name that is neither known nor `option-N`,
    /// or a value not shaped for its option.
    pub fn with_lines(self, bytes: &[u8]) -> (r: Result<Self, Error>)
        ensures
            match r {
                Ok(m) => self@.with_lines(bytes@) == Ok::<MessageView, ErrorView>(m@),
                Err(error) => self@.with_lines(bytes@) == Err::<MessageView, ErrorView>(error@),
            },
    {
        let whole = match from_utf8(bytes) {
            Some(whole) => whole,
            None => {
                return Err(Error::NotUtf8);
            },
        };
        let ghost start = self@;
        let chars: Vec<char> = chars_of(whole);
        let list: Vec<&[char]> = split_lines(chars.as_slice());
        let ghost all = text::lines(whole@);
        let mut m = self;
        let mut i: usize = 0;
        assert(all.skip(0) == all);
        while i < list.len()
            invariant
                i <= list@.len(),
                text::texts(list@) == all,
                vstd::utf8::valid_utf8(bytes@),
                all == text::lines(vstd::utf8::decode_utf8(bytes@)),
                m@ == (MessageView { options: m@.options, ..start }),
                set_by_lines(start.options, all) == set_by_lines(m@.options, all.skip(i as int)),
                start == self@,
            decreases list.len() - i,
        {
            let ghost here = all.skip(i as int);
            assert(here[0] == list@[i as int]@);
            assert(here.skip(1) == all.skip(i + 1));
            m = match m.with_line(list[i]) {
                Ok(more) => more,
                Err(error) => {
                    return Err(error);
                },
            };
            i += 1;
        }
        assert(all.skip(i as int).len() == 0);
        Ok(m)
    }
}

// ---------------------------------------------------------------------------
// What is written is read
// ---------------------------------------------------------------------------

/// An option that its line holds whole: its value is shaped for it, and what is
/// written of the value has no white space at its ends.
pub open spec fn fits_line(option: (u8, Seq<u8>)) -> bool {
    &&& option::shaped(option.0, option.1)
    &&& text::trimmed(option::rendered(option.0, option.1)) == option::rendered(option.0, option.1)
}

/// Options that their lines hold whole: no two with one code, and each in its
/// line.
pub open spec fn listed(options: Seq<(u8, Seq<u8>)>) -> bool {
    &&& message::distinct(options)
    &&& forall|i: int| 0 <= i < options.len() ==> fits_line(#[trigger] options[i])
}

/// The lines of `options`, without their endings.
pub open spec fn bodies(options: Seq<(u8, Seq<u8>)>) -> Seq<Seq<char>> {
    Seq::new(options.len(), |i: int| body(options[i]))
}

/// A line feed stands in no line of an option.
proof fn lemma_body_in_line(option: (u8, Seq<u8>))
    ensures
        text::lacks(body(option), seq!['\n']),
{
    let name = option::name_of(option.0);
    let value = option::rendered(option.0, option.1);
    option::lemma_name_plain(option.0);
    option::lemma_rendered_in_line(option.0, option.1);
    text::lemma_visible(name);
    assert(text::lacks(seq!['='], seq!['\n']));
    text::lemma_lacks_concat(name, seq!['='], seq!['\n']);
    text::lemma_lacks_concat(name + seq!['='], value, seq!['\n']);
}

/// Cutting the lines of `options` at their endings gives the line of each.
proof fn lemma_lines_of_text(options: Seq<(u8, Seq<u8>)>)
    ensures
        lines_text(options).len() == 0 || lines_text(options).last() == '\n',
        text::lines(lines_text(options)) == Seq::new(
            options.len(),
            |i: int| text::chomped(body(options[i])),
        ),
    decreases options.len(),
{
    let all = Seq::new(options.len(), |i: int| text::chomped(body(options[i])));
    if options.len() == 0 {
        assert(all == Seq::<Seq<char>>::empty());
    } else {
        let front = options.drop_last();
        let last = options[options.len() - 1];
        lemma_lines_of_text(front);
        lemma_body_in_line(last);
        text::lemma_lines_append(lines_text(front), body(last));
        assert(all == Seq::new(front.len(), |i: int| text::chomped(body(front[i]))).push(
            text::chomped(body(last)),
        ));
    }
}

/// Cutting the lines of options that their lines hold whole gives their lines.
pub proof fn lemma_lines_of_listed(options: Seq<(u8, Seq<u8>)>)
    requires
        listed(options),
    ensures
        text::lines(lines_text(options)) == bodies(options),
{
    lemma_lines_of_text(options);
    assert forall|i: int| 0 <= i < options.len() implies text::chomped(
        #[trigger] bodies(options)[i],
    ) == bodies(options)[i] by {
        let value = option::rendered(options[i].0, options[i].1);
        let line = body(options[i]);
        assert(fits_line(options[i]));
        if value.len() > 0 {
            text::lemma_trimmed_ends(value);
            assert(line.last() == value.last());
        } else {
            assert(line.last() == '=');
        }
    }
    assert(text::lines(lines_text(options)) =~= bodies(options));
}

/// The Stream of a message is one line for each option, whatever the options
/// hold: the option's name, an equals sign and its value as written, but for a
/// carriage return at the end.
pub proof fn law_line_per_option(m: MessageView)
    ensures
        vstd::utf8::valid_utf8(m.option_lines()),
        text::lines(vstd::utf8::decode_utf8(m.option_lines())).len() == m.options.len(),
        forall|i: int|
            0 <= i < m.options.len() ==> #[trigger] text::lines(
                vstd::utf8::decode_utf8(m.option_lines()),
            )[i] == text::chomped(body(m.options[i])),
{
    let whole = lines_text(m.options);
    vstd::utf8::encode_utf8_valid_utf8(whole);
    vstd::utf8::encode_utf8_decode_utf8(whole);
    lemma_lines_of_text(m.options);
}

/// One line more is set after the others.
pub proof fn lemma_set_by_lines_push(
    options: Seq<(u8, Seq<u8>)>,
    lines: Seq<Seq<char>>,
    line: Seq<char>,
)
    ensures
        set_by_lines(options, lines.push(line)) == (match set_by_lines(options, lines) {
            Ok(more) => set_by_line(more, line),
            Err(error) => Err(error),
        }),
    decreases lines.len(),
{
    let all = lines.push(line);
    if lines.len() == 0 {
        assert(all[0] == line);
        assert(all.skip(1).len() == 0);
        if let Ok(more) = set_by_line(options, line) {
            assert(set_by_lines(more, all.skip(1)) == Ok::<Seq<(u8, Seq<u8>)>, ErrorView>(more));
        }
    } else {
        assert(all[0] == lines[0]);
        assert(all.skip(1) == lines.skip(1).push(line));
        if let Ok(more) = set_by_line(options, lines[0]) {
            lemma_set_by_lines_push(more, lines.skip(1), line);
        }
    }
}

/// The line of an option that it holds whole sets the option.
proof fn lemma_body_sets(options: Seq<(u8, Seq<u8>)>, option: (u8, Seq<u8>))
    requires
        fits_line(option),
    ensures
        set_by_line(options, body(option)) == Ok::<Seq<(u8, Seq<u8>)>, ErrorView>(
            message::setting(options, option.0, option.1),
        ),
{
    let name = option::name_of(option.0);
    let value = option::rendered(option.0, option.1);
    let line = body(option);
    option::lemma_name_plain(option.0);
    text::lemma_visible(name);
    option::law_name_finds_code(option.0);
    option::law_value_reads_back(option.0, option.1);
    assert(text::is_visible(name[0]));
    assert(line[0] == name[0]);
    text::lemma_trimmed_some(line);
    let marks = seq!['='];
    assert(marks[0] == '=');
    assert forall|i: int| 0 <= i < name.len() implies !marks.contains(#[trigger] line[i]) by {
        assert(line[i] == name[i]);
    }
    assert(line[name.len() as int] == '=');
    text::lemma_first_of(line, marks, name.len() as int);
    assert(line.take(name.len() as int) == name);
    assert(line.skip(name.len() as int + 1) == value);
}

/// Setting the lines of `options` where nothing is set yet sets `options`.
proof fn lemma_bodies_set(options: Seq<(u8, Seq<u8>)>)
    requires
        listed(options),
    ensures
        set_by_lines(seq![], bodies(options)) == Ok::<Seq<(u8, Seq<u8>)>, ErrorView>(options),
    decreases options.len(),
{
    if options.len() == 0 {
        assert(options == Seq::<(u8, Seq<u8>)>::empty());
    } else {
        let front = options.drop_last();
        let last = options[options.len() - 1];
        assert(fits_line(last));
        assert(listed(front)) by {
            assert forall|i: int, j: int| 0 <= i < j < front.len() implies (#[trigger] front[i]).0
                != (#[trigger] front[j]).0 by {
                assert(front[i] == options[i] && front[j] == options[j]);
            }
            assert forall|i: int| 0 <= i < front.len() implies fits_line(#[trigger] front[i]) by {
                assert(front[i] == options[i]);
            }
        }
        lemma_bodies_set(front);
        assert(bodies(options) == bodies(front).push(body(last)));
        lemma_set_by_lines_push(seq![], bodies(front), body(last));
        lemma_body_sets(front, last);
        assert forall|i: int| 0 <= i < front.len() implies (#[trigger] front[i]).0 != last.0 by {
            assert(front[i] == options[i]);
        }
        message::lemma_without_absent(front, last.0);
        assert(front.push(last) == options);
    }
}

/// What is written is read back: setting the lines of a message's options on
/// the same message without options gives the message, where no two options
/// have one code and each is held whole by its line.
pub proof fn law_lines_read_back(m: MessageView)
    requires
        listed(m.options),
    ensures
        (MessageView { options: seq![], ..m }).with_lines(m.option_lines()) == Ok::<
            MessageView,
            ErrorView,
        >(m),
{
    let whole = lines_text(m.options);
    vstd::utf8::encode_utf8_valid_utf8(whole);
    vstd::utf8::encode_utf8_decode_utf8(whole);
    lemma_lines_of_listed(m.options);
    lemma_bodies_set(m.options);
}

/// Lines set no code twice: where no two options of a message have one code, no
/// two have one after its lines are set.
pub proof fn law_lines_keep_distinct(m: MessageView, bytes: Seq<u8>)
    requires
        message::distinct(m.options),
        m.with_lines(bytes) is Ok,
    ensures
        message::distinct(m.with_lines(bytes)->Ok_0.options),
{
    lemma_set_keeps_distinct(m, text::lines(vstd::utf8::decode_utf8(bytes)));
}

/// Setting lines in turn keeps the codes distinct.
proof fn lemma_set_keeps_distinct(m: MessageView, lines: Seq<Seq<char>>)
    requires
        message::distinct(m.options),
        set_by_lines(m.options, lines) is Ok,
    ensures
        message::distinct(set_by_lines(m.options, lines)->Ok_0),
    decreases lines.len(),
{
    if lines.len() > 0 {
        let line = lines[0];
        if text::trimmed(line).len() == 0 {
            lemma_set_keeps_distinct(m, lines.skip(1));
        } else {
            let (name, value) = text::cut_at(line, '=')->0;
            let code = option::code_of(text::trimmed(name))->0;
            let bytes = option::parsed(code, text::trimmed(value))->Ok_0;
            message::law_with_sets(m, code, bytes, code);
            lemma_set_keeps_distinct(m.with(code, bytes), lines.skip(1));
        }
    }
}

// ---------------------------------------------------------------------------
// Lines in turn
// ---------------------------------------------------------------------------

/// Lines are set after those before them.
pub proof fn lemma_set_by_lines_concat(
    options: Seq<(u8, Seq<u8>)>,
    first: Seq<Seq<char>>,
    second: Seq<Seq<char>>,
)
    ensures
        set_by_lines(options, first + second) == (match set_by_lines(options, first) {
            Ok(more) => set_by_lines(more, second),
            Err(error) => Err(error),
        }),
    decreases first.len(),
{
    let all = first + second;
    if first.len() == 0 {
        assert(all == second);
    } else {
        assert(all[0] == first[0]);
        assert(all.skip(1) == first.skip(1) + second);
        if let Ok(more) = set_by_line(options, first[0]) {
            lemma_set_by_lines_concat(more, first.skip(1), second);
        }
    }
}

/// A carriage return at the end of a line changes nothing that it sets.
proof fn lemma_chomped_sets(options: Seq<(u8, Seq<u8>)>, line: Seq<char>)
    ensures
        error::agree(set_by_line(options, line), set_by_line(options, text::chomped(line))),
{
    let short = text::chomped(line);
    if short != line {
        let marks = seq!['='];
        assert(line == short.push('\r'));
        text::lemma_trimmed_push(short, '\r');
        text::lemma_first_of_found(short, marks);
        let at = text::first_of(short, marks);
        assert forall|i: int| 0 <= i < at implies !marks.contains(#[trigger] line[i]) by {
            assert(line[i] == short[i]);
        }
        if at < short.len() {
            assert(line[at] == short[at]);
            text::lemma_first_of(line, marks, at);
            assert(line.take(at) == short.take(at));
            assert(line.skip(at + 1) == short.skip(at + 1).push('\r'));
            text::lemma_trimmed_push(short.skip(at + 1), '\r');
        } else {
            assert forall|i: int| 0 <= i < line.len() implies !marks.contains(
                #[trigger] line[i],
            ) by {
                if i < short.len() {
                    assert(line[i] == short[i]);
                }
            }
            text::lemma_first_of(line, marks, line.len() as int);
        }
    }
}

/// A line feed after a text changes nothing that its lines set.
proof fn lemma_feed_sets(options: Seq<(u8, Seq<u8>)>, s: Seq<char>)
    ensures
        error::agree(
            set_by_lines(options, text::lines(s)),
            set_by_lines(options, text::lines(s + seq!['\n'])),
        ),
    decreases s.len(),
{
    let marks = seq!['\n'];
    let whole = s + marks;
    let none = Seq::<char>::empty();
    assert(marks[0] == '\n');
    text::lemma_first_of_found(s, marks);
    let at = text::first_of(s, marks);
    assert forall|i: int| 0 <= i < at implies !marks.contains(#[trigger] whole[i]) by {
        assert(whole[i] == s[i]);
    }
    if at < s.len() {
        assert(whole[at] == s[at]);
        text::lemma_first_of(whole, marks, at);
        let head = text::chomped(s.take(at));
        let tail = s.skip(at + 1);
        assert(whole.take(at) == s.take(at));
        assert(whole.skip(at + 1) == tail + marks);
        let a = text::lines(s);
        let b = text::lines(whole);
        assert(a == seq![head] + text::lines(tail));
        assert(b == seq![head] + text::lines(tail + marks));
        assert(a.skip(1) == text::lines(tail));
        assert(b.skip(1) == text::lines(tail + marks));
        if let Ok(more) = set_by_line(options, head) {
            lemma_feed_sets(more, tail);
        }
    } else {
        assert(whole[at] == '\n');
        text::lemma_first_of(whole, marks, at);
        assert(whole.take(at) == s);
        assert(whole.skip(at + 1) == none);
        assert(text::lines(none) == Seq::<Seq<char>>::empty());
        let last = text::chomped(s);
        assert(text::lines(whole) == seq![last]);
        lemma_set_single(options, last);
        if s.len() == 0 {
            assert(text::lines(s) == Seq::<Seq<char>>::empty());
            assert(text::trimmed(last).len() == 0);
        } else {
            assert(text::lines(s) == seq![s]);
            lemma_set_single(options, s);
            lemma_chomped_sets(options, s);
        }
    }
}

/// A single line.
pub proof fn lemma_set_single(options: Seq<(u8, Seq<u8>)>, line: Seq<char>)
    ensures
        set_by_lines(options, seq![line]) == set_by_line(options, line),
{
    let none = Seq::<Seq<char>>::empty();
    lemma_set_by_lines_push(options, none, line);
    assert(none.push(line) == seq![line]);
}

/// Setting two Streams with a line feed between them is setting the one and
/// after it the other: where either is refused the whole is, and otherwise the
/// same is set.
pub proof fn law_lines_in_turn(m: MessageView, a: Seq<u8>, b: Seq<u8>)
    ensures
        error::agree(
            m.with_lines(a + seq![10u8] + b),
            match m.with_lines(a) {
                Ok(first) => first.with_lines(b),
                Err(error) => Err(error),
            },
        ),
{
    let s = vstd::utf8::decode_utf8(a);
    let t = vstd::utf8::decode_utf8(b);
    utf8::lemma_feed_between(a, b);
    if vstd::utf8::valid_utf8(a) && vstd::utf8::valid_utf8(b) {
        let ended = s + seq!['\n'];
        text::lemma_lines_concat(ended, t);
        lemma_feed_sets(m.options, s);
        lemma_set_by_lines_concat(m.options, text::lines(ended), text::lines(t));
    }
}

/// A Stream of white space sets nothing.
pub proof fn law_blank_lines(m: MessageView, bytes: Seq<u8>)
    requires
        vstd::utf8::valid_utf8(bytes),
        text::blank(vstd::utf8::decode_utf8(bytes)),
    ensures
        m.with_lines(bytes) == Ok::<MessageView, ErrorView>(m),
{
    let s = vstd::utf8::decode_utf8(bytes);
    text::lemma_blank_lines(s);
    lemma_blank_sets(m.options, text::lines(s));
}

/// Blank lines set nothing.
proof fn lemma_blank_sets(options: Seq<(u8, Seq<u8>)>, lines: Seq<Seq<char>>)
    requires
        forall|i: int| 0 <= i < lines.len() ==> text::blank(#[trigger] lines[i]),
    ensures
        set_by_lines(options, lines) == Ok::<Seq<(u8, Seq<u8>)>, ErrorView>(options),
    decreases lines.len(),
{
    if lines.len() > 0 {
        assert(text::blank(lines[0]));
        text::lemma_blank_trimmed(lines[0]);
        assert forall|i: int| 0 <= i < lines.skip(1).len() implies text::blank(
            #[trigger] lines.skip(1)[i],
        ) by {
            assert(lines.skip(1)[i] == lines[i + 1]);
        }
        lemma_blank_sets(options, lines.skip(1));
    }
}

}
