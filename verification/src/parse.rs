//! The reader: from the text of a configuration file to its blocks.

use crate::block::{keyword, Block, SingleConfig};
use crate::canon::{canonical, lemma_parse_canonical};
use crate::fields::{put, Pair};
use crate::text::{
    chars_of, is_space, is_whitespace, leading, lemma_prefix_len, lemma_suffix_len, prefix_len,
    skip_spaces, split_lines, string_of, trim, trim_start, trimmed, CharClass,
};
use vstd::prelude::*;
use vstd::slice::slice_subrange;

verus! {

/// What a line of a configuration file says.
pub enum LineView {
    /// Nothing but white space: the line ends a block.
    Blank,
    /// A remark, from `#` on.
    Comment,
    /// The start of the block with this name.
    Header(Seq<char>),
    /// A key and its value.
    Field(Seq<char>, Seq<char>),
    /// Text in which no key can be told from a value.
    Ignored,
}

/// A line of a configuration file, read.
#[derive(Debug, PartialEq, Eq)]
pub enum Line {
    /// Nothing but white space: the line ends a block.
    Blank,
    /// A remark, from `#` on.
    Comment,
    /// The start of the block with this name.
    Header(String),
    /// A key and its value.
    Field(String, String),
    /// Text in which no key can be told from a value.
    Ignored,
}

impl View for Line {
    type V = LineView;

    open spec fn view(&self) -> LineView {
        match self {
            Line::Blank => LineView::Blank,
            Line::Comment => LineView::Comment,
            Line::Header(name) => LineView::Header(name@),
            Line::Field(key, value) => LineView::Field(key@, value@),
            Line::Ignored => LineView::Ignored,
        }
    }
}

/// Whether a line without white space at its ends opens a block: it starts
/// with the keyword, and white space follows.
pub open spec fn is_header(line: Seq<char>) -> bool {
    line.len() > 4 && line.take(4) == keyword() && is_space(line[4])
}

/// The first word of `s`: what stands between its leading white space and
/// the next white space.
pub open spec fn first_word(s: Seq<char>) -> Seq<char> {
    let rest = trim_start(s);
    rest.take(prefix_len(rest, CharClass::Solid) as int)
}

/// What the line `raw` says.
///
/// White space at the ends of the line does not count. A line that starts
/// with `#` is a comment. A header names its block by the first word after
/// the keyword. Any other line is split at its first run of white space
/// or, where it has none, at its first `=`, into a key and a value; where
/// that leaves no key or no value, the line is ignored.
pub open spec fn classify(raw: Seq<char>) -> LineView {
    let line = trim(raw);
    let word = prefix_len(line, CharClass::Solid) as int;
    let sign = prefix_len(line, CharClass::Except('=')) as int;
    if line.len() == 0 {
        LineView::Blank
    } else if line[0] == '#' {
        LineView::Comment
    } else if is_header(line) {
        LineView::Header(first_word(line.skip(4)))
    } else if word < line.len() {
        LineView::Field(line.take(word), trim_start(line.skip(word)))
    } else if 0 < sign && sign + 1 < line.len() {
        LineView::Field(line.take(sign), line.skip(sign + 1))
    } else {
        LineView::Ignored
    }
}

/// Where the reader stands between two lines: the blocks that are closed,
/// and the name and the fields of the block that is open.
pub struct ParseState {
    pub done: Seq<Block>,
    pub name: Seq<char>,
    pub fields: Seq<Pair>,
}

/// The name of a block that no header opened.
pub open spec fn default_name() -> Seq<char> {
    seq!['d', 'e', 'f', 'a', 'u', 'l', 't']
}

/// The state before the first line.
pub open spec fn start() -> ParseState {
    ParseState { done: Seq::empty(), name: default_name(), fields: Seq::empty() }
}

/// The blocks once the open block is closed: it counts if it has a field.
pub open spec fn flush(state: ParseState) -> Seq<Block> {
    if state.fields.len() > 0 {
        state.done.push(Block { name: state.name, fields: state.fields })
    } else {
        state.done
    }
}

/// The state after one more line.
pub open spec fn step(state: ParseState, line: LineView) -> ParseState {
    match line {
        LineView::Blank => ParseState {
            done: flush(state),
            name: default_name(),
            fields: Seq::empty(),
        },
        LineView::Header(name) => ParseState { done: flush(state), name, fields: Seq::empty() },
        LineView::Field(key, value) => ParseState {
            fields: put(state.fields, key, value),
            ..state
        },
        LineView::Comment | LineView::Ignored => state,
    }
}

/// The state after the lines `lines`, read in their order from `state`.
pub open spec fn run(state: ParseState, lines: Seq<Seq<char>>) -> ParseState
    decreases lines.len(),
{
    if lines.len() == 0 {
        state
    } else {
        run(step(state, classify(lines[0])), lines.drop_first())
    }
}

/// The blocks that the text of a configuration file holds.
pub open spec fn parse_text(text: Seq<char>) -> Seq<Block> {
    flush(run(start(), split_lines(text)))
}

/// Reading two lists of lines, one after the other, is reading the second
/// from where the first leaves the reader.
pub proof fn lemma_run_concat(state: ParseState, first: Seq<Seq<char>>, second: Seq<Seq<char>>)
    ensures
        run(state, first + second) == run(run(state, first), second),
    decreases first.len(),
{
    if first.len() == 0 {
        assert(first + second == second);
    } else {
        let all = first + second;
        assert(all[0] == first[0]);
        assert(all.drop_first() == first.drop_first() + second);
        lemma_run_concat(step(state, classify(first[0])), first.drop_first(), second);
    }
}

/// Reading one line is taking one step.
pub proof fn lemma_run_one(state: ParseState, line: Seq<char>)
    ensures
        run(state, seq![line]) == step(state, classify(line)),
{
    let lines = seq![line];
    assert(lines.drop_first() == Seq::<Seq<char>>::empty());
    assert(run(step(state, classify(line)), Seq::<Seq<char>>::empty()) == step(
        state,
        classify(line),
    ));
}

/// A text without white space at its ends neither starts nor ends with
/// white space.
pub proof fn lemma_trim(s: Seq<char>)
    ensures
        trim(s).len() > 0 ==> !is_space(trim(s)[0]) && !is_space(trim(s).last()),
{
    let head = trim_start(s);
    lemma_prefix_len(s, CharClass::Space);
    lemma_suffix_len(head, CharClass::Space);
}

/// The first word of a text that does not end with white space is not
/// empty, and holds no white space.
pub proof fn lemma_first_word(s: Seq<char>)
    requires
        s.len() > 0,
        !is_space(s.last()),
    ensures
        first_word(s).len() > 0,
        forall|i: int| 0 <= i < first_word(s).len() ==> !is_space(#[trigger] first_word(s)[i]),
{
    lemma_prefix_len(s, CharClass::Space);
    let rest = trim_start(s);
    if rest.len() == 0 {
        assert(s.take(s.len() as int)[s.len() - 1] == s.last());
    }
    lemma_prefix_len(rest, CharClass::Solid);
    let word = first_word(s);
    assert forall|i: int| 0 <= i < word.len() implies !is_space(#[trigger] word[i]) by {
        assert(CharClass::Solid.has(word[i]));
    }
}

/// The name in a header is not empty.
pub proof fn lemma_header_name(raw: Seq<char>)
    ensures
        classify(raw) matches LineView::Header(name) ==> name.len() > 0,
{
    let line = trim(raw);
    lemma_trim(raw);
    if line.len() > 0 && is_header(line) {
        assert(line.skip(4).last() == line.last());
        lemma_first_word(line.skip(4));
    }
}

/// Reads one line.
pub fn read_line(raw: &[char]) -> (line: Line)
    ensures
        line@ == classify(raw@),
{
    let line = trimmed(raw);
    if line.len() == 0 {
        return Line::Blank;
    }
    if line[0] == '#' {
        return Line::Comment;
    }
    if line.len() > 4 && line[0] == 'H' && line[1] == 'o' && line[2] == 's' && line[3] == 't'
        && is_whitespace(line[4]) {
        assert(line@.take(4) == keyword());
        let rest = skip_spaces(slice_subrange(line, 4, line.len()));
        let word = leading(rest, CharClass::Solid);
        return Line::Header(string_of(slice_subrange(rest, 0, word)));
    }
    assert(!is_header(line@)) by {
        if line@.len() > 4 && line@.take(4) == keyword() {
            assert(line@.take(4)[0] == 'H' && line@.take(4)[1] == 'o' && line@.take(4)[2] == 's'
                && line@.take(4)[3] == 't');
        }
    }
    let word = leading(line, CharClass::Solid);
    if word < line.len() {
        let key = string_of(slice_subrange(line, 0, word));
        let value = string_of(skip_spaces(slice_subrange(line, word, line.len())));
        return Line::Field(key, value);
    }
    let sign = leading(line, CharClass::Except('='));
    if 0 < sign && sign < line.len() - 1 {
        let key = string_of(slice_subrange(line, 0, sign));
        let value = string_of(slice_subrange(line, sign + 1, line.len()));
        return Line::Field(key, value);
    }
    Line::Ignored
}

/// A block called `name` that has no field yet.
fn open_block(name: &str) -> (block: SingleConfig)
    requires
        name@.len() > 0,
    ensures
        block@ == (Block { name: name@, fields: Seq::empty() }),
{
    let none: Vec<(&str, &str)> = Vec::new();
    assert(none.deep_view() == Seq::<Pair>::empty());
    SingleConfig::new(name, &none)
}

/// Closes the block `current`: it joins `doc` if it has a field.
fn close_block(doc: &mut Vec<SingleConfig>, current: SingleConfig)
    ensures
        final(doc).deep_view() == flush(
            ParseState {
                done: old(doc).deep_view(),
                name: current@.name,
                fields: current@.fields,
            },
        ),
{
    if !current.is_empty() {
        let ghost before = doc.deep_view();
        doc.push(current);
        assert(doc.deep_view() == before.push(current@));
    }
}

/// Reads the text of a configuration file into its blocks.
///
/// The text is read line by line. A header opens a block and closes the
/// one before it; so does a blank line, after which fields gather in a
/// block called `default`, as they do before the first header. A block
/// counts once it has a field. Comments and lines that give no key and
/// value are passed over.
pub fn parse(text: &str) -> (doc: Vec<SingleConfig>)
    ensures
        doc.deep_view() == parse_text(text@),
        canonical(doc.deep_view()),
{
    let chars = chars_of(text);
    let mut doc: Vec<SingleConfig> = Vec::new();
    proof {
        reveal_strlit("default");
    }
    let mut current = open_block("default");
    let mut rest: &[char] = chars.as_slice();
    assert(doc.deep_view() == Seq::<Block>::empty());
    assert(current@.name == default_name());
    while rest.len() > 0
        invariant
            flush(
                run(
                    ParseState {
                        done: doc.deep_view(),
                        name: current@.name,
                        fields: current@.fields,
                    },
                    split_lines(rest@),
                ),
            ) == parse_text(text@),
        decreases rest.len(),
    {
        let ghost state = ParseState {
            done: doc.deep_view(),
            name: current@.name,
            fields: current@.fields,
        };
        let ghost lines = split_lines(rest@);
        let end = leading(rest, CharClass::Except('\n'));
        let raw = slice_subrange(rest, 0, end);
        assert(lines[0] == raw@);
        let line = read_line(raw);
        proof {
            lemma_header_name(raw@);
            reveal_strlit("default");
        }
        match line {
            Line::Blank => {
                close_block(&mut doc, current);
                current = open_block("default");
                assert(current@.name == default_name());
            },
            Line::Header(name) => {
                close_block(&mut doc, current);
                current = open_block(name.as_str());
            },
            Line::Field(key, value) => {
                current = current.with_field(key, value);
            },
            Line::Comment => {},
            Line::Ignored => {},
        }
        assert(ParseState {
            done: doc.deep_view(),
            name: current@.name,
            fields: current@.fields,
        } == step(state, classify(raw@)));
        if end < rest.len() {
            assert(lines.drop_first() == split_lines(rest@.skip(end + 1)));
            rest = slice_subrange(rest, end + 1, rest.len());
        } else {
            assert(lines.drop_first() == Seq::<Seq<char>>::empty());
            rest = slice_subrange(rest, end, end);
            assert(split_lines(rest@) == Seq::<Seq<char>>::empty());
        }
    }
    close_block(&mut doc, current);
    proof {
        lemma_parse_canonical(text@);
    }
    doc
}

} // verus!
