//! The shape of what the reader gives: words for names and keys, values
//! without white space round them, no block without a field.

use crate::block::Block;
use crate::fields::{distinct_keys, lemma_put_distinct, position, put, Pair};
use crate::parse::{
    classify, first_word, flush, is_header, lemma_first_word, lemma_trim, parse_text, run, start,
    step, LineView, ParseState,
};
use crate::text::{
    all_in, is_space, lemma_prefix_len, lemma_split_lines_no_feed, lemma_suffix_len, prefix_len,
    split_lines, trim, trim_start, CharClass,
};
use vstd::prelude::*;

verus! {

/// Whether `s` is a word: not empty, and free of white space.
pub open spec fn is_word(s: Seq<char>) -> bool {
    s.len() > 0 && all_in(s, CharClass::Solid)
}

/// Whether `s` can stand as a value: it is not empty, has no white space
/// at its ends, and stays on one line.
pub open spec fn is_value(s: Seq<char>) -> bool {
    &&& s.len() > 0
    &&& !is_space(s[0])
    &&& !is_space(s.last())
    &&& all_in(s, CharClass::Except('\n'))
}

/// Whether a key and a value are as the reader gives them: the key is a
/// word that does not start a comment, and the value can stand as one.
pub open spec fn canonical_pair(pair: Pair) -> bool {
    &&& is_word(pair.0)
    &&& pair.0[0] != '#'
    &&& is_value(pair.1)
}

/// Whether all of `pairs` are as the reader gives them.
pub open spec fn canonical_pairs(pairs: Seq<Pair>) -> bool {
    forall|i: int| 0 <= i < pairs.len() ==> canonical_pair(#[trigger] pairs[i])
}

/// Whether a block is as the reader gives it: its name is a word, it has a
/// field, no key twice, and each field is as the reader gives it.
pub open spec fn canonical_block(block: Block) -> bool {
    &&& is_word(block.name)
    &&& block.fields.len() > 0
    &&& distinct_keys(block.fields)
    &&& canonical_pairs(block.fields)
}

/// Whether every block of a document is as the reader gives it.
pub open spec fn canonical(doc: Seq<Block>) -> bool {
    forall|i: int| 0 <= i < doc.len() ==> canonical_block(#[trigger] doc[i])
}

/// A line without white space at its ends holds no line feed if the line
/// it was cut from holds none.
proof fn lemma_trim_no_feed(raw: Seq<char>)
    requires
        all_in(raw, CharClass::Except('\n')),
    ensures
        all_in(trim(raw), CharClass::Except('\n')),
{
    lemma_prefix_len(raw, CharClass::Space);
    let head = trim_start(raw);
    lemma_suffix_len(head, CharClass::Space);
    let from = prefix_len(raw, CharClass::Space) as int;
    assert forall|i: int| 0 <= i < trim(raw).len() implies CharClass::Except('\n').has(
        #[trigger] trim(raw)[i],
    ) by {
        assert(trim(raw)[i] == raw[from + i]);
    }
}

/// What a line without a line feed says is well shaped: the name in a
/// header is a word, and a field is as the reader gives it.
pub proof fn lemma_classify(raw: Seq<char>)
    requires
        all_in(raw, CharClass::Except('\n')),
    ensures
        match classify(raw) {
            LineView::Header(name) => is_word(name),
            LineView::Field(key, value) => canonical_pair((key, value)),
            _ => true,
        },
{
    let line = trim(raw);
    lemma_trim(raw);
    lemma_trim_no_feed(raw);
    let feed = CharClass::Except('\n');
    if line.len() > 0 && line[0] != '#' {
        if is_header(line) {
            assert(line.skip(4).last() == line.last());
            lemma_first_word(line.skip(4));
            let name = first_word(line.skip(4));
            assert forall|i: int| 0 <= i < name.len() implies CharClass::Solid.has(
                #[trigger] name[i],
            ) by {}
        } else {
            let word = prefix_len(line, CharClass::Solid) as int;
            let sign = prefix_len(line, CharClass::Except('=')) as int;
            lemma_prefix_len(line, CharClass::Solid);
            lemma_prefix_len(line, CharClass::Except('='));
            if word < line.len() {
                let key = line.take(word);
                let tail = line.skip(word);
                let value = trim_start(tail);
                assert(word > 0) by {
                    if word == 0 {
                        assert(!CharClass::Solid.has(line[0]));
                    }
                }
                assert(key[0] == line[0]);
                lemma_prefix_len(tail, CharClass::Space);
                let gap = prefix_len(tail, CharClass::Space) as int;
                assert(tail.last() == line.last());
                if gap == tail.len() {
                    assert(tail.take(gap)[gap - 1] == tail.last());
                    assert(CharClass::Space.has(tail.take(gap)[gap - 1]));
                }
                assert(value[0] == tail[gap]);
                assert(value.last() == line.last());
                assert forall|i: int| 0 <= i < value.len() implies feed.has(
                    #[trigger] value[i],
                ) by {
                    assert(value[i] == line[word + gap + i]);
                }
            } else if 0 < sign && sign + 1 < line.len() {
                let key = line.take(sign);
                let value = line.skip(sign + 1);
                assert(line.take(word) == line);
                assert forall|i: int| 0 <= i < key.len() implies CharClass::Solid.has(
                    #[trigger] key[i],
                ) by {
                    assert(key[i] == line[i]);
                }
                assert(key[0] == line[0]);
                assert(value[0] == line[sign + 1]);
                assert(value.last() == line.last());
                assert forall|i: int| 0 <= i < value.len() implies feed.has(
                    #[trigger] value[i],
                ) by {
                    assert(value[i] == line[sign + 1 + i]);
                }
            }
        }
    }
}

/// Whether a state of the reader is well shaped: the closed blocks are as
/// the reader gives them, and so is the open one but for the field that
/// it may still lack.
pub open spec fn tidy(state: ParseState) -> bool {
    &&& canonical(state.done)
    &&& is_word(state.name)
    &&& distinct_keys(state.fields)
    &&& canonical_pairs(state.fields)
}

/// Closing the open block of a well-shaped state gives blocks as the
/// reader gives them.
pub proof fn lemma_flush_canonical(state: ParseState)
    requires
        tidy(state),
    ensures
        canonical(flush(state)),
{
    let blocks = flush(state);
    assert forall|i: int| 0 <= i < blocks.len() implies canonical_block(#[trigger] blocks[i]) by {
        if i < state.done.len() {
            assert(blocks[i] == state.done[i]);
        }
    }
}

/// Setting a well-shaped field among well-shaped fields leaves them so.
pub proof fn lemma_put_canonical(pairs: Seq<Pair>, key: Seq<char>, value: Seq<char>)
    requires
        canonical_pairs(pairs),
        canonical_pair((key, value)),
    ensures
        canonical_pairs(put(pairs, key, value)),
{
    let after = put(pairs, key, value);
    let at = position(pairs, key) as int;
    assert forall|i: int| 0 <= i < after.len() implies canonical_pair(#[trigger] after[i]) by {
        if i != at && i < pairs.len() {
            assert(after[i] == pairs[i]);
        }
    }
}

/// A line without a line feed takes a well-shaped state to a well-shaped
/// state.
pub proof fn lemma_step_tidy(state: ParseState, raw: Seq<char>)
    requires
        tidy(state),
        all_in(raw, CharClass::Except('\n')),
    ensures
        tidy(step(state, classify(raw))),
{
    lemma_classify(raw);
    lemma_flush_canonical(state);
    match classify(raw) {
        LineView::Field(key, value) => {
            lemma_put_distinct(state.fields, key, value);
            lemma_put_canonical(state.fields, key, value);
        },
        _ => {},
    }
}

/// Lines without line feeds take a well-shaped state to a well-shaped
/// state.
pub proof fn lemma_run_tidy(state: ParseState, lines: Seq<Seq<char>>)
    requires
        tidy(state),
        forall|i: int| 0 <= i < lines.len() ==> all_in(#[trigger] lines[i], CharClass::Except('\n')),
    ensures
        tidy(run(state, lines)),
    decreases lines.len(),
{
    if lines.len() > 0 {
        lemma_step_tidy(state, lines[0]);
        let rest = lines.drop_first();
        assert forall|i: int| 0 <= i < rest.len() implies all_in(
            #[trigger] rest[i],
            CharClass::Except('\n'),
        ) by {
            assert(rest[i] == lines[i + 1]);
        }
        lemma_run_tidy(step(state, classify(lines[0])), rest);
    }
}

/// Whatever the text, the blocks read from it are as the reader gives
/// them: each has a word for its name, at least one field, no key twice,
/// words for keys, and values without white space at their ends.
pub proof fn lemma_parse_canonical(text: Seq<char>)
    ensures
        canonical(parse_text(text)),
{
    lemma_split_lines_no_feed(text);
    assert(is_word(start().name)) by {
        assert forall|i: int| 0 <= i < start().name.len() implies CharClass::Solid.has(
            #[trigger] start().name[i],
        ) by {}
    }
    lemma_run_tidy(start(), split_lines(text));
    lemma_flush_canonical(run(start(), split_lines(text)));
}

} // verus!
