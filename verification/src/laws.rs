//! What holds of reading, writing and editing taken together.

use crate::block::{block_lines, field_line, header_line, keyword, Block};
use crate::canon::{
    canonical, canonical_block, canonical_pair, canonical_pairs, is_word, lemma_parse_canonical,
    lemma_put_canonical,
};
use crate::fields::{
    distinct_keys, from_pairs, lemma_position, lemma_put_distinct, lemma_put_lookup, lookup,
    position, put, Pair,
};
use crate::parse::{
    classify, first_word, flush, is_header, lemma_run_concat, lemma_run_one, parse_text, run,
    start, step, LineView, ParseState,
};
use crate::serialize::{doc_lines, render};
use crate::text::{
    all_in, is_space, lemma_prefix_len, lemma_prefix_len_is, lemma_split_lines_concat,
    lemma_split_lines_one, lemma_split_unlines, lemma_suffix_len, lemma_suffix_len_is,
    split_lines, trim, trim_start, CharClass,
};
use crate::update::updated;
use vstd::prelude::*;

verus! {

/// Whether no field of `pairs` has the keyword for its key.
pub open spec fn plain_keys(pairs: Seq<Pair>) -> bool {
    forall|i: int| 0 <= i < pairs.len() ==> (#[trigger] pairs[i]).0 != keyword()
}

/// Whether no field of any block of `doc` has the keyword for its key.
pub open spec fn plain(doc: Seq<Block>) -> bool {
    forall|i: int| 0 <= i < doc.len() ==> plain_keys((#[trigger] doc[i]).fields)
}

/// A text that neither starts nor ends with white space has none to lose
/// at its ends.
proof fn lemma_trim_tight(s: Seq<char>)
    requires
        s.len() > 0,
        !is_space(s[0]),
        !is_space(s.last()),
    ensures
        trim(s) == s,
{
    lemma_prefix_len_is(s, CharClass::Space, 0);
    assert(s.skip(0) == s);
    lemma_suffix_len_is(s, CharClass::Space, 0);
    assert(s.take(s.len() as int) == s);
}

/// A word after one blank is the first word, and all that follows the
/// blank.
proof fn lemma_after_blank(word: Seq<char>)
    requires
        word.len() > 0,
        !is_space(word[0]),
    ensures
        trim_start(seq![' '] + word) == word,
{
    let s = seq![' '] + word;
    assert(s[1] == word[0]);
    lemma_prefix_len_is(s, CharClass::Space, 1);
    assert(s.skip(1) == word);
}

/// The header written for a name that is a word is read as the header of
/// that name.
pub proof fn lemma_classify_header(name: Seq<char>)
    requires
        is_word(name),
    ensures
        classify(header_line(name)) == LineView::Header(name),
{
    let line = header_line(name);
    assert(line[0] == 'H');
    assert(CharClass::Solid.has(name[name.len() - 1]));
    assert(line.last() == name.last());
    lemma_trim_tight(line);
    assert(line.take(4) == keyword());
    assert(line[4] == ' ');
    assert(line.skip(4) == seq![' '] + name);
    assert(CharClass::Solid.has(name[0]));
    lemma_after_blank(name);
    lemma_prefix_len_is(name, CharClass::Solid, name.len() as int);
    assert(name.take(name.len() as int) == name);
    assert(first_word(line.skip(4)) == name);
}

/// The line written for a field that is as the reader gives it, under a
/// key other than the keyword, is read as that field.
pub proof fn lemma_classify_field(key: Seq<char>, value: Seq<char>)
    requires
        canonical_pair((key, value)),
        key != keyword(),
    ensures
        classify(field_line(key, value)) == LineView::Field(key, value),
{
    let written = field_line(key, value);
    let line = key + seq![' '] + value;
    let n = key.len() as int;
    assert(CharClass::Solid.has(key[0]));
    assert(trim(written) == line) by {
        assert(written[4] == key[0]);
        lemma_prefix_len_is(written, CharClass::Space, 4);
        assert(written.skip(4) == line);
        assert(line.last() == value.last());
        lemma_suffix_len_is(line, CharClass::Space, 0);
        assert(line.take(line.len() as int) == line);
    }
    assert(line[0] == key[0]);
    assert(!is_header(line)) by {
        if line.len() > 4 && line.take(4) == keyword() && is_space(line[4]) {
            if n > 4 {
                assert(line[4] == key[4]);
                assert(CharClass::Solid.has(key[4]));
            } else if n == 4 {
                assert(line.take(4) == key);
            } else {
                assert(line.take(4)[n] == ' ');
            }
        }
    }
    assert forall|i: int| 0 <= i < n implies CharClass::Solid.has(#[trigger] line[i]) by {
        assert(line[i] == key[i]);
        assert(CharClass::Solid.has(key[i]));
    }
    assert(line[n] == ' ');
    lemma_prefix_len_is(line, CharClass::Solid, n);
    assert(line.take(n) == key);
    assert(line.skip(n) == seq![' '] + value);
    lemma_after_blank(value);
}

/// An empty line is read as a blank line.
pub proof fn lemma_classify_empty()
    ensures
        classify(Seq::empty()) == LineView::Blank,
{
    let none = Seq::<char>::empty();
    assert(trim_start(none).len() == 0);
    assert(trim(none).len() == 0);
}

/// Reading the lines of a block that is as the reader gives it closes the
/// block that was open and leaves this one open, whole.
proof fn lemma_run_block(state: ParseState, block: Block, upto: int)
    requires
        is_word(block.name),
        distinct_keys(block.fields),
        canonical_pairs(block.fields),
        plain_keys(block.fields),
        0 <= upto <= block.fields.len(),
    ensures
        run(state, block_lines(block).take(upto + 1)) == (ParseState {
            done: flush(state),
            name: block.name,
            fields: block.fields.take(upto),
        }),
    decreases upto,
{
    let lines = block_lines(block);
    if upto == 0 {
        assert(lines.take(1) == seq![header_line(block.name)]);
        lemma_run_one(state, header_line(block.name));
        lemma_classify_header(block.name);
        assert(block.fields.take(0) == Seq::<Pair>::empty());
    } else {
        lemma_run_block(state, block, upto - 1);
        let (key, value) = block.fields[upto - 1];
        let sofar = block.fields.take(upto - 1);
        assert(lines.take(upto + 1) == lines.take(upto) + seq![field_line(key, value)]);
        lemma_run_concat(state, lines.take(upto), seq![field_line(key, value)]);
        lemma_run_one(run(state, lines.take(upto)), field_line(key, value));
        lemma_classify_field(key, value);
        lemma_position(sofar, key);
        if position(sofar, key) < sofar.len() {
            let at = position(sofar, key) as int;
            assert(sofar[at] == block.fields[at]);
        }
        assert(put(sofar, key, value) == block.fields.take(upto));
    }
}

/// Reading the lines of a document that is as the reader gives it leaves
/// its last block open and the blocks before it closed.
proof fn lemma_run_doc(doc: Seq<Block>)
    requires
        canonical(doc),
        plain(doc),
        doc.len() > 0,
    ensures
        run(start(), doc_lines(doc)) == (ParseState {
            done: doc.drop_last(),
            name: doc.last().name,
            fields: doc.last().fields,
        }),
    decreases doc.len(),
{
    let last = doc.last();
    let count = last.fields.len() as int;
    assert(block_lines(last).take(count + 1) == block_lines(last));
    assert(last.fields.take(count) == last.fields);
    if doc.len() == 1 {
        lemma_run_block(start(), last, count);
        assert(doc.drop_last() == Seq::<Block>::empty());
    } else {
        let front = doc.drop_last();
        assert forall|i: int| 0 <= i < front.len() implies canonical_block(#[trigger] front[i])
            && plain_keys(front[i].fields) by {
            assert(front[i] == doc[i]);
        }
        lemma_run_doc(front);
        let gap: Seq<Seq<char>> = seq![Seq::empty()];
        let open = run(start(), doc_lines(front));
        lemma_run_concat(start(), doc_lines(front) + gap, block_lines(last));
        lemma_run_concat(start(), doc_lines(front), gap);
        lemma_run_one(open, Seq::empty());
        lemma_classify_empty();
        let closed = step(open, LineView::Blank);
        assert(front.drop_last().push(front.last()) == front);
        assert(closed.done == front);
        lemma_run_block(closed, last, count);
    }
}

/// No line written for a document that is as the reader gives it holds a
/// line feed.
proof fn lemma_doc_lines_no_feed(doc: Seq<Block>)
    requires
        canonical(doc),
    ensures
        forall|i: int|
            0 <= i < doc_lines(doc).len() ==> all_in(
                #[trigger] doc_lines(doc)[i],
                CharClass::Except('\n'),
            ),
    decreases doc.len(),
{
    let feed = CharClass::Except('\n');
    if doc.len() > 0 {
        let last = doc.last();
        let lines = block_lines(last);
        assert(canonical_block(last));
        assert forall|i: int| 0 <= i < lines.len() implies all_in(#[trigger] lines[i], feed) by {
            if i == 0 {
                assert forall|j: int| 0 <= j < lines[0].len() implies feed.has(
                    #[trigger] lines[0][j],
                ) by {
                    if j >= 5 {
                        assert(lines[0][j] == last.name[j - 5]);
                        assert(CharClass::Solid.has(last.name[j - 5]));
                    }
                }
            } else {
                let (key, value) = last.fields[i - 1];
                assert(canonical_pair(last.fields[i - 1]));
                assert forall|j: int| 0 <= j < lines[i].len() implies feed.has(
                    #[trigger] lines[i][j],
                ) by {
                    if 4 <= j < 4 + key.len() {
                        assert(lines[i][j] == key[j - 4]);
                        assert(CharClass::Solid.has(key[j - 4]));
                    } else if j > 4 + key.len() {
                        assert(lines[i][j] == value[j - 5 - key.len()]);
                        assert(feed.has(value[j - 5 - key.len()]));
                    }
                }
            }
        }
        if doc.len() > 1 {
            let front = doc.drop_last();
            assert forall|i: int| 0 <= i < front.len() implies canonical_block(
                #[trigger] front[i],
            ) by {
                assert(front[i] == doc[i]);
            }
            lemma_doc_lines_no_feed(front);
            let head = doc_lines(front);
            assert forall|i: int| 0 <= i < doc_lines(doc).len() implies all_in(
                #[trigger] doc_lines(doc)[i],
                feed,
            ) by {
                if i < head.len() {
                    assert(doc_lines(doc)[i] == head[i]);
                } else if i == head.len() {
                    assert(doc_lines(doc)[i] == Seq::<char>::empty());
                } else {
                    assert(doc_lines(doc)[i] == lines[i - head.len() - 1]);
                }
            }
        }
    }
}

/// Reading undoes writing. A document that is as the reader gives it, and
/// in which no field has the keyword for its key, is read back from its
/// text as it was: the same blocks in the same order, each with the same
/// fields in the same order.
pub proof fn lemma_parse_render(doc: Seq<Block>)
    requires
        canonical(doc),
        plain(doc),
    ensures
        parse_text(render(doc)) == doc,
{
    lemma_doc_lines_no_feed(doc);
    lemma_split_unlines(doc_lines(doc));
    if doc.len() > 0 {
        lemma_run_doc(doc);
        assert(canonical_block(doc.last()));
        assert(doc.drop_last().push(doc.last()) == doc);
    } else {
        assert(run(start(), Seq::<Seq<char>>::empty()) == start());
    }
}

/// Writing is stable. The text written for what was read from any text, if
/// no field there has the keyword for its key, is written again, letter
/// for letter, for what is read from it.
pub proof fn lemma_render_stable(text: Seq<char>)
    requires
        plain(parse_text(text)),
    ensures
        render(parse_text(render(parse_text(text)))) == render(parse_text(text)),
{
    lemma_parse_canonical(text);
    lemma_parse_render(parse_text(text));
}

/// A block made of fields whose keys differ has those fields, in their
/// order: setting them one after the other loses none and moves none.
pub proof fn lemma_from_pairs_of_distinct(list: Seq<Pair>)
    requires
        distinct_keys(list),
    ensures
        from_pairs(list) == list,
    decreases list.len(),
{
    if list.len() > 0 {
        let front = list.drop_last();
        lemma_from_pairs_of_distinct(front);
        lemma_position(front, list.last().0);
        if position(front, list.last().0) < front.len() {
            let at = position(front, list.last().0) as int;
            assert(front[at] == list[at]);
            assert(list[at].0 != list[list.len() - 1].0);
        }
        assert(front.push(list.last()) =~= list);
    }
}

/// An update reaches the blocks of the given name and no other. The
/// blocks keep their number, order and names; a block of another name is
/// untouched; in a block of the given name the key has the new value, and
/// every other key the value it had.
pub proof fn lemma_update_targets(
    doc: Seq<Block>,
    name: Seq<char>,
    key: Seq<char>,
    value: Seq<char>,
)
    ensures
        updated(doc, name, key, value).len() == doc.len(),
        forall|i: int|
            0 <= i < doc.len() ==> (#[trigger] updated(doc, name, key, value)[i]).name
                == doc[i].name,
        forall|i: int|
            0 <= i < doc.len() && doc[i].name != name ==> #[trigger] updated(
                doc,
                name,
                key,
                value,
            )[i] == doc[i],
        forall|i: int|
            0 <= i < doc.len() && doc[i].name == name ==> lookup(
                (#[trigger] updated(doc, name, key, value)[i]).fields,
                key,
            ) == Some(value),
        forall|i: int, other: Seq<char>|
            0 <= i < doc.len() && other != key ==> #[trigger] lookup(
                updated(doc, name, key, value)[i].fields,
                other,
            ) == lookup(doc[i].fields, other),
{
    let after = updated(doc, name, key, value);
    assert forall|i: int| 0 <= i < doc.len() && doc[i].name == name implies lookup(
        (#[trigger] after[i]).fields,
        key,
    ) == Some(value) by {
        lemma_put_lookup(doc[i].fields, key, value);
    }
    assert forall|i: int, other: Seq<char>| 0 <= i < doc.len() && other != key implies #[trigger] lookup(
        after[i].fields,
        other,
    ) == lookup(doc[i].fields, other) by {
        lemma_put_lookup(doc[i].fields, key, value);
    }
}

/// An update for a name that no block has changes nothing: the document
/// is the same, and so is its text.
pub proof fn lemma_update_absent(doc: Seq<Block>, name: Seq<char>, key: Seq<char>, value: Seq<char>)
    requires
        forall|i: int| 0 <= i < doc.len() ==> (#[trigger] doc[i]).name != name,
    ensures
        updated(doc, name, key, value) == doc,
        render(updated(doc, name, key, value)) == render(doc),
{
    assert(updated(doc, name, key, value) =~= doc);
}

/// An update with a field that is as the reader gives it keeps a document
/// as the reader gives it; with a key other than the keyword, it also
/// keeps it free of the keyword among its keys.
pub proof fn lemma_update_canonical(
    doc: Seq<Block>,
    name: Seq<char>,
    key: Seq<char>,
    value: Seq<char>,
)
    requires
        canonical(doc),
        canonical_pair((key, value)),
    ensures
        canonical(updated(doc, name, key, value)),
        plain(doc) && key != keyword() ==> plain(updated(doc, name, key, value)),
{
    let after = updated(doc, name, key, value);
    assert forall|i: int| 0 <= i < after.len() implies canonical_block(#[trigger] after[i]) by {
        assert(canonical_block(doc[i]));
        lemma_put_distinct(doc[i].fields, key, value);
        lemma_put_canonical(doc[i].fields, key, value);
        lemma_put_lookup(doc[i].fields, key, value);
    }
    if plain(doc) && key != keyword() {
        assert forall|i: int| 0 <= i < after.len() implies plain_keys(
            (#[trigger] after[i]).fields,
        ) by {
            assert(plain_keys(doc[i].fields));
            let was = doc[i].fields;
            let now = after[i].fields;
            assert forall|j: int| 0 <= j < now.len() implies (#[trigger] now[j]).0 != keyword() by {
                if doc[i].name == name {
                    if j < was.len() && j != position(was, key) {
                        assert(now[j] == was[j]);
                    }
                }
            }
        }
    }
}

/// An edited document survives being written and read. After an update
/// with a field that is as the reader gives it, under a key other than the
/// keyword, of a document that is as the reader gives it and free of the
/// keyword among its keys, the text written is read back as the updated
/// document.
pub proof fn lemma_update_round_trip(
    doc: Seq<Block>,
    name: Seq<char>,
    key: Seq<char>,
    value: Seq<char>,
)
    requires
        canonical(doc),
        plain(doc),
        canonical_pair((key, value)),
        key != keyword(),
    ensures
        parse_text(render(updated(doc, name, key, value))) == updated(doc, name, key, value),
{
    lemma_update_canonical(doc, name, key, value);
    lemma_parse_render(updated(doc, name, key, value));
}

/// Whether a line is a comment: its first character that is not white
/// space is `#`.
pub open spec fn is_comment(line: Seq<char>) -> bool {
    trim(line).len() > 0 && trim(line)[0] == '#'
}

/// Whether a line has text but nothing to part a key from a value: no
/// white space inside it and no `=`.
pub open spec fn lacks_separator(line: Seq<char>) -> bool {
    &&& trim(line).len() > 0
    &&& all_in(trim(line), CharClass::Solid)
    &&& all_in(trim(line), CharClass::Except('='))
}

/// A comment is read as a comment, and a line that has nothing to part a
/// key from a value is passed over, as a comment if it starts with `#`.
pub proof fn lemma_classify_passed_over(line: Seq<char>)
    ensures
        is_comment(line) ==> classify(line) == LineView::Comment,
        lacks_separator(line) ==> classify(line) == if is_comment(line) {
            LineView::Comment
        } else {
            LineView::Ignored
        },
{
    let text = trim(line);
    if lacks_separator(line) && !is_comment(line) {
        if text.len() > 4 {
            assert(CharClass::Solid.has(text[4]));
        }
        lemma_prefix_len_is(text, CharClass::Solid, text.len() as int);
        lemma_prefix_len_is(text, CharClass::Except('='), text.len() as int);
    }
}

/// A line that the reader passes over can be taken out of a text. Where
/// such a line stands between the line feed that ends `before` (or at the
/// start of the text) and its own line feed, the blocks read are those
/// read without the line; so they are where it is the last line and has
/// no line feed after it.
proof fn lemma_line_ignored(before: Seq<char>, line: Seq<char>, after: Seq<char>)
    requires
        before.len() == 0 || before.last() == '\n',
        all_in(line, CharClass::Except('\n')),
        classify(line) == LineView::Comment || classify(line) == LineView::Ignored,
    ensures
        parse_text(before + line + seq!['\n'] + after) == parse_text(before + after),
        parse_text(before + line) == parse_text(before),
{
    let full = line + seq!['\n'];
    let head = split_lines(before);
    let tail = split_lines(after);
    let state = run(start(), head);
    lemma_split_lines_one(line);
    lemma_run_one(state, line);

    lemma_split_lines_concat(before, full + after);
    lemma_split_lines_concat(full, after);
    assert(before + line + seq!['\n'] + after == before + (full + after));
    lemma_run_concat(start(), head, seq![line] + tail);
    lemma_run_concat(state, seq![line], tail);
    lemma_split_lines_concat(before, after);
    lemma_run_concat(start(), head, tail);

    lemma_split_lines_concat(before, line);
    assert(split_lines(line) == seq![line]) by {
        assert(trim(line).len() > 0);
        lemma_prefix_len_is(line, CharClass::Except('\n'), line.len() as int);
        lemma_trim_len(line);
    }
    lemma_run_concat(start(), head, seq![line]);
}

/// A text without the white space at its ends is no longer than it was.
proof fn lemma_trim_len(s: Seq<char>)
    ensures
        trim(s).len() <= s.len(),
{
    lemma_prefix_len(s, CharClass::Space);
    lemma_suffix_len(trim_start(s), CharClass::Space);
}

/// Comments leave no trace. A comment line, wherever it stands in a text,
/// inside a block or between blocks, adds nothing to the blocks read from
/// the text, and so nothing to what is written for them.
pub proof fn lemma_comment_skipped(before: Seq<char>, line: Seq<char>, after: Seq<char>)
    requires
        before.len() == 0 || before.last() == '\n',
        all_in(line, CharClass::Except('\n')),
        is_comment(line),
    ensures
        parse_text(before + line + seq!['\n'] + after) == parse_text(before + after),
        parse_text(before + line) == parse_text(before),
{
    lemma_classify_passed_over(line);
    lemma_line_ignored(before, line, after);
}

/// Reading is tolerant. A line that has nothing to part a key from a
/// value, wherever it stands in a text, is dropped: the blocks read are
/// those read from the text without it, with all their fields.
pub proof fn lemma_junk_dropped(before: Seq<char>, line: Seq<char>, after: Seq<char>)
    requires
        before.len() == 0 || before.last() == '\n',
        all_in(line, CharClass::Except('\n')),
        lacks_separator(line),
    ensures
        parse_text(before + line + seq!['\n'] + after) == parse_text(before + after),
        parse_text(before + line) == parse_text(before),
{
    lemma_classify_passed_over(line);
    lemma_line_ignored(before, line, after);
}

} // verus!
