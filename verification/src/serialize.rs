//! The writer: from blocks to the text of a configuration file.

use crate::block::{block_lines, Block, SingleConfig};
use crate::text::{lemma_unlines_concat, lemma_unlines_one, unlines};
use vstd::prelude::*;
use vstd::string::StringExecFns;

verus! {

/// The lines of a configuration file: the lines of its blocks, with one
/// empty line between two blocks.
pub open spec fn doc_lines(doc: Seq<Block>) -> Seq<Seq<char>>
    decreases doc.len(),
{
    if doc.len() == 0 {
        Seq::empty()
    } else if doc.len() == 1 {
        block_lines(doc[0])
    } else {
        doc_lines(doc.drop_last()) + seq![Seq::empty()] + block_lines(doc.last())
    }
}

/// The text of a configuration file: each of its lines, ended by a line
/// feed.
pub open spec fn render(doc: Seq<Block>) -> Seq<char> {
    unlines(doc_lines(doc))
}

/// The text of a file with one more block: the text before it, an empty
/// line if there was a block already, and the text of the block.
pub proof fn lemma_render_push(doc: Seq<Block>, block: Block)
    ensures
        render(doc.push(block)) == render(doc) + (if doc.len() > 0 {
            seq!['\n']
        } else {
            Seq::empty()
        }) + unlines(block_lines(block)),
{
    let all = doc.push(block);
    assert(all.drop_last() == doc);
    if doc.len() > 0 {
        let gap: Seq<Seq<char>> = seq![Seq::empty()];
        lemma_unlines_concat(doc_lines(doc) + gap, block_lines(block));
        lemma_unlines_concat(doc_lines(doc), gap);
        lemma_unlines_one(Seq::empty());
        assert(Seq::<char>::empty() + seq!['\n'] == seq!['\n']);
    } else {
        assert(unlines(Seq::<Seq<char>>::empty()) == Seq::<char>::empty());
        assert(render(all) == Seq::<char>::empty() + Seq::<char>::empty() + unlines(
            block_lines(block),
        ));
    }
}

/// Writes the blocks of a configuration file as text.
///
/// Each block is written as its header and its fields, in their order,
/// and two blocks are parted by one empty line. A block without fields is
/// written as its header alone.
pub fn serialize(doc: &Vec<SingleConfig>) -> (out: String)
    ensures
        out@ == render(doc.deep_view()),
{
    let ghost blocks = doc.deep_view();
    let mut out = String::new();
    let mut i: usize = 0;
    assert(unlines(Seq::<Seq<char>>::empty()) == Seq::<char>::empty());
    while i < doc.len()
        invariant
            i <= doc.len(),
            blocks == doc.deep_view(),
            out@ == render(blocks.take(i as int)),
        decreases doc.len() - i,
    {
        proof {
            reveal_strlit("\n");
            lemma_render_push(blocks.take(i as int), blocks[i as int]);
            assert(blocks.take(i as int).push(blocks[i as int]) == blocks.take(i + 1));
        }
        if i > 0 {
            out.append("\n");
        }
        let block = doc[i].to_string();
        out.append(block.as_str());
        i += 1;
    }
    assert(blocks.take(i as int) == blocks);
    out
}

} // verus!
