//! The editor: setting a field in the blocks of a given name.

use crate::block::{Block, SingleConfig};
use crate::fields::put;
use crate::text::same_text;
use vstd::prelude::*;

verus! {

/// The key of the field that holds a host's address.
pub const HOST: &'static str = "Hostname";

/// `block` with `key` set to `value` if it is called `name`, and as it is
/// otherwise.
pub open spec fn update_block(
    block: Block,
    name: Seq<char>,
    key: Seq<char>,
    value: Seq<char>,
) -> Block {
    if block.name == name {
        Block { name: block.name, fields: put(block.fields, key, value) }
    } else {
        block
    }
}

/// `doc` with `key` set to `value` in every block called `name`.
pub open spec fn updated(doc: Seq<Block>, name: Seq<char>, key: Seq<char>, value: Seq<char>) -> Seq<
    Block,
> {
    Seq::new(doc.len(), |i: int| update_block(doc[i], name, key, value))
}

/// Sets the field `field_key` to `new_value` in every block called
/// `block_name`.
///
/// A block that has the field keeps it in its place; a block that lacks it
/// gets it as its last field. Blocks of another name stay as they are, and
/// so does the whole document where no block has the name.
pub fn update_field(
    doc: Vec<SingleConfig>,
    block_name: &str,
    field_key: &str,
    new_value: &str,
) -> (out: Vec<SingleConfig>)
    ensures
        out.deep_view() == updated(doc.deep_view(), block_name@, field_key@, new_value@),
{
    let ghost before = doc.deep_view();
    let ghost after = updated(before, block_name@, field_key@, new_value@);
    let mut out: Vec<SingleConfig> = Vec::new();
    for block in it: doc
        invariant
            it.seq() == doc@,
            before == doc.deep_view(),
            after == updated(before, block_name@, field_key@, new_value@),
            out.deep_view() == after.take(it.index() as int),
    {
        let ghost i = it.index() as int;
        assert(block@ == before[i]);
        let next = if same_text(block.name(), block_name) {
            block.with_field(field_key.to_owned(), new_value.to_owned())
        } else {
            block
        };
        assert(next@ == after[i]);
        let ghost sofar = out.deep_view();
        out.push(next);
        assert(out.deep_view() == sofar.push(next@));
        assert(after.take(i).push(after[i]) == after.take(i + 1));
    }
    assert(after.take(doc@.len() as int) == after);
    out
}

/// Sets the address of the host `config_name` to `ip`, in every block of
/// that name.
pub fn update_ip(doc: Vec<SingleConfig>, config_name: &str, ip: &str) -> (out: Vec<SingleConfig>)
    ensures
        out.deep_view() == updated(doc.deep_view(), config_name@, HOST@, ip@),
{
    update_field(doc, config_name, HOST, ip)
}

} // verus!
