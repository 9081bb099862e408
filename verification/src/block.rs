//! One named block of a configuration file, and the lines it is written as.

use crate::fields::{
    distinct_keys, entries, from_pairs, lemma_from_pairs_distinct, lemma_put_distinct, lookup,
    map_get, map_get_index, map_insert, map_len, map_new, put, Pair,
};
use crate::text::unlines;
use indexmap::IndexMap;
use vstd::prelude::*;
use vstd::string::StringExecFns;

verus! {

/// What a block is: its name and its fields, in their order.
pub struct Block {
    pub name: Seq<char>,
    pub fields: Seq<Pair>,
}

/// The word that opens a block.
pub open spec fn keyword() -> Seq<char> {
    seq!['H', 'o', 's', 't']
}

/// The white space that a field line starts with.
pub open spec fn indent() -> Seq<char> {
    seq![' ', ' ', ' ', ' ']
}

/// The line that opens the block `name`.
pub open spec fn header_line(name: Seq<char>) -> Seq<char> {
    keyword() + seq![' '] + name
}

/// The line that gives `key` the value `value`.
pub open spec fn field_line(key: Seq<char>, value: Seq<char>) -> Seq<char> {
    indent() + key + seq![' '] + value
}

/// The lines of a block: its header, then one line for each field.
pub open spec fn block_lines(block: Block) -> Seq<Seq<char>> {
    Seq::new(
        block.fields.len() + 1,
        |i: int|
            if i == 0 {
                header_line(block.name)
            } else {
                field_line(block.fields[i - 1].0, block.fields[i - 1].1)
            },
    )
}

/// Whether a block is well formed: it has a name, and no key twice.
pub open spec fn valid(block: Block) -> bool {
    &&& block.name.len() > 0
    &&& distinct_keys(block.fields)
}

/// `SingleConfig` is one block of a configuration file: a name, and fields
/// that keep the order in which they were first set.
#[derive(Debug)]
pub struct SingleConfig {
    name: String,
    fields: IndexMap<String, String>,
}

impl View for SingleConfig {
    type V = Block;

    closed spec fn view(&self) -> Block {
        Block { name: self.name@, fields: entries(self.fields) }
    }
}

impl DeepView for SingleConfig {
    type V = Block;

    open spec fn deep_view(&self) -> Block {
        self@
    }
}

impl SingleConfig {
    #[verifier::type_invariant]
    spec fn well_formed(self) -> bool {
        valid(self@)
    }

    /// A block called `name` in which the pairs of `fields` are set one
    /// after the other: a key that comes again keeps its first place and
    /// takes the later value.
    pub fn new(name: &str, fields: &Vec<(&str, &str)>) -> (block: Self)
        requires
            name@.len() > 0,
        ensures
            block@.name == name@,
            block@.fields == from_pairs(fields.deep_view()),
            valid(block@),
    {
        let mut map = map_new();
        let ghost list = fields.deep_view();
        let mut i: usize = 0;
        while i < fields.len()
            invariant
                i <= fields.len(),
                list == fields.deep_view(),
                entries(map) == from_pairs(list.take(i as int)),
            decreases fields.len() - i,
        {
            let (key, value) = fields[i];
            assert(list.take(i + 1).drop_last() == list.take(i as int));
            map_insert(&mut map, key.to_owned(), value.to_owned());
            i += 1;
        }
        proof {
            assert(list.take(i as int) == list);
            lemma_from_pairs_distinct(list);
        }
        SingleConfig { name: name.to_owned(), fields: map }
    }

    /// The block with `key` set to `value`: a key that the block has keeps
    /// its place, a new one becomes its last field.
    pub fn with_field(self, key: String, value: String) -> (block: Self)
        ensures
            block@.name == self@.name,
            block@.fields == put(self@.fields, key@, value@),
            valid(block@),
    {
        proof {
            use_type_invariant(&self);
            lemma_put_distinct(self@.fields, key@, value@);
        }
        let mut fields = self.fields;
        map_insert(&mut fields, key, value);
        SingleConfig { name: self.name, fields }
    }

    /// The block's name, which is never empty.
    pub fn name(&self) -> (name: &str)
        ensures
            name@ == self@.name,
            name@.len() > 0,
    {
        proof {
            use_type_invariant(self);
        }
        self.name.as_str()
    }

    /// The number of fields.
    pub fn len(&self) -> (n: usize)
        ensures
            n == self@.fields.len(),
    {
        map_len(&self.fields)
    }

    /// Whether the block has no field.
    pub fn is_empty(&self) -> (empty: bool)
        ensures
            empty == (self@.fields.len() == 0),
    {
        map_len(&self.fields) == 0
    }

    /// The value of the field `key`, if the block has that field.
    pub fn get(&self, key: &str) -> (value: Option<&str>)
        ensures
            match value {
                Some(found) => lookup(self@.fields, key@) == Some(found@),
                None => lookup(self@.fields, key@) is None,
            },
    {
        match map_get(&self.fields, key) {
            Some(found) => Some(found.as_str()),
            None => None,
        }
    }

    /// The key and the value of the field at `index` in the block's order,
    /// and `None` from the number of fields on.
    pub fn entry(&self, index: usize) -> (pair: Option<(&str, &str)>)
        ensures
            match pair {
                Some((key, value)) => index < self@.fields.len() && (key@, value@)
                    == self@.fields[index as int],
                None => index >= self@.fields.len(),
            },
    {
        match map_get_index(&self.fields, index) {
            Some((key, value)) => Some((key.as_str(), value.as_str())),
            None => None,
        }
    }

    /// The block as text: its lines, each ended by a line feed.
    pub fn to_string(&self) -> (out: String)
        ensures
            out@ == unlines(block_lines(self@)),
    {
        let ghost lines = block_lines(self@);
        let mut out = String::new();
        proof {
            reveal_strlit("Host ");
            reveal_strlit("\n");
            reveal_strlit("    ");
            reveal_strlit(" ");
            assert(lines.take(1).drop_last() == Seq::<Seq<char>>::empty());
            assert(unlines(Seq::<Seq<char>>::empty()) == Seq::<char>::empty());
        }
        out.append("Host ");
        out.append(self.name.as_str());
        out.append("\n");
        assert(out@ == unlines(lines.take(1))) by {
            assert(lines.take(1).last() == header_line(self@.name));
            assert(out@ == header_line(self@.name) + seq!['\n']);
        }
        let n = map_len(&self.fields);
        let mut i: usize = 0;
        while i < n
            invariant
                i <= n,
                n == self@.fields.len(),
                lines == block_lines(self@),
                out@ == unlines(lines.take(i + 1)),
            decreases n - i,
        {
            match map_get_index(&self.fields, i) {
                Some((key, value)) => {
                    let ghost before = out@;
                    out.append("    ");
                    out.append(key.as_str());
                    out.append(" ");
                    out.append(value.as_str());
                    out.append("\n");
                    proof {
                        reveal_strlit("\n");
                        reveal_strlit("    ");
                        reveal_strlit(" ");
                        assert(lines.take(i + 2).drop_last() == lines.take(i + 1));
                        assert(lines.take(i + 2).last() == field_line(key@, value@));
                        assert(out@ == before + field_line(key@, value@) + seq!['\n']);
                    }
                },
                None => {},
            }
            i += 1;
        }
        assert(lines.take(n + 1) == lines);
        out
    }
}

} // verus!
