//! The ordered key-value store of a block: `indexmap::IndexMap`, the
//! contracts under which the rest of the crate uses it, and the arithmetic
//! of ordered pairs that those contracts are stated in.

use indexmap::IndexMap;
use vstd::prelude::*;

verus! {

/// A key and its value, as sequences of characters.
pub type Pair = (Seq<char>, Seq<char>);

/// `indexmap::IndexMap`, carried as an opaque value.
#[verifier::external_type_specification]
#[verifier::external_body]
#[verifier::reject_recursive_types(K)]
#[verifier::reject_recursive_types(V)]
#[verifier::reject_recursive_types(S)]
pub struct ExIndexMap<K, V, S>(IndexMap<K, V, S>);

/// The key-value pairs that a map holds, in the order in which it walks them.
pub uninterp spec fn entries(map: IndexMap<String, String>) -> Seq<(Seq<char>, Seq<char>)>;

/// The position of the first pair of `pairs` whose key is `key`, or the
/// length of `pairs` where there is none.
pub open spec fn position(pairs: Seq<Pair>, key: Seq<char>) -> nat
    decreases pairs.len(),
{
    if pairs.len() > 0 && pairs[0].0 != key {
        1 + position(pairs.drop_first(), key)
    } else {
        0
    }
}

/// The value that `pairs` gives to `key`, if any.
pub open spec fn lookup(pairs: Seq<Pair>, key: Seq<char>) -> Option<Seq<char>> {
    let at = position(pairs, key) as int;
    if at < pairs.len() {
        Some(pairs[at].1)
    } else {
        None
    }
}

/// `pairs` after `key` is set to `value`: a key that is present keeps its
/// place and gets the new value, a new key goes to the end.
pub open spec fn put(pairs: Seq<Pair>, key: Seq<char>, value: Seq<char>) -> Seq<Pair> {
    let at = position(pairs, key) as int;
    if at < pairs.len() {
        pairs.update(at, (key, value))
    } else {
        pairs.push((key, value))
    }
}

/// What is left of `list` when its pairs are set one after the other,
/// starting from nothing.
pub open spec fn from_pairs(list: Seq<Pair>) -> Seq<Pair>
    decreases list.len(),
{
    if list.len() == 0 {
        Seq::empty()
    } else {
        put(from_pairs(list.drop_last()), list.last().0, list.last().1)
    }
}

/// Whether no key occurs twice in `pairs`.
pub open spec fn distinct_keys(pairs: Seq<Pair>) -> bool {
    forall|i: int, j: int| 0 <= i < j < pairs.len() ==> (#[trigger] pairs[i]).0 != (#[trigger] pairs[j]).0
}

/// Whether some pair of `pairs` has the key `key`.
pub open spec fn has_key(pairs: Seq<Pair>, key: Seq<char>) -> bool {
    exists|i: int| 0 <= i < pairs.len() && (#[trigger] pairs[i]).0 == key
}

/// `position` points at the first pair with the key, and past the end
/// where no pair has it.
pub proof fn lemma_position(pairs: Seq<Pair>, key: Seq<char>)
    ensures
        position(pairs, key) <= pairs.len(),
        position(pairs, key) < pairs.len() ==> pairs[position(pairs, key) as int].0 == key,
        forall|i: int| 0 <= i < position(pairs, key) ==> (#[trigger] pairs[i]).0 != key,
        position(pairs, key) < pairs.len() <==> has_key(pairs, key),
    decreases pairs.len(),
{
    if pairs.len() > 0 && pairs[0].0 != key {
        let rest = pairs.drop_first();
        lemma_position(rest, key);
        let at = position(rest, key) as int;
        assert forall|i: int| 0 <= i < at + 1 implies (#[trigger] pairs[i]).0 != key by {
            if i > 0 {
                assert(pairs[i] == rest[i - 1]);
            }
        }
        if at < rest.len() {
            assert(pairs[at + 1] == rest[at]);
        } else {
            assert forall|i: int| 0 <= i < pairs.len() implies (#[trigger] pairs[i]).0 != key by {}
        }
    } else if pairs.len() > 0 {
        assert(pairs[0].0 == key);
    }
}

/// After a key is set, it has the value it was set to; every other key has
/// the value it had, or none as before; and the pairs that were there keep
/// their places.
pub proof fn lemma_put_lookup(pairs: Seq<Pair>, key: Seq<char>, value: Seq<char>)
    ensures
        lookup(put(pairs, key, value), key) == Some(value),
        forall|other: Seq<char>|
            other != key ==> #[trigger] lookup(put(pairs, key, value), other) == lookup(
                pairs,
                other,
            ),
        forall|i: int|
            0 <= i < pairs.len() ==> (#[trigger] put(pairs, key, value)[i]).0 == pairs[i].0,
        put(pairs, key, value).len() == if has_key(pairs, key) {
            pairs.len()
        } else {
            pairs.len() + 1
        },
{
    let after = put(pairs, key, value);
    let at = position(pairs, key) as int;
    lemma_position(pairs, key);
    assert(position(after, key) == at) by {
        lemma_position(after, key);
        let found = position(after, key) as int;
        assert(after[at].0 == key);
        if found < at {
            assert(after[found].0 == pairs[found].0);
        }
    }
    assert forall|other: Seq<char>| other != key implies #[trigger] lookup(after, other) == lookup(
        pairs,
        other,
    ) by {
        lemma_position(pairs, other);
        lemma_position(after, other);
        let was = position(pairs, other) as int;
        let now = position(after, other) as int;
        if was < pairs.len() {
            assert(after[was] == pairs[was]);
            if now < was {
                assert(after[now].0 == pairs[now].0);
            }
        } else if now < after.len() {
            if now < pairs.len() {
                assert(after[now].0 == pairs[now].0);
            }
        }
        if now < after.len() && now < pairs.len() && now != at {
            assert(after[now] == pairs[now]);
        }
    }
}

/// Setting a key keeps the keys distinct.
pub proof fn lemma_put_distinct(pairs: Seq<Pair>, key: Seq<char>, value: Seq<char>)
    requires
        distinct_keys(pairs),
    ensures
        distinct_keys(put(pairs, key, value)),
{
    lemma_position(pairs, key);
    let at = position(pairs, key) as int;
    let after = put(pairs, key, value);
    assert forall|i: int, j: int| 0 <= i < j < after.len() implies (#[trigger] after[i]).0 != (
    #[trigger] after[j]).0 by {
        if at < pairs.len() {
            assert(after[i].0 == pairs[i].0);
            assert(after[j].0 == pairs[j].0);
        } else {
            if j < pairs.len() {
                assert(after[i] == pairs[i] && after[j] == pairs[j]);
            } else {
                assert(after[i] == pairs[i]);
            }
        }
    }
}

/// Setting pairs one after the other leaves distinct keys.
pub proof fn lemma_from_pairs_distinct(list: Seq<Pair>)
    ensures
        distinct_keys(from_pairs(list)),
    decreases list.len(),
{
    if list.len() > 0 {
        lemma_from_pairs_distinct(list.drop_last());
        lemma_put_distinct(from_pairs(list.drop_last()), list.last().0, list.last().1);
    }
}

/// `IndexMap::new`: a map that holds nothing.
#[verifier::external_body]
pub(crate) fn map_new() -> (map: IndexMap<String, String>)
    ensures
        entries(map) == Seq::<Pair>::empty(),
{
    IndexMap::new()
}

/// `IndexMap::insert`: a key that the map holds keeps its place in the
/// order and gets the new value; any other key is added last.
#[verifier::external_body]
pub(crate) fn map_insert(map: &mut IndexMap<String, String>, key: String, value: String)
    ensures
        entries(*final(map)) == put(entries(*old(map)), key@, value@),
{
    map.insert(key, value);
}

/// `IndexMap::len`: the number of pairs.
#[verifier::external_body]
pub(crate) fn map_len(map: &IndexMap<String, String>) -> (n: usize)
    ensures
        n == entries(*map).len(),
{
    map.len()
}

/// `IndexMap::get_index`: the pair at a position of the order, and `None`
/// from the length on.
#[verifier::external_body]
pub(crate) fn map_get_index(map: &IndexMap<String, String>, index: usize) -> (pair: Option<
    (&String, &String),
>)
    ensures
        match pair {
            Some((key, value)) => index < entries(*map).len() && (key@, value@) == entries(
                *map,
            )[index as int],
            None => index >= entries(*map).len(),
        },
{
    map.get_index(index)
}

/// `IndexMap::get`: the value stored for a key, and `None` where the map
/// does not hold the key.
#[verifier::external_body]
pub(crate) fn map_get<'a>(map: &'a IndexMap<String, String>, key: &str) -> (value: Option<
    &'a String,
>)
    ensures
        match value {
            Some(found) => lookup(entries(*map), key@) == Some(found@),
            None => lookup(entries(*map), key@) is None,
        },
{
    map.get(key)
}

} // verus!
