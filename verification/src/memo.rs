//! The hash-cons table: an insertion-ordered map from e-node keys to raw
//! e-class numbers, kept in an `indexmap::IndexMap` hashed with
//! `rustc_hash::FxBuildHasher`. Keys are tuples of integers, whose `Eq` and
//! `Hash` std documents.
use vstd::prelude::*;
use indexmap::IndexMap;
use rustc_hash::FxBuildHasher;

verus! {

/// An e-node as a tuple of integers: a tag, then two operands.
pub type NodeKey = (u8, u32, u32);

/// The table type.
pub type Memo = IndexMap<NodeKey, u32, FxBuildHasher>;

#[verifier::external_type_specification]
#[verifier::external_body]
#[verifier::reject_recursive_types(K)]
#[verifier::reject_recursive_types(V)]
#[verifier::reject_recursive_types(S)]
pub struct ExIndexMap<K, V, S>(IndexMap<K, V, S>);

#[verifier::external_type_specification]
#[verifier::external_body]
pub struct ExFxBuildHasher(FxBuildHasher);

/// The entries of a table, in insertion order.
pub uninterp spec fn memo_entries(m: IndexMap<(u8, u32, u32), u32, FxBuildHasher>) -> Seq<((u8, u32, u32), u32)>;

/// Whether `key` occurs among the entries.
pub open spec fn has_key(entries: Seq<(NodeKey, u32)>, key: NodeKey) -> bool {
    exists|i: int| 0 <= i < entries.len() && #[trigger] entries[i].0 == key
}

/// `IndexMap::default`: a new table has no entries.
#[verifier::external_body]
pub fn memo_new() -> (m: Memo)
    ensures
        memo_entries(m) == Seq::<(NodeKey, u32)>::empty(),
{
    IndexMap::default()
}

/// `IndexMap::get`: the value stored under `key`, if any. An `IndexMap`
/// holds each key at most once.
#[verifier::external_body]
pub fn memo_get(m: &Memo, key: &NodeKey) -> (r: Option<u32>)
    ensures
        r is None <==> !has_key(memo_entries(*m), *key),
        r matches Some(v) ==> exists|i: int|
            0 <= i < memo_entries(*m).len() && #[trigger] memo_entries(*m)[i] == (*key, v),
{
    m.get(key).copied()
}

/// `IndexMap::insert`: an existing key keeps its place and takes the new
/// value; a new key goes last. Returns the replaced value.
#[verifier::external_body]
pub fn memo_insert(m: &mut Memo, key: NodeKey, value: u32) -> (r: Option<u32>)
    ensures
        r is None ==> !has_key(memo_entries(*old(m)), key) && memo_entries(*final(m))
            == memo_entries(*old(m)).push((key, value)),
        r matches Some(v) ==> exists|i: int|
            0 <= i < memo_entries(*old(m)).len() && #[trigger] memo_entries(*old(m))[i] == (key, v)
                && memo_entries(*final(m)) == memo_entries(*old(m)).update(i, (key, value)),
{
    m.insert(key, value)
}

/// `IndexMap::clone`: a copy with the same entries in the same order.
#[verifier::external_body]
pub fn memo_clone(m: &Memo) -> (r: Memo)
    ensures
        memo_entries(r) == memo_entries(*m),
{
    m.clone()
}

/// `IndexMap::len`: the number of entries.
#[verifier::external_body]
pub fn memo_len(m: &Memo) -> (r: usize)
    ensures
        r == memo_entries(*m).len(),
{
    m.len()
}

/// `IndexMap::get_index`: the entry at position `i` in insertion order.
#[verifier::external_body]
pub fn memo_get_index(m: &Memo, i: usize) -> (r: Option<(NodeKey, u32)>)
    ensures
        i < memo_entries(*m).len() ==> r == Some(memo_entries(*m)[i as int]),
        i >= memo_entries(*m).len() ==> r is None,
{
    m.get_index(i).map(|(k, v)| (*k, *v))
}

/// `std::mem::take` on a table: hand back its entries and leave it empty.
#[verifier::external_body]
pub fn memo_take(m: &mut Memo) -> (r: Memo)
    ensures
        memo_entries(r) == memo_entries(*old(m)),
        memo_entries(*final(m)) == Seq::<(NodeKey, u32)>::empty(),
{
    std::mem::take(m)
}

} // verus!
