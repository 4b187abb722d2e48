//! The hash maps of the arena and of the rich-text state. They are std's
//! `HashMap` driven by the hasher of `fxhash`, keyed by integers, strings and
//! tuples of them. What this module states of them is taken on trust: the
//! hasher is a pure function of the key's bytes, so a map keeps for each key
//! the value last inserted under it.

use fxhash::FxHashMap;
use vstd::prelude::*;

verus! {

#[verifier::external_type_specification]
#[verifier::external_body]
pub struct ExFxHasher(fxhash::FxHasher);

#[verifier::external_type_specification]
#[verifier::external_body]
#[verifier::reject_recursive_types(H)]
pub struct ExBuildHasherDefault<H>(std::hash::BuildHasherDefault<H>);

/// What a map from container keys to packed container handles holds.
pub uninterp spec fn id_index_entries(m: FxHashMap<(bool, String, u64, i32, u8), u32>) -> Map<
    (bool, Seq<char>, u64, i32, u8),
    u32,
>;

/// What a map from container handles to parent handles holds.
pub uninterp spec fn parent_entries(m: FxHashMap<u32, Option<u32>>) -> Map<u32, Option<u32>>;

/// What a map from operation identities to positions holds.
pub uninterp spec fn anchor_entries(m: FxHashMap<(u64, i32), usize>) -> Map<(u64, i32), usize>;

/// `FxHashMap::default`: an empty map.
#[verifier::external_body]
pub(crate) fn id_index_new() -> (fresh: FxHashMap<(bool, String, u64, i32, u8), u32>)
    ensures
        id_index_entries(fresh) =~= Map::empty(),
{
    FxHashMap::default()
}

/// `HashMap::get` under the fx hasher: the value stored under a key whose
/// parts are equal to those of `key`, the name compared as text.
#[verifier::external_body]
pub(crate) fn id_index_get(
    m: &FxHashMap<(bool, String, u64, i32, u8), u32>,
    key: &(bool, String, u64, i32, u8),
) -> (r: Option<u32>)
    ensures
        r == (if id_index_entries(*m).contains_key((key.0, key.1@, key.2, key.3, key.4)) {
            Some(id_index_entries(*m)[(key.0, key.1@, key.2, key.3, key.4)])
        } else {
            None
        }),
{
    m.get(key).copied()
}

/// `HashMap::insert` under the fx hasher: the key now maps to `value`, every
/// other key is as before.
#[verifier::external_body]
pub(crate) fn id_index_insert(
    m: &mut FxHashMap<(bool, String, u64, i32, u8), u32>,
    key: (bool, String, u64, i32, u8),
    value: u32,
)
    ensures
        id_index_entries(*final(m)) == id_index_entries(*old(m)).insert(
            (key.0, key.1@, key.2, key.3, key.4),
            value,
        ),
{
    m.insert(key, value);
}

/// `HashMap::is_empty`.
#[verifier::external_body]
pub(crate) fn id_index_is_empty(m: &FxHashMap<(bool, String, u64, i32, u8), u32>) -> (r: bool)
    ensures
        r == (forall|k: (bool, Seq<char>, u64, i32, u8)| !id_index_entries(*m).contains_key(k)),
{
    m.is_empty()
}

/// `FxHashMap::default`: an empty map.
#[verifier::external_body]
pub(crate) fn parents_new() -> (fresh: FxHashMap<u32, Option<u32>>)
    ensures
        parent_entries(fresh) =~= Map::empty(),
{
    FxHashMap::default()
}

/// `HashMap::get` under the fx hasher.
#[verifier::external_body]
pub(crate) fn parents_get(m: &FxHashMap<u32, Option<u32>>, child: u32) -> (r: Option<Option<u32>>)
    ensures
        r == (if parent_entries(*m).contains_key(child) {
            Some(parent_entries(*m)[child])
        } else {
            None
        }),
{
    m.get(&child).copied()
}

/// `HashMap::insert` under the fx hasher.
#[verifier::external_body]
pub(crate) fn parents_insert(m: &mut FxHashMap<u32, Option<u32>>, child: u32, parent: Option<u32>)
    ensures
        parent_entries(*final(m)) == parent_entries(*old(m)).insert(child, parent),
{
    m.insert(child, parent);
}

/// `HashMap::is_empty`.
#[verifier::external_body]
pub(crate) fn parents_is_empty(m: &FxHashMap<u32, Option<u32>>) -> (r: bool)
    ensures
        r == (forall|k: u32| !parent_entries(*m).contains_key(k)),
{
    m.is_empty()
}

/// `FxHashMap::default`: an empty map.
#[verifier::external_body]
pub(crate) fn anchors_new() -> (fresh: FxHashMap<(u64, i32), usize>)
    ensures
        anchor_entries(fresh) =~= Map::empty(),
{
    FxHashMap::default()
}

/// `HashMap::get` under the fx hasher.
#[verifier::external_body]
pub(crate) fn anchors_get(m: &FxHashMap<(u64, i32), usize>, id: (u64, i32)) -> (r: Option<usize>)
    ensures
        r == (if anchor_entries(*m).contains_key(id) {
            Some(anchor_entries(*m)[id])
        } else {
            None
        }),
{
    m.get(&id).copied()
}

/// `HashMap::insert` under the fx hasher.
#[verifier::external_body]
pub(crate) fn anchors_insert(m: &mut FxHashMap<(u64, i32), usize>, id: (u64, i32), at: usize)
    ensures
        anchor_entries(*final(m)) == anchor_entries(*old(m)).insert(id, at),
{
    m.insert(id, at);
}

} // verus!
