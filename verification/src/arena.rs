//! The arena shared by the operation log and the document state: the table of
//! containers and their dense handles, the parent of each container, the
//! interned values and the interned text.

use crate::byte_pool::{slice_bytes, slice_offset, POOL_LIMIT};
use crate::fx_maps::{
    id_index_entries, id_index_get, id_index_insert, id_index_is_empty, id_index_new,
    parent_entries, parents_get, parents_insert, parents_is_empty, parents_new,
};
use crate::byte_pool::bytes_as_text;
use crate::id::{
    ContainerID, ContainerIdx, ContainerKey, ContainerType, Counter, Lamport, PeerID,
    MAX_CONTAINERS,
};
use crate::op::{
    ContentModel, InnerContent, InnerListOp, InnerMapSet, ListOp, ListSlice, MapSet, Op, RawOp,
    RawOpContent, SliceRange, TreeOp, UNKNOWN_START,
};
use crate::str_arena::{byte_offset_of, StrArena};
use crate::text_metrics::{lemma_counts_of_encoding, measure, utf16_len, utf8_len};
use crate::value::LoroValue;
use append_only_bytes::BytesSlice;
use fxhash::FxHashMap;
use std::ops::Range;
use vstd::pervasive::unreached;
use vstd::prelude::*;
use vstd::utf8::{decode_utf8, encode_utf8, valid_utf8};

verus! {

/// Where an allocation of text landed: its character range in the arena and
/// the number of UTF-16 code units it takes.
pub struct StrAllocResult {
    pub start: usize,
    pub end: usize,
    pub utf16_len: usize,
}

pub struct SharedArena {
    container_idx_to_id: Vec<ContainerID>,
    container_id_to_idx: FxHashMap<(bool, String, u64, i32, u8), u32>,
    parents: FxHashMap<u32, Option<u32>>,
    values: Vec<LoroValue>,
    root_c_idx: Vec<ContainerIdx>,
    str: StrArena,
}

/// The record kept for a child in the parent map, read as handles.
pub open spec fn as_handle(entry: Option<Option<u32>>) -> Option<Option<ContainerIdx>> {
    match entry {
        None => None,
        Some(None) => Some(None),
        Some(Some(p)) => Some(Some(ContainerIdx(p))),
    }
}

impl SharedArena {
    /// The registered containers, in the order of their registration.
    pub closed spec fn containers(&self) -> Seq<ContainerID> {
        self.container_idx_to_id@
    }

    /// The handle registered for the container with this key, if any.
    pub closed spec fn lookup(&self, key: ContainerKey) -> Option<ContainerIdx> {
        if id_index_entries(self.container_id_to_idx).contains_key(key) {
            Some(ContainerIdx(id_index_entries(self.container_id_to_idx)[key]))
        } else {
            None
        }
    }

    /// What is recorded about the parent of `child`: nothing, that it has
    /// none, or which container it is.
    pub closed spec fn parent_entry(&self, child: ContainerIdx) -> Option<Option<ContainerIdx>> {
        if parent_entries(self.parents).contains_key(child.0) {
            as_handle(Some(parent_entries(self.parents)[child.0]))
        } else {
            None
        }
    }

    /// The interned values, in the order of their allocation.
    pub closed spec fn values(&self) -> Seq<LoroValue> {
        self.values@
    }

    /// The handles of the root containers, in the order of their registration.
    pub closed spec fn roots(&self) -> Seq<ContainerIdx> {
        self.root_c_idx@
    }

    /// The interned text: all allocations, one after another.
    pub closed spec fn text(&self) -> Seq<char> {
        self.str.text()
    }

    /// The handle of the container registered at position `i`.
    pub open spec fn handle_of(&self, i: int) -> ContainerIdx {
        ContainerIdx::pack(i as u32, self.containers()[i].spec_container_type())
    }

    /// The parent container recorded for `child`, if one is.
    pub open spec fn parent_of(&self, child: ContainerIdx) -> Option<ContainerIdx> {
        match self.parent_entry(child) {
            Some(Some(p)) => Some(p),
            _ => None,
        }
    }

    /// Whether `rank` falls from every container to its parent.
    pub open spec fn ranked_by(&self, rank: Map<ContainerIdx, nat>) -> bool {
        forall|c: ContainerIdx|
            (#[trigger] self.parent_of(c)) is Some ==> rank[self.parent_of(c).unwrap()] < rank[c]
    }

    /// Whether the recorded parents form no cycle: the containers can be
    /// ranked so that each ranks above its parent.
    pub open spec fn is_forest(&self) -> bool {
        exists|rank: Map<ContainerIdx, nat>| #[trigger] self.ranked_by(rank)
    }

    /// Whether `chain` starts at `start` and goes from each container to its
    /// recorded parent.
    pub open spec fn is_ancestor_chain(&self, start: ContainerIdx, chain: Seq<ContainerIdx>) -> bool {
        &&& chain.len() >= 1
        &&& chain[0] == start
        &&& forall|i: int|
            0 <= i < chain.len() - 1 ==> self.parent_of(#[trigger] chain[i]) == Some(chain[i + 1])
    }

    /// Whether `ancestor` is `container` itself or one of its ancestors.
    pub open spec fn has_ancestor(&self, container: ContainerIdx, ancestor: ContainerIdx) -> bool {
        exists|chain: Seq<ContainerIdx>| #[trigger]
            self.is_ancestor_chain(container, chain) && chain.last() == ancestor
    }

    /// Whether a container was registered under the handle.
    pub open spec fn is_registered(&self, c: ContainerIdx) -> bool {
        c.index() < self.containers().len() && c == self.handle_of(c.index() as int)
    }

    /// Whether `parent` can be set as the parent of `child`: both are
    /// registered, and `parent` is not `child` itself nor has `child` among
    /// its ancestors, so that the containers go on forming no cycle.
    pub open spec fn may_set_parent(&self, child: ContainerIdx, parent: Option<ContainerIdx>) -> bool {
        &&& self.is_registered(child)
        &&& parent matches Some(p) ==> self.is_registered(p) && (self.parent_of(child) is None
            ==> !self.has_ancestor(p, child))
    }

    /// What is recorded about the parent of `child` once `parent` has been
    /// set for it. A parent container that is recorded stays.
    pub open spec fn parent_after(
        &self,
        child: ContainerIdx,
        parent: Option<ContainerIdx>,
    ) -> Option<Option<ContainerIdx>> {
        if self.parent_of(child) is Some {
            self.parent_entry(child)
        } else {
            Some(parent)
        }
    }

    /// Whether the containers of which a parent is recorded, and the parents,
    /// are registered.
    pub open spec fn parents_registered(&self) -> bool {
        &&& forall|c: ContainerIdx| #[trigger] self.parent_entry(c) is Some ==> self.is_registered(c)
        &&& forall|c: ContainerIdx|
            (#[trigger] self.parent_of(c)) is Some ==> self.is_registered(
                self.parent_of(c).unwrap(),
            )
    }

    pub closed spec fn wf(&self) -> bool {
        &&& self.str.wf()
        &&& self.is_forest()
        &&& self.parents_registered()
        &&& self.container_idx_to_id@.len() <= MAX_CONTAINERS
        &&& forall|i: int|
            0 <= i < self.containers().len() ==> self.lookup(
                (#[trigger] self.containers()[i]).key(),
            ) == Some(self.handle_of(i))
        &&& forall|key: ContainerKey| #[trigger]
            self.lookup(key) is Some ==> {
                let i = self.lookup(key).unwrap().index() as int;
                &&& i < self.containers().len()
                &&& self.containers()[i].key() == key
            }
    }

    /// Nothing that `earlier` held has been lost or moved: its text, its
    /// values and its containers are still where they were.
    pub open spec fn extends(&self, earlier: &SharedArena) -> bool {
        &&& earlier.text().is_prefix_of(self.text())
        &&& earlier.values().is_prefix_of(self.values())
        &&& earlier.containers().is_prefix_of(self.containers())
    }

    /// The parts of the arena that registering containers touches are equal.
    pub open spec fn same_registry(&self, other: &SharedArena) -> bool {
        &&& self.containers() == other.containers()
        &&& self.roots() == other.roots()
        &&& forall|key: ContainerKey| self.lookup(key) == other.lookup(key)
        &&& forall|c: ContainerIdx| self.parent_entry(c) == other.parent_entry(c)
    }

    /// Containers and handles are in one-to-one correspondence, and the
    /// handles are dense: the container at position `i` has the handle that
    /// packs `i`, and a handle that is looked up leads back to its container.
    pub proof fn lemma_handles_are_dense(&self)
        requires
            self.wf(),
        ensures
            self.containers().len() <= MAX_CONTAINERS,
            forall|i: int|
                0 <= i < self.containers().len() ==> {
                    &&& self.lookup((#[trigger] self.containers()[i]).key()) == Some(
                        self.handle_of(i),
                    )
                    &&& self.handle_of(i).index() == i
                    &&& self.handle_of(i).type_of() == self.containers()[i].spec_container_type()
                },
            forall|key: ContainerKey| #[trigger]
                self.lookup(key) is Some ==> {
                    let i = self.lookup(key).unwrap().index() as int;
                    &&& i < self.containers().len()
                    &&& self.containers()[i].key() == key
                    &&& self.lookup(key) == Some(self.handle_of(i))
                },
            forall|i: int, j: int|
                0 <= i < self.containers().len() && 0 <= j < self.containers().len() && i != j
                    ==> (#[trigger] self.containers()[i]).key() != (
                #[trigger] self.containers()[j]).key(),
    {
        assert forall|i: int| 0 <= i < self.containers().len() implies {
            &&& self.handle_of(i).index() == i
            &&& self.handle_of(i).type_of() == (
            #[trigger] self.containers()[i]).spec_container_type()
        } by {
            ContainerIdx::lemma_pack(i as u32, self.containers()[i].spec_container_type());
        }
    }

    /// Parents that form no cycle form none where some are left out.
    proof fn lemma_forest_kept(&self, before: &SharedArena)
        requires
            before.is_forest(),
            forall|c: ContainerIdx|
                (#[trigger] self.parent_of(c)) is Some ==> before.parent_of(c) == self.parent_of(c),
        ensures
            self.is_forest(),
    {
        let rank = choose|rank: Map<ContainerIdx, nat>| #[trigger] before.ranked_by(rank);
        assert forall|c: ContainerIdx| (#[trigger] self.parent_of(c)) is Some implies rank[self.parent_of(
            c,
        ).unwrap()] < rank[c] by {
            assert(before.parent_of(c) == self.parent_of(c));
        }
        assert(self.ranked_by(rank));
    }

    /// Well-formedness depends on the text, on the registry and on the
    /// parents only.
    proof fn lemma_wf_kept(&self, before: &SharedArena)
        requires
            before.wf(),
            self.str.wf(),
            self.container_idx_to_id@ == before.container_idx_to_id@,
            self.container_id_to_idx == before.container_id_to_idx,
            forall|c: ContainerIdx| self.parent_entry(c) == before.parent_entry(c),
        ensures
            self.wf(),
            forall|key: ContainerKey| self.lookup(key) == before.lookup(key),
    {
        self.lemma_forest_kept(before);
        self.lemma_registered_kept(before);
        assert forall|i: int| 0 <= i < self.containers().len() implies self.lookup(
            (#[trigger] self.containers()[i]).key(),
        ) == Some(self.handle_of(i)) by {
            assert(before.lookup(before.containers()[i].key()) == Some(before.handle_of(i)));
        }
        assert forall|key: ContainerKey| #[trigger] self.lookup(key) is Some implies {
            let i = self.lookup(key).unwrap().index() as int;
            &&& i < self.containers().len()
            &&& self.containers()[i].key() == key
        } by {
            assert(before.lookup(key) is Some);
        }
    }

    /// Containers that were registered stay registered, and with them the
    /// containers of which a parent is recorded, and the parents.
    proof fn lemma_registered_kept(&self, before: &SharedArena)
        requires
            before.parents_registered(),
            before.containers().is_prefix_of(self.containers()),
            forall|c: ContainerIdx| self.parent_entry(c) == before.parent_entry(c),
        ensures
            self.parents_registered(),
            forall|c: ContainerIdx| before.is_registered(c) ==> self.is_registered(c),
    {
        assert forall|c: ContainerIdx| before.is_registered(c) implies self.is_registered(c) by {
            assert(self.containers()[c.index() as int] == before.containers()[c.index() as int]);
        }
        assert forall|c: ContainerIdx| #[trigger] self.parent_entry(c) is Some implies self.is_registered(
            c,
        ) by {
            assert(before.parent_entry(c) is Some);
        }
        assert forall|c: ContainerIdx| (#[trigger] self.parent_of(c)) is Some implies self.is_registered(
            self.parent_of(c).unwrap(),
        ) by {
            assert(before.parent_of(c) is Some);
        }
    }

    /// A container that has just been registered has no parent and is no
    /// parent, so that any registered container can become its parent.
    proof fn lemma_new_is_apart(&self, before: &SharedArena, idx: ContainerIdx, parent: ContainerIdx)
        requires
            before.wf(),
            self.wf(),
            before.is_registered(parent),
            before.containers().len() < MAX_CONTAINERS,
            self.containers().len() == before.containers().len() + 1,
            before.containers().is_prefix_of(self.containers()),
            idx == self.handle_of(before.containers().len() as int),
            forall|c: ContainerIdx| self.parent_entry(c) == before.parent_entry(c),
        ensures
            self.may_set_parent(idx, Some(parent)),
            self.parent_of(idx) is None,
            self.parent_entry(idx) is None,
    {
        let n = before.containers().len() as int;
        ContainerIdx::lemma_pack(n as u32, self.containers()[n].spec_container_type());
        assert(idx.index() == n);
        assert(self.is_registered(idx));
        assert(self.handle_of(parent.index() as int) == before.handle_of(parent.index() as int)) by {
            assert(self.containers()[parent.index() as int] == before.containers()[parent.index() as int]);
        }
        assert(self.is_registered(parent));
        if self.parent_entry(idx) is Some {
            assert(before.parent_entry(idx) is Some);
            assert(before.is_registered(idx));
        }
        if self.has_ancestor(parent, idx) {
            let chain = choose|chain: Seq<ContainerIdx>| #[trigger]
                self.is_ancestor_chain(parent, chain) && chain.last() == idx;
            if chain.len() == 1 {
                assert(parent == idx);
            } else {
                let c = chain[chain.len() - 2];
                assert(self.parent_of(c) == Some(chain[chain.len() - 1]));
                assert(before.parent_of(c) == Some(idx));
                assert(before.is_registered(idx));
            }
        }
    }

    /// The interned text fits the arena, and so does every part of it.
    pub proof fn lemma_text_bounds(&self, start: int, end: int)
        requires
            self.wf(),
            0 <= start <= end <= self.text().len(),
        ensures
            self.text().len() <= utf8_len(self.text()) <= POOL_LIMIT,
            utf8_len(self.text().subrange(start, end)) <= utf8_len(self.text()),
    {
        self.str.lemma_raw_is_encoding();
        let text = self.text();
        let a = text.subrange(0, start);
        let b = text.subrange(start, end);
        let c = text.subrange(end, text.len() as int);
        assert(text =~= a + b + c);
        crate::text_metrics::lemma_encode_concat(a, b);
        crate::text_metrics::lemma_encode_concat(a + b, c);
    }

    /// An arena extends itself.
    pub proof fn lemma_extends_reflexive(&self)
        ensures
            self.extends(self),
    {
    }

    /// What extends an extension extends what that extended.
    pub proof fn lemma_extends_transitive(&self, middle: &SharedArena, earlier: &SharedArena)
        requires
            self.extends(middle),
            middle.extends(earlier),
        ensures
            self.extends(earlier),
    {
    }

    /// The arena is append-only. Whatever was done to an arena since
    /// `earlier`, a range of characters that was allocated in `earlier` still
    /// holds the same characters, at the same byte offset, so a slice taken of
    /// it now shows the bytes that a slice taken then showed.
    pub proof fn lemma_slices_survive(&self, earlier: &SharedArena, start: int, end: int)
        requires
            self.extends(earlier),
            0 <= start <= end <= earlier.text().len(),
        ensures
            end <= self.text().len(),
            self.text().subrange(start, end) == earlier.text().subrange(start, end),
            encode_utf8(self.text().subrange(start, end)) == encode_utf8(
                earlier.text().subrange(start, end),
            ),
            byte_offset_of(self.text(), start) == byte_offset_of(earlier.text(), start),
    {
        assert(self.text().subrange(start, end) =~= earlier.text().subrange(start, end));
        assert(self.text().subrange(0, start) =~= earlier.text().subrange(0, start));
    }

    pub fn new() -> (arena: SharedArena)
        ensures
            arena.wf(),
            arena.containers() == Seq::<ContainerID>::empty(),
            arena.values() == Seq::<LoroValue>::empty(),
            arena.roots() == Seq::<ContainerIdx>::empty(),
            arena.text() == Seq::<char>::empty(),
            forall|key: ContainerKey| arena.lookup(key) is None,
            forall|c: ContainerIdx| arena.parent_entry(c) is None,
    {
        let arena = SharedArena {
            container_idx_to_id: Vec::new(),
            container_id_to_idx: id_index_new(),
            parents: parents_new(),
            values: Vec::new(),
            root_c_idx: Vec::new(),
            str: StrArena::new(),
        };
        proof {
            assert(arena.ranked_by(Map::total(|c: ContainerIdx| 0nat)));
        }
        arena
    }

    /// What registering `id` does: `self` is `before` with `id` registered
    /// under `idx`. A container that was registered keeps its handle and
    /// nothing changes. A new container gets the next free position; a new
    /// root is added to the roots and recorded as having no parent.
    pub open spec fn registers(
        &self,
        before: &SharedArena,
        id: ContainerID,
        idx: ContainerIdx,
    ) -> bool {
        &&& self.lookup(id.key()) == Some(idx)
        &&& before.lookup(id.key()) is Some ==> self.same_registry(before)
        &&& before.lookup(id.key()) is None ==> {
            &&& self.containers() == before.containers().push(id)
            &&& idx == ContainerIdx::pack(
                before.containers().len() as u32,
                id.spec_container_type(),
            )
            &&& forall|key: ContainerKey|
                key != id.key() ==> self.lookup(key) == before.lookup(key)
            &&& forall|c: ContainerIdx| c != idx ==> self.parent_entry(c) == before.parent_entry(c)
            &&& id.spec_is_root() ==> self.roots() == before.roots().push(idx)
                && self.parent_entry(idx) == Some(None::<ContainerIdx>)
            &&& !id.spec_is_root() ==> self.roots() == before.roots() && self.parent_entry(idx)
                == before.parent_entry(idx)
        }
    }

    /// What registering a container that belongs to `parent` does: `self` is
    /// `before` with `id` registered. A container that was registered keeps
    /// its handle and its parent. A new one gets the next free position and
    /// `parent` as its parent, and is no root.
    pub open spec fn registers_child(
        &self,
        before: &SharedArena,
        id: ContainerID,
        parent: ContainerIdx,
    ) -> bool {
        &&& before.lookup(id.key()) is Some ==> self.same_registry(before)
        &&& before.lookup(id.key()) is None ==> {
            let idx = ContainerIdx::pack(
                before.containers().len() as u32,
                id.spec_container_type(),
            );
            &&& self.containers() == before.containers().push(id)
            &&& self.lookup(id.key()) == Some(idx)
            &&& forall|key: ContainerKey|
                key != id.key() ==> self.lookup(key) == before.lookup(key)
            &&& forall|c: ContainerIdx| c != idx ==> self.parent_entry(c) == before.parent_entry(c)
            &&& self.roots() == before.roots()
            &&& self.parent_entry(idx) == Some(Some(parent))
        }
    }

    /// Puts `id`, which is not registered, at the next free position.
    fn add_container(&mut self, id: &ContainerID, key: (bool, String, u64, i32, u8)) -> (idx:
        ContainerIdx)
        requires
            old(self).wf(),
            old(self).lookup(id.key()) is None,
            (key.0, key.1@, key.2, key.3, key.4) == id.key(),
            old(self).containers().len() < MAX_CONTAINERS,
        ensures
            final(self).wf(),
            final(self).containers() == old(self).containers().push(*id),
            idx == ContainerIdx::pack(old(self).containers().len() as u32, id.spec_container_type()),
            final(self).lookup(id.key()) == Some(idx),
            forall|key: ContainerKey|
                key != id.key() ==> final(self).lookup(key) == old(self).lookup(key),
            forall|c: ContainerIdx| final(self).parent_entry(c) == old(self).parent_entry(c),
            final(self).roots() == old(self).roots(),
            final(self).text() == old(self).text(),
            final(self).values() == old(self).values(),
    {
        let ghost before = *self;
        let position = self.container_idx_to_id.len();
        self.container_idx_to_id.push(id.duplicate());
        let idx = ContainerIdx::from_index_and_type(position as u32, id.container_type());
        id_index_insert(&mut self.container_id_to_idx, key, idx.0);
        proof {
            self.lemma_forest_kept(&before);
            self.lemma_registered_kept(&before);
            assert forall|i: int| 0 <= i < self.containers().len() implies self.lookup(
                (#[trigger] self.containers()[i]).key(),
            ) == Some(self.handle_of(i)) by {
                if i < before.containers().len() {
                    assert(before.lookup(before.containers()[i].key()) == Some(
                        before.handle_of(i),
                    ));
                }
            }
            assert forall|key: ContainerKey| #[trigger] self.lookup(key) is Some implies {
                let i = self.lookup(key).unwrap().index() as int;
                &&& i < self.containers().len()
                &&& self.containers()[i].key() == key
            } by {
                if key != id.key() {
                    assert(before.lookup(key) is Some);
                }
            }
        }
        idx
    }

    /// Registers `id` unless it is registered already, and returns its handle.
    pub fn register_container(&mut self, id: &ContainerID) -> (idx: ContainerIdx)
        requires
            old(self).wf(),
            old(self).lookup(id.key()) is None ==> old(self).containers().len() < MAX_CONTAINERS,
        ensures
            final(self).wf(),
            final(self).extends(old(self)),
            final(self).registers(old(self), *id, idx),
            final(self).text() == old(self).text(),
            final(self).values() == old(self).values(),
    {
        let key = id.to_key();
        if let Some(found) = id_index_get(&self.container_id_to_idx, &key) {
            return ContainerIdx(found);
        }
        let idx = self.add_container(id, key);
        if id.is_root() {
            let ghost before = *self;
            self.root_c_idx.push(idx);
            parents_insert(&mut self.parents, idx.0, None);
            proof {
                assert forall|c: ContainerIdx| c != idx implies self.parent_entry(c)
                    == before.parent_entry(c) by {
                    assert(c.0 != idx.0);
                }
                let n = (before.containers().len() - 1) as int;
                ContainerIdx::lemma_pack(n as u32, before.containers()[n].spec_container_type());
                assert(before.is_registered(idx));
                if before.parent_of(idx) is Some {
                    assert(old(self).parent_of(idx) is Some);
                    assert(old(self).is_registered(idx));
                }
                before.lemma_parent_set(self, idx, None);
            }
        }
        idx
    }

    /// Registers the container `id` that belongs to `parent`, unless it is
    /// registered already.
    fn register_child(&mut self, id: &ContainerID, parent: ContainerIdx)
        requires
            old(self).wf(),
            old(self).is_registered(parent),
            old(self).lookup(id.key()) is None ==> old(self).containers().len() < MAX_CONTAINERS,
        ensures
            final(self).wf(),
            final(self).extends(old(self)),
            final(self).registers_child(old(self), *id, parent),
            final(self).text() == old(self).text(),
            final(self).values() == old(self).values(),
    {
        let ghost before = *self;
        let key = id.to_key();
        if id_index_get(&self.container_id_to_idx, &key).is_none() {
            let idx = self.add_container(id, key);
            proof {
                self.lemma_new_is_apart(&before, idx, parent);
            }
            self.set_parent(idx, Some(parent));
        }
    }

    pub fn get_container_id(&self, idx: ContainerIdx) -> (id: Option<ContainerID>)
        requires
            self.wf(),
        ensures
            id == (if idx.index() < self.containers().len() {
                Some(self.containers()[idx.index() as int])
            } else {
                None
            }),
    {
        self.idx_to_id(idx)
    }

    pub fn id_to_idx(&self, id: &ContainerID) -> (idx: Option<ContainerIdx>)
        requires
            self.wf(),
        ensures
            idx == self.lookup(id.key()),
    {
        let key = id.to_key();
        match id_index_get(&self.container_id_to_idx, &key) {
            Some(found) => Some(ContainerIdx(found)),
            None => None,
        }
    }

    pub fn idx_to_id(&self, id: ContainerIdx) -> (found: Option<ContainerID>)
        requires
            self.wf(),
        ensures
            found == (if id.index() < self.containers().len() {
                Some(self.containers()[id.index() as int])
            } else {
                None
            }),
    {
        let i = id.to_index() as usize;
        if i < self.container_idx_to_id.len() {
            Some(self.container_idx_to_id[i].duplicate())
        } else {
            None
        }
    }

    /// Interns `str` and says where it landed.
    pub fn alloc_str(&mut self, str: &str) -> (r: StrAllocResult)
        requires
            old(self).wf(),
            utf8_len(old(self).text()) + utf8_len(str@) <= POOL_LIMIT,
        ensures
            final(self).wf(),
            final(self).extends(old(self)),
            final(self).same_registry(old(self)),
            final(self).values() == old(self).values(),
            final(self).text() == old(self).text() + str@,
            r.start == old(self).text().len(),
            r.end == final(self).text().len(),
            r.utf16_len == utf16_len(str@),
    {
        let ghost before = *self;
        let r = _alloc_str(&mut self.str, str);
        proof {
            self.lemma_wf_kept(&before);
        }
        r
    }

    /// Interns `str` and returns a view of its bytes together with the
    /// character position at which it starts.
    pub fn alloc_str_with_slice(&mut self, str: &str) -> (r: (BytesSlice, usize))
        requires
            old(self).wf(),
            utf8_len(old(self).text()) + utf8_len(str@) <= POOL_LIMIT,
        ensures
            final(self).wf(),
            final(self).extends(old(self)),
            final(self).same_registry(old(self)),
            final(self).values() == old(self).values(),
            final(self).text() == old(self).text() + str@,
            slice_bytes(r.0) == encode_utf8(str@),
            slice_offset(r.0) == utf8_len(old(self).text()),
            r.1 == old(self).text().len(),
    {
        let start = self.str.len_bytes();
        let unicode_start = self.str.len_unicode();
        let ghost earlier = *self;
        let ghost before = self.str.text();
        self.str.intern(str);
        let end = self.str.len_bytes();
        proof {
            self.lemma_wf_kept(&earlier);
            self.str.lemma_raw_is_encoding();
            crate::text_metrics::lemma_encode_concat(before, str@);
            assert(self.str.raw().subrange(start as int, end as int) =~= encode_utf8(str@));
        }
        (self.str.slice_bytes(start, end), unicode_start)
    }

    /// Interns bytes that are well-formed UTF-8, and reports nothing.
    pub fn alloc_str_fast(&mut self, bytes: &[u8])
        requires
            old(self).wf(),
            valid_utf8(bytes@),
            utf8_len(old(self).text()) + bytes@.len() <= POOL_LIMIT,
        ensures
            final(self).wf(),
            final(self).extends(old(self)),
            final(self).same_registry(old(self)),
            final(self).values() == old(self).values(),
            final(self).text() == old(self).text() + decode_utf8(bytes@),
    {
        let ghost before = *self;
        match bytes_as_text(bytes) {
            Some(text) => {
                proof {
                    vstd::utf8::encode_utf8_decode_utf8(text@);
                }
                self.str.intern(text);
                proof {
                    self.lemma_wf_kept(&before);
                }
            },
            None => unreached(),
        }
    }

    /// The number of bytes of all interned text.
    pub fn utf8_len(&self) -> (n: usize)
        requires
            self.wf(),
        ensures
            n == utf8_len(self.text()),
    {
        self.str.len_bytes()
    }

    /// The number of characters of all interned text.
    pub fn unicode_len(&self) -> (n: usize)
        requires
            self.wf(),
        ensures
            n == self.text().len(),
    {
        self.str.len_unicode()
    }

    /// The number of registered containers.
    pub fn container_count(&self) -> (n: usize)
        ensures
            n == self.containers().len(),
    {
        self.container_idx_to_id.len()
    }

    /// The number of UTF-16 code units of all interned text.
    pub fn utf16_len(&self) -> (n: usize)
        requires
            self.wf(),
        ensures
            n == utf16_len(self.text()),
    {
        self.str.len_utf16()
    }

    /// Interns one value and returns its position.
    pub fn alloc_value(&mut self, value: LoroValue) -> (at: usize)
        requires
            old(self).wf(),
        ensures
            final(self).wf(),
            final(self).extends(old(self)),
            final(self).same_registry(old(self)),
            final(self).text() == old(self).text(),
            final(self).values() == old(self).values().push(value),
            at == old(self).values().len(),
    {
        let ghost before = *self;
        let at = _alloc_value(&mut self.values, value);
        proof {
            self.lemma_wf_kept(&before);
        }
        at
    }

    /// Interns the values in order and returns the positions they took.
    pub fn alloc_values(&mut self, values: &Vec<LoroValue>) -> (r: Range<usize>)
        requires
            old(self).wf(),
        ensures
            final(self).wf(),
            final(self).extends(old(self)),
            final(self).same_registry(old(self)),
            final(self).text() == old(self).text(),
            final(self).values() == old(self).values() + values@,
            r.start == old(self).values().len(),
            r.end == final(self).values().len(),
    {
        let ghost before = *self;
        let r = _alloc_values(&mut self.values, values);
        proof {
            self.lemma_wf_kept(&before);
        }
        r
    }

    /// Sets `parent` as the parent of `child`. A parent, once set, never
    /// changes: where a parent container is recorded for `child`, it stays.
    /// Both containers are registered, and `parent` is not among the
    /// descendants of `child`.
    pub fn set_parent(&mut self, child: ContainerIdx, parent: Option<ContainerIdx>)
        requires
            old(self).wf(),
            old(self).may_set_parent(child, parent),
        ensures
            final(self).wf(),
            final(self).extends(old(self)),
            final(self).containers() == old(self).containers(),
            final(self).roots() == old(self).roots(),
            final(self).text() == old(self).text(),
            final(self).values() == old(self).values(),
            forall|key: ContainerKey| final(self).lookup(key) == old(self).lookup(key),
            final(self).parent_entry(child) == old(self).parent_after(child, parent),
            forall|c: ContainerIdx|
                c != child ==> final(self).parent_entry(c) == old(self).parent_entry(c),
    {
        let ghost before = *self;
        if self.get_parent(child).is_some() {
            return ;
        }
        let raw = match parent {
            Some(p) => Some(p.0),
            None => None,
        };
        parents_insert(&mut self.parents, child.0, raw);
        proof {
            before.lemma_parent_set(self, child, parent);
        }
    }

    /// Whether `parent` can be set as the parent of `child`.
    pub fn can_set_parent(&self, child: ContainerIdx, parent: Option<ContainerIdx>) -> (r: bool)
        requires
            self.wf(),
        ensures
            r == self.may_set_parent(child, parent),
    {
        if !self.has_handle(child) {
            return false;
        }
        match parent {
            None => true,
            Some(p) => self.has_handle(p) && (self.get_parent(child).is_some() || !self.is_ancestor(
                child,
                p,
            )),
        }
    }

    /// Whether a container was registered under the handle.
    pub fn has_handle(&self, c: ContainerIdx) -> (r: bool)
        requires
            self.wf(),
        ensures
            r == self.is_registered(c),
    {
        let i = c.to_index() as usize;
        if i >= self.container_idx_to_id.len() {
            return false;
        }
        let handle = ContainerIdx::from_index_and_type(
            i as u32,
            self.container_idx_to_id[i].container_type(),
        );
        handle.0 == c.0
    }

    /// The arena is well-formed once a parent has been recorded for a
    /// registered container that had none, and is as it was in all else.
    proof fn lemma_parent_set(
        &self,
        after: &SharedArena,
        child: ContainerIdx,
        parent: Option<ContainerIdx>,
    )
        requires
            self.wf(),
            self.may_set_parent(child, parent),
            self.parent_of(child) is None,
            after.str == self.str,
            after.container_idx_to_id == self.container_idx_to_id,
            after.container_id_to_idx == self.container_id_to_idx,
            after.parent_entry(child) == Some(parent),
            forall|c: ContainerIdx| c != child ==> after.parent_entry(c) == self.parent_entry(c),
        ensures
            after.wf(),
            forall|key: ContainerKey| after.lookup(key) == self.lookup(key),
    {
        match parent {
            Some(p) => {
                self.lemma_forest_with(after, child, p);
            },
            None => {
                after.lemma_forest_kept(self);
            },
        }
        assert forall|c: ContainerIdx| #[trigger] after.parent_entry(c) is Some implies after.is_registered(
            c,
        ) by {
            if c != child {
                assert(self.parent_entry(c) is Some);
            }
        }
        assert forall|c: ContainerIdx| (#[trigger] after.parent_of(c)) is Some implies after.is_registered(
            after.parent_of(c).unwrap(),
        ) by {
            if c != child {
                assert(self.parent_of(c) is Some);
            }
        }
        assert forall|i: int| 0 <= i < after.containers().len() implies after.lookup(
            (#[trigger] after.containers()[i]).key(),
        ) == Some(after.handle_of(i)) by {
            assert(self.lookup(self.containers()[i].key()) == Some(self.handle_of(i)));
        }
        assert forall|key: ContainerKey| #[trigger] after.lookup(key) is Some implies {
            let i = after.lookup(key).unwrap().index() as int;
            &&& i < after.containers().len()
            &&& after.containers()[i].key() == key
        } by {
            assert(self.lookup(key) is Some);
        }
    }

    /// Parents that form no cycle form none once a container without a
    /// parent has got one that does not have it among its ancestors.
    proof fn lemma_forest_with(&self, after: &SharedArena, child: ContainerIdx, p: ContainerIdx)
        requires
            self.is_forest(),
            self.parent_of(child) is None,
            !self.has_ancestor(p, child),
            after.parent_of(child) == Some(p),
            forall|c: ContainerIdx| c != child ==> after.parent_entry(c) == self.parent_entry(c),
        ensures
            after.is_forest(),
    {
        let rank = choose|rank: Map<ContainerIdx, nat>| #[trigger] self.ranked_by(rank);
        let bump = rank[p] + 1;
        let raised = Map::total(
            |x: ContainerIdx|
                if self.has_ancestor(x, child) {
                    rank[x] + bump
                } else {
                    rank[x]
                },
        );
        assert forall|c: ContainerIdx| (#[trigger] after.parent_of(c)) is Some implies raised[after.parent_of(
            c,
        ).unwrap()] < raised[c] by {
            let q = after.parent_of(c).unwrap();
            if c == child {
                assert(self.is_ancestor_chain(child, seq![child]));
                assert(seq![child].last() == child);
            } else {
                assert(self.parent_of(c) == Some(q));
                if self.has_ancestor(c, child) {
                    let chain = choose|chain: Seq<ContainerIdx>| #[trigger]
                        self.is_ancestor_chain(c, chain) && chain.last() == child;
                    assert(self.parent_of(chain[0]) == Some(chain[1]));
                    let rest = chain.drop_first();
                    assert forall|i: int| 0 <= i < rest.len() - 1 implies self.parent_of(
                        #[trigger] rest[i],
                    ) == Some(rest[i + 1]) by {
                        assert(rest[i] == chain[i + 1]);
                    }
                    assert(self.is_ancestor_chain(q, rest));
                    assert(rest.last() == child);
                } else if self.has_ancestor(q, child) {
                    let chain = choose|chain: Seq<ContainerIdx>| #[trigger]
                        self.is_ancestor_chain(q, chain) && chain.last() == child;
                    let longer = seq![c] + chain;
                    assert forall|i: int| 0 <= i < longer.len() - 1 implies self.parent_of(
                        #[trigger] longer[i],
                    ) == Some(longer[i + 1]) by {
                        if i > 0 {
                            assert(longer[i] == chain[i - 1]);
                        }
                    }
                    assert(self.is_ancestor_chain(c, longer));
                    assert(longer.last() == child);
                }
            }
        }
        assert(after.ranked_by(raised));
    }

    /// The parent recorded for `child`, if one is recorded and it is a
    /// container.
    pub fn get_parent(&self, child: ContainerIdx) -> (parent: Option<ContainerIdx>)
        ensures
            parent == (match self.parent_entry(child) {
                Some(Some(p)) => Some(p),
                _ => None,
            }),
    {
        match parents_get(&self.parents, child.0) {
            Some(Some(p)) => Some(ContainerIdx(p)),
            _ => None,
        }
    }

    /// `container` and then each of its ancestors, nearest first, each with a
    /// flag that is set for `container` itself only. The walk ends at the
    /// container that has no parent container.
    pub fn with_ancestors(&self, container: ContainerIdx) -> (visited: Vec<(ContainerIdx, bool)>)
        requires
            self.wf(),
        ensures
            self.is_ancestor_chain(container, visited@.map_values(|v: (ContainerIdx, bool)| v.0)),
            forall|i: int| 0 <= i < visited@.len() ==> (#[trigger] visited@[i]).1 == (i == 0),
            self.parent_of(visited@.last().0) is None,
    {
        let ghost rank = choose|rank: Map<ContainerIdx, nat>| #[trigger] self.ranked_by(rank);
        let mut visited: Vec<(ContainerIdx, bool)> = Vec::new();
        visited.push((container, true));
        let mut current = container;
        loop
            invariant
                self.ranked_by(rank),
                visited@.len() >= 1,
                current == visited@.last().0,
                self.is_ancestor_chain(
                    container,
                    visited@.map_values(|v: (ContainerIdx, bool)| v.0),
                ),
                forall|i: int| 0 <= i < visited@.len() ==> (#[trigger] visited@[i]).1 == (i == 0),
            decreases rank[current],
        {
            match self.get_parent(current) {
                Some(p) => {
                    let ghost chain = visited@.map_values(|v: (ContainerIdx, bool)| v.0);
                    proof {
                        assert(self.parent_of(current) == Some(p));
                    }
                    visited.push((p, false));
                    proof {
                        let next = visited@.map_values(|v: (ContainerIdx, bool)| v.0);
                        assert(next =~= chain.push(p));
                    }
                    current = p;
                },
                None => {
                    return visited;
                },
            }
        }
    }

    /// A chain of ancestors is the beginning of the walk from the same
    /// container to the one without a parent.
    proof fn lemma_chain_in_walk(
        &self,
        start: ContainerIdx,
        chain: Seq<ContainerIdx>,
        walk: Seq<ContainerIdx>,
        k: int,
    )
        requires
            self.is_ancestor_chain(start, chain),
            self.is_ancestor_chain(start, walk),
            self.parent_of(walk.last()) is None,
            0 <= k < chain.len(),
        ensures
            k < walk.len(),
            chain[k] == walk[k],
        decreases k,
    {
        if k > 0 {
            self.lemma_chain_in_walk(start, chain, walk, k - 1);
            assert(self.parent_of(chain[k - 1]) == Some(chain[k]));
            if k < walk.len() {
                assert(self.parent_of(walk[k - 1]) == Some(walk[k]));
            }
        }
    }

    /// Whether `ancestor` is the container `of` itself or one of its
    /// ancestors.
    pub fn is_ancestor(&self, ancestor: ContainerIdx, of: ContainerIdx) -> (r: bool)
        requires
            self.wf(),
        ensures
            r == self.has_ancestor(of, ancestor),
    {
        let visited = self.with_ancestors(of);
        let ghost walk = visited@.map_values(|v: (ContainerIdx, bool)| v.0);
        let mut i: usize = 0;
        while i < visited.len()
            invariant
                i <= visited@.len(),
                walk == visited@.map_values(|v: (ContainerIdx, bool)| v.0),
                self.is_ancestor_chain(of, walk),
                forall|j: int| 0 <= j < i ==> walk[j] != ancestor,
            decreases visited@.len() - i,
        {
            if visited[i].0.0 == ancestor.0 {
                proof {
                    let part = walk.subrange(0, i + 1);
                    assert(walk[i as int] == ancestor);
                    assert forall|j: int| 0 <= j < part.len() - 1 implies self.parent_of(
                        #[trigger] part[j],
                    ) == Some(part[j + 1]) by {
                        assert(part[j] == walk[j]);
                    }
                    assert(self.is_ancestor_chain(of, part));
                    assert(part.last() == ancestor);
                }
                return true;
            }
            i = i + 1;
        }
        proof {
            if self.has_ancestor(of, ancestor) {
                let chain = choose|chain: Seq<ContainerIdx>| #[trigger]
                    self.is_ancestor_chain(of, chain) && chain.last() == ancestor;
                self.lemma_chain_in_walk(of, chain, walk, chain.len() - 1);
            }
        }
        false
    }

    /// A view of the bytes of the characters `start..end` of the interned
    /// text.
    pub fn slice_by_unicode(&self, start: usize, end: usize) -> (slice: BytesSlice)
        requires
            self.wf(),
            start <= end <= self.text().len(),
        ensures
            slice_bytes(slice) == encode_utf8(self.text().subrange(start as int, end as int)),
            slice_offset(slice) == byte_offset_of(self.text(), start as int),
    {
        self.str.slice_by_unicode(start, end)
    }

    /// A view of the bytes `start..end` of the interned text.
    pub fn slice_by_utf8(&self, start: usize, end: usize) -> (slice: BytesSlice)
        requires
            self.wf(),
            start <= end <= utf8_len(self.text()),
        ensures
            slice_bytes(slice) == encode_utf8(self.text()).subrange(start as int, end as int),
            slice_offset(slice) == start,
    {
        proof {
            self.str.lemma_raw_is_encoding();
        }
        self.str.slice_bytes(start, end)
    }

    /// The characters `range` of the interned text, as a string of its own.
    pub fn slice_str_by_unicode_range(&self, range: Range<usize>) -> (s: String)
        requires
            self.wf(),
            range.start <= range.end <= self.text().len(),
        ensures
            s@ == self.text().subrange(range.start as int, range.end as int),
    {
        _slice_str(range, &self.str)
    }

    /// The characters `range` of the interned text, borrowed from the arena.
    pub fn with_text_slice(&self, range: Range<usize>) -> (s: &str)
        requires
            self.wf(),
            range.start <= range.end <= self.text().len(),
        ensures
            s@ == self.text().subrange(range.start as int, range.end as int),
    {
        self.str.slice_str_by_unicode(range.start, range.end)
    }

    pub fn get_value(&self, idx: usize) -> (v: Option<LoroValue>)
        ensures
            v == (if idx < self.values().len() {
                Some(self.values()[idx as int])
            } else {
                None
            }),
    {
        if idx < self.values.len() {
            Some(self.values[idx].duplicate())
        } else {
            None
        }
    }

    /// The interned values `range`. A range that is not there, in whole or
    /// in part, gives nothing.
    pub fn get_values(&self, range: Range<usize>) -> (vs: Vec<LoroValue>)
        ensures
            vs@ == (if range.start <= range.end <= self.values().len() {
                self.values().subrange(range.start as int, range.end as int)
            } else {
                Seq::empty()
            }),
    {
        let mut vs: Vec<LoroValue> = Vec::new();
        if range.start > range.end || range.end > self.values.len() {
            return vs;
        }
        let mut i = range.start;
        while i < range.end
            invariant
                range.start <= i <= range.end <= self.values@.len(),
                vs@ == self.values@.subrange(range.start as int, i as int),
            decreases range.end - i,
        {
            vs.push(self.values[i].duplicate());
            proof {
                assert(vs@ =~= self.values@.subrange(range.start as int, i + 1));
            }
            i = i + 1;
        }
        vs
    }

    /// Whether nothing at all has been registered or interned.
    pub fn is_empty(&self) -> (r: bool)
        requires
            self.wf(),
        ensures
            r == (self.containers().len() == 0 && self.text().len() == 0 && self.values().len()
                == 0 && (forall|key: ContainerKey| self.lookup(key) is None) && (forall|
                c: ContainerIdx,
            | self.parent_entry(c) is None)),
    {
        let no_parents = parents_is_empty(&self.parents);
        proof {
            if no_parents {
                assert forall|c: ContainerIdx| self.parent_entry(c) is None by {
                    assert(!parent_entries(self.parents).contains_key(c.0));
                }
            } else {
                let k = choose|k: u32| parent_entries(self.parents).contains_key(k);
                assert(self.parent_entry(ContainerIdx(k)) is Some);
            }
            if id_index_is_empty_spec(self.container_id_to_idx) {
                assert forall|key: ContainerKey| self.lookup(key) is None by {
                    assert(!id_index_entries(self.container_id_to_idx).contains_key(key));
                }
            } else {
                let k = choose|k: ContainerKey|
                    id_index_entries(self.container_id_to_idx).contains_key(k);
                assert(self.lookup(k) is Some);
            }
        }
        self.container_idx_to_id.len() == 0 && id_index_is_empty(&self.container_id_to_idx)
            && self.str.is_empty() && self.values.len() == 0 && no_parents
    }

    /// The registered containers, in the order of their handles.
    pub fn export_containers(&self) -> (ids: Vec<ContainerID>)
        ensures
            ids@ == self.containers(),
    {
        let mut ids: Vec<ContainerID> = Vec::new();
        let mut i: usize = 0;
        while i < self.container_idx_to_id.len()
            invariant
                i <= self.container_idx_to_id@.len(),
                ids@ == self.container_idx_to_id@.subrange(0, i as int),
            decreases self.container_idx_to_id@.len() - i,
        {
            ids.push(self.container_idx_to_id[i].duplicate());
            proof {
                assert(ids@ =~= self.container_idx_to_id@.subrange(0, i + 1));
            }
            i = i + 1;
        }
        proof {
            assert(ids@ =~= self.container_idx_to_id@);
        }
        ids
    }

    /// For each registered container, in the order of the handles, the parent
    /// container recorded for it, if any.
    pub fn export_parents(&self) -> (parents: Vec<Option<ContainerIdx>>)
        requires
            self.wf(),
        ensures
            parents@.len() == self.containers().len(),
            forall|i: int|
                0 <= i < parents@.len() ==> #[trigger] parents@[i] == (match self.parent_entry(
                    self.handle_of(i),
                ) {
                    Some(Some(p)) => Some(p),
                    _ => None,
                }),
    {
        let mut parents: Vec<Option<ContainerIdx>> = Vec::new();
        let mut i: usize = 0;
        while i < self.container_idx_to_id.len()
            invariant
                self.wf(),
                i <= self.container_idx_to_id@.len(),
                parents@.len() == i,
                forall|j: int|
                    0 <= j < i ==> #[trigger] parents@[j] == (match self.parent_entry(
                        self.handle_of(j),
                    ) {
                        Some(Some(p)) => Some(p),
                        _ => None,
                    }),
            decreases self.container_idx_to_id@.len() - i,
        {
            let idx = ContainerIdx::from_index_and_type(
                i as u32,
                self.container_idx_to_id[i].container_type(),
            );
            parents.push(self.get_parent(idx));
            i = i + 1;
        }
        parents
    }

    /// The handles of the root containers, in the order of their
    /// registration.
    pub fn root_containers(&self) -> (roots: Vec<ContainerIdx>)
        ensures
            roots@ == self.roots(),
    {
        self.root_c_idx.clone()
    }
}

/// The container that holds the metadata of the tree node an operation is
/// about.
pub open spec fn meta_container_of(tree: TreeOp) -> ContainerID {
    ContainerID::Normal {
        peer: tree.target.peer,
        counter: tree.target.counter,
        container_type: ContainerType::Dict,
    }
}

/// Whether `op` is `content` once interned in an arena that held `values`
/// values and the text `text`: the payload is replaced by the place it took.
/// Text goes into the operation as a view of its bytes.
pub open spec fn interned_op(
    op: Op,
    content: ContentModel,
    counter: Counter,
    container: ContainerIdx,
    values: nat,
    text: Seq<char>,
) -> bool {
    &&& op.counter == counter
    &&& op.container == container
    &&& match content {
        ContentModel::DictSet { key, value } => {
            &&& op.content matches InnerContent::Dict(set)
            &&& set.key@ == key
            &&& set.value == (if value is Some {
                Some(values as u32)
            } else {
                None
            })
        },
        ContentModel::InsertData { values: payload, pos } => {
            &&& op.content matches InnerContent::List(InnerListOp::Insert { slice, pos: p })
            &&& slice == (SliceRange { start: values as u32, end: (values + payload.len()) as u32 })
            &&& p == pos
        },
        ContentModel::InsertText { text: payload, unicode_len, pos } => {
            &&& op.content matches InnerContent::List(
                InnerListOp::InsertText { slice, unicode_start, unicode_len: l, pos: p },
            )
            &&& slice_bytes(slice) == encode_utf8(payload)
            &&& slice_offset(slice) == utf8_len(text)
            &&& unicode_start == text.len()
            &&& l == unicode_len
            &&& p == pos
        },
        ContentModel::Delete { span } => {
            &&& op.content matches InnerContent::List(InnerListOp::Delete(s))
            &&& s == span
        },
        ContentModel::StyleStart { start, end, key, info } => {
            &&& op.content matches InnerContent::List(
                InnerListOp::StyleStart { start: a, end: b, key: k, info: f },
            )
            &&& a == start
            &&& b == end
            &&& k@ == key
            &&& f == info
        },
        ContentModel::StyleEnd => op.content matches InnerContent::List(InnerListOp::StyleEnd),
        ContentModel::Tree { op: tree } => {
            &&& op.content matches InnerContent::Tree(t)
            &&& t == tree
        },
        _ => false,
    }
}

/// The same, but text goes into the operation as its range of characters in
/// the arena.
pub open spec fn interned_op_by_range(
    op: Op,
    content: ContentModel,
    counter: Counter,
    container: ContainerIdx,
    values: nat,
    text: Seq<char>,
) -> bool {
    match content {
        ContentModel::InsertText { text: payload, unicode_len, pos } => {
            &&& op.counter == counter
            &&& op.container == container
            &&& op.content matches InnerContent::List(InnerListOp::Insert { slice, pos: p })
            &&& slice == (SliceRange {
                start: text.len() as u32,
                end: (text.len() + payload.len()) as u32,
            })
            &&& p == pos
        },
        _ => interned_op(op, content, counter, container, values, text),
    }
}

/// Holds the arena for a batch of conversions.
pub struct OpConverter<'a> {
    pub arena: &'a mut SharedArena,
}

impl<'a> OpConverter<'a> {
    /// Registers the container `id` if need be and interns `content`. Text
    /// goes into the operation as its range of characters in the arena.
    pub fn convert_single_op(
        &mut self,
        id: &ContainerID,
        _peer: PeerID,
        counter: Counter,
        _lamport: Lamport,
        content: RawOpContent,
    ) -> (op: Op)
        requires
            old(self).arena.wf(),
            content.wf(),
            old(self).arena.can_convert(*id, content@),
        ensures
            final(self).arena.wf(),
            final(self).arena.extends(old(self).arena),
            *final(final(self).arena) == *final(old(self).arena),
            exists|mid: SharedArena|
                {
                    &&& mid.registers(old(self).arena, *id, op.container)
                    &&& mid.text() == old(self).arena.text()
                    &&& mid.values() == old(self).arena.values()
                    &&& #[trigger] final(self).arena.interns(&mid, content@, op.container)
                },
            interned_op_by_range(
                op,
                content@,
                counter,
                op.container,
                old(self).arena.values().len(),
                old(self).arena.text(),
            ),
    {
        let ghost model = content@;
        let container = self.arena.register_container(id);
        let ghost mid = *self.arena;
        proof {
            lemma_payload(mid.values(), mid.text(), model);
        }
        let op = match content {
            RawOpContent::Dict(MapSet { key, value }) => {
                let value = match value {
                    Some(v) => Some(_alloc_value(&mut self.arena.values, v) as u32),
                    None => None,
                };
                Op { counter, container, content: InnerContent::Dict(InnerMapSet { key, value }) }
            },
            RawOpContent::List(list) => match list {
                ListOp::Insert { slice, pos } => match slice {
                    ListSlice::RawData(values) => {
                        let range = _alloc_values(&mut self.arena.values, &values);
                        Op {
                            counter,
                            container,
                            content: InnerContent::List(
                                InnerListOp::Insert {
                                    slice: SliceRange {
                                        start: range.start as u32,
                                        end: range.end as u32,
                                    },
                                    pos,
                                },
                            ),
                        }
                    },
                    ListSlice::RawStr { str, unicode_len: _ } => {
                        let slice = _alloc_str(&mut self.arena.str, str.as_str());
                        Op {
                            counter,
                            container,
                            content: InnerContent::List(
                                InnerListOp::Insert {
                                    slice: SliceRange {
                                        start: slice.start as u32,
                                        end: slice.end as u32,
                                    },
                                    pos,
                                },
                            ),
                        }
                    },
                    _ => unreached(),
                },
                ListOp::Delete(span) => Op {
                    counter,
                    container,
                    content: InnerContent::List(InnerListOp::Delete(span)),
                },
                ListOp::StyleStart { start, end, info, key } => Op {
                    counter,
                    container,
                    content: InnerContent::List(InnerListOp::StyleStart { start, end, info, key }),
                },
                ListOp::StyleEnd => Op {
                    counter,
                    container,
                    content: InnerContent::List(InnerListOp::StyleEnd),
                },
            },
            RawOpContent::Tree(tree) => {
                let meta_container_id = ContainerID::new_normal(
                    tree.target.id(),
                    ContainerType::Dict,
                );
                self.arena.register_child(&meta_container_id, container);
                Op { container, counter, content: InnerContent::Tree(tree) }
            },
        };
        proof {
            if !(model is Tree) {
                self.arena.lemma_wf_kept(&mid);
            }
            assert(self.arena.interns(&mid, model, op.container));
        }
        op
    }
}

/// Appending no payload changes nothing; the length of a text is bounded by
/// the number of its bytes.
proof fn lemma_payload(values: Seq<LoroValue>, text: Seq<char>, model: ContentModel)
    ensures
        values + Seq::<LoroValue>::empty() == values,
        text + Seq::<char>::empty() == text,
        model matches ContentModel::DictSet { value: Some(v), .. } ==> values + seq![v]
            == values.push(v),
        model.text_payload().len() <= utf8_len(model.text_payload()),
        text.len() <= utf8_len(text),
{
    assert(values + Seq::<LoroValue>::empty() =~= values);
    assert(text + Seq::<char>::empty() =~= text);
    if let ContentModel::DictSet { value: Some(v), .. } = model {
        assert(values + seq![v] =~= values.push(v));
    }
    crate::text_metrics::lemma_counts_of_encoding(model.text_payload());
    crate::text_metrics::lemma_counts_of_encoding(text);
}

impl SharedArena {
    /// Whether the arena has room for the payload of `content`, and the
    /// content is of a kind that carries its payload.
    pub open spec fn can_intern(&self, content: ContentModel) -> bool {
        &&& content.is_raw()
        &&& utf8_len(self.text()) + utf8_len(content.text_payload()) <= POOL_LIMIT
        &&& self.values().len() + content.value_payload().len() < UNKNOWN_START
        &&& content matches ContentModel::InsertText { pos, .. } ==> pos <= u32::MAX
        &&& content matches ContentModel::Tree { op } ==> (self.lookup(
            meta_container_of(op).key(),
        ) is None ==> self.containers().len() < MAX_CONTAINERS)
    }

    /// Whether the arena has room for an operation on the container `id`
    /// with this content: for the container, where it is not registered, for
    /// the payload, and for both containers where the operation registers
    /// one of its own beside it.
    pub open spec fn can_convert(&self, id: ContainerID, content: ContentModel) -> bool {
        &&& self.can_intern(content)
        &&& self.lookup(id.key()) is None ==> self.containers().len() < MAX_CONTAINERS
        &&& content matches ContentModel::Tree { op } ==> (self.lookup(id.key()) is None
            && self.lookup(meta_container_of(op).key()) is None && meta_container_of(op).key()
            != id.key() ==> self.containers().len() + 1 < MAX_CONTAINERS)
    }

    /// Whether the content is well-formed and the arena has room for its
    /// payload.
    pub fn can_intern_op(&self, content: &RawOpContent) -> (r: bool)
        requires
            self.wf(),
        ensures
            r == (content.wf() && self.can_intern(content@)),
    {
        proof {
            lemma_counts_of_encoding(Seq::<char>::empty());
            self.str.lemma_raw_is_encoding();
        }
        let count = self.container_idx_to_id.len();
        let values = self.values.len();
        let limit = UNKNOWN_START as usize;
        match content {
            RawOpContent::Dict(set) => match &set.value {
                Some(_) => values < limit - 1,
                None => values < limit,
            },
            RawOpContent::List(list) => match list {
                ListOp::Insert { slice, pos } => match slice {
                    ListSlice::RawData(data) => values < limit && data.len() < limit - values,
                    ListSlice::RawStr { str, unicode_len } => {
                        let bytes = str.as_str().as_bytes();
                        proof {
                            vstd::utf8::encode_utf8_valid_utf8(str@);
                            vstd::utf8::encode_utf8_decode_utf8(str@);
                        }
                        let (chars, _) = measure(bytes);
                        chars == *unicode_len && values < limit && *pos <= u32::MAX as usize
                            && bytes.len() <= POOL_LIMIT && self.str.len_bytes() <= POOL_LIMIT
                            - bytes.len()
                    },
                    _ => false,
                },
                ListOp::Delete(span) => values < limit && span.len != 0 && span.len > isize::MIN
                    && (if span.len > 0 {
                    span.pos >= 0 && span.pos <= isize::MAX - span.len
                } else {
                    span.pos < isize::MAX && span.pos + 1 >= -span.len
                }),
                ListOp::StyleStart { start, end, .. } => values < limit && *start <= *end,
                ListOp::StyleEnd => values < limit,
            },
            RawOpContent::Tree(tree) => {
                let meta = ContainerID::new_normal(tree.target.id(), ContainerType::Dict);
                let meta_known = self.id_to_idx(&meta).is_some();
                values < limit && (meta_known || count < MAX_CONTAINERS as usize)
            },
        }
    }

    /// Whether an operation on the container `id` with this content can be
    /// converted: the content is well-formed, and the arena has room for it
    /// and for the container.
    pub fn can_convert_op(&self, id: &ContainerID, content: &RawOpContent) -> (r: bool)
        requires
            self.wf(),
        ensures
            r == (content.wf() && self.can_convert(*id, content@)),
    {
        if !self.can_intern_op(content) {
            return false;
        }
        let known = self.id_to_idx(id).is_some();
        let count = self.container_idx_to_id.len();
        if !known && count >= MAX_CONTAINERS as usize {
            return false;
        }
        match content {
            RawOpContent::Tree(tree) => {
                let meta = ContainerID::new_normal(tree.target.id(), ContainerType::Dict);
                let meta_known = self.id_to_idx(&meta).is_some();
                let key = id.to_key();
                let same = !key.0 && key.2 == tree.target.peer && key.3 == tree.target.counter
                    && key.4 == ContainerType::Dict.to_tag();
                known || meta_known || same || count + 1 < MAX_CONTAINERS as usize
            },
            _ => true,
        }
    }

    /// What interning the payload of `content` does: `self` is `before` with
    /// the payload appended. An operation on a tree node also registers the
    /// container of the node's metadata, as a child of `container`.
    pub open spec fn interns(
        &self,
        before: &SharedArena,
        content: ContentModel,
        container: ContainerIdx,
    ) -> bool {
        &&& self.text() == before.text() + content.text_payload()
        &&& self.values() == before.values() + content.value_payload()
        &&& match content {
            ContentModel::Tree { op } => self.registers_child(
                before,
                meta_container_of(op),
                container,
            ),
            _ => self.same_registry(before),
        }
    }

    /// Hands the arena over for a batch of conversions.
    pub fn with_op_converter(&mut self) -> (converter: OpConverter<'_>)
        ensures
            *converter.arena == *old(self),
            *final(converter.arena) == *final(self),
    {
        OpConverter { arena: self }
    }

    /// Registers `container` if need be and interns `content`.
    pub fn convert_single_op(
        &mut self,
        container: &ContainerID,
        peer: PeerID,
        counter: Counter,
        lamport: Lamport,
        content: RawOpContent,
    ) -> (op: Op)
        requires
            old(self).wf(),
            content.wf(),
            old(self).can_convert(*container, content@),
        ensures
            final(self).wf(),
            final(self).extends(old(self)),
            exists|mid: SharedArena|
                {
                    &&& mid.registers(old(self), *container, op.container)
                    &&& mid.text() == old(self).text()
                    &&& mid.values() == old(self).values()
                    &&& #[trigger] final(self).interns(&mid, content@, op.container)
                },
            interned_op(
                op,
                content@,
                counter,
                op.container,
                old(self).values().len(),
                old(self).text(),
            ),
    {
        let container = self.register_container(container);
        let ghost mid = *self;
        let op = self.inner_convert_op(content, peer, counter, lamport, container);
        proof {
            assert(self.interns(&mid, content@, op.container));
        }
        op
    }

    /// Interns `content` for the container `container`, which is registered
    /// where the operation registers a container of its own under it.
    pub fn inner_convert_op(
        &mut self,
        content: RawOpContent,
        _peer: PeerID,
        counter: Counter,
        _lamport: Lamport,
        container: ContainerIdx,
    ) -> (op: Op)
        requires
            old(self).wf(),
            content.wf(),
            old(self).can_intern(content@),
            content@ is Tree ==> old(self).is_registered(container),
        ensures
            final(self).wf(),
            final(self).extends(old(self)),
            final(self).interns(old(self), content@, container),
            interned_op(
                op,
                content@,
                counter,
                container,
                old(self).values().len(),
                old(self).text(),
            ),
    {
        proof {
            lemma_payload(self.values(), self.text(), content@);
        }
        match content {
            RawOpContent::Dict(MapSet { key, value }) => {
                let value = match value {
                    Some(v) => Some(self.alloc_value(v) as u32),
                    None => None,
                };
                Op { counter, container, content: InnerContent::Dict(InnerMapSet { key, value }) }
            },
            RawOpContent::List(list) => match list {
                ListOp::Insert { slice, pos } => match slice {
                    ListSlice::RawData(values) => {
                        let range = self.alloc_values(&values);
                        Op {
                            counter,
                            container,
                            content: InnerContent::List(
                                InnerListOp::Insert {
                                    slice: SliceRange {
                                        start: range.start as u32,
                                        end: range.end as u32,
                                    },
                                    pos,
                                },
                            ),
                        }
                    },
                    ListSlice::RawStr { str, unicode_len } => {
                        let (slice, start) = self.alloc_str_with_slice(str.as_str());
                        Op {
                            counter,
                            container,
                            content: InnerContent::List(
                                InnerListOp::InsertText {
                                    slice,
                                    unicode_start: start as u32,
                                    unicode_len: unicode_len as u32,
                                    pos: pos as u32,
                                },
                            ),
                        }
                    },
                    _ => unreached(),
                },
                ListOp::Delete(span) => Op {
                    counter,
                    container,
                    content: InnerContent::List(InnerListOp::Delete(span)),
                },
                ListOp::StyleStart { start, end, info, key } => Op {
                    counter,
                    container,
                    content: InnerContent::List(InnerListOp::StyleStart { start, end, key, info }),
                },
                ListOp::StyleEnd => Op {
                    counter,
                    container,
                    content: InnerContent::List(InnerListOp::StyleEnd),
                },
            },
            RawOpContent::Tree(tree) => {
                let meta_container_id = ContainerID::new_normal(
                    tree.target.id(),
                    ContainerType::Dict,
                );
                self.register_child(&meta_container_id, container);
                Op { container, counter, content: InnerContent::Tree(tree) }
            },
        }
    }

    /// Interns the content of `op`.
    pub fn convert_raw_op(&mut self, op: &RawOp) -> (r: Op)
        requires
            old(self).wf(),
            op.content.wf(),
            old(self).can_intern(op.content@),
            op.content@ is Tree ==> old(self).is_registered(op.container),
        ensures
            final(self).wf(),
            final(self).extends(old(self)),
            final(self).interns(old(self), op.content@, op.container),
            interned_op(
                r,
                op.content@,
                op.id.counter,
                op.container,
                old(self).values().len(),
                old(self).text(),
            ),
    {
        self.inner_convert_op(
            op.content.duplicate(),
            op.id.peer,
            op.id.counter,
            op.lamport,
            op.container,
        )
    }
}

/// Whether a map from container keys holds nothing.
pub open spec fn id_index_is_empty_spec(m: FxHashMap<(bool, String, u64, i32, u8), u32>) -> bool {
    forall|k: ContainerKey| !id_index_entries(m).contains_key(k)
}

/// Appends copies of `values` to the interned values, in order, and returns
/// the positions they took.
pub fn _alloc_values(values_lock: &mut Vec<LoroValue>, values: &Vec<LoroValue>) -> (r: Range<
    usize,
>)
    ensures
        final(values_lock)@ == old(values_lock)@ + values@,
        r.start == old(values_lock)@.len(),
        r.end == final(values_lock)@.len(),
{
    let start = values_lock.len();
    let mut i: usize = 0;
    while i < values.len()
        invariant
            i <= values@.len(),
            values_lock@ == old(values_lock)@ + values@.subrange(0, i as int),
        decreases values@.len() - i,
    {
        values_lock.push(values[i].duplicate());
        proof {
            assert(values_lock@ =~= old(values_lock)@ + values@.subrange(0, i + 1));
        }
        i = i + 1;
    }
    proof {
        assert(values@.subrange(0, i as int) =~= values@);
    }
    start..values_lock.len()
}

/// Appends one value to the interned values and returns its position.
pub fn _alloc_value(values_lock: &mut Vec<LoroValue>, value: LoroValue) -> (at: usize)
    ensures
        final(values_lock)@ == old(values_lock)@.push(value),
        at == old(values_lock)@.len(),
{
    values_lock.push(value);
    values_lock.len() - 1
}

/// Interns `str` and says where it landed.
pub fn _alloc_str(text_lock: &mut StrArena, str: &str) -> (r: StrAllocResult)
    requires
        old(text_lock).wf(),
        utf8_len(old(text_lock).text()) + utf8_len(str@) <= POOL_LIMIT,
    ensures
        final(text_lock).wf(),
        final(text_lock).text() == old(text_lock).text() + str@,
        r.start == old(text_lock).text().len(),
        r.end == final(text_lock).text().len(),
        r.utf16_len == utf16_len(str@),
{
    let start = text_lock.len_unicode();
    let start_wchars = text_lock.len_utf16();
    proof {
        crate::text_metrics::lemma_utf16_len_concat(text_lock.text(), str@);
    }
    text_lock.intern(str);
    StrAllocResult {
        utf16_len: text_lock.len_utf16() - start_wchars,
        start,
        end: text_lock.len_unicode(),
    }
}

/// The characters `range` of the arena's text, as a string of its own.
pub fn _slice_str(range: Range<usize>, s: &StrArena) -> (ans: String)
    requires
        s.wf(),
        range.start <= range.end <= s.text().len(),
    ensures
        ans@ == s.text().subrange(range.start as int, range.end as int),
{
    let mut ans = String::new();
    ans.append(s.slice_str_by_unicode(range.start, range.end));
    proof {
        assert(Seq::<char>::empty() + s.text().subrange(range.start as int, range.end as int)
            =~= s.text().subrange(range.start as int, range.end as int));
    }
    ans
}

} // verus!
