//! The log of one peer's own operations: it numbers them, keeps them, and
//! keeps the handles of the containers they are about.

use crate::arena::SharedArena;
use crate::id::{ContainerID, ContainerIdx, Counter, PeerID, ID, MAX_CONTAINERS};
use crate::op::Op;
use vstd::prelude::*;

verus! {

/// The number of atoms the operations consist of.
pub open spec fn total_atoms(ops: Seq<Op>) -> nat
    decreases ops.len(),
{
    if ops.len() == 0 {
        0
    } else {
        total_atoms(ops.drop_last()) + ops.last().len()
    }
}

pub struct LogStore {
    this_client_id: PeerID,
    next_counter: Counter,
    ops: Vec<Op>,
    arena: SharedArena,
}

impl LogStore {
    /// The peer whose operations the log keeps.
    pub closed spec fn client(&self) -> PeerID {
        self.this_client_id
    }

    /// The peer whose operations the log keeps.
    pub fn this_client_id(&self) -> (peer: PeerID)
        ensures
            peer == self.client(),
    {
        self.this_client_id
    }

    /// The counter that the next operation of this peer gets.
    pub closed spec fn next_counter(&self) -> int {
        self.next_counter as int
    }

    /// The operations of this peer, in order.
    pub closed spec fn log(&self) -> Seq<Op> {
        self.ops@
    }

    /// The arena that keeps the handles of the containers.
    pub closed spec fn arena(&self) -> SharedArena {
        self.arena
    }

    pub closed spec fn wf(&self) -> bool {
        self.arena.wf() && self.next_counter >= 0
    }

    pub proof fn lemma_wf(&self)
        requires
            self.wf(),
        ensures
            self.arena().wf(),
            0 <= self.next_counter() <= i32::MAX,
    {
    }

    pub fn new(this_client_id: PeerID) -> (store: LogStore)
        ensures
            store.wf(),
            store.client() == this_client_id,
            store.next_counter() == 0,
            store.log() == Seq::<Op>::empty(),
            store.arena().containers() == Seq::<ContainerID>::empty(),
    {
        LogStore { this_client_id, next_counter: 0, ops: Vec::new(), arena: SharedArena::new() }
    }

    /// The identity that the next operation of this peer gets.
    pub open spec fn spec_next_id(&self) -> ID {
        ID { peer: self.client(), counter: self.next_counter() as i32 }
    }

    /// The identity that the next operation of this peer gets.
    #[verifier::when_used_as_spec(spec_next_id)]
    pub fn next_id(&self) -> (id: ID)
        ensures
            id == self.spec_next_id(),
    {
        ID { peer: self.this_client_id, counter: self.next_counter }
    }

    /// Whether the container is registered or can be.
    pub fn has_room_for(&self, id: &ContainerID) -> (r: bool)
        requires
            self.wf(),
        ensures
            r == (self.arena().lookup(id.key()) is None ==> self.arena().containers().len()
                < MAX_CONTAINERS),
    {
        self.arena.id_to_idx(id).is_some() || self.arena.container_count()
            < MAX_CONTAINERS as usize
    }

    /// Whether the log can number `len` more atoms.
    pub fn can_number(&self, len: usize) -> (r: bool)
        requires
            self.wf(),
        ensures
            r == (self.next_counter() + len <= i32::MAX),
    {
        len <= i32::MAX as usize && len as i64 + self.next_counter as i64 <= i32::MAX as i64
    }

    /// Takes in operations of this peer. The operations after them are
    /// numbered on from where these end.
    pub fn append_local_ops(&mut self, ops: Vec<Op>)
        requires
            old(self).wf(),
            forall|i: int| 0 <= i < ops@.len() ==> (#[trigger] ops@[i]).wf(),
            old(self).next_counter() + total_atoms(ops@) <= i32::MAX,
        ensures
            final(self).wf(),
            final(self).client() == old(self).client(),
            final(self).log() == old(self).log() + ops@,
            final(self).next_counter() == old(self).next_counter() + total_atoms(ops@),
            final(self).arena() == old(self).arena(),
    {
        let mut ops = ops;
        let ghost given = ops@;
        let mut total: usize = 0;
        let mut i: usize = 0;
        proof {
            assert(given.subrange(0, 0) =~= Seq::<Op>::empty());
            lemma_total_prefix(given, 0);
        }
        while i < ops.len()
            invariant
                ops@ == given,
                i <= given.len(),
                forall|j: int| 0 <= j < given.len() ==> (#[trigger] given[j]).wf(),
                total == total_atoms(given.subrange(0, i as int)),
                total <= total_atoms(given) <= i32::MAX,
            decreases given.len() - i,
        {
            proof {
                assert(given.subrange(0, i + 1).drop_last() =~= given.subrange(0, i as int));
                lemma_total_prefix(given, i + 1);
            }
            total = total + ops[i].atom_len();
            i = i + 1;
        }
        proof {
            assert(given.subrange(0, i as int) =~= given);
        }
        self.ops.append(&mut ops);
        self.next_counter = self.next_counter + total as i32;
    }

    /// The handle of the container, which is registered if need be.
    pub fn get_or_create_container_idx(&mut self, id: &ContainerID) -> (idx: ContainerIdx)
        requires
            old(self).wf(),
            old(self).arena().lookup(id.key()) is None ==> old(self).arena().containers().len()
                < MAX_CONTAINERS,
        ensures
            final(self).wf(),
            final(self).client() == old(self).client(),
            final(self).log() == old(self).log(),
            final(self).next_counter() == old(self).next_counter(),
            final(self).arena().registers(&old(self).arena(), *id, idx),
    {
        self.arena.register_container(id)
    }
}

/// The first operations consist of no more atoms than all of them.
pub proof fn lemma_total_prefix(ops: Seq<Op>, n: int)
    requires
        0 <= n <= ops.len(),
    ensures
        total_atoms(ops.subrange(0, n)) <= total_atoms(ops),
    decreases ops.len() - n,
{
    if n < ops.len() {
        lemma_total_prefix(ops, n + 1);
        assert(ops.subrange(0, n + 1).drop_last() =~= ops.subrange(0, n));
    } else {
        assert(ops.subrange(0, n) =~= ops);
    }
}

} // verus!
