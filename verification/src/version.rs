//! Version vectors: for each peer, how many of its atoms a version holds.

use crate::id::{Counter, CounterSpan, IdSpan, PeerID, ID};
use vstd::prelude::*;

verus! {

/// The counter recorded for `peer` in the entries, or zero.
pub open spec fn lookup(entries: Seq<(PeerID, Counter)>, peer: PeerID) -> int
    decreases entries.len(),
{
    if entries.len() == 0 {
        0
    } else if entries.last().0 == peer {
        entries.last().1 as int
    } else {
        lookup(entries.drop_last(), peer)
    }
}

/// Whether no peer occurs twice and every counter is positive.
pub open spec fn entries_wf(entries: Seq<(PeerID, Counter)>) -> bool {
    &&& forall|i: int| 0 <= i < entries.len() ==> (#[trigger] entries[i]).1 > 0
    &&& forall|i: int, j: int|
        0 <= i < j < entries.len() ==> (#[trigger] entries[i]).0 != (#[trigger] entries[j]).0
}

pub proof fn lemma_lookup_at(entries: Seq<(PeerID, Counter)>, i: int)
    requires
        entries_wf(entries),
        0 <= i < entries.len(),
    ensures
        lookup(entries, entries[i].0) == entries[i].1,
    decreases entries.len(),
{
    if i < entries.len() - 1 {
        lemma_lookup_at(entries.drop_last(), i);
    }
}

pub proof fn lemma_lookup_absent(entries: Seq<(PeerID, Counter)>, peer: PeerID)
    requires
        forall|i: int| 0 <= i < entries.len() ==> (#[trigger] entries[i]).0 != peer,
    ensures
        lookup(entries, peer) == 0,
    decreases entries.len(),
{
    if entries.len() > 0 {
        lemma_lookup_absent(entries.drop_last(), peer);
    }
}

pub proof fn lemma_lookup_nonnegative(entries: Seq<(PeerID, Counter)>, peer: PeerID)
    requires
        entries_wf(entries),
    ensures
        lookup(entries, peer) >= 0,
        lookup(entries, peer) <= i32::MAX,
        lookup(entries, peer) > 0 ==> exists|i: int|
            0 <= i < entries.len() && (#[trigger] entries[i]) == (peer, lookup(entries, peer) as i32),
    decreases entries.len(),
{
    if entries.len() > 0 {
        if entries.last().0 == peer {
            assert(entries[entries.len() - 1] == (peer, lookup(entries, peer) as i32));
        } else {
            lemma_lookup_nonnegative(entries.drop_last(), peer);
            if lookup(entries, peer) > 0 {
                let i = choose|i: int|
                    0 <= i < entries.drop_last().len() && (#[trigger] entries.drop_last()[i]) == (
                        peer,
                        lookup(entries.drop_last(), peer) as i32,
                    );
                assert(entries[i] == (peer, lookup(entries, peer) as i32));
            }
        }
    }
}

/// A version: for each peer the number of its atoms that the version holds,
/// which is the counter of the first atom it does not hold.
#[derive(Debug)]
pub struct VersionVector {
    entries: Vec<(PeerID, Counter)>,
}

impl VersionVector {
    /// The number of atoms of `peer` that the version holds.
    pub closed spec fn counter(&self, peer: PeerID) -> int {
        lookup(self.entries@, peer)
    }

    pub closed spec fn wf(&self) -> bool {
        entries_wf(self.entries@)
    }

    /// Whether the version holds the atom `id`.
    pub open spec fn includes(&self, id: ID) -> bool {
        id.counter < self.counter(id.peer)
    }

    /// Whether the version holds nothing.
    pub open spec fn spec_is_empty(&self) -> bool {
        forall|peer: PeerID| self.counter(peer) == 0
    }

    /// Whether the version holds everything that `other` holds.
    pub open spec fn covers(&self, other: &VersionVector) -> bool {
        forall|peer: PeerID| other.counter(peer) <= self.counter(peer)
    }

    /// Whether both versions hold the same.
    pub open spec fn same(&self, other: &VersionVector) -> bool {
        forall|peer: PeerID| other.counter(peer) == self.counter(peer)
    }

    pub proof fn lemma_counter_range(&self, peer: PeerID)
        requires
            self.wf(),
        ensures
            0 <= self.counter(peer) <= i32::MAX,
    {
        lemma_lookup_nonnegative(self.entries@, peer);
    }

    pub fn new() -> (vv: VersionVector)
        ensures
            vv.wf(),
            vv.spec_is_empty(),
    {
        let vv = VersionVector { entries: Vec::new() };
        proof {
            assert forall|peer: PeerID| vv.counter(peer) == 0 by {
                lemma_lookup_absent(vv.entries@, peer);
            }
        }
        vv
    }

    pub fn is_empty(&self) -> (r: bool)
        requires
            self.wf(),
        ensures
            r == self.spec_is_empty(),
    {
        proof {
            if self.entries@.len() > 0 {
                lemma_lookup_at(self.entries@, 0);
                assert(self.counter(self.entries@[0].0) > 0);
            } else {
                assert forall|peer: PeerID| self.counter(peer) == 0 by {
                    lemma_lookup_absent(self.entries@, peer);
                }
            }
        }
        self.entries.len() == 0
    }

    /// The place of `peer` among the entries, if it has one.
    fn find(&self, peer: PeerID) -> (at: Option<usize>)
        requires
            self.wf(),
        ensures
            match at {
                Some(i) => i < self.entries@.len() && self.entries@[i as int].0 == peer
                    && self.counter(peer) == self.entries@[i as int].1,
                None => self.counter(peer) == 0 && forall|i: int|
                    0 <= i < self.entries@.len() ==> (#[trigger] self.entries@[i]).0 != peer,
            },
    {
        let mut i: usize = 0;
        while i < self.entries.len()
            invariant
                self.wf(),
                i <= self.entries@.len(),
                forall|j: int| 0 <= j < i ==> (#[trigger] self.entries@[j]).0 != peer,
            decreases self.entries@.len() - i,
        {
            if self.entries[i].0 == peer {
                proof {
                    lemma_lookup_at(self.entries@, i as int);
                }
                return Some(i);
            }
            i = i + 1;
        }
        proof {
            lemma_lookup_absent(self.entries@, peer);
        }
        None
    }

    /// The counter recorded for `peer`, if the version holds any of its
    /// atoms.
    pub fn get(&self, peer: &PeerID) -> (c: Option<Counter>)
        requires
            self.wf(),
        ensures
            c == (if self.counter(*peer) > 0 {
                Some(self.counter(*peer) as i32)
            } else {
                None
            }),
    {
        match self.find(*peer) {
            Some(i) => Some(self.entries[i].1),
            None => None,
        }
    }

    pub fn includes_id(&self, id: ID) -> (r: bool)
        requires
            self.wf(),
        ensures
            r == self.includes(id),
    {
        match self.find(id.peer) {
            Some(i) => id.counter < self.entries[i].1,
            None => id.counter < 0,
        }
    }

    /// Makes the version hold exactly the first `end` atoms of `peer`.
    pub fn set_end(&mut self, peer: PeerID, end: Counter)
        requires
            old(self).wf(),
        ensures
            final(self).wf(),
            final(self).counter(peer) == (if end > 0 {
                end as int
            } else {
                0
            }),
            forall|p: PeerID| p != peer ==> final(self).counter(p) == old(self).counter(p),
    {
        let ghost before = self.entries@;
        match self.find(peer) {
            Some(i) => {
                let _ = self.entries.remove(i);
                proof {
                    let mid = self.entries@;
                    assert forall|p: PeerID| lookup(mid, p) == (if p == peer {
                        0
                    } else {
                        lookup(before, p)
                    }) by {
                        lemma_lookup_nonnegative(before, p);
                        if p == peer {
                            lemma_lookup_absent(mid, p);
                        } else if lookup(before, p) > 0 {
                            let j = choose|j: int|
                                0 <= j < before.len() && (#[trigger] before[j]) == (
                                    p,
                                    lookup(before, p) as i32,
                                );
                            let k = if j < i {
                                j
                            } else {
                                j - 1
                            };
                            assert(mid[k] == before[j]);
                            lemma_lookup_at(mid, k);
                        } else {
                            assert forall|k: int| 0 <= k < mid.len() implies (#[trigger] mid[k]).0
                                != p by {
                                let j = if k < i {
                                    k
                                } else {
                                    k + 1
                                };
                                assert(mid[k] == before[j]);
                                if before[j].0 == p {
                                    lemma_lookup_at(before, j);
                                }
                            }
                            lemma_lookup_absent(mid, p);
                        }
                    }
                }
            },
            None => {},
        }
        let ghost mid = self.entries@;
        assert(forall|p: PeerID| lookup(mid, p) == (if p == peer {
            0
        } else {
            lookup(before, p)
        }));
        if end > 0 {
            self.entries.push((peer, end));
            proof {
                assert(self.entries@.drop_last() =~= mid);
                assert forall|p: PeerID| p != peer implies lookup(self.entries@, p) == lookup(
                    before,
                    p,
                ) by {
                    assert(self.entries@.last() == (peer, end));
                    assert(lookup(self.entries@, p) == lookup(self.entries@.drop_last(), p));
                    assert(lookup(mid, p) == lookup(before, p));
                }
            }
        }
    }

    /// A copy that holds the same.
    pub fn duplicate(&self) -> (copy: VersionVector)
        requires
            self.wf(),
        ensures
            copy.wf(),
            copy.same(self),
    {
        let mut entries: Vec<(PeerID, Counter)> = Vec::new();
        let mut i: usize = 0;
        while i < self.entries.len()
            invariant
                i <= self.entries@.len(),
                entries@ == self.entries@.subrange(0, i as int),
            decreases self.entries@.len() - i,
        {
            entries.push(self.entries[i]);
            proof {
                assert(entries@ =~= self.entries@.subrange(0, i + 1));
            }
            i = i + 1;
        }
        proof {
            assert(entries@ =~= self.entries@);
        }
        VersionVector { entries }
    }

    /// Whether the version holds everything that `other` holds.
    pub fn includes_vv(&self, other: &VersionVector) -> (r: bool)
        requires
            self.wf(),
            other.wf(),
        ensures
            r == self.covers(other),
    {
        let mut i: usize = 0;
        while i < other.entries.len()
            invariant
                self.wf(),
                other.wf(),
                i <= other.entries@.len(),
                forall|j: int|
                    0 <= j < i ==> (#[trigger] other.entries@[j]).1 <= self.counter(
                        other.entries@[j].0,
                    ),
            decreases other.entries@.len() - i,
        {
            let (peer, counter) = other.entries[i];
            let mine = match self.find(peer) {
                Some(k) => self.entries[k].1,
                None => 0,
            };
            if mine < counter {
                proof {
                    lemma_lookup_at(other.entries@, i as int);
                }
                return false;
            }
            i = i + 1;
        }
        proof {
            assert forall|peer: PeerID| other.counter(peer) <= self.counter(peer) by {
                lemma_lookup_nonnegative(other.entries@, peer);
                lemma_lookup_nonnegative(self.entries@, peer);
                if other.counter(peer) > 0 {
                    let j = choose|j: int|
                        0 <= j < other.entries@.len() && (#[trigger] other.entries@[j]) == (
                            peer,
                            other.counter(peer) as i32,
                        );
                    assert(other.entries@[j].1 <= self.counter(other.entries@[j].0));
                }
            }
        }
        true
    }

    /// The peers of which the version holds atoms, with their counters.
    pub fn entries(&self) -> (e: &Vec<(PeerID, Counter)>)
        requires
            self.wf(),
        ensures
            entries_wf(e@),
            forall|peer: PeerID| lookup(e@, peer) == self.counter(peer),
    {
        &self.entries
    }
}

/// Spans of atoms, of any peers.
pub type IdSpanVector = Vec<IdSpan>;

} // verus!
