//! The plain-text container: the text as it stands, the pool its characters
//! live in, and the tracker by which operations that come from other peers
//! are turned into changes of the text.

use crate::byte_pool::POOL_LIMIT;
use crate::flat::{flat_prefix, lemma_flat_around, lemma_flat_step};
use crate::head_ids::{head_ids, head_new, head_push, head_to_vec, HeadIds};
use crate::id::{ContainerID, ContainerIdx, ContainerType, Counter, PeerID, ID, MAX_CONTAINERS};
use crate::log_store::LogStore;
use crate::id::{IdSpan, Lamport};
use crate::op::{
    ContentModel, InnerContent, InnerListOp, ListOp, ListSlice, Op, RawOpContent, SliceRange,
    UNKNOWN_START,
};
use crate::string_pool::{all_alive, covered_by, runs_len, runs_of, Alive, StringPool};
use crate::text_metrics::lemma_encode_concat;
use crate::effect_list::{
    lemma_units_of_effects, unit_effects, units_applied, units_fit, UnitEffect,
};
use crate::tracker::{effect_list, forwarded, retreated};
use crate::tracker_model::{
    atoms_below, content_below, effect_applied, effect_fits, effects_applied, effects_below,
    effects_fit, items_of, lemma_below_items, lemma_effects_concat, lemma_refated,
    lemma_shown_from_atoms, refated, shown_at, slice_content, Atom, Effect, BASE_PEER,
};
use crate::version::IdSpanVector;
use crate::text_metrics::utf8_len;
use crate::text_rope::{leaves_parts, slice_units, units_of, TextRope, TEXT_LIMIT};
use crate::tracker::Tracker;
use crate::value::LoroValue;
use crate::version::VersionVector;
use vstd::prelude::*;

verus! {

/// The character that stands at place `i`: the one the pool holds there, or
/// a blank where the content is gone.
pub open spec fn char_of(units: Seq<Option<u32>>, text: Seq<char>, i: int) -> char {
    match units[i] {
        Some(u) => text[u as int],
        None => ' ',
    }
}

/// The text that the places stand for.
pub open spec fn rendered(units: Seq<Option<u32>>, text: Seq<char>) -> Seq<char> {
    Seq::new(units.len(), |i: int| char_of(units, text, i))
}

/// Whether every place whose content is known lies within the first `n`
/// characters of the pool.
pub open spec fn units_within(units: Seq<Option<u32>>, n: int) -> bool {
    forall|i: int| 0 <= i < units.len() ==> (#[trigger] units[i] matches Some(u) ==> u < n)
}

/// Whether the content of every place is known.
pub open spec fn all_known(units: Seq<Option<u32>>) -> bool {
    forall|i: int| 0 <= i < units.len() ==> #[trigger] units[i] is Some
}

/// The text of places laid end to end is the text of each laid end to end,
/// and more text in the pool changes none of it.
pub proof fn lemma_rendered_concat(a: Seq<Option<u32>>, b: Seq<Option<u32>>, text: Seq<char>)
    ensures
        rendered(a + b, text) == rendered(a, text) + rendered(b, text),
{
    assert(rendered(a + b, text) =~= rendered(a, text) + rendered(b, text));
}

pub proof fn lemma_rendered_grown(units: Seq<Option<u32>>, text: Seq<char>, more: Seq<char>)
    requires
        units_within(units, text.len() as int),
    ensures
        rendered(units, text + more) == rendered(units, text),
{
    assert forall|i: int| 0 <= i < units.len() implies char_of(units, text + more, i) == char_of(
        units,
        text,
        i,
    ) by {
        assert(units[i] matches Some(u) ==> u < text.len());
    }
    assert(rendered(units, text + more) =~= rendered(units, text));
}

/// The text of a range of the pool is what the pool holds there.
pub proof fn lemma_rendered_slice(r: SliceRange, text: Seq<char>)
    requires
        r.wf(),
        !r.spec_is_unknown(),
        r.end <= text.len(),
    ensures
        rendered(slice_units(r), text) == text.subrange(r.start as int, r.end as int),
        units_within(slice_units(r), r.end as int),
        all_known(slice_units(r)),
{
    assert(rendered(slice_units(r), text) =~= text.subrange(r.start as int, r.end as int));
}

pub struct TextContainer {
    id: ContainerID,
    state: TextRope,
    raw_str: StringPool,
    tracker: Tracker,
    head: HeadIds,
}

impl TextContainer {
    /// The identity of the container.
    pub closed spec fn container_id(&self) -> ContainerID {
        self.id
    }

    /// What stands at each place of the text: the place of a character in
    /// the pool, or nothing where the content is gone.
    pub closed spec fn units(&self) -> Seq<Option<u32>> {
        self.state.units()
    }

    /// All text the container has ever been given.
    pub closed spec fn pool_text(&self) -> Seq<char> {
        self.raw_str.text()
    }

    /// For each character of the pool, whether it is held to be shown still.
    pub closed spec fn pool_alive(&self) -> Seq<bool> {
        self.raw_str.alive()
    }

    /// The text as a reader sees it.
    pub open spec fn value(&self) -> Seq<char> {
        rendered(self.units(), self.pool_text())
    }

    /// The tracker.
    pub closed spec fn tracker(&self) -> Tracker {
        self.tracker
    }

    /// The identities of the last atoms of the operations that the text
    /// rests on.
    pub closed spec fn head(&self) -> Seq<(PeerID, Counter)> {
        head_ids(self.head)
    }

    pub closed spec fn wf(&self) -> bool {
        &&& self.state.wf()
        &&& self.raw_str.wf()
        &&& self.tracker.wf()
        &&& units_within(self.state.units(), self.raw_str.text().len() as int)
        &&& forall|i: int|
            0 <= i < self.tracker.atoms().len() ==> ((#[trigger] self.tracker.atoms()[i]).unit matches Some(
                u,
            ) ==> u < self.raw_str.text().len())
    }

    /// What well-formedness says to the outside.
    pub proof fn lemma_wf(&self)
        requires
            self.wf(),
        ensures
            self.tracker().wf(),
            units_within(self.units(), self.pool_text().len() as int),
            self.units().len() <= TEXT_LIMIT,
            self.pool_text().len() <= utf8_len(self.pool_text()) <= POOL_LIMIT,
            self.pool_alive().len() == self.pool_text().len(),
    {
        self.state.lemma_wf();
        self.raw_str.lemma_wf();
    }

    pub fn new(id: ContainerID) -> (c: TextContainer)
        ensures
            c.wf(),
            c.container_id() == id,
            c.units() == Seq::<Option<u32>>::empty(),
            c.pool_text() == Seq::<char>::empty(),
            c.pool_alive() == Seq::<bool>::empty(),
            c.head() == Seq::<(PeerID, Counter)>::empty(),
            c.tracker().atoms() == Seq::<crate::tracker_model::Atom>::empty(),
            c.tracker().pairs() == Seq::<crate::tracker_model::DelPair>::empty(),
            c.tracker().all().spec_is_empty(),
    {
        let tracker = Tracker::new(VersionVector::new(), 0);
        proof {
            assert(tracker.atoms() =~= Seq::<crate::tracker_model::Atom>::empty());
        }
        TextContainer {
            id,
            raw_str: StringPool::new(),
            tracker,
            state: TextRope::new(),
            head: head_new(),
        }
    }

    /// What must hold for `text` to be inserted at place `pos`: the place is
    /// there, and the pool, the rope and the log have room.
    pub open spec fn can_insert(&self, store: &LogStore, pos: usize, text: Seq<char>) -> bool {
        &&& pos <= self.units().len()
        &&& utf8_len(self.pool_text()) + utf8_len(text) <= POOL_LIMIT
        &&& self.units().len() + text.len() <= TEXT_LIMIT
        &&& store.next_counter() + text.len() <= i32::MAX
        &&& store.arena().lookup(self.container_id().key()) is None ==> store.arena().containers().len()
            < MAX_CONTAINERS
    }

    /// Whether `text` can be inserted at place `pos`.
    pub fn fits_insert(&self, store: &LogStore, pos: usize, text: &str) -> (r: bool)
        requires
            self.wf(),
            store.wf(),
        ensures
            r == self.can_insert(store, pos, text@),
    {
        proof {
            self.lemma_wf();
            crate::text_metrics::lemma_counts_of_encoding(text@);
            vstd::utf8::encode_utf8_valid_utf8(text@);
            vstd::utf8::encode_utf8_decode_utf8(text@);
        }
        let raw = text.as_bytes();
        let bytes = raw.len();
        let held = self.state.len();
        if bytes > POOL_LIMIT || pos > held || self.raw_str.len_bytes() + bytes > POOL_LIMIT {
            return false;
        }
        let chars = crate::text_metrics::measure(raw).0;
        assert(chars == text@.len());
        assert(bytes == utf8_len(text@));
        held + chars <= TEXT_LIMIT && store.can_number(chars) && store.has_room_for(&self.id)
    }

    /// Whether `len` characters from place `pos` on can be deleted.
    pub fn fits_delete(&self, store: &LogStore, pos: usize, len: usize) -> (r: bool)
        requires
            self.wf(),
            store.wf(),
        ensures
            r == self.can_delete(store, pos, len),
    {
        proof {
            self.lemma_wf();
        }
        len <= self.state.len() && pos <= self.state.len() - len && store.can_number(len)
            && store.has_room_for(&self.id)
    }

    /// Inserts `text` before character `pos`, as an operation of this peer,
    /// and returns the identity of the operation. The text shows the
    /// insertion at once; the log gets the operation. Empty text is no
    /// operation.
    pub fn insert(&mut self, store: &mut LogStore, pos: usize, text: &str) -> (r: Option<ID>)
        requires
            old(self).wf(),
            old(store).wf(),
            text@.len() > 0 ==> old(self).can_insert(old(store), pos, text@),
        ensures
            final(self).wf(),
            final(store).wf(),
            final(self).container_id() == old(self).container_id(),
            final(self).tracker() == old(self).tracker(),
            final(self).pool_alive() == old(self).pool_alive() + all_alive(text@.len()),
            all_known(old(self).units()) ==> all_known(final(self).units()),
            text@.len() == 0 ==> r is None && final(self).units() == old(self).units()
                && final(self).pool_text() == old(self).pool_text() && final(self).head() == old(self).head() && *final(store) == *old(store),
            text@.len() > 0 ==> {
                let slice = SliceRange {
                    start: old(self).pool_text().len() as u32,
                    end: (old(self).pool_text().len() + text@.len()) as u32,
                };
                &&& r == Some(old(store).next_id())
                &&& final(self).pool_text() == old(self).pool_text() + text@
                &&& final(self).units() == old(self).units().subrange(0, pos as int) + slice_units(
                    slice,
                ) + old(self).units().subrange(pos as int, old(self).units().len() as int)
                &&& final(self).value() == old(self).value().subrange(0, pos as int) + text@
                    + old(self).value().subrange(pos as int, old(self).value().len() as int)
                &&& final(self).head() == seq![
                    (old(store).client(), (old(store).next_counter() + text@.len() - 1) as i32),
                ]
                &&& final(store).client() == old(store).client()
                &&& final(store).next_counter() == old(store).next_counter() + text@.len()
                &&& final(store).log().len() == old(store).log().len() + 1
                &&& final(store).log().subrange(0, old(store).log().len() as int) == old(store).log()
                &&& final(store).log().last().counter == old(store).next_counter()
                &&& final(store).log().last().content == InnerContent::List(
                    InnerListOp::Insert { slice, pos },
                )
                &&& final(store).arena().registers(
                    &old(store).arena(),
                    old(self).container_id(),
                    final(store).log().last().container,
                )
            },
    {
        if text.is_empty() {
            return None;
        }
        let ghost units = self.state.units();
        let ghost pool = self.raw_str.text();
        proof {
            self.lemma_wf();
            store.lemma_wf();
        }
        let id = store.next_id();
        let slice = self.raw_str.alloc_str(text);
        self.state.insert(pos, slice);
        let idx = store.get_or_create_container_idx(&self.id);
        let op = Op {
            counter: id.counter,
            container: idx,
            content: InnerContent::List(InnerListOp::Insert { slice, pos }),
        };
        let last_id = ID {
            peer: store.this_client_id(),
            counter: (op.counter as i64 + op.atom_len() as i64 - 1) as i32,
        };
        let ghost kept = op;
        let mut ops: Vec<Op> = Vec::new();
        ops.push(op);
        proof {
            reveal_with_fuel(crate::log_store::total_atoms, 2);
            assert(ops@.drop_last() =~= Seq::<Op>::empty());
            assert(ops@.last() == kept);
        }
        store.append_local_ops(ops);
        let mut head = head_new();
        head_push(&mut head, (last_id.peer, last_id.counter));
        self.head = head;
        proof {
            let a = units.subrange(0, pos as int);
            let c = units.subrange(pos as int, units.len() as int);
            let grown = pool + text@;
            assert(units =~= a + c);
            lemma_rendered_concat(a, c, pool);
            lemma_rendered_concat(a, slice_units(slice), grown);
            lemma_rendered_concat(a + slice_units(slice), c, grown);
            lemma_rendered_grown(a, pool, text@);
            lemma_rendered_grown(c, pool, text@);
            lemma_rendered_slice(slice, grown);
            assert(grown.subrange(slice.start as int, slice.end as int) =~= text@);
            let v = rendered(units, pool);
            assert(v.subrange(0, pos as int) =~= rendered(a, pool));
            assert(v.subrange(pos as int, v.len() as int) =~= rendered(c, pool));
            assert(head_ids(self.head) =~= seq![(last_id.peer, last_id.counter)]);
            assert(store.log().subrange(0, old(store).log().len() as int) =~= old(store).log());
        }
        Some(id)
    }

    /// What must hold for `len` characters from place `pos` on to be
    /// deleted: they are there, and the log has room.
    pub open spec fn can_delete(&self, store: &LogStore, pos: usize, len: usize) -> bool {
        &&& pos + len <= self.units().len()
        &&& store.next_counter() + len <= i32::MAX
        &&& store.arena().lookup(self.container_id().key()) is None ==> store.arena().containers().len()
            < MAX_CONTAINERS
    }

    /// Deletes `len` characters from character `pos` on, as an operation of
    /// this peer, and returns the identity of the operation. To delete
    /// nothing is no operation.
    pub fn delete(&mut self, store: &mut LogStore, pos: usize, len: usize) -> (r: Option<ID>)
        requires
            old(self).wf(),
            old(store).wf(),
            len > 0 ==> old(self).can_delete(old(store), pos, len),
        ensures
            final(self).wf(),
            final(store).wf(),
            final(self).container_id() == old(self).container_id(),
            final(self).tracker() == old(self).tracker(),
            final(self).pool_text() == old(self).pool_text(),
            final(self).pool_alive() == old(self).pool_alive(),
            all_known(old(self).units()) ==> all_known(final(self).units()),
            len == 0 ==> r is None && final(self).units() == old(self).units() && final(self).head() == old(self).head() && *final(store) == *old(store),
            len > 0 ==> {
                &&& r == Some(old(store).next_id())
                &&& final(self).units() == old(self).units().subrange(0, pos as int) + old(self).units().subrange(pos + len, old(self).units().len() as int)
                &&& final(self).value() == old(self).value().subrange(0, pos as int) + old(self).value().subrange(pos + len, old(self).value().len() as int)
                &&& final(self).head() == seq![
                    (old(store).client(), (old(store).next_counter() + len - 1) as i32),
                ]
                &&& final(store).client() == old(store).client()
                &&& final(store).next_counter() == old(store).next_counter() + len
                &&& final(store).log().len() == old(store).log().len() + 1
                &&& final(store).log().subrange(0, old(store).log().len() as int) == old(store).log()
                &&& final(store).log().last().counter == old(store).next_counter()
                &&& final(store).log().last().content == InnerContent::List(
                    InnerListOp::Delete(
                        crate::op::DeleteSpan { pos: pos as isize, len: len as isize },
                    ),
                )
                &&& final(store).arena().registers(
                    &old(store).arena(),
                    old(self).container_id(),
                    final(store).log().last().container,
                )
            },
    {
        if len == 0 {
            return None;
        }
        let ghost units = self.state.units();
        let ghost pool = self.raw_str.text();
        proof {
            self.lemma_wf();
            store.lemma_wf();
        }
        let id = store.next_id();
        let span = crate::op::DeleteSpan { pos: pos as isize, len: len as isize };
        let idx = store.get_or_create_container_idx(&self.id);
        let op = Op {
            counter: id.counter,
            container: idx,
            content: InnerContent::List(InnerListOp::Delete(span)),
        };
        let last_id = ID { peer: store.this_client_id(), counter: op.ctr_last() };
        let ghost kept = op;
        let mut ops: Vec<Op> = Vec::new();
        ops.push(op);
        proof {
            reveal_with_fuel(crate::log_store::total_atoms, 2);
            assert(ops@.drop_last() =~= Seq::<Op>::empty());
            assert(ops@.last() == kept);
        }
        store.append_local_ops(ops);
        self.state.delete_range(Some(pos), Some(pos + len));
        let mut head = head_new();
        head_push(&mut head, (last_id.peer, last_id.counter));
        self.head = head;
        proof {
            let a = units.subrange(0, pos as int);
            let c = units.subrange(pos + len, units.len() as int);
            lemma_rendered_concat(a, c, pool);
            let v = rendered(units, pool);
            assert(v.subrange(0, pos as int) =~= rendered(a, pool));
            assert(v.subrange(pos + len, v.len() as int) =~= rendered(c, pool));
            assert(head_ids(self.head) =~= seq![(last_id.peer, last_id.counter)]);
            assert(store.log().subrange(0, old(store).log().len() as int) =~= old(store).log());
        }
        Some(id)
    }

    /// Whether the content of some place is not known: whether one of the
    /// ranges the text is made of is a placeholder that is not empty.
    pub fn has_unknown(&self) -> (r: bool)
        requires
            self.wf(),
        ensures
            r == !all_known(self.units()),
    {
        let leaves = self.state.iter();
        let ghost parts = leaves_parts(leaves@);
        let ghost units = self.state.units();
        let mut k: usize = 0;
        proof {
            assert(parts.subrange(0, 0) =~= Seq::<Seq<Option<u32>>>::empty());
        }
        while k < leaves.len()
            invariant
                units == self.state.units(),
                units == units_of(leaves@),
                parts == leaves_parts(leaves@),
                forall|i: int| 0 <= i < leaves@.len() ==> (#[trigger] leaves@[i]).wf(),
                k <= leaves@.len(),
                all_known(crate::flat::flat(parts.subrange(0, k as int))),
            decreases leaves@.len() - k,
        {
            let leaf = leaves[k];
            proof {
                lemma_flat_step(parts, k as int);
                lemma_flat_around(parts, k as int);
            }
            if leaf.is_unknown() && leaf.atom_len() > 0 {
                proof {
                    let p = flat_prefix(parts, k as int) as int;
                    assert(units[p] == parts[k as int][0]);
                    assert(0 <= p < units.len());
                    assert(units[p] is None);
                    assert(!all_known(units));
                }
                return true;
            }
            proof {
                let done = crate::flat::flat(parts.subrange(0, k as int));
                let next = done + slice_units(leaf);
                assert forall|i: int| 0 <= i < next.len() implies #[trigger] next[i] is Some by {
                    if i < done.len() {
                        assert(done[i] is Some);
                    }
                }
            }
            k = k + 1;
        }
        proof {
            assert(parts.subrange(0, k as int) =~= parts);
        }
        false
    }

    /// The number of characters the pool holds.
    pub fn pool_len(&self) -> (n: usize)
        requires
            self.wf(),
        ensures
            n == self.pool_text().len(),
    {
        self.raw_str.len()
    }

    /// The ranges of the pool that the text is made of, in order.
    pub fn leaves(&self) -> (leaves: &Vec<SliceRange>)
        requires
            self.wf(),
        ensures
            units_of(leaves@) == self.units(),
    {
        self.state.iter()
    }

    /// The number of characters of the text.
    pub fn text_len(&self) -> (n: usize)
        requires
            self.wf(),
        ensures
            n == self.units().len(),
    {
        self.state.len()
    }

    /// Has the tracker look itself over.
    pub fn check(&mut self)
        requires
            old(self).wf(),
        ensures
            *final(self) == *old(self),
    {
        let _ = self.tracker.check();
    }

    /// The identity of the container.
    pub fn id(&self) -> (id: &ContainerID)
        ensures
            *id == self.container_id(),
    {
        &self.id
    }

    /// The kind of the container.
    pub fn type_(&self) -> (t: ContainerType)
        ensures
            t == ContainerType::Text,
    {
        ContainerType::Text
    }

    /// The identities of the last atoms of the operations that the text
    /// rests on.
    pub fn head_ids(&self) -> (ids: Vec<ID>)
        ensures
            ids@.len() == self.head().len(),
            forall|i: int|
                0 <= i < ids@.len() ==> (#[trigger] ids@[i]) == (ID {
                    peer: self.head()[i].0,
                    counter: self.head()[i].1,
                }),
    {
        let raw = head_to_vec(&self.head);
        let mut ids: Vec<ID> = Vec::new();
        let mut i: usize = 0;
        while i < raw.len()
            invariant
                raw@ == head_ids(self.head),
                i <= raw@.len(),
                ids@.len() == i,
                forall|j: int|
                    0 <= j < i ==> (#[trigger] ids@[j]) == (ID { peer: raw@[j].0, counter: raw@[j].1 }),
            decreases raw@.len() - i,
        {
            ids.push(ID { peer: raw[i].0, counter: raw[i].1 });
            i = i + 1;
        }
        ids
    }

    /// The text as a value. The content of every place must be known.
    pub fn get_value(&self) -> (v: LoroValue)
        requires
            self.wf(),
            all_known(self.units()),
        ensures
            v matches LoroValue::Str(s) && s@ == self.value(),
    {
        let leaves = self.state.iter();
        let ghost parts = leaves_parts(leaves@);
        let ghost text = self.raw_str.text();
        let ghost units = self.state.units();
        let mut ans_str = String::new();
        let mut k: usize = 0;
        proof {
            assert(parts.subrange(0, 0) =~= Seq::<Seq<Option<u32>>>::empty());
            assert(rendered(Seq::<Option<u32>>::empty(), text) =~= Seq::<char>::empty());
        }
        while k < leaves.len()
            invariant
                self.wf(),
                all_known(units),
                units == self.state.units(),
                units == units_of(leaves@),
                text == self.raw_str.text(),
                units_within(units, text.len() as int),
                parts == leaves_parts(leaves@),
                forall|i: int| 0 <= i < leaves@.len() ==> (#[trigger] leaves@[i]).wf(),
                k <= leaves@.len(),
                ans_str@ == rendered(crate::flat::flat(parts.subrange(0, k as int)), text),
            decreases leaves@.len() - k,
        {
            let leaf = leaves[k];
            proof {
                lemma_flat_step(parts, k as int);
                lemma_flat_around(parts, k as int);
                lemma_rendered_concat(
                    crate::flat::flat(parts.subrange(0, k as int)),
                    slice_units(leaf),
                    text,
                );
                if leaf.len() > 0 {
                    let p = flat_prefix(parts, k as int) as int;
                    assert(units[p] == parts[k as int][0]);
                    assert(units[p + leaf.len() - 1] == parts[k as int][leaf.len() - 1]);
                    assert(units[p] is Some);
                    assert(units[p + leaf.len() - 1] matches Some(u) ==> u < text.len());
                    lemma_rendered_slice(leaf, text);
                } else {
                    assert(rendered(slice_units(leaf), text) =~= Seq::<char>::empty());
                }
            }
            if leaf.atom_len() > 0 {
                let piece = self.raw_str.get_str(&leaf);
                ans_str.append(piece.as_str());
            } else {
                proof {
                    assert(ans_str@ + Seq::<char>::empty() =~= ans_str@);
                }
            }
            k = k + 1;
        }
        proof {
            assert(parts.subrange(0, k as int) =~= parts);
        }
        LoroValue::Str(ans_str)
    }
}

/// An operation as it travels between peers: its contents carry their text.
#[derive(Debug)]
pub struct RemoteOp {
    pub id: ID,
    pub contents: Vec<RawOpContent>,
}

/// An operation on a list with all that is known of it.
#[derive(Debug)]
pub struct RichOp {
    pub id: ID,
    pub lamport: Lamport,
    pub content: ListOp,
}

impl RichOp {
    /// The identity of the first atom.
    pub fn id_start(&self) -> (id: ID)
        ensures
            id == self.id,
    {
        self.id
    }

    /// The identity of the last atom.
    pub fn id_last(&self) -> (id: ID)
        requires
            self.content.wf(),
            self.content.len() >= 1,
            i32::MIN <= self.id.counter + self.content.len() - 1 <= i32::MAX,
        ensures
            id == (ID {
                peer: self.id.peer,
                counter: (self.id.counter + self.content.len() - 1) as i32,
            }),
    {
        ID {
            peer: self.id.peer,
            counter: (self.id.counter as i64 + self.content.atom_len() as i64 - 1) as i32,
        }
    }
}

pub open spec fn content_model_at(contents: Seq<RawOpContent>, i: int) -> ContentModel {
    contents[i]@
}

/// The contents, each as what it says.
pub open spec fn content_models(contents: Seq<RawOpContent>) -> Seq<ContentModel> {
    Seq::new(contents.len(), |i: int| content_model_at(contents, i))
}

/// The text that the contents carry, laid end to end.
pub open spec fn payloads(contents: Seq<ContentModel>) -> Seq<char>
    decreases contents.len(),
{
    if contents.len() == 0 {
        Seq::empty()
    } else {
        payloads(contents.drop_last()) + contents.last().text_payload()
    }
}

/// A content once its text has been taken into a pool that held `base`
/// characters: in place of the text it carries the range that the text took.
pub open spec fn import_one(c: ContentModel, base: nat) -> ContentModel {
    match c {
        ContentModel::InsertText { text, unicode_len, pos } => ContentModel::InsertSlice {
            range: SliceRange { start: base as u32, end: (base + text.len()) as u32 },
            pos,
        },
        _ => c,
    }
}

/// Whether a content can be taken in: if it is an insertion, it carries its
/// text or is a placeholder.
pub open spec fn importable(c: ContentModel) -> bool {
    !(c is InsertSlice) && !(c is InsertData)
}

/// What the first contents carry is the beginning of what all carry.
pub proof fn lemma_payloads_prefix(contents: Seq<ContentModel>, n: int)
    requires
        0 <= n <= contents.len(),
    ensures
        utf8_len(payloads(contents.subrange(0, n))) <= utf8_len(payloads(contents)),
        n < contents.len() ==> payloads(contents.subrange(0, n + 1)) == payloads(
            contents.subrange(0, n),
        ) + contents[n].text_payload(),
    decreases contents.len() - n,
{
    if n < contents.len() {
        lemma_payloads_prefix(contents, n + 1);
        assert(contents.subrange(0, n + 1).drop_last() =~= contents.subrange(0, n));
        lemma_encode_concat(payloads(contents.subrange(0, n)), contents[n].text_payload());
    } else {
        assert(contents.subrange(0, n) =~= contents);
    }
}

/// What one run of a range is sent as: its text if it is shown still, a
/// placeholder of its length if not.
pub open spec fn run_export(run: Alive, text: Seq<char>, at: nat, pos: nat) -> ContentModel {
    if run.kind() {
        ContentModel::InsertText {
            text: text.subrange(at as int, (at + run.len()) as int),
            unicode_len: run.len() as usize,
            pos: pos as usize,
        }
    } else {
        ContentModel::InsertUnknown { len: run.len() as usize, pos: pos as usize }
    }
}

/// What the runs of a range that begins at place `at` of the pool and was
/// inserted at place `pos` of the text are sent as, in order.
pub open spec fn runs_export(runs: Seq<Alive>, text: Seq<char>, at: nat, pos: nat) -> Seq<
    ContentModel,
>
    decreases runs.len(),
{
    if runs.len() == 0 {
        Seq::empty()
    } else {
        runs_export(runs.drop_last(), text, at, pos).push(
            run_export(
                runs.last(),
                text,
                at + runs_len(runs.drop_last()),
                pos + runs_len(runs.drop_last()),
            ),
        )
    }
}

/// What a content is sent as. An insertion of a range of the pool is sent
/// with its text; where dead text is to be left out, run by run, with a
/// placeholder for each run that is shown no longer. Anything else is sent
/// as it is.
pub open spec fn export_one(c: ContentModel, text: Seq<char>, alive: Seq<bool>, gc: bool) -> Seq<
    ContentModel,
> {
    match c {
        ContentModel::InsertSlice { range, pos } => if gc {
            runs_export(
                runs_of(alive.subrange(range.start as int, range.end as int)),
                text,
                range.start as nat,
                pos as nat,
            )
        } else {
            seq![
                ContentModel::InsertText {
                    text: text.subrange(range.start as int, range.end as int),
                    unicode_len: range.len() as usize,
                    pos,
                },
            ]
        },
        _ => seq![c],
    }
}

/// What the contents are sent as, in order.
pub open spec fn export_all(
    contents: Seq<ContentModel>,
    text: Seq<char>,
    alive: Seq<bool>,
    gc: bool,
) -> Seq<ContentModel>
    decreases contents.len(),
{
    if contents.len() == 0 {
        Seq::empty()
    } else {
        export_all(contents.drop_last(), text, alive, gc) + export_one(
            contents.last(),
            text,
            alive,
            gc,
        )
    }
}

/// Whether a content can be sent: an insertion of a range of the pool names
/// a range that the pool holds.
pub open spec fn exportable(c: ContentModel, pool_len: nat) -> bool {
    c matches ContentModel::InsertSlice { range, pos } ==> range.wf() && !range.spec_is_unknown()
        && range.end <= pool_len && pos + range.len() <= usize::MAX
}

impl TextContainer {
    /// Takes the text of an operation that came from another peer into the
    /// pool: each insertion that carries text comes to carry the range that
    /// its text took.
    pub fn to_import(&mut self, op: &mut RemoteOp)
        requires
            old(self).wf(),
            forall|i: int|
                0 <= i < old(op).contents@.len() ==> (#[trigger] old(op).contents@[i]).wf()
                    && importable(old(op).contents@[i]@),
            utf8_len(old(self).pool_text()) + utf8_len(
                payloads(content_models(old(op).contents@)),
            ) <= POOL_LIMIT,
        ensures
            final(self).wf(),
            final(self).container_id() == old(self).container_id(),
            final(self).units() == old(self).units(),
            final(self).tracker() == old(self).tracker(),
            final(self).head() == old(self).head(),
            final(self).pool_text() == old(self).pool_text() + payloads(
                content_models(old(op).contents@),
            ),
            final(self).pool_alive() == old(self).pool_alive() + all_alive(
                payloads(content_models(old(op).contents@)).len(),
            ),
            final(op).id == old(op).id,
            final(op).contents@.len() == old(op).contents@.len(),
            forall|i: int|
                0 <= i < old(op).contents@.len() ==> (#[trigger] final(op).contents@[i])@
                    == import_one(
                    old(op).contents@[i]@,
                    old(self).pool_text().len() + payloads(
                        content_models(old(op).contents@).subrange(0, i),
                    ).len(),
                ),
    {
        let ghost given = op.contents@;
        let ghost models = content_models(given);
        let ghost pool0 = self.raw_str.text();
        let ghost alive0 = self.raw_str.alive();
        let mut contents: Vec<RawOpContent> = Vec::new();
        let mut i: usize = 0;
        proof {
            self.lemma_wf();
            assert(models.subrange(0, 0) =~= Seq::<ContentModel>::empty());
            assert(pool0 + Seq::<char>::empty() =~= pool0);
            assert(alive0 + all_alive(0) =~= alive0);
        }
        while i < op.contents.len()
            invariant
                op.contents@ == given,
                op.id == old(op).id,
                models == content_models(given),
                pool0 == old(self).pool_text(),
                i <= given.len(),
                forall|j: int|
                    0 <= j < given.len() ==> (#[trigger] given[j]).wf() && importable(given[j]@),
                utf8_len(pool0) + utf8_len(payloads(models)) <= POOL_LIMIT,
                self.raw_str.wf(),
                self.state == old(self).state,
                self.tracker == old(self).tracker,
                self.head == old(self).head,
                self.id == old(self).id,
                self.raw_str.text() == pool0 + payloads(models.subrange(0, i as int)),
                self.raw_str.alive() == alive0 + all_alive(
                    payloads(models.subrange(0, i as int)).len(),
                ),
                contents@.len() == i,
                forall|j: int|
                    0 <= j < i ==> (#[trigger] contents@[j])@ == import_one(
                        given[j]@,
                        pool0.len() + payloads(models.subrange(0, j)).len(),
                    ),
            decreases given.len() - i,
        {
            proof {
                lemma_payloads_prefix(models, i as int);
                lemma_payloads_prefix(models, i + 1);
                assert(models[i as int] == given[i as int]@);
                lemma_encode_concat(pool0, payloads(models.subrange(0, i as int)));
                lemma_encode_concat(
                    payloads(models.subrange(0, i as int)),
                    models[i as int].text_payload(),
                );
                assert(pool0 + payloads(models.subrange(0, i + 1)) =~= (pool0 + payloads(
                    models.subrange(0, i as int),
                )) + models[i as int].text_payload());
                assert(payloads(models.subrange(0, i as int)) + Seq::<char>::empty()
                    =~= payloads(models.subrange(0, i as int)));
            }
            let ghost so_far = payloads(models.subrange(0, i as int)).len();
            let next = match &op.contents[i] {
                RawOpContent::List(ListOp::Insert { slice: ListSlice::RawStr { str, .. }, pos }) => {
                    let range = self.raw_str.alloc_str(str.as_str());
                    proof {
                        assert(alive0 + all_alive(so_far) + all_alive(str@.len()) =~= alive0
                            + all_alive(so_far + str@.len()));
                    }
                    RawOpContent::List(ListOp::Insert { slice: ListSlice::Slice(range), pos: *pos })
                },
                other => other.duplicate(),
            };
            contents.push(next);
            i = i + 1;
        }
        proof {
            assert(models.subrange(0, i as int) =~= models);
            let grown = self.raw_str.text();
            assert forall|k: int| 0 <= k < self.state.units().len() implies (
            #[trigger] self.state.units()[k] matches Some(u) ==> u < grown.len()) by {
                assert(self.state.units()[k] matches Some(u) ==> u < pool0.len());
            }
        }
        op.contents = contents;
    }

    /// Puts the state of the text as an operation says, without asking the
    /// tracker: an insertion inserts its range, a deletion deletes.
    pub fn update_state_directly(&mut self, op: &RichOp)
        requires
            old(self).wf(),
            op.content.wf(),
            match op.content {
                ListOp::Insert { slice: ListSlice::Slice(r), pos } => pos <= old(self).units().len()
                    && old(self).units().len() + r.len() <= TEXT_LIMIT && (!r.spec_is_unknown()
                    ==> r.end <= old(self).pool_text().len()),
                ListOp::Insert { slice: ListSlice::Unknown(n), pos } => pos <= old(self).units().len() && old(self).units().len() + n <= TEXT_LIMIT,
                ListOp::Delete(span) => span.spec_end() <= old(self).units().len(),
                _ => false,
            },
        ensures
            final(self).wf(),
            final(self).container_id() == old(self).container_id(),
            final(self).pool_text() == old(self).pool_text(),
            final(self).pool_alive() == old(self).pool_alive(),
            final(self).tracker() == old(self).tracker(),
            final(self).head() == old(self).head(),
            match op.content {
                ListOp::Insert { slice, pos } => final(self).units() == old(self).units().subrange(
                    0,
                    pos as int,
                ) + slice_content(slice) + old(self).units().subrange(
                    pos as int,
                    old(self).units().len() as int,
                ),
                ListOp::Delete(span) => final(self).units() == old(self).units().subrange(
                    0,
                    span.spec_start(),
                ) + old(self).units().subrange(span.spec_end(), old(self).units().len() as int),
                _ => true,
            },
    {
        let ghost units = self.state.units();
        match &op.content {
            ListOp::Insert { slice, pos } => {
                let v = match slice {
                    ListSlice::Slice(slice) => *slice,
                    ListSlice::Unknown(u) => ListSlice::unknown_range(*u),
                    _ => vstd::pervasive::unreached(),
                };
                proof {
                    assert(slice_units(v) =~= slice_content(*slice));
                }
                self.state.insert(*pos, v);
            },
            ListOp::Delete(span) => {
                self.state.delete_range(Some(span.start() as usize), Some(span.end() as usize));
            },
            _ => {},
        }
    }

    /// Moves the tracker back over the spans.
    pub fn track_retreat(&mut self, spans: &IdSpanVector)
        requires
            old(self).wf(),
            old(self).tracker().can_retreat(spans@),
        ensures
            final(self).wf(),
            final(self).container_id() == old(self).container_id(),
            final(self).units() == old(self).units(),
            final(self).pool_text() == old(self).pool_text(),
            final(self).pool_alive() == old(self).pool_alive(),
            final(self).head() == old(self).head(),
            final(self).tracker().moved_from(&old(self).tracker()),
            forall|p: PeerID|
                final(self).tracker().current().counter(p) == retreated(
                    old(self).tracker().current().counter(p),
                    spans@,
                    p,
                ),
    {
        let ghost atoms = self.tracker.atoms();
        self.tracker.retreat(spans);
        proof {
            lemma_below_items(
                atoms,
                self.tracker.atoms(),
                self.raw_str.text().len() as int,
            );
        }
    }

    /// Moves the tracker forward over the spans.
    pub fn track_forward(&mut self, spans: &IdSpanVector)
        requires
            old(self).wf(),
            old(self).tracker().can_forward(spans@),
        ensures
            final(self).wf(),
            final(self).container_id() == old(self).container_id(),
            final(self).units() == old(self).units(),
            final(self).pool_text() == old(self).pool_text(),
            final(self).pool_alive() == old(self).pool_alive(),
            final(self).head() == old(self).head(),
            final(self).tracker().moved_from(&old(self).tracker()),
            forall|p: PeerID|
                final(self).tracker().current().counter(p) == forwarded(
                    old(self).tracker().current().counter(p),
                    spans@,
                    p,
                ),
    {
        let ghost atoms = self.tracker.atoms();
        self.tracker.forward(spans);
        proof {
            lemma_below_items(
                atoms,
                self.tracker.atoms(),
                self.raw_str.text().len() as int,
            );
        }
    }

    /// Whether the tracker can be moved to the version, and need not be
    /// built anew: the version lies between the version the tracker started
    /// at and all it knows, and it holds something unless the tracker
    /// started at nothing.
    pub open spec fn keeps_tracker(&self, vv: &VersionVector) -> bool {
        (!vv.spec_is_empty() || self.tracker().start().spec_is_empty()) && self.tracker().all().covers(
            vv,
        ) && vv.covers(&self.tracker().start())
    }

    /// Brings the tracker to the version: moves it there if it can be, else
    /// puts a new tracker in its place that starts at the version and holds
    /// the text as it was there as content that is not known. The version
    /// holds nothing of the reserved peer.
    pub fn tracker_checkout(&mut self, vv: &VersionVector)
        requires
            old(self).wf(),
            vv.wf(),
            vv.counter(BASE_PEER) == 0,
        ensures
            final(self).wf(),
            final(self).container_id() == old(self).container_id(),
            final(self).units() == old(self).units(),
            final(self).pool_text() == old(self).pool_text(),
            final(self).pool_alive() == old(self).pool_alive(),
            final(self).head() == old(self).head(),
            final(self).tracker().current().same(vv),
            old(self).keeps_tracker(vv) ==> final(self).tracker().moved_from(
                &old(self).tracker(),
            ),
            !old(self).keeps_tracker(vv) ==> final(self).tracker().start().same(vv) && final(self).tracker().all().same(vv) && final(self).tracker().pairs() == Seq::<
                crate::tracker_model::DelPair,
            >::empty() && final(self).tracker().shown() == Seq::new(
                (i32::MAX / 2) as nat,
                |i: int| None::<u32>,
            ),
    {
        let ghost atoms = self.tracker.atoms();
        proof {
            self.tracker.lemma_wf();
        }
        if (!vv.is_empty() || self.tracker.start_vv().is_empty()) && self.tracker.all_vv().includes_vv(
            vv,
        ) && vv.includes_vv(self.tracker.start_vv()) {
            self.tracker.checkout(vv);
            proof {
                lemma_below_items(
                    atoms,
                    self.tracker.atoms(),
                    self.raw_str.text().len() as int,
                );
            }
        } else {
            let start = vv.duplicate();
            self.tracker = Tracker::new(start, i32::MAX / 2);
            proof {
                let fresh = self.tracker.atoms();
                let shown = self.tracker.shown();
                self.tracker.lemma_wf();
                crate::tracker_model::lemma_fresh_unknown(fresh);
            }
        }
    }
}

/// The first of the changes can be made if all of them can.
pub proof fn lemma_effects_prefix(units: Seq<Option<u32>>, effects: Seq<Effect>, k: int)
    requires
        0 <= k <= effects.len(),
        effects_fit(units, effects, i32::MAX as int),
    ensures
        effects_fit(units, effects.subrange(0, k), i32::MAX as int),
        k < effects.len() ==> effect_fits(
            effects_applied(units, effects.subrange(0, k)),
            effects[k],
            i32::MAX as int,
        ) && effects_applied(units, effects.subrange(0, k + 1)) == effect_applied(
            effects_applied(units, effects.subrange(0, k)),
            effects[k],
        ),
{
    assert(effects =~= effects.subrange(0, k) + effects.subrange(k, effects.len() as int));
    lemma_effects_concat(units, effects.subrange(0, k), effects.subrange(k, effects.len() as int));
    if k < effects.len() {
        assert(effects =~= effects.subrange(0, k + 1) + effects.subrange(
            k + 1,
            effects.len() as int,
        ));
        lemma_effects_concat(
            units,
            effects.subrange(0, k + 1),
            effects.subrange(k + 1, effects.len() as int),
        );
        assert(effects.subrange(0, k + 1).drop_last() =~= effects.subrange(0, k));
        assert(effects.subrange(0, k + 1).last() == effects[k]);
    }
}

/// What handing an operation to a tracker does. Where the tracker knew all
/// atoms of the operation, it has moved forward over them. Where it knew the
/// first of them, it has moved forward over those and taken in the rest: the
/// atoms of the operation from the first that it did not know on. Else it
/// has taken in the operation as a whole.
pub open spec fn track_applied(after: &Tracker, before: &Tracker, rich_op: &RichOp) -> bool {
    let id = rich_op.id;
    let len = rich_op.content.len() as int;
    let known = before.all().counter(id.peer);
    let whole = IdSpan {
        peer: id.peer,
        counter: crate::id::CounterSpan { start: id.counter, end: (id.counter + len) as i32 },
    };
    let part = IdSpan {
        peer: id.peer,
        counter: crate::id::CounterSpan { start: id.counter, end: known as i32 },
    };
    &&& known >= id.counter + len ==> after.moved_from(before) && forall|p: PeerID|
        after.current().counter(p) == forwarded(before.current().counter(p), seq![whole], p)
    &&& id.counter < known < id.counter + len ==> exists|mid: Tracker, rest: ListOp|
        {
            &&& mid.wf()
            &&& mid.moved_from(before)
            &&& forall|p: PeerID|
                mid.current().counter(p) == forwarded(before.current().counter(p), seq![part], p)
            &&& rest@ == rich_op.content@.sliced(known - id.counter, len)
            &&& #[trigger] after.applied_from(
                &mid,
                ID { peer: id.peer, counter: known as i32 },
                (rich_op.lamport + (known - id.counter)) as u32,
                rest,
            )
        }
    &&& known <= id.counter ==> after.applied_from(before, id, rich_op.lamport, rich_op.content)
}

impl TextContainer {
    /// Makes an operation ready to be sent to other peers: each insertion of
    /// a range of the pool comes to carry the text of the range. With `gc`,
    /// text that is shown no longer is left out: such an insertion is sent
    /// run by run, the runs that are shown still with their text, the others
    /// as placeholders of their length. Before that, the pool finds out anew
    /// which characters are shown, if it is time to.
    pub fn to_export(&mut self, op: &mut RemoteOp, gc: bool)
        requires
            old(self).wf(),
            forall|i: int|
                0 <= i < old(op).contents@.len() ==> (#[trigger] old(op).contents@[i]).wf()
                    && exportable(old(op).contents@[i]@, old(self).pool_text().len()),
        ensures
            final(self).wf(),
            final(self).container_id() == old(self).container_id(),
            final(self).units() == old(self).units(),
            final(self).pool_text() == old(self).pool_text(),
            final(self).tracker() == old(self).tracker(),
            final(self).head() == old(self).head(),
            final(self).pool_alive().len() == old(self).pool_alive().len(),
            !(gc && crate::string_pool::count_true(old(self).pool_alive()) > 2 * old(self).units().len()) ==> final(self).pool_alive() == old(self).pool_alive(),
            gc && crate::string_pool::count_true(old(self).pool_alive()) > 2 * old(self).units().len() ==> forall|i: int|
                0 <= i < final(self).pool_alive().len() ==> #[trigger] final(self).pool_alive()[i]
                    == (exists|j: int|
                    0 <= j < old(self).units().len() && #[trigger] old(self).units()[j] == Some(
                        i as u32,
                    )),
            final(op).id == old(op).id,
            content_models(final(op).contents@) == export_all(
                content_models(old(op).contents@),
                old(self).pool_text(),
                final(self).pool_alive(),
                gc,
            ),
    {
        let ghost text = self.raw_str.text();
        proof {
            self.lemma_wf();
        }
        if gc && self.raw_str.should_update_aliveness(self.text_len()) {
            let leaves = self.state.iter();
            self.raw_str.update_aliveness(leaves);
            proof {
                let units = self.state.units();
                let marks = self.raw_str.alive();
                self.raw_str.lemma_wf();
                assert forall|i: int| 0 <= i < marks.len() implies #[trigger] marks[i] == (exists|
                    j: int,
                |
                    0 <= j < units.len() && #[trigger] units[j] == Some(i as u32)) by {
                    lemma_covered_is_shown(self.state.leaves(), i);
                }
            }
        }
        let ghost alive = self.raw_str.alive();
        let ghost given = op.contents@;
        let ghost models = content_models(given);
        let mut contents: Vec<RawOpContent> = Vec::new();
        let mut i: usize = 0;
        proof {
            self.raw_str.lemma_wf();
            assert(models.subrange(0, 0) =~= Seq::<ContentModel>::empty());
            assert(content_models(contents@) =~= Seq::<ContentModel>::empty());
        }
        while i < op.contents.len()
            invariant
                op.contents@ == given,
                op.id == old(op).id,
                models == content_models(given),
                i <= given.len(),
                self.raw_str.wf(),
                self.raw_str.text() == text,
                self.raw_str.alive() == alive,
                alive.len() == text.len(),
                forall|j: int|
                    0 <= j < given.len() ==> (#[trigger] given[j]).wf() && exportable(
                        given[j]@,
                        text.len(),
                    ),
                content_models(contents@) == export_all(
                    models.subrange(0, i as int),
                    text,
                    alive,
                    gc,
                ),
            decreases given.len() - i,
        {
            let ghost done = content_models(contents@);
            proof {
                assert(models.subrange(0, i + 1).drop_last() =~= models.subrange(0, i as int));
                assert(models.subrange(0, i + 1).last() == given[i as int]@);
            }
            match &op.contents[i] {
                RawOpContent::List(ListOp::Insert { slice: ListSlice::Slice(r), pos }) => {
                    if gc {
                        let runs = self.raw_str.get_aliveness(r);
                        let mut start: usize = 0;
                        let mut pos_start: usize = *pos;
                        let mut j: usize = 0;
                        proof {
                            crate::string_pool::lemma_runs_cover(
                                alive.subrange(r.start as int, r.end as int),
                            );
                            assert(runs@.subrange(0, 0) =~= Seq::<Alive>::empty());
                            assert(done + Seq::<ContentModel>::empty() =~= done);
                            lemma_runs_prefix(runs@, 0);
                        }
                        while j < runs.len()
                            invariant
                                self.raw_str.wf(),
                                self.raw_str.text() == text,
                                r.wf(),
                                !r.spec_is_unknown(),
                                r.end <= text.len(),
                                *pos + r.len() <= usize::MAX,
                                runs_len(runs@) == r.len(),
                                j <= runs@.len(),
                                start == runs_len(runs@.subrange(0, j as int)),
                                start <= r.len(),
                                pos_start == *pos + start,
                                content_models(contents@) == done + runs_export(
                                    runs@.subrange(0, j as int),
                                    text,
                                    r.start as nat,
                                    *pos as nat,
                                ),
                            decreases runs@.len() - j,
                        {
                            let ghost so_far = content_models(contents@);
                            proof {
                                assert(runs@.subrange(0, j + 1).drop_last() =~= runs@.subrange(
                                    0,
                                    j as int,
                                ));
                                assert(runs@.subrange(0, j + 1).last() == runs@[j as int]);
                                lemma_runs_prefix(runs@, j + 1);
                            }
                            match runs[j] {
                                Alive::True(span) => {
                                    let piece = self.raw_str.get_str(
                                        &SliceRange {
                                            start: r.start + start as u32,
                                            end: r.start + start as u32 + span as u32,
                                        },
                                    );
                                    contents.push(
                                        RawOpContent::List(
                                            ListOp::Insert {
                                                slice: ListSlice::RawStr {
                                                    str: piece,
                                                    unicode_len: span,
                                                },
                                                pos: pos_start,
                                            },
                                        ),
                                    );
                                },
                                Alive::False(span) => {
                                    contents.push(
                                        RawOpContent::List(
                                            ListOp::Insert {
                                                slice: ListSlice::Unknown(span),
                                                pos: pos_start,
                                            },
                                        ),
                                    );
                                },
                            }
                            proof {
                                let item = run_export(
                                    runs@[j as int],
                                    text,
                                    (r.start + start) as nat,
                                    (*pos + start) as nat,
                                );
                                assert(content_models(contents@) =~= so_far.push(item));
                                assert(so_far.push(item) =~= done + runs_export(
                                    runs@.subrange(0, j + 1),
                                    text,
                                    r.start as nat,
                                    *pos as nat,
                                ));
                            }
                            start = start + runs[j].atom_len();
                            pos_start = pos_start + runs[j].atom_len();
                            j = j + 1;
                        }
                        proof {
                            assert(runs@.subrange(0, j as int) =~= runs@);
                        }
                    } else {
                        let s = self.raw_str.get_str(r);
                        contents.push(
                            RawOpContent::List(
                                ListOp::Insert {
                                    slice: ListSlice::RawStr { str: s, unicode_len: r.atom_len() },
                                    pos: *pos,
                                },
                            ),
                        );
                        proof {
                            let item = ContentModel::InsertText {
                                text: text.subrange(r.start as int, r.end as int),
                                unicode_len: r.len() as usize,
                                pos: *pos,
                            };
                            assert(content_models(contents@) =~= done.push(item));
                            assert(done.push(item) =~= done + seq![item]);
                        }
                    }
                },
                other => {
                    contents.push(other.duplicate());
                    proof {
                        let item = given[i as int]@;
                        assert(content_models(contents@) =~= done.push(item));
                        assert(done.push(item) =~= done + seq![item]);
                    }
                },
            }
            i = i + 1;
        }
        proof {
            assert(models.subrange(0, i as int) =~= models);
        }
        op.contents = contents;
    }

    /// Whether the operation can be handed to the tracker: it is an
    /// insertion of a range of the pool or of unknown content, or a
    /// deletion; its atoms can be counted; where the tracker does not know
    /// its first atom, the operation is the next of its peer for the version
    /// the tracker stands at; and there is room for it.
    pub open spec fn can_track(&self, rich_op: &RichOp) -> bool {
        let len = rich_op.content.len() as int;
        let id = rich_op.id;
        &&& rich_op.content.wf()
        &&& rich_op.content is Delete || (rich_op.content matches ListOp::Insert { slice, pos }
            && (slice is Slice || slice is Unknown) && pos + len <= usize::MAX)
        &&& rich_op.content matches ListOp::Insert { slice: ListSlice::Slice(r), .. }
            ==> r.spec_is_unknown() || r.end <= self.pool_text().len()
        &&& rich_op.content matches ListOp::Delete(span) ==> span.spec_end() <= TEXT_LIMIT
        &&& id.peer != BASE_PEER
        &&& id.counter >= 0
        &&& len > 0
        &&& id.counter + len <= i32::MAX
        &&& rich_op.lamport + len <= u32::MAX
        &&& self.tracker().atoms().len() + len <= TEXT_LIMIT
        &&& self.tracker().pairs().len() + len <= TEXT_LIMIT
        &&& self.tracker().all().counter(id.peer) <= id.counter ==> self.tracker().all().counter(
            id.peer,
        ) == id.counter && self.tracker().current().counter(id.peer) == id.counter
    }

    /// Hands an operation to the tracker. Where the tracker knows all atoms
    /// of the operation, it only moves forward over them. Where it knows the
    /// first of them, it moves forward over those and takes in the rest.
    /// Else it takes in the operation as a whole.
    pub fn track_apply(&mut self, rich_op: &RichOp)
        requires
            old(self).wf(),
            old(self).can_track(rich_op),
        ensures
            final(self).wf(),
            final(self).container_id() == old(self).container_id(),
            final(self).units() == old(self).units(),
            final(self).pool_text() == old(self).pool_text(),
            final(self).pool_alive() == old(self).pool_alive(),
            final(self).head() == old(self).head(),
            track_applied(&final(self).tracker(), &old(self).tracker(), rich_op),
    {
        let ghost before0 = self.tracker;
        let ghost atoms = self.tracker.atoms();
        let ghost n = self.raw_str.text().len() as int;
        let id = rich_op.id_start();
        let content = &rich_op.content;
        let len = content.atom_len();
        proof {
            self.tracker.lemma_wf();
            self.tracker.all().lemma_counter_range(id.peer);
            self.tracker.current().lemma_counter_range(id.peer);
        }
        if self.tracker.all_vv().includes_id(rich_op.id_last()) {
            let mut spans: Vec<IdSpan> = Vec::new();
            spans.push(id.to_span(len));
            self.tracker.forward(&spans);
            proof {
                lemma_below_items(atoms, self.tracker.atoms(), n);
                assert(spans@ =~= seq![
                    IdSpan {
                        peer: id.peer,
                        counter: crate::id::CounterSpan {
                            start: id.counter,
                            end: (id.counter + len) as i32,
                        },
                    },
                ]);
            }
            return ;
        }
        if self.tracker.all_vv().includes_id(id) {
            let this_ctr = self.tracker.all_vv().get(&id.peer).unwrap();
            let shift = this_ctr - id.counter;
            let mut spans: Vec<IdSpan> = Vec::new();
            spans.push(id.to_span(shift as usize));
            self.tracker.forward(&spans);
            let ghost mid = self.tracker;
            let rest = content.slice(shift as usize, len);
            proof {
                lemma_below_items(atoms, mid.atoms(), n);
                reveal_with_fuel(forwarded, 2);
                assert(spans@.drop_last() =~= Seq::<IdSpan>::empty());
                assert(spans@ =~= seq![
                    IdSpan {
                        peer: id.peer,
                        counter: crate::id::CounterSpan { start: id.counter, end: this_ctr },
                    },
                ]);
                mid.lemma_wf();
                assert(mid.atoms().len() == items_of(mid.atoms()).len());
                assert(atoms.len() == items_of(atoms).len());
                assert(mid.current().counter(id.peer) == this_ctr);
                assert(mid.all().counter(id.peer) == this_ctr);
                assert(rest.len() == len - shift);
                assert(rest is Insert || rest is Delete);
                assert(rest matches ListOp::Insert { slice, .. } ==> slice is Slice
                    || slice is Unknown);
                assert(rest matches ListOp::Delete(span) ==> span.spec_end() <= TEXT_LIMIT);
                assert(mid.ready_for(ID { peer: id.peer, counter: this_ctr }, rest.len() as int));
            }
            let next = id.inc(shift);
            self.tracker.apply(next, rich_op.lamport + shift as u32, &rest);
            proof {
                lemma_applied_within(
                    &mid,
                    &self.tracker,
                    next,
                    (rich_op.lamport + shift) as u32,
                    rest,
                    n,
                );
                assert(before0.all().counter(id.peer) == this_ctr);
                assert(rest@ == rich_op.content@.sliced(this_ctr - id.counter, len as int));
                assert(self.tracker.applied_from(
                    &mid,
                    ID { peer: id.peer, counter: this_ctr },
                    (rich_op.lamport + (this_ctr - id.counter)) as u32,
                    rest,
                ));
            }
        } else {
            let ghost before = self.tracker;
            self.tracker.apply(id, rich_op.lamport, content);
            proof {
                lemma_applied_within(&before, &self.tracker, id, rich_op.lamport, *content, n);
                assert(before == before0);
                assert(before0.all().counter(id.peer) <= id.counter);
                assert(self.tracker.applied_from(
                    &before0,
                    id,
                    rich_op.lamport,
                    rich_op.content,
                ));
            }
        }
    }

    /// Whether the changes can be made to the text, in order: each names
    /// places that are there when it is made.
    pub fn effects_fit_text(&self, effects: &Vec<Effect>) -> (r: bool)
        requires
            self.wf(),
        ensures
            r == effects_fit(self.units(), effects@, i32::MAX as int),
    {
        let ghost units = self.state.units();
        let mut len: usize = self.state.len();
        let mut k: usize = 0;
        proof {
            assert(effects@.subrange(0, 0) =~= Seq::<Effect>::empty());
            self.state.lemma_wf();
        }
        while k < effects.len()
            invariant
                units == self.units(),
                k <= effects@.len(),
                effects_fit(units, effects@.subrange(0, k as int), i32::MAX as int),
                len == effects_applied(units, effects@.subrange(0, k as int)).len(),
                len <= i32::MAX,
            decreases effects@.len() - k,
        {
            proof {
                assert(effects@.subrange(0, k + 1).drop_last() =~= effects@.subrange(0, k as int));
                assert(effects@.subrange(0, k + 1).last() == effects@[k as int]);
            }
            let ghost now = effects_applied(units, effects@.subrange(0, k as int));
            proof {
                if let Effect::Ins { content: ListSlice::Slice(r), .. } = effects@[k as int] {
                    if r.wf() {
                        crate::text_rope::lemma_units_len(r);
                    }
                }
            }
            let room = 0x7fff_ffff - len;
            let fits = match &effects[k] {
                Effect::Ins { pos, content } => {
                    let taken: Option<usize> = match content {
                        ListSlice::Slice(r) => if r.start <= r.end && (r.start == UNKNOWN_START
                            || r.end < UNKNOWN_START) {
                            Some((r.end - r.start) as usize)
                        } else {
                            None
                        },
                        ListSlice::Unknown(n) => if *n <= (u32::MAX - UNKNOWN_START) as usize {
                            Some(*n)
                        } else {
                            None
                        },
                        _ => None,
                    };
                    match taken {
                        Some(n) => if *pos <= len && n <= room {
                            len = len + n;
                            true
                        } else {
                            false
                        },
                        None => false,
                    }
                },
                Effect::Del { pos, len: gone } => if *pos <= len && *gone <= len - *pos {
                    len = len - *gone;
                    true
                } else {
                    false
                },
            };
            if !fits {
                proof {
                    assert(!effect_fits(now, effects@[k as int], i32::MAX as int));
                    if effects_fit(units, effects@, i32::MAX as int) {
                        lemma_effects_prefix(units, effects@, k as int);
                    }
                }
                return false;
            }
            k = k + 1;
        }
        proof {
            assert(effects@.subrange(0, k as int) =~= effects@);
        }
        true
    }

    /// Makes the changes to the text, in order. Each must name places that
    /// are there when it is made, and what it puts in must lie within the
    /// pool.
    pub fn apply_effects(&mut self, effects: &Vec<Effect>)
        requires
            old(self).wf(),
            effects_fit(old(self).units(), effects@, i32::MAX as int),
            effects_below(effects@, old(self).pool_text().len() as int),
        ensures
            final(self).wf(),
            final(self).container_id() == old(self).container_id(),
            final(self).pool_text() == old(self).pool_text(),
            final(self).pool_alive() == old(self).pool_alive(),
            final(self).head() == old(self).head(),
            final(self).tracker() == old(self).tracker(),
            final(self).units() == effects_applied(old(self).units(), effects@),
    {
        let ghost units = self.state.units();
        let ghost n = self.raw_str.text().len() as int;
        let mut k: usize = 0;
        proof {
            assert(effects@.subrange(0, 0) =~= Seq::<Effect>::empty());
            self.state.lemma_wf();
        }
        while k < effects.len()
            invariant
                self.state.wf(),
                self.raw_str == old(self).raw_str,
                self.head == old(self).head,
                self.id == old(self).id,
                self.tracker == old(self).tracker,
                k <= effects@.len(),
                effects_fit(units, effects@, i32::MAX as int),
                self.state.units() == effects_applied(units, effects@.subrange(0, k as int)),
            decreases effects@.len() - k,
        {
            let effect = &effects[k];
            proof {
                lemma_effects_prefix(units, effects@, k as int);
                assert(effect_fits(self.state.units(), *effect, i32::MAX as int));
            }
            match effect {
                Effect::Del { pos, len } => {
                    proof {
                        self.state.lemma_wf();
                    }
                    assert(*pos + *len <= self.state.units().len());
                    self.state.delete_range(Some(*pos), Some(*pos + *len));
                },
                Effect::Ins { pos, content } => {
                    let v = match content {
                        ListSlice::Slice(slice) => *slice,
                        ListSlice::Unknown(u) => ListSlice::unknown_range(*u),
                        _ => vstd::pervasive::unreached(),
                    };
                    proof {
                        assert(slice_units(v) =~= slice_content(*content));
                    }
                    self.state.insert(*pos, v);
                },
            }
            k = k + 1;
        }
        proof {
            assert(effects@.subrange(0, k as int) =~= effects@);
            lemma_effects_within(units, effects@, n);
        }
    }

    /// The changes, place by place, that bringing the tracker from the
    /// version `from` forward over the spans makes to what it shows.
    pub open spec fn tracked_changes(
        &self,
        from: &VersionVector,
        spans: Seq<IdSpan>,
    ) -> Seq<UnitEffect> {
        effect_list(
            refated(items_of(self.tracker().atoms()), self.tracker().pairs(), from),
            self.tracker().strikes(),
            from,
            spans,
        )
    }

    /// Brings the text from the version `from` forward over the spans: has
    /// the tracker go to `from` and from there forward over the spans, and
    /// makes to the text each change that this makes to what the tracker
    /// shows: the atoms that come to be held, in the order in which they
    /// stand, and then what their deletions deleted. Where the text is what
    /// the tracker shows at `from`, it is what the tracker shows in the end.
    /// Where a change names a place that the text does not have, the text
    /// stays as it is.
    pub fn apply_tracked_effects_from(&mut self, from: &VersionVector, effect_spans: &IdSpanVector)
        requires
            old(self).wf(),
            from.wf(),
            old(self).tracker().all().covers(from),
            from.covers(&old(self).tracker().start()),
            old(self).tracker().can_forward(effect_spans@),
        ensures
            final(self).wf(),
            final(self).container_id() == old(self).container_id(),
            final(self).pool_text() == old(self).pool_text(),
            final(self).pool_alive() == old(self).pool_alive(),
            final(self).head() == old(self).head(),
            final(self).tracker().moved_from(&old(self).tracker()),
            forall|p: PeerID|
                final(self).tracker().current().counter(p) == forwarded(
                    from.counter(p),
                    effect_spans@,
                    p,
                ),
            final(self).units() == (if units_fit(
                old(self).units(),
                old(self).tracked_changes(from, effect_spans@),
                i32::MAX as int,
            ) {
                units_applied(old(self).units(), old(self).tracked_changes(from, effect_spans@))
            } else {
                old(self).units()
            }),
            old(self).units() == shown_at(
                items_of(old(self).tracker().atoms()),
                old(self).tracker().pairs(),
                from,
            ) ==> final(self).units() == final(self).tracker().shown(),
    {
        let ghost atoms = self.tracker.atoms();
        let ghost n = self.raw_str.text().len() as int;
        let ghost units = self.state.units();
        self.tracker.checkout(from);
        proof {
            self.tracker.lemma_wf();
            lemma_refated(self.tracker.atoms(), self.tracker.pairs(), &self.tracker.current(), from);
            lemma_forwarded_same(&self.tracker.current(), from, effect_spans@);
            lemma_below_items(atoms, self.tracker.atoms(), n);
        }
        let ghost moved = self.tracker;
        let effects = self.tracker.iter_effects_below(effect_spans, Ghost(n));
        proof {
            lemma_below_items(atoms, self.tracker.atoms(), n);
            crate::tracker::lemma_iter_same_base(
                moved.atoms(),
                moved.strikes(),
                &moved.current(),
                from,
                effect_spans@,
            );
            lemma_units_of_effects(units, effects@, i32::MAX as int);
            assert(unit_effects(effects@) == old(self).tracked_changes(from, effect_spans@));
        }
        if self.effects_fit_text(&effects) {
            self.apply_effects(&effects);
        }
    }
}

/// What bringing the text forward makes of it is decided by the text and
/// by what the tracker knows: for two containers whose trackers hold the
/// same characters in the same order and know the same deletions in the
/// same runs, the changes are the same, so that texts that were the same
/// are the same afterwards.
pub proof fn lemma_tracked_changes_decided(
    a: &TextContainer,
    b: &TextContainer,
    from: &VersionVector,
    spans: Seq<IdSpan>,
)
    requires
        items_of(a.tracker().atoms()) == items_of(b.tracker().atoms()),
        a.tracker().pairs() == b.tracker().pairs(),
        a.tracker().strikes() == b.tracker().strikes(),
    ensures
        a.tracked_changes(from, spans) == b.tracked_changes(from, spans),
{
}

/// Changes that put in content from within the pool leave a text that lies
/// within the pool as it was.
pub proof fn lemma_effects_within(units: Seq<Option<u32>>, effects: Seq<Effect>, n: int)
    requires
        units_within(units, n),
        effects_below(effects, n),
        effects_fit(units, effects, i32::MAX as int),
    ensures
        units_within(effects_applied(units, effects), n),
    decreases effects.len(),
{
    if effects.len() > 0 {
        let rest = effects.drop_last();
        let e = effects.last();
        assert forall|k: int| 0 <= k < rest.len() implies (#[trigger] rest[k] matches Effect::Ins {
            content,
            ..
        } ==> content_below(content, n)) by {
            assert(rest[k] == effects[k]);
        }
        lemma_effects_within(units, rest, n);
        let before = effects_applied(units, rest);
        let after = effect_applied(before, e);
        assert(effects[effects.len() - 1] == e);
        assert forall|i: int| 0 <= i < after.len() implies (#[trigger] after[i] matches Some(u)
            ==> u < n) by {
            match e {
                Effect::Ins { pos, content } => {
                    let c = slice_content(content);
                    if i < pos {
                        assert(after[i] == before[i]);
                    } else if i < pos + c.len() {
                        assert(after[i] == c[i - pos]);
                    } else {
                        assert(after[i] == before[i - c.len()]);
                    }
                },
                Effect::Del { pos, len } => {
                    if i < pos {
                        assert(after[i] == before[i]);
                    } else {
                        assert(after[i] == before[i + len]);
                    }
                },
            }
        }
    }
}

/// The first runs cover no more than all runs.
pub proof fn lemma_runs_prefix(runs: Seq<Alive>, n: int)
    requires
        0 <= n <= runs.len(),
    ensures
        runs_len(runs.subrange(0, n)) <= runs_len(runs),
    decreases runs.len() - n,
{
    if n < runs.len() {
        lemma_runs_prefix(runs, n + 1);
        assert(runs.subrange(0, n + 1).drop_last() =~= runs.subrange(0, n));
    } else {
        assert(runs.subrange(0, n) =~= runs);
    }
}

/// A character of the pool lies in one of the ranges of the text exactly
/// when the text shows it.
pub proof fn lemma_covered_is_shown(leaves: Seq<SliceRange>, i: int)
    requires
        0 <= i <= u32::MAX,
        forall|k: int| 0 <= k < leaves.len() ==> (#[trigger] leaves[k]).wf(),
    ensures
        covered_by(leaves, i) == (exists|j: int|
            0 <= j < units_of(leaves).len() && #[trigger] units_of(leaves)[j] == Some(i as u32)),
{
    let parts = leaves_parts(leaves);
    let units = units_of(leaves);
    if covered_by(leaves, i) {
        let k = choose|k: int|
            0 <= k < leaves.len() && !(#[trigger] leaves[k]).spec_is_unknown() && leaves[k].start
                <= i < leaves[k].end;
        lemma_flat_around(parts, k);
        let o = i - leaves[k].start;
        assert(parts[k][o] == Some(i as u32));
        let j = flat_prefix(parts, k) + o;
        assert(units[j] == Some(i as u32));
    }
    if exists|j: int| 0 <= j < units.len() && #[trigger] units[j] == Some(i as u32) {
        let j = choose|j: int| 0 <= j < units.len() && #[trigger] units[j] == Some(i as u32);
        crate::flat::lemma_find_part(parts, j);
        let k = crate::flat::find_part(parts, j).0;
        let o = crate::flat::find_part(parts, j).1;
        assert(parts[k][o] == crate::text_rope::unit_at(leaves[k], o));
        assert(leaves[k].wf());
        assert(!leaves[k].spec_is_unknown() && leaves[k].start <= i < leaves[k].end);
    }
}

/// Versions that hold the same come to hold the same when they are moved
/// forward alike.
pub proof fn lemma_forwarded_same(a: &VersionVector, b: &VersionVector, spans: Seq<IdSpan>)
    requires
        a.same(b),
    ensures
        forall|p: PeerID| forwarded(a.counter(p), spans, p) == forwarded(b.counter(p), spans, p),
{
}

/// Taking in an operation whose content lies within the pool leaves every
/// atom within the pool.
pub proof fn lemma_applied_within(
    before: &Tracker,
    after: &Tracker,
    id: ID,
    lamport: Lamport,
    content: ListOp,
    n: int,
)
    requires
        atoms_below(before.atoms(), n),
        after.applied_from(before, id, lamport, content),
        content.wf(),
        content is Insert || content is Delete,
        content matches ListOp::Insert { slice: ListSlice::Slice(r), .. } ==> r.spec_is_unknown()
            || r.end <= n,
        content matches ListOp::Insert { slice, pos } ==> slice is Slice || slice is Unknown,
    ensures
        atoms_below(after.atoms(), n),
{
    match content {
        ListOp::Insert { slice, pos } => {
            let at = crate::tracker::insert_place(before.atoms(), lamport as int, id.peer, pos as nat);
            let range = match slice {
                ListSlice::Slice(r) => r,
                _ => SliceRange { start: UNKNOWN_START, end: (UNKNOWN_START + slice.len()) as u32 },
            };
            let span = crate::tracker::inserted_span(before.atoms(), id, lamport, range, pos as nat);
            let cur = crate::tracker_model::cursor_from(before.atoms(), 0, pos as nat);
            crate::tracker_model::lemma_cursor_range(before.atoms(), 0, pos as nat);
            crate::tracker_model::lemma_settle_range(before.atoms(), cur, lamport as int, id.peer);
            let a = before.atoms().subrange(0, at);
            let c = before.atoms().subrange(at, before.atoms().len() as int);
            assert forall|i: int| 0 <= i < after.atoms().len() implies ((
            #[trigger] after.atoms()[i]).unit matches Some(u) ==> u < n) by {
                if i < a.len() {
                    assert(after.atoms()[i] == before.atoms()[i]);
                } else if i < a.len() + span.atoms().len() {
                    assert(after.atoms()[i] == span.atom(i - a.len()));
                } else {
                    assert(after.atoms()[i] == before.atoms()[i - span.atoms().len()]);
                }
            }
        },
        ListOp::Delete(span) => {
            lemma_below_items(before.atoms(), after.atoms(), n);
        },
        _ => {},
    }
}

} // verus!
