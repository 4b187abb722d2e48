//! What a tracker holds, seen atom by atom: every character that any known
//! operation has inserted, in document order, with what decides whether the
//! version the tracker stands at shows it; and every deletion, as the pair
//! of the atom that deletes and the atom that is deleted.

use crate::flat::{flat, lemma_flat_concat};
use crate::id::{PeerID, ID};
use crate::op::{ListSlice, SliceRange, UNKNOWN_START};
use crate::text_rope::{slice_units, unit_at};
use crate::version::VersionVector;
use vstd::prelude::*;

verus! {

/// The peer that stands for the document as it was where the tracker
/// started. This one peer is reserved: no operation comes from it, and no
/// version that a tracker is given holds anything of it.
pub const BASE_PEER: PeerID = 0xffff_ffff_ffff_ffff;

/// One inserted character.
pub struct Atom {
    pub id: ID,
    pub lamport: int,
    /// The place of the character in the pool, if its content is known.
    pub unit: Option<u32>,
    /// Whether the version the tracker stands at does not hold it yet.
    pub future: bool,
    /// How many deletions that the version holds have deleted it.
    pub deleted: nat,
}

impl Atom {
    /// Whether the version the tracker stands at shows the character.
    pub open spec fn visible(&self) -> bool {
        !self.future && self.deleted == 0
    }
}

/// A run of atoms that one operation inserted and that stand together.
#[derive(Clone, Copy, Debug, PartialEq, Eq, Structural)]
pub struct Span {
    pub id: ID,
    pub len: usize,
    pub lamport: u32,
    pub future: bool,
    pub deleted: u32,
    pub slice: SliceRange,
}

impl Span {
    pub open spec fn wf(&self) -> bool {
        &&& self.len > 0
        &&& self.slice.wf()
        &&& self.slice.len() == self.len
        &&& self.id.counter >= 0
        &&& self.id.counter + self.len <= i32::MAX
        &&& self.lamport + self.len <= u32::MAX
    }

    /// The identity of atom `i` of the run.
    pub open spec fn id_at(&self, i: int) -> ID {
        ID { peer: self.id.peer, counter: (self.id.counter + i) as i32 }
    }

    /// Atom `i` of the run. Each atom is one later than the one before it.
    pub open spec fn atom(&self, i: int) -> Atom {
        Atom {
            id: self.id_at(i),
            lamport: self.lamport + i,
            unit: unit_at(self.slice, i),
            future: self.future,
            deleted: self.deleted as nat,
        }
    }

    /// The atoms of the run.
    pub open spec fn atoms(&self) -> Seq<Atom> {
        Seq::new(self.len as nat, |i: int| self.atom(i))
    }

    /// Whether the run holds the atom `id`.
    pub open spec fn holds(&self, id: ID) -> bool {
        id.peer == self.id.peer && self.id.counter <= id.counter < self.id.counter + self.len
    }

    pub open spec fn spec_visible(&self) -> bool {
        !self.future && self.deleted == 0
    }

    #[verifier::when_used_as_spec(spec_visible)]
    pub fn visible(&self) -> (r: bool)
        ensures
            r == self.spec_visible(),
    {
        !self.future && self.deleted == 0
    }

    /// Whether the run holds the atom `id`.
    pub fn contains(&self, id: ID) -> (r: bool)
        requires
            self.wf(),
        ensures
            r == self.holds(id),
    {
        id.peer == self.id.peer && self.id.counter <= id.counter && (id.counter as i64)
            < self.id.counter as i64 + self.len as i64
    }

    /// The identity of the last atom of the run.
    pub fn last_id(&self) -> (id: ID)
        requires
            self.wf(),
        ensures
            id == self.id_at(self.len - 1),
    {
        ID { peer: self.id.peer, counter: (self.id.counter as i64 + self.len as i64 - 1) as i32 }
    }

    /// The run cut in two before its atom `at`.
    pub fn split(&self, at: usize) -> (parts: (Span, Span))
        requires
            self.wf(),
            0 < at < self.len,
        ensures
            parts.0.wf(),
            parts.1.wf(),
            parts.0.len == at,
            parts.1.len == self.len - at,
            parts.0.id == self.id,
            parts.1.id == self.id_at(at as int),
            parts.0.future == self.future && parts.1.future == self.future,
            parts.0.deleted == self.deleted && parts.1.deleted == self.deleted,
            self.atoms() == parts.0.atoms() + parts.1.atoms(),
    {
        let left = Span {
            id: self.id,
            len: at,
            lamport: self.lamport,
            future: self.future,
            deleted: self.deleted,
            slice: self.slice.slice(0, at),
        };
        let right = Span {
            id: ID { peer: self.id.peer, counter: self.id.counter + at as i32 },
            len: self.len - at,
            lamport: self.lamport + at as u32,
            future: self.future,
            deleted: self.deleted,
            slice: self.slice.slice(at, self.len),
        };
        proof {
            assert(self.atoms() =~= left.atoms() + right.atoms());
        }
        (left, right)
    }
}

pub open spec fn span_atoms(spans: Seq<Span>, i: int) -> Seq<Atom> {
    spans[i].atoms()
}

/// The runs, each as its atoms.
pub open spec fn span_parts(spans: Seq<Span>) -> Seq<Seq<Atom>> {
    Seq::new(spans.len(), |i: int| span_atoms(spans, i))
}

/// The atoms of runs laid end to end.
pub open spec fn atoms_of(spans: Seq<Span>) -> Seq<Atom> {
    flat(span_parts(spans))
}

/// What of a single atom a version shows.
pub open spec fn shown_one(a: Atom) -> Seq<Option<u32>> {
    if a.visible() {
        seq![a.unit]
    } else {
        Seq::empty()
    }
}

/// What the version the tracker stands at shows: the characters of those
/// atoms that it holds and that nothing it holds has deleted.
pub open spec fn shown(atoms: Seq<Atom>) -> Seq<Option<u32>>
    decreases atoms.len(),
{
    if atoms.len() == 0 {
        Seq::empty()
    } else {
        shown(atoms.drop_last()) + shown_one(atoms.last())
    }
}

pub proof fn lemma_shown_concat(a: Seq<Atom>, b: Seq<Atom>)
    ensures
        shown(a + b) == shown(a) + shown(b),
    decreases b.len(),
{
    if b.len() == 0 {
        assert(a + b =~= a);
        assert(shown(a) + shown(b) =~= shown(a));
    } else {
        assert((a + b).drop_last() =~= a + b.drop_last());
        lemma_shown_concat(a, b.drop_last());
        assert(shown(a + b) =~= shown(a) + shown(b));
    }
}

/// No more characters are shown than there are atoms.
pub proof fn lemma_shown_bound(atoms: Seq<Atom>)
    ensures
        shown(atoms).len() <= atoms.len(),
    decreases atoms.len(),
{
    if atoms.len() > 0 {
        lemma_shown_bound(atoms.drop_last());
    }
}

/// Atoms that all have the same fate show all their characters or none.
pub proof fn lemma_shown_uniform(atoms: Seq<Atom>, units: Seq<Option<u32>>, visible: bool)
    requires
        atoms.len() == units.len(),
        forall|i: int|
            0 <= i < atoms.len() ==> (#[trigger] atoms[i]).visible() == visible && atoms[i].unit
                == units[i],
    ensures
        shown(atoms) == (if visible {
            units
        } else {
            Seq::empty()
        }),
    decreases atoms.len(),
{
    if atoms.len() > 0 {
        lemma_shown_uniform(atoms.drop_last(), units.drop_last(), visible);
        if visible {
            assert(shown(atoms) =~= units);
        } else {
            assert(shown(atoms) =~= Seq::<Option<u32>>::empty());
        }
    }
}

/// A run shows its whole slice or nothing.
pub proof fn lemma_shown_span(s: Span)
    requires
        s.wf(),
    ensures
        shown(s.atoms()) == (if s.spec_visible() {
            slice_units(s.slice)
        } else {
            Seq::empty()
        }),
{
    let units = slice_units(s.slice);
    assert forall|i: int| 0 <= i < s.atoms().len() implies (#[trigger] s.atoms()[i]).visible()
        == s.spec_visible() && s.atoms()[i].unit == units[i] by {
        assert(s.atoms()[i] == s.atom(i));
    }
    lemma_shown_uniform(s.atoms(), units, s.spec_visible());
}

/// One deletion: the atom of the deleting operation, and the atom it
/// deleted.
pub type DelPair = (ID, ID);

/// A run of deletions: atom `i` of the operation from `op` on deleted atom
/// `i` from `target` on.
#[derive(Clone, Copy, Debug, PartialEq, Eq, Structural)]
pub struct DelRun {
    pub op: ID,
    pub target: ID,
    pub len: usize,
}

impl DelRun {
    pub open spec fn wf(&self) -> bool {
        &&& self.len > 0
        &&& self.op.counter >= 0
        &&& self.target.counter >= 0
        &&& self.op.counter + self.len <= i32::MAX
        &&& self.target.counter + self.len <= i32::MAX
    }

    pub open spec fn pair(&self, i: int) -> DelPair {
        (
            ID { peer: self.op.peer, counter: (self.op.counter + i) as i32 },
            ID { peer: self.target.peer, counter: (self.target.counter + i) as i32 },
        )
    }

    /// The deletions of the run, one by one.
    pub open spec fn pairs(&self) -> Seq<DelPair> {
        Seq::new(self.len as nat, |i: int| self.pair(i))
    }
}

pub open spec fn run_pairs(runs: Seq<DelRun>, i: int) -> Seq<DelPair> {
    runs[i].pairs()
}

pub open spec fn run_parts(runs: Seq<DelRun>) -> Seq<Seq<DelPair>> {
    Seq::new(runs.len(), |i: int| run_pairs(runs, i))
}

/// The deletions of runs laid end to end.
pub open spec fn pairs_of(runs: Seq<DelRun>) -> Seq<DelPair> {
    flat(run_parts(runs))
}

/// How many of the deletions that the version holds have deleted the atom
/// `x`.
pub open spec fn hits(pairs: Seq<DelPair>, vv: &VersionVector, x: ID) -> nat
    decreases pairs.len(),
{
    if pairs.len() == 0 {
        0
    } else {
        hits(pairs.drop_last(), vv, x) + (if pairs.last().1 == x && vv.includes(pairs.last().0) {
            1nat
        } else {
            0nat
        })
    }
}

pub proof fn lemma_hits_concat(a: Seq<DelPair>, b: Seq<DelPair>, vv: &VersionVector, x: ID)
    ensures
        hits(a + b, vv, x) == hits(a, vv, x) + hits(b, vv, x),
    decreases b.len(),
{
    if b.len() == 0 {
        assert(a + b =~= a);
    } else {
        assert((a + b).drop_last() =~= a + b.drop_last());
        lemma_hits_concat(a, b.drop_last(), vv, x);
    }
}

/// Versions that hold the same deleting atoms count the same deletions.
pub proof fn lemma_hits_same(pairs: Seq<DelPair>, a: &VersionVector, b: &VersionVector, x: ID)
    requires
        forall|i: int| 0 <= i < pairs.len() ==> a.includes((#[trigger] pairs[i]).0) == b.includes(pairs[i].0),
    ensures
        hits(pairs, a, x) == hits(pairs, b, x),
    decreases pairs.len(),
{
    if pairs.len() > 0 {
        lemma_hits_same(pairs.drop_last(), a, b, x);
    }
}

/// Whether the version holds the atom: what stood at the tracker's start is
/// held by every version.
pub open spec fn held(vv: &VersionVector, id: ID) -> bool {
    id.peer == BASE_PEER || vv.includes(id)
}

/// Whether every atom has the fate that the version and the deletions
/// decide for it.
pub open spec fn fates_match(atoms: Seq<Atom>, pairs: Seq<DelPair>, vv: &VersionVector) -> bool {
    forall|i: int|
        0 <= i < atoms.len() ==> (#[trigger] atoms[i]).future == !held(vv, atoms[i].id)
            && atoms[i].deleted == hits(pairs, vv, atoms[i].id)
}

/// What the tracker knows of the characters apart from their fate: which
/// they are and in what order they stand.
pub struct Item {
    pub id: ID,
    pub lamport: int,
    pub unit: Option<u32>,
}

pub open spec fn item_of(a: Atom) -> Item {
    Item { id: a.id, lamport: a.lamport, unit: a.unit }
}

pub open spec fn item_at(atoms: Seq<Atom>, i: int) -> Item {
    item_of(atoms[i])
}

pub open spec fn items_of(atoms: Seq<Atom>) -> Seq<Item> {
    Seq::new(atoms.len(), |i: int| item_at(atoms, i))
}

/// Atoms whose fates match the same version and deletions, and that are
/// the same characters in the same order, are the same atoms.
pub proof fn lemma_fates_decide(
    a: Seq<Atom>,
    b: Seq<Atom>,
    pairs: Seq<DelPair>,
    va: &VersionVector,
    vb: &VersionVector,
)
    requires
        items_of(a) == items_of(b),
        fates_match(a, pairs, va),
        fates_match(b, pairs, vb),
        va.same(vb),
    ensures
        a == b,
        shown(a) == shown(b),
{
    assert(a.len() == items_of(a).len());
    assert(b.len() == items_of(b).len());
    assert forall|i: int| 0 <= i < a.len() implies a[i] == b[i] by {
        assert(b.len() == a.len());
        assert(items_of(a)[i] == item_at(a, i));
        assert(items_of(b)[i] == item_at(b, i));
        assert(item_at(a, i) == item_at(b, i));
        assert forall|j: int| 0 <= j < pairs.len() implies va.includes((#[trigger] pairs[j]).0)
            == vb.includes(pairs[j].0) by {}
        lemma_hits_same(pairs, va, vb, a[i].id);
    }
    assert(a =~= b);
}

/// The place right after the `n`-th of the atoms that are shown, counting
/// from the atom at `from`; `from` itself where `n` is zero.
pub open spec fn cursor_from(atoms: Seq<Atom>, from: int, n: nat) -> int
    decreases atoms.len() - from,
{
    if from >= atoms.len() {
        atoms.len() as int
    } else if n == 0 {
        from
    } else if atoms[from].visible() {
        cursor_from(atoms, from + 1, (n - 1) as nat)
    } else {
        cursor_from(atoms, from + 1, n)
    }
}

/// Whether an atom with the stamp `(a_lamport, a_peer)` stands before one
/// with the stamp `(lamport, peer)` where both were inserted at the same
/// place: the later one does, and of two that are equally late the one of
/// the greater peer. What stood at the tracker's start stands before
/// nothing.
pub open spec fn outranks(a_lamport: int, a_peer: PeerID, lamport: int, peer: PeerID) -> bool {
    a_peer != BASE_PEER && (a_lamport > lamport || (a_lamport == lamport && a_peer > peer))
}

/// Where an atom with the stamp `(lamport, peer)` comes to stand that was
/// inserted at the place `i`: it lets pass every atom that outranks it, and
/// stands before the first that does not.
pub open spec fn settle(atoms: Seq<Atom>, i: int, lamport: int, peer: PeerID) -> int
    decreases atoms.len() - i,
{
    if i >= atoms.len() || i < 0 {
        atoms.len() as int
    } else if outranks(atoms[i].lamport, atoms[i].id.peer, lamport, peer) {
        settle(atoms, i + 1, lamport, peer)
    } else {
        i
    }
}

/// Passing atoms that all have the same fate: those that are shown count,
/// the others do not.
pub proof fn lemma_cursor_skip(atoms: Seq<Atom>, from: int, m: int, n: nat, visible: bool)
    requires
        0 <= from,
        0 <= m,
        from + m <= atoms.len(),
        forall|i: int| from <= i < from + m ==> (#[trigger] atoms[i]).visible() == visible,
    ensures
        visible && n >= m ==> cursor_from(atoms, from, n) == cursor_from(
            atoms,
            from + m,
            (n - m) as nat,
        ),
        visible && n < m ==> cursor_from(atoms, from, n) == from + n,
        !visible && n > 0 ==> cursor_from(atoms, from, n) == cursor_from(atoms, from + m, n),
    decreases m,
{
    if m > 0 {
        if visible {
            if n > 0 {
                lemma_cursor_skip(atoms, from + 1, m - 1, (n - 1) as nat, visible);
            }
        } else {
            lemma_cursor_skip(atoms, from + 1, m - 1, n, visible);
        }
    }
}

/// The place a cursor comes to lies within the atoms, at or after where it
/// set out.
pub proof fn lemma_cursor_range(atoms: Seq<Atom>, from: int, n: nat)
    requires
        0 <= from <= atoms.len(),
    ensures
        from <= cursor_from(atoms, from, n) <= atoms.len(),
    decreases atoms.len() - from,
{
    if from < atoms.len() && n > 0 {
        if atoms[from].visible() {
            lemma_cursor_skip(atoms, from, 0, n, true);
            lemma_cursor_range(atoms, from + 1, (n - 1) as nat);
        } else {
            lemma_cursor_range(atoms, from + 1, n);
        }
    }
}

/// An atom that passes takes with it the atoms of its peer that are later
/// than it.
pub proof fn lemma_settle_through(atoms: Seq<Atom>, p: int, m: int, lamport: int, peer: PeerID)
    requires
        0 <= p,
        1 <= m,
        p + m <= atoms.len(),
        outranks(atoms[p].lamport, atoms[p].id.peer, lamport, peer),
        forall|i: int|
            p < i < p + m ==> (#[trigger] atoms[i]).id.peer == atoms[p].id.peer && atoms[i].lamport
                >= atoms[p].lamport,
    ensures
        settle(atoms, p, lamport, peer) == settle(atoms, p + m, lamport, peer),
    decreases m,
{
    if m > 1 {
        lemma_settle_through(atoms, p, m - 1, lamport, peer);
        assert(atoms[p + m - 1].id.peer == atoms[p].id.peer);
    }
}

/// A change to the text as it stands: characters go in before place `pos`,
/// or `len` characters from place `pos` on go.
#[derive(Debug)]
pub enum Effect {
    Del { pos: usize, len: usize },
    Ins { pos: usize, content: ListSlice },
}

/// What content that goes in stands for, place by place.
pub open spec fn slice_content(content: ListSlice) -> Seq<Option<u32>> {
    match content {
        ListSlice::Slice(r) => slice_units(r),
        ListSlice::Unknown(n) => Seq::new(n as nat, |i: int| None::<u32>),
        _ => Seq::empty(),
    }
}

/// The text once the change has been made.
pub open spec fn effect_applied(units: Seq<Option<u32>>, e: Effect) -> Seq<Option<u32>> {
    match e {
        Effect::Ins { pos, content } => units.subrange(0, pos as int) + slice_content(content)
            + units.subrange(pos as int, units.len() as int),
        Effect::Del { pos, len } => units.subrange(0, pos as int) + units.subrange(
            pos + len,
            units.len() as int,
        ),
    }
}

/// The text once the changes have been made, in order.
pub open spec fn effects_applied(units: Seq<Option<u32>>, effects: Seq<Effect>) -> Seq<
    Option<u32>,
>
    decreases effects.len(),
{
    if effects.len() == 0 {
        units
    } else {
        effect_applied(effects_applied(units, effects.drop_last()), effects.last())
    }
}

/// Whether the change can be made to the text: it names places that are
/// there, it carries content that is a range of the pool or a placeholder,
/// and the text it leaves is no longer than `limit`.
pub open spec fn effect_fits(units: Seq<Option<u32>>, e: Effect, limit: int) -> bool {
    match e {
        Effect::Ins { pos, content } => pos <= units.len() && content.wf() && (content is Slice
            || content is Unknown) && units.len() + slice_content(content).len() <= limit,
        Effect::Del { pos, len } => pos + len <= units.len(),
    }
}

/// Whether the changes can be made to the text, in order.
pub open spec fn effects_fit(units: Seq<Option<u32>>, effects: Seq<Effect>, limit: int) -> bool
    decreases effects.len(),
{
    if effects.len() == 0 {
        true
    } else {
        effects_fit(units, effects.drop_last(), limit) && effect_fits(
            effects_applied(units, effects.drop_last()),
            effects.last(),
            limit,
        )
    }
}

pub proof fn lemma_effects_concat(units: Seq<Option<u32>>, a: Seq<Effect>, b: Seq<Effect>)
    ensures
        effects_applied(units, a + b) == effects_applied(effects_applied(units, a), b),
        effects_fit(units, a + b, i32::MAX as int) == (effects_fit(units, a, i32::MAX as int)
            && effects_fit(effects_applied(units, a), b, i32::MAX as int)),
    decreases b.len(),
{
    if b.len() == 0 {
        assert(a + b =~= a);
    } else {
        assert((a + b).drop_last() =~= a + b.drop_last());
        lemma_effects_concat(units, a, b.drop_last());
    }
}

/// Whether every atom whose content is known has it within the first
/// `bound` characters of the pool.
pub open spec fn atoms_below(atoms: Seq<Atom>, bound: int) -> bool {
    forall|i: int| 0 <= i < atoms.len() ==> ((#[trigger] atoms[i]).unit matches Some(u) ==> u < bound)
}

/// Whether content that goes in lies within the first `bound` characters of
/// the pool, where it is known.
pub open spec fn content_below(content: ListSlice, bound: int) -> bool {
    forall|j: int|
        0 <= j < slice_content(content).len() ==> (#[trigger] slice_content(content)[j] matches Some(
            u,
        ) ==> u < bound)
}

/// Whether the content that the changes put in lies within the first
/// `bound` characters of the pool.
pub open spec fn effects_below(effects: Seq<Effect>, bound: int) -> bool {
    forall|k: int|
        0 <= k < effects.len() ==> (#[trigger] effects[k] matches Effect::Ins { content, .. }
            ==> content_below(content, bound))
}

/// The content of a run is the content of its atoms.
pub proof fn lemma_span_below(spans: Seq<Span>, k: int, bound: int)
    requires
        0 <= k < spans.len(),
        spans[k].wf(),
        atoms_below(atoms_of(spans), bound),
    ensures
        forall|j: int|
            0 <= j < slice_units(spans[k].slice).len() ==> (#[trigger] slice_units(
                spans[k].slice,
            )[j] matches Some(u) ==> u < bound),
{
    let parts = span_parts(spans);
    crate::flat::lemma_flat_around(parts, k);
    assert(parts[k] == spans[k].atoms());
    assert forall|j: int| 0 <= j < slice_units(spans[k].slice).len() implies (#[trigger] slice_units(
        spans[k].slice,
    )[j] matches Some(u) ==> u < bound) by {
        let at = crate::flat::flat_prefix(parts, k) + j;
        assert(atoms_of(spans)[at] == parts[k][j]);
        assert(parts[k][j] == spans[k].atom(j));
    }
}

/// Atoms that are the same characters in the same order have their content
/// at the same places.
pub proof fn lemma_below_items(a: Seq<Atom>, b: Seq<Atom>, bound: int)
    requires
        items_of(a) == items_of(b),
        atoms_below(a, bound),
    ensures
        atoms_below(b, bound),
{
    assert(a.len() == items_of(a).len());
    assert(b.len() == items_of(b).len());
    assert forall|i: int| 0 <= i < b.len() implies ((#[trigger] b[i]).unit matches Some(u) ==> u
        < bound) by {
        assert(items_of(a)[i] == item_at(a, i));
        assert(items_of(b)[i] == item_at(b, i));
        assert(a[i].unit == b[i].unit);
    }
}

/// The content of a run, as an effect carries it.
pub fn slice_as_content(slice: SliceRange) -> (content: ListSlice)
    requires
        slice.wf(),
    ensures
        slice_content(content) == slice_units(slice),
        content.wf(),
        content is Slice || content is Unknown,
{
    if slice.is_unknown() {
        let content = ListSlice::Unknown(slice.atom_len());
        proof {
            assert(slice_content(content) =~= slice_units(slice));
        }
        content
    } else {
        ListSlice::Slice(slice)
    }
}

impl DelRun {
    /// Whether the run deleted the atom `x`.
    pub open spec fn targets(&self, x: ID) -> bool {
        x.peer == self.target.peer && self.target.counter <= x.counter < self.target.counter
            + self.len
    }

    /// The atom that deleted the atom `x`.
    pub open spec fn op_for(&self, x: ID) -> ID {
        ID { peer: self.op.peer, counter: (self.op.counter + (x.counter - self.target.counter)) as i32 }
    }
}

/// A run of deletions hits an atom once if it deleted it and the version
/// holds the atom that did so, else not at all.
pub proof fn lemma_run_hits(run: DelRun, vv: &VersionVector, x: ID, n: int)
    requires
        run.wf(),
        0 <= n <= run.len,
    ensures
        hits(run.pairs().subrange(0, n), vv, x) == (if run.targets(x) && x.counter
            < run.target.counter + n && vv.includes(run.op_for(x)) {
            1nat
        } else {
            0nat
        }),
    decreases n,
{
    let front = run.pairs().subrange(0, n);
    if n > 0 {
        lemma_run_hits(run, vv, x, n - 1);
        assert(front.drop_last() =~= run.pairs().subrange(0, n - 1));
        assert(front.last() == run.pair(n - 1));
    }
}

/// The same for the whole run.
pub proof fn lemma_run_hits_all(run: DelRun, vv: &VersionVector, x: ID)
    requires
        run.wf(),
    ensures
        hits(run.pairs(), vv, x) == (if run.targets(x) && vv.includes(run.op_for(x)) {
            1nat
        } else {
            0nat
        }),
{
    lemma_run_hits(run, vv, x, run.len as int);
    assert(run.pairs().subrange(0, run.len as int) =~= run.pairs());
}

/// No atom is hit more often than there are deletions.
pub proof fn lemma_hits_bound(pairs: Seq<DelPair>, vv: &VersionVector, x: ID)
    ensures
        hits(pairs, vv, x) <= pairs.len(),
    decreases pairs.len(),
{
    if pairs.len() > 0 {
        lemma_hits_bound(pairs.drop_last(), vv, x);
    }
}

/// What the runs up to run `m` and the runs from it on hit, taken apart.
pub proof fn lemma_hits_by_run(runs: Seq<DelRun>, m: int, vv: &VersionVector, x: ID)
    requires
        0 <= m < runs.len(),
    ensures
        hits(pairs_of(runs.subrange(0, m + 1)), vv, x) == hits(
            pairs_of(runs.subrange(0, m)),
            vv,
            x,
        ) + hits(runs[m].pairs(), vv, x),
        hits(pairs_of(runs.subrange(m, runs.len() as int)), vv, x) == hits(
            runs[m].pairs(),
            vv,
            x,
        ) + hits(pairs_of(runs.subrange(m + 1, runs.len() as int)), vv, x),
{
    let head = runs.subrange(0, m + 1);
    assert(run_parts(head).drop_last() =~= run_parts(runs.subrange(0, m)));
    assert(run_parts(head).last() == runs[m].pairs());
    lemma_hits_concat(pairs_of(runs.subrange(0, m)), runs[m].pairs(), vv, x);
    let tail = runs.subrange(m, runs.len() as int);
    let rest = runs.subrange(m + 1, runs.len() as int);
    assert(run_parts(tail) =~= seq![runs[m].pairs()] + run_parts(rest));
    lemma_flat_concat(seq![runs[m].pairs()], run_parts(rest));
    crate::flat::lemma_flat_one(runs[m].pairs());
    lemma_hits_concat(runs[m].pairs(), pairs_of(rest), vv, x);
}

/// Going on from where a cursor came to is going further from where it set
/// out.
pub proof fn lemma_cursor_onward(atoms: Seq<Atom>, from: int, a: nat, b: nat)
    requires
        0 <= from <= atoms.len(),
    ensures
        cursor_from(atoms, from, a + b) == cursor_from(atoms, cursor_from(atoms, from, a), b),
    decreases atoms.len() - from,
{
    if from < atoms.len() && a > 0 {
        if atoms[from].visible() {
            lemma_cursor_onward(atoms, from + 1, (a - 1) as nat, b);
        } else {
            lemma_cursor_onward(atoms, from + 1, a, b);
        }
    }
}

/// A cursor passes no more shown atoms than it was to pass.
pub proof fn lemma_cursor_count(atoms: Seq<Atom>, from: int, n: nat)
    requires
        0 <= from <= atoms.len(),
    ensures
        from <= cursor_from(atoms, from, n) <= atoms.len(),
        shown(atoms.subrange(from, cursor_from(atoms, from, n))).len() <= n,
    decreases atoms.len() - from,
{
    lemma_cursor_range(atoms, from, n);
    let c = cursor_from(atoms, from, n);
    if from < atoms.len() && n > 0 {
        let next = if atoms[from].visible() {
            (n - 1) as nat
        } else {
            n
        };
        lemma_cursor_count(atoms, from + 1, next);
        assert(atoms.subrange(from, c) =~= seq![atoms[from]] + atoms.subrange(from + 1, c));
        lemma_shown_concat(seq![atoms[from]], atoms.subrange(from + 1, c));
        assert(shown(seq![atoms[from]]) =~= shown_one(atoms[from])) by {
            reveal_with_fuel(shown, 2);
            assert(seq![atoms[from]].drop_last() =~= Seq::<Atom>::empty());
        }
    } else {
        assert(atoms.subrange(from, c) =~= Seq::<Atom>::empty());
    }
}

/// The deletions that one operation makes of the shown atoms among those
/// from `lo` up to `hi`: its atoms, numbered from `op` on, delete them one
/// by one in document order.
pub open spec fn strike_pairs(atoms: Seq<Atom>, lo: int, hi: int, op: ID) -> Seq<DelPair>
    decreases hi - lo,
{
    if hi <= lo {
        Seq::empty()
    } else {
        let before = strike_pairs(atoms, lo, hi - 1, op);
        if 0 <= hi - 1 < atoms.len() && atoms[hi - 1].visible() {
            before.push(
                (
                    ID { peer: op.peer, counter: (op.counter + before.len()) as i32 },
                    atoms[hi - 1].id,
                ),
            )
        } else {
            before
        }
    }
}

/// There are as many such deletions as there are shown atoms.
pub proof fn lemma_strike_count(atoms: Seq<Atom>, lo: int, hi: int, op: ID)
    requires
        0 <= lo <= hi <= atoms.len(),
    ensures
        strike_pairs(atoms, lo, hi, op).len() == shown(atoms.subrange(lo, hi)).len(),
    decreases hi - lo,
{
    if hi > lo {
        lemma_strike_count(atoms, lo, hi - 1, op);
        assert(atoms.subrange(lo, hi).drop_last() =~= atoms.subrange(lo, hi - 1));
    }
}

/// The deletions of the atoms of one run: none if the run is not shown, else
/// one run of deletions.
pub proof fn lemma_strike_span(atoms: Seq<Atom>, lo: int, p: int, s: Span, n: int, op: ID)
    requires
        0 <= lo <= p,
        0 <= n <= s.len,
        p + s.len <= atoms.len(),
        s.wf(),
        op.counter >= 0,
        op.counter + strike_pairs(atoms, lo, p, op).len() <= i32::MAX,
        forall|o: int| 0 <= o < s.len ==> atoms[p + o] == #[trigger] s.atom(o),
    ensures
        strike_pairs(atoms, lo, p + n, op) == strike_pairs(atoms, lo, p, op) + (
        if s.spec_visible() {
            (DelRun {
                op: ID {
                    peer: op.peer,
                    counter: (op.counter + strike_pairs(atoms, lo, p, op).len()) as i32,
                },
                target: s.id,
                len: s.len,
            }).pairs().subrange(0, n)
        } else {
            Seq::empty()
        }),
    decreases n,
{
    let before = strike_pairs(atoms, lo, p, op);
    let run = DelRun {
        op: ID { peer: op.peer, counter: (op.counter + before.len()) as i32 },
        target: s.id,
        len: s.len,
    };
    if n == 0 {
        assert(before + run.pairs().subrange(0, 0) =~= before);
        assert(before + Seq::<DelPair>::empty() =~= before);
    } else {
        lemma_strike_span(atoms, lo, p, s, n - 1, op);
        assert(atoms[p + n - 1] == s.atom(n - 1));
        if s.spec_visible() {
            let prev = strike_pairs(atoms, lo, p + n - 1, op);
            assert(prev.len() == before.len() + n - 1);
            assert(run.pairs().subrange(0, n) =~= run.pairs().subrange(0, n - 1).push(
                run.pair(n - 1),
            ));
            assert(strike_pairs(atoms, lo, p + n, op) =~= before + run.pairs().subrange(0, n));
        }
    }
}

/// The atom that a character is at a version: held or not, deleted as
/// often as the deletions that the version holds have deleted it.
pub open spec fn fated(item: Item, pairs: Seq<DelPair>, vv: &VersionVector) -> Atom {
    Atom {
        id: item.id,
        lamport: item.lamport,
        unit: item.unit,
        future: !held(vv, item.id),
        deleted: hits(pairs, vv, item.id),
    }
}

pub open spec fn fated_at(items: Seq<Item>, pairs: Seq<DelPair>, vv: &VersionVector, i: int) -> Atom {
    fated(items[i], pairs, vv)
}

/// The atoms that the characters are at a version.
pub open spec fn refated(items: Seq<Item>, pairs: Seq<DelPair>, vv: &VersionVector) -> Seq<Atom> {
    Seq::new(items.len(), |i: int| fated_at(items, pairs, vv, i))
}

/// The text that a version shows.
pub open spec fn shown_at(items: Seq<Item>, pairs: Seq<DelPair>, vv: &VersionVector) -> Seq<
    Option<u32>,
> {
    shown(refated(items, pairs, vv))
}

/// Atoms whose fates match a version are the atoms that their characters
/// are at that version.
pub proof fn lemma_refated(atoms: Seq<Atom>, pairs: Seq<DelPair>, vv: &VersionVector, other: &VersionVector)
    requires
        fates_match(atoms, pairs, vv),
        vv.same(other),
    ensures
        atoms == refated(items_of(atoms), pairs, other),
        shown(atoms) == shown_at(items_of(atoms), pairs, other),
{
    let r = refated(items_of(atoms), pairs, other);
    assert(r.len() == atoms.len());
    assert forall|i: int| 0 <= i < atoms.len() implies atoms[i] == r[i] by {
        assert(items_of(atoms)[i] == item_at(atoms, i));
        assert forall|j: int| 0 <= j < pairs.len() implies vv.includes((#[trigger] pairs[j]).0)
            == other.includes(pairs[j].0) by {}
        lemma_hits_same(pairs, vv, other, atoms[i].id);
    }
    assert(atoms =~= r);
}

/// Every character that is shown is the character of an atom.
pub proof fn lemma_shown_from_atoms(atoms: Seq<Atom>, i: int)
    requires
        0 <= i < shown(atoms).len(),
    ensures
        exists|j: int| 0 <= j < atoms.len() && (#[trigger] atoms[j]).unit == shown(atoms)[i],
    decreases atoms.len(),
{
    let front = atoms.drop_last();
    if i < shown(front).len() {
        lemma_shown_from_atoms(front, i);
        let j = choose|j: int| 0 <= j < front.len() && (#[trigger] front[j]).unit == shown(front)[i];
        assert(atoms[j] == front[j]);
    } else {
        assert(atoms[atoms.len() - 1].unit == shown(atoms)[i]);
    }
}

/// Where every atom is shown and nothing that is shown is known, no atom is
/// known.
pub proof fn lemma_fresh_unknown(atoms: Seq<Atom>)
    requires
        shown(atoms).len() == atoms.len(),
        forall|i: int| 0 <= i < shown(atoms).len() ==> (#[trigger] shown(atoms)[i]) is None,
    ensures
        forall|i: int| 0 <= i < atoms.len() ==> (#[trigger] atoms[i]).unit is None,
    decreases atoms.len(),
{
    if atoms.len() > 0 {
        let front = atoms.drop_last();
        lemma_shown_bound(front);
        assert(shown(atoms) == shown(front) + shown_one(atoms.last()));
        assert(shown_one(atoms.last()).len() == 1);
        assert forall|i: int| 0 <= i < shown(front).len() implies (#[trigger] shown(front)[i]) is None by {
            assert(shown(atoms)[i] == shown(front)[i]);
        }
        lemma_fresh_unknown(front);
        assert(shown(atoms)[atoms.len() - 1] == atoms.last().unit);
        assert forall|i: int| 0 <= i < atoms.len() implies (#[trigger] atoms[i]).unit is None by {
            if i < front.len() {
                assert(atoms[i] == front[i]);
            }
        }
    }
}

/// Where an insertion comes to stand lies within the atoms, at or after
/// where it was made.
pub proof fn lemma_settle_range(atoms: Seq<Atom>, i: int, lamport: int, peer: PeerID)
    requires
        0 <= i <= atoms.len(),
    ensures
        i <= settle(atoms, i, lamport, peer) <= atoms.len(),
    decreases atoms.len() - i,
{
    if i < atoms.len() {
        lemma_settle_range(atoms, i + 1, lamport, peer);
    }
}

} // verus!
