//! The tracker: the index of the known operations on one text by which the
//! text can be shown as it is at any version, and by which the change from
//! one version to another is turned into insertions and deletions at places
//! of the text as it stands.

use crate::flat::{
    flat, flat_prefix, lemma_find_part, lemma_flat_around, lemma_flat_concat, lemma_flat_cut,
    lemma_flat_insert, lemma_flat_monotone, lemma_flat_one, lemma_flat_replace, lemma_flat_step,
};
use crate::id::{Counter, IdSpan, Lamport, PeerID, ID};
use crate::version::IdSpanVector;
use crate::op::{ListOp, ListSlice, SliceRange, UNKNOWN_START};
use crate::text_rope::slice_units;
use crate::tracker_model::{
    atoms_below, atoms_of, content_below, cursor_from, effects_below, lemma_below_items,
    lemma_span_below, effect_applied, effect_fits, effects_applied, effects_fit, fates_match, held, hits, item_of,
    items_of, lemma_cursor_range, lemma_cursor_skip, lemma_effects_concat, lemma_hits_bound,
    lemma_hits_by_run, lemma_hits_concat, lemma_hits_same, lemma_run_hits_all,
    lemma_cursor_count, lemma_cursor_onward, lemma_settle_through, lemma_shown_concat,
    lemma_shown_span, lemma_strike_count, lemma_strike_span, outranks, pairs_of,
    run_parts, settle, shown, slice_as_content, slice_content, span_parts, strike_pairs,
    Atom, DelPair, DelRun, Effect, Item, Span, BASE_PEER,
};
use crate::effect_list::{
    all_changed, changed, effects_sound, lemma_sound_push, lemma_all_changed_concat, lemma_pass_concat, lemma_pass_uniform,
    lemma_pass_untouched, lemma_unit_effects_concat, lemma_unit_effects_one, pass, touched,
    unit_effects, units_of_effect, Change, UnitEffect,
};
use crate::version::VersionVector;
use vstd::prelude::*;

verus! {

/// The largest number of atoms a tracker holds.
pub const TRACKER_LIMIT: usize = 0x7fff_ffff;

/// Whether a run has the fate that the version and the deletions decide for
/// each of its atoms.
pub open spec fn span_fate_ok(s: Span, pairs: Seq<DelPair>, current: &VersionVector) -> bool {
    forall|o: int|
        0 <= o < s.len ==> s.future == !held(current, #[trigger] s.id_at(o)) && s.deleted == hits(
            pairs,
            current,
            s.id_at(o),
        )
}

/// Whether the version holds every atom of the run.
pub open spec fn span_known(s: Span, all: &VersionVector) -> bool {
    s.id.peer != BASE_PEER ==> all.counter(s.id.peer) >= s.id.counter + s.len
}

/// Whether the two runs have no atom in common.
pub open spec fn spans_apart(a: Span, b: Span) -> bool {
    a.id.peer != b.id.peer || a.id.counter + a.len <= b.id.counter || b.id.counter + b.len
        <= a.id.counter
}

/// Whether the runs are sound: each is well-formed, has the fate that the
/// version decides, holds only atoms that are known, and no atom is held
/// twice.
pub open spec fn spans_ok(
    spans: Seq<Span>,
    pairs: Seq<DelPair>,
    current: &VersionVector,
    all: &VersionVector,
) -> bool {
    &&& forall|k: int|
        0 <= k < spans.len() ==> (#[trigger] spans[k]).wf() && span_fate_ok(
            spans[k],
            pairs,
            current,
        ) && span_known(spans[k], all)
    &&& forall|j: int, k: int|
        0 <= j < k < spans.len() ==> spans_apart(#[trigger] spans[j], #[trigger] spans[k])
}

/// Whether the runs of deletions are sound: each is well-formed and made by
/// atoms that are known and of no peer that stands for the base.
pub open spec fn runs_ok(runs: Seq<DelRun>, all: &VersionVector) -> bool {
    forall|k: int|
        0 <= k < runs.len() ==> (#[trigger] runs[k]).wf() && all.counter(runs[k].op.peer)
            >= runs[k].op.counter + runs[k].len && runs[k].op.peer != BASE_PEER && (
        runs[k].target.peer == BASE_PEER || all.counter(runs[k].target.peer)
            >= runs[k].target.counter + runs[k].len)
}

/// What soundness says of each single deletion: the atom that deleted is
/// known and of no peer that stands for the base, and the atom that was
/// deleted is known.
pub proof fn lemma_pairs_known(runs: Seq<DelRun>, all: &VersionVector)
    requires
        runs_ok(runs, all),
    ensures
        forall|i: int|
            0 <= i < pairs_of(runs).len() ==> all.includes((#[trigger] pairs_of(runs)[i]).0)
                && pairs_of(runs)[i].0.peer != BASE_PEER && pairs_of(runs)[i].0.counter >= 0
                && held(all, pairs_of(runs)[i].1),
{
    let parts = run_parts(runs);
    assert forall|i: int| 0 <= i < pairs_of(runs).len() implies all.includes(
        (#[trigger] pairs_of(runs)[i]).0,
    ) && pairs_of(runs)[i].0.peer != BASE_PEER && pairs_of(runs)[i].0.counter >= 0 && held(
        all,
        pairs_of(runs)[i].1,
    ) by {
        lemma_find_part(parts, i);
        let k = crate::flat::find_part(parts, i).0;
        let o = crate::flat::find_part(parts, i).1;
        assert(runs[k].wf());
        assert(pairs_of(runs)[i] == runs[k].pair(o));
    }
}

/// No deletion of an atom, no hit.
pub proof fn lemma_hits_none(pairs: Seq<DelPair>, vv: &VersionVector, x: ID)
    requires
        forall|i: int| 0 <= i < pairs.len() ==> (#[trigger] pairs[i]).1 != x,
    ensures
        hits(pairs, vv, x) == 0,
    decreases pairs.len(),
{
    if pairs.len() > 0 {
        lemma_hits_none(pairs.drop_last(), vv, x);
    }
}

/// Letting the versions hold more atoms of `peer`, none of which is known
/// yet, changes the fate of no atom.
pub proof fn lemma_fates_after_growth(
    spans: Seq<Span>,
    runs: Seq<DelRun>,
    current: &VersionVector,
    all: &VersionVector,
    current2: &VersionVector,
    all2: &VersionVector,
    peer: PeerID,
)
    requires
        spans_ok(spans, pairs_of(runs), current, all),
        runs_ok(runs, all),
        peer != BASE_PEER,
        all.counter(peer) == current.counter(peer),
        current2.counter(peer) >= current.counter(peer),
        all2.counter(peer) >= all.counter(peer),
        forall|p: PeerID| p != peer ==> current2.counter(p) == current.counter(p),
        forall|p: PeerID| p != peer ==> all2.counter(p) == all.counter(p),
    ensures
        spans_ok(spans, pairs_of(runs), current2, all2),
        runs_ok(runs, all2),
{
    let pairs = pairs_of(runs);
    lemma_pairs_known(runs, all);
    assert forall|k: int| 0 <= k < spans.len() implies (#[trigger] spans[k]).wf() && span_fate_ok(
        spans[k],
        pairs,
        current2,
    ) && span_known(spans[k], all2) by {
        let s = spans[k];
        assert(span_fate_ok(s, pairs, current));
        assert(span_known(s, all));
        assert forall|o: int| 0 <= o < s.len implies s.future == !held(
            current2,
            #[trigger] s.id_at(o),
        ) && s.deleted == hits(pairs, current2, s.id_at(o)) by {
            assert forall|i: int| 0 <= i < pairs.len() implies current.includes(
                (#[trigger] pairs[i]).0,
            ) == current2.includes(pairs[i].0) by {
                assert(all.includes(pairs[i].0));
            }
            lemma_hits_same(pairs, current, current2, s.id_at(o));
        }
    }
}

/// Whether the atom `id` is the first of its run, if any run holds it.
pub open spec fn bordered(spans: Seq<Span>, id: ID) -> bool {
    forall|k: int| 0 <= k < spans.len() ==> !((#[trigger] spans[k]).holds(id) && spans[k].id != id)
}

/// Whether the run is sound by itself.
pub open spec fn span_sound(
    s: Span,
    pairs: Seq<DelPair>,
    current: &VersionVector,
    all: &VersionVector,
) -> bool {
    s.wf() && span_fate_ok(s, pairs, current) && span_known(s, all)
}

/// Putting a sound run that has no atom in common with the others in among
/// them keeps the runs sound.
pub proof fn lemma_insert_span_sound(
    before: Seq<Span>,
    k: int,
    s: Span,
    pairs: Seq<DelPair>,
    current: &VersionVector,
    all: &VersionVector,
)
    requires
        0 <= k <= before.len(),
        spans_ok(before, pairs, current, all),
        span_sound(s, pairs, current, all),
        forall|j: int| 0 <= j < before.len() ==> spans_apart(#[trigger] before[j], s),
    ensures
        spans_ok(before.insert(k, s), pairs, current, all),
        atoms_of(before.insert(k, s)) == atoms_of(before).subrange(
            0,
            flat_prefix(span_parts(before), k) as int,
        ) + s.atoms() + atoms_of(before).subrange(
            flat_prefix(span_parts(before), k) as int,
            atoms_of(before).len() as int,
        ),
{
    let after = before.insert(k, s);
    assert(span_parts(after) =~= span_parts(before).insert(k, s.atoms()));
    lemma_flat_insert(span_parts(before), k, s.atoms());
    assert forall|j: int| 0 <= j < after.len() implies (#[trigger] after[j]).wf() && span_fate_ok(
        after[j],
        pairs,
        current,
    ) && span_known(after[j], all) by {
        if j < k {
            assert(after[j] == before[j]);
        } else if j > k {
            assert(after[j] == before[j - 1]);
        }
    }
    assert forall|i: int, j: int| 0 <= i < j < after.len() implies spans_apart(
        #[trigger] after[i],
        #[trigger] after[j],
    ) by {
        let bi = if i < k {
            i
        } else {
            i - 1
        };
        let bj = if j < k {
            j
        } else {
            j - 1
        };
        if i == k {
            assert(after[j] == before[bj]);
            assert(spans_apart(before[bj], s));
        } else if j == k {
            assert(after[i] == before[bi]);
            assert(spans_apart(before[bi], s));
        } else {
            assert(after[i] == before[bi] && after[j] == before[bj]);
            assert(spans_apart(before[bi], before[bj]));
        }
    }
}

/// Cutting run `at` in two changes no atom.
pub proof fn lemma_split_atoms(before: Seq<Span>, after: Seq<Span>, at: int, l: Span, r: Span)
    requires
        0 <= at < before.len(),
        before[at].atoms() == l.atoms() + r.atoms(),
        l.atoms().len() == l.len,
        after == before.subrange(0, at) + seq![l, r] + before.subrange(at + 1, before.len() as int),
    ensures
        atoms_of(after) == atoms_of(before),
        flat_prefix(span_parts(after), at + 1) == flat_prefix(span_parts(before), at) + l.len,
        forall|j: int|
            0 <= j <= at ==> #[trigger] flat_prefix(span_parts(after), j) == flat_prefix(
                span_parts(before),
                j,
            ),
        forall|j: int|
            at < j <= before.len() ==> flat_prefix(span_parts(after), j + 1) == #[trigger] flat_prefix(
                span_parts(before),
                j,
            ),
{
    let bp = span_parts(before);
    let ap = span_parts(after);
    let with = seq![l.atoms(), r.atoms()];
    assert(ap =~= bp.subrange(0, at) + with + bp.subrange(at + 1, bp.len() as int));
    assert(flat(with) =~= l.atoms() + r.atoms()) by {
        reveal_with_fuel(flat, 3);
        assert(with.drop_last() =~= seq![l.atoms()]);
        assert(with.drop_last().drop_last() =~= Seq::<Seq<Atom>>::empty());
    }
    lemma_flat_replace(bp, ap, at, with);
    assert(flat_prefix(ap, at + 1) == flat_prefix(bp, at) + l.len) by {
        assert(ap.subrange(0, at + 1) =~= bp.subrange(0, at) + seq![l.atoms()]);
        lemma_flat_concat(bp.subrange(0, at), seq![l.atoms()]);
        lemma_flat_one(l.atoms());
    }
    assert forall|j: int| at < j <= before.len() implies flat_prefix(ap, j + 1)
        == #[trigger] flat_prefix(bp, j) by {
        assert(ap.subrange(0, j + 1) =~= bp.subrange(0, at) + with + bp.subrange(at + 1, j));
        assert(bp.subrange(0, j) =~= bp.subrange(0, at) + seq![bp[at]] + bp.subrange(at + 1, j));
        lemma_flat_concat(bp.subrange(0, at), with);
        lemma_flat_concat(bp.subrange(0, at) + with, bp.subrange(at + 1, j));
        lemma_flat_concat(bp.subrange(0, at), seq![bp[at]]);
        lemma_flat_concat(bp.subrange(0, at) + seq![bp[at]], bp.subrange(at + 1, j));
        lemma_flat_one(bp[at]);
    }
}

/// Cutting run `at` in two keeps the runs sound.
pub proof fn lemma_split_sound(
    before: Seq<Span>,
    after: Seq<Span>,
    at: int,
    l: Span,
    r: Span,
    pairs: Seq<DelPair>,
    current: &VersionVector,
    all: &VersionVector,
)
    requires
        0 <= at < before.len(),
        spans_ok(before, pairs, current, all),
        l.wf(),
        r.wf(),
        l.id == before[at].id,
        r.id == before[at].id_at(l.len as int),
        l.len + r.len == before[at].len,
        l.future == before[at].future && r.future == before[at].future,
        l.deleted == before[at].deleted && r.deleted == before[at].deleted,
        after == before.subrange(0, at) + seq![l, r] + before.subrange(at + 1, before.len() as int),
    ensures
        spans_ok(after, pairs, current, all),
{
    let s = before[at];
    assert(span_fate_ok(l, pairs, current)) by {
        assert forall|o: int| 0 <= o < l.len implies l.future == !held(
            current,
            #[trigger] l.id_at(o),
        ) && l.deleted == hits(pairs, current, l.id_at(o)) by {
            assert(l.id_at(o) == s.id_at(o));
        }
    }
    assert(span_fate_ok(r, pairs, current)) by {
        assert forall|o: int| 0 <= o < r.len implies r.future == !held(
            current,
            #[trigger] r.id_at(o),
        ) && r.deleted == hits(pairs, current, r.id_at(o)) by {
            assert(r.id_at(o) == s.id_at(l.len + o));
        }
    }
    assert(span_known(l, all) && span_known(r, all));
    assert forall|k: int| 0 <= k < after.len() implies (#[trigger] after[k]).wf() && span_fate_ok(
        after[k],
        pairs,
        current,
    ) && span_known(after[k], all) by {
        if k < at {
            assert(after[k] == before[k]);
        } else if k == at {
            assert(after[k] == l);
        } else if k == at + 1 {
            assert(after[k] == r);
        } else {
            assert(after[k] == before[k - 1]);
        }
    }
    assert forall|j: int, k: int| 0 <= j < k < after.len() implies spans_apart(
        #[trigger] after[j],
        #[trigger] after[k],
    ) by {
        let bj = if j <= at {
            j
        } else {
            j - 1
        };
        let bk = if k <= at {
            k
        } else {
            k - 1
        };
        assert(after[j] == (if j == at {
            l
        } else if j == at + 1 {
            r
        } else {
            before[bj]
        }));
        assert(after[k] == (if k == at {
            l
        } else if k == at + 1 {
            r
        } else {
            before[bk]
        }));
        if bj != bk {
            assert(spans_apart(before[bj], before[bk]));
        }
    }
}

pub struct Tracker {
    content: Vec<Span>,
    deletes: Vec<DelRun>,
    start_vv: VersionVector,
    all_vv: VersionVector,
    current_vv: VersionVector,
}

impl Tracker {
    /// Every character that a known operation has inserted, in document
    /// order, with its fate at the version the tracker stands at.
    pub closed spec fn atoms(&self) -> Seq<Atom> {
        atoms_of(self.content@)
    }

    /// Every known deletion.
    pub closed spec fn pairs(&self) -> Seq<DelPair> {
        pairs_of(self.deletes@)
    }

    /// The known deletions, in the runs in which the tracker keeps them.
    pub closed spec fn strikes(&self) -> Seq<DelRun> {
        self.deletes@
    }

    /// The version the tracker started at, below which it cannot go.
    pub closed spec fn start(&self) -> VersionVector {
        self.start_vv
    }

    /// The version that holds every operation the tracker knows.
    pub closed spec fn all(&self) -> VersionVector {
        self.all_vv
    }

    /// The version the tracker stands at.
    pub closed spec fn current(&self) -> VersionVector {
        self.current_vv
    }

    /// The text as the version the tracker stands at shows it.
    pub open spec fn shown(&self) -> Seq<Option<u32>> {
        shown(self.atoms())
    }

    pub closed spec fn wf(&self) -> bool {
        &&& self.start_vv.wf()
        &&& self.all_vv.wf()
        &&& self.current_vv.wf()
        &&& self.all_vv.covers(&self.current_vv)
        &&& self.current_vv.covers(&self.start_vv)
        &&& spans_ok(self.content@, pairs_of(self.deletes@), &self.current_vv, &self.all_vv)
        &&& runs_ok(self.deletes@, &self.all_vv)
        &&& atoms_of(self.content@).len() <= TRACKER_LIMIT
        &&& pairs_of(self.deletes@).len() <= TRACKER_LIMIT
        &&& self.all_vv.counter(BASE_PEER) == 0
    }

    /// What well-formedness says to the outside: the versions are in order,
    /// and every atom has the fate that the version the tracker stands at
    /// and the known deletions decide for it.
    pub proof fn lemma_wf(&self)
        requires
            self.wf(),
        ensures
            self.start().wf(),
            self.all().wf(),
            self.current().wf(),
            self.all().covers(&self.current()),
            self.current().covers(&self.start()),
            fates_match(self.atoms(), self.pairs(), &self.current()),
            self.atoms().len() <= TRACKER_LIMIT,
            self.pairs().len() <= TRACKER_LIMIT,
            forall|i: int|
                0 <= i < self.atoms().len() ==> held(&self.all(), (#[trigger] self.atoms()[i]).id),
            forall|i: int, j: int|
                0 <= i < j < self.atoms().len() ==> (#[trigger] self.atoms()[i]).id != (
                #[trigger] self.atoms()[j]).id,
    {
        let parts = span_parts(self.content@);
        let atoms = self.atoms();
        assert forall|i: int| 0 <= i < atoms.len() implies (#[trigger] atoms[i]).future == !held(
            &self.current(),
            atoms[i].id,
        ) && atoms[i].deleted == hits(self.pairs(), &self.current(), atoms[i].id) && held(
            &self.all(),
            atoms[i].id,
        ) by {
            lemma_find_part(parts, i);
            let k = crate::flat::find_part(parts, i).0;
            let o = crate::flat::find_part(parts, i).1;
            let s = self.content@[k];
            assert(s.wf());
            assert(atoms[i] == s.atom(o));
            assert(s.future == !held(&self.current(), s.id_at(o)));
        }
        assert forall|i: int, j: int| 0 <= i < j < atoms.len() implies (#[trigger] atoms[i]).id
            != (#[trigger] atoms[j]).id by {
            lemma_find_part(parts, i);
            lemma_find_part(parts, j);
            let ki = crate::flat::find_part(parts, i).0;
            let oi = crate::flat::find_part(parts, i).1;
            let kj = crate::flat::find_part(parts, j).0;
            let oj = crate::flat::find_part(parts, j).1;
            assert(atoms[i] == self.content@[ki].atom(oi));
            assert(atoms[j] == self.content@[kj].atom(oj));
            assert(self.content@[ki].wf() && self.content@[kj].wf());
            if ki == kj {
            } else if ki < kj {
                assert(spans_apart(self.content@[ki], self.content@[kj]));
            } else {
                lemma_flat_monotone(parts, kj + 1, ki);
                lemma_flat_step(parts, kj);
            }
        }
    }

    /// A tracker that starts at the version `start_vv`, where the text was
    /// `init_len` characters long. Those characters are held as one run of
    /// unknown content whose atoms are numbered from zero, so that they are
    /// in no way confused with the atoms of operations: they are atoms of
    /// the reserved peer, of which the version holds nothing.
    pub fn new(start_vv: VersionVector, init_len: Counter) -> (t: Tracker)
        requires
            start_vv.wf(),
            start_vv.counter(BASE_PEER) == 0,
            0 <= init_len,
        ensures
            t.wf(),
            t.start() == start_vv,
            t.all().same(&start_vv),
            t.current().same(&start_vv),
            t.pairs() == Seq::<DelPair>::empty(),
            t.atoms().len() == init_len,
            t.shown() == Seq::new(init_len as nat, |i: int| None::<u32>),
    {
        let all_vv = start_vv.duplicate();
        let current_vv = start_vv.duplicate();
        let mut content: Vec<Span> = Vec::new();
        let deletes: Vec<DelRun> = Vec::new();
        proof {
            assert(run_parts(deletes@) =~= Seq::<Seq<DelPair>>::empty());
            assert(span_parts(content@) =~= Seq::<Seq<Atom>>::empty());
        }
        if init_len > 0 {
            let base = Span {
                id: ID { peer: BASE_PEER, counter: 0 },
                len: init_len as usize,
                lamport: 0,
                future: false,
                deleted: 0,
                slice: SliceRange::new_unknown(init_len as u32),
            };
            content.push(base);
            proof {
                assert(span_parts(content@) =~= seq![base.atoms()]);
                lemma_flat_one(base.atoms());
                lemma_shown_span(base);
                assert(slice_units(base.slice) =~= Seq::new(init_len as nat, |i: int| None::<u32>));
            }
        } else {
            proof {
                assert(Seq::<Option<u32>>::empty() =~= Seq::new(
                    init_len as nat,
                    |i: int| None::<u32>,
                ));
            }
        }
        Tracker { content, deletes, start_vv, all_vv, current_vv }
    }

    /// The version the tracker started at.
    pub fn start_vv(&self) -> (vv: &VersionVector)
        ensures
            *vv == self.start(),
    {
        &self.start_vv
    }

    /// The version that holds every operation the tracker knows.
    pub fn all_vv(&self) -> (vv: &VersionVector)
        ensures
            *vv == self.all(),
    {
        &self.all_vv
    }

    /// Whether what the tracker keeps of its atoms agrees with itself: the
    /// lengths of the runs add up to no more than a tracker holds.
    pub fn check(&self) -> (ok: bool)
        requires
            self.wf(),
        ensures
            ok,
    {
        let parts = Ghost(span_parts(self.content@));
        let mut k: usize = 0;
        let mut total: usize = 0;
        proof {
            assert(parts@.subrange(0, 0) =~= Seq::<Seq<Atom>>::empty());
        }
        while k < self.content.len()
            invariant
                self.wf(),
                parts@ == span_parts(self.content@),
                k <= self.content@.len(),
                total == flat_prefix(parts@, k as int),
                total <= TRACKER_LIMIT,
            decreases self.content@.len() - k,
        {
            proof {
                lemma_flat_step(parts@, k as int);
                lemma_flat_monotone(parts@, k + 1, parts@.len() as int);
                assert(parts@.subrange(0, parts@.len() as int) =~= parts@);
            }
            total = total + self.content[k].len;
            k = k + 1;
        }
        total <= TRACKER_LIMIT
    }

    /// Cuts run `k` in two before its atom `at`.
    fn split_span(&mut self, k: usize, at: usize)
        requires
            old(self).wf(),
            k < old(self).content@.len(),
            0 < at < old(self).content@[k as int].len,
        ensures
            final(self).wf(),
            final(self).atoms() == old(self).atoms(),
            final(self).deletes@ == old(self).deletes@,
            final(self).start_vv == old(self).start_vv,
            final(self).all_vv == old(self).all_vv,
            final(self).current_vv == old(self).current_vv,
            final(self).content@.len() == old(self).content@.len() + 1,
            final(self).content@.subrange(0, k as int) == old(self).content@.subrange(0, k as int),
            final(self).content@.subrange(k + 2, final(self).content@.len() as int) == old(
                self,
            ).content@.subrange(k + 1, old(self).content@.len() as int),
            final(self).content@[k as int].id == old(self).content@[k as int].id,
            final(self).content@[k as int].len == at,
            final(self).content@[k + 1].id == old(self).content@[k as int].id_at(at as int),
            final(self).content@[k + 1].len == old(self).content@[k as int].len - at,
            final(self).content@[k as int].future == old(self).content@[k as int].future,
            final(self).content@[k + 1].future == old(self).content@[k as int].future,
            final(self).content@[k as int].deleted == old(self).content@[k as int].deleted,
            final(self).content@[k + 1].deleted == old(self).content@[k as int].deleted,
            flat_prefix(span_parts(final(self).content@), k + 1) == flat_prefix(
                span_parts(old(self).content@),
                k as int,
            ) + at,
            forall|j: int|
                0 <= j <= k ==> #[trigger] flat_prefix(span_parts(final(self).content@), j)
                    == flat_prefix(span_parts(old(self).content@), j),
            forall|j: int|
                k < j <= old(self).content@.len() ==> flat_prefix(
                    span_parts(final(self).content@),
                    j + 1,
                ) == #[trigger] flat_prefix(span_parts(old(self).content@), j),
            forall|id: ID|
                #[trigger] bordered(old(self).content@, id) ==> bordered(final(self).content@, id),
    {
        let ghost before = self.content@;
        let s = self.content.remove(k);
        let (l, r) = s.split(at);
        self.content.insert(k, r);
        self.content.insert(k, l);
        proof {
            assert(self.content@ =~= before.subrange(0, k as int) + seq![l, r] + before.subrange(
                k + 1,
                before.len() as int,
            ));
            lemma_split_atoms(before, self.content@, k as int, l, r);
            lemma_split_sound(
                before,
                self.content@,
                k as int,
                l,
                r,
                pairs_of(self.deletes@),
                &self.current_vv,
                &self.all_vv,
            );
            assert(self.content@.subrange(0, k as int) =~= before.subrange(0, k as int));
            assert(self.content@.subrange(k + 2, self.content@.len() as int) =~= before.subrange(
                k + 1,
                before.len() as int,
            ));
            assert forall|id: ID| #[trigger] bordered(before, id) implies bordered(
                self.content@,
                id,
            ) by {
                assert forall|j: int| 0 <= j < self.content@.len() implies !((
                #[trigger] self.content@[j]).holds(id) && self.content@[j].id != id) by {
                    let bj = if j <= k {
                        j
                    } else {
                        j - 1
                    };
                    assert(!(before[bj].holds(id) && before[bj].id != id));
                    if j < k {
                        assert(self.content@[j] == before[j]);
                    } else if j > k + 1 {
                        assert(self.content@[j] == before[j - 1]);
                    }
                }
            }
        }
    }
}

/// The atoms of run `k` stand where the runs before it end.
pub proof fn lemma_span_atoms(spans: Seq<Span>, k: int)
    requires
        0 <= k < spans.len(),
    ensures
        flat_prefix(span_parts(spans), k) + spans[k].len == flat_prefix(span_parts(spans), k + 1),
        flat_prefix(span_parts(spans), k + 1) <= atoms_of(spans).len(),
        forall|o: int|
            0 <= o < spans[k].len ==> atoms_of(spans)[flat_prefix(span_parts(spans), k) + o]
                == #[trigger] spans[k].atom(o),
{
    let parts = span_parts(spans);
    lemma_flat_around(parts, k);
    lemma_flat_step(parts, k);
    assert forall|o: int| 0 <= o < spans[k].len implies atoms_of(spans)[flat_prefix(parts, k) + o]
        == #[trigger] spans[k].atom(o) by {
        assert(parts[k][o] == spans[k].atom(o));
    }
}

impl Tracker {
    /// Makes the place right after the `n`-th shown atom a border between
    /// runs, and returns the position of the run that begins there.
    fn cursor_border(&mut self, n: usize) -> (k: usize)
        requires
            old(self).wf(),
        ensures
            final(self).wf(),
            final(self).atoms() == old(self).atoms(),
            final(self).deletes@ == old(self).deletes@,
            final(self).start_vv == old(self).start_vv,
            final(self).all_vv == old(self).all_vv,
            final(self).current_vv == old(self).current_vv,
            k <= final(self).content@.len(),
            flat_prefix(span_parts(final(self).content@), k as int) == cursor_from(
                old(self).atoms(),
                0,
                n as nat,
            ),
            forall|j: int|
                0 <= j <= old(self).content@.len() && #[trigger] flat_prefix(
                    span_parts(old(self).content@),
                    j,
                ) <= cursor_from(old(self).atoms(), 0, n as nat) ==> j <= k && flat_prefix(
                    span_parts(final(self).content@),
                    j,
                ) == flat_prefix(span_parts(old(self).content@), j),
    {
        let ghost atoms = self.atoms();
        let ghost parts = span_parts(self.content@);
        let ghost goal = cursor_from(atoms, 0, n as nat);
        proof {
            assert(parts.subrange(0, 0) =~= Seq::<Seq<Atom>>::empty());
            lemma_cursor_range(atoms, 0, n as nat);
        }
        if n == 0 {
            proof {
                assert forall|j: int|
                    0 <= j <= parts.len() && #[trigger] flat_prefix(parts, j) <= goal implies j
                    <= 0 by {
                    if j > 0 {
                        lemma_flat_monotone(parts, 1, j);
                        lemma_span_atoms(self.content@, 0);
                    }
                }
            }
            return 0;
        }
        let mut k: usize = 0;
        let mut remaining: usize = n;
        while k < self.content.len()
            invariant
                self.wf(),
                *self == *old(self),
                atoms == self.atoms(),
                parts == span_parts(self.content@),
                k <= self.content@.len(),
                remaining > 0,
                goal == cursor_from(old(self).atoms(), 0, n as nat),
                goal == cursor_from(atoms, flat_prefix(parts, k as int) as int, remaining as nat),
                flat_prefix(parts, k as int) <= goal,
                forall|j: int|
                    0 <= j <= k ==> #[trigger] flat_prefix(parts, j) <= flat_prefix(parts, k as int),
            decreases self.content@.len() - k,
        {
            let s = self.content[k];
            let ghost p = flat_prefix(parts, k as int) as int;
            proof {
                lemma_span_atoms(self.content@, k as int);
                assert forall|i: int| p <= i < p + s.len implies (#[trigger] atoms[i]).visible()
                    == s.spec_visible() by {
                    assert(atoms[i] == s.atom(i - p));
                }
                lemma_cursor_skip(atoms, p, s.len as int, remaining as nat, s.spec_visible());
                lemma_cursor_range(atoms, p + s.len, (remaining - s.len) as nat);
                lemma_cursor_range(atoms, p + s.len, remaining as nat);
                assert forall|j: int| 0 <= j <= k + 1 implies #[trigger] flat_prefix(parts, j)
                    <= flat_prefix(parts, k + 1) by {
                    lemma_flat_monotone(parts, j, k + 1);
                }
            }
            if s.visible() {
                if remaining < s.len {
                    self.split_span(k, remaining);
                    proof {
                        assert(goal == p + remaining);
                        assert(flat_prefix(span_parts(self.content@), k + 1) == p + remaining);
                        assert forall|j: int|
                            0 <= j <= parts.len() && #[trigger] flat_prefix(parts, j)
                                <= goal implies j <= k + 1 && flat_prefix(
                            span_parts(self.content@),
                            j,
                        ) == flat_prefix(parts, j) by {
                            if j > k {
                                lemma_flat_monotone(parts, k + 1, j);
                            }
                        }
                    }
                    return k + 1;
                } else if remaining == s.len {
                    proof {
                        lemma_cursor_range(atoms, p + s.len, 0);
                        assert(cursor_from(atoms, p + s.len, 0) == p + s.len);
                        assert(goal == p + s.len);
                        assert forall|j: int|
                            0 <= j <= parts.len() && #[trigger] flat_prefix(parts, j)
                                <= goal implies j <= k + 1 by {
                            if j > k + 1 {
                                lemma_flat_monotone(parts, k + 2, j);
                                lemma_span_atoms(self.content@, k + 1);
                            }
                        }
                    }
                    return k + 1;
                } else {
                    remaining = remaining - s.len;
                }
            }
            k = k + 1;
        }
        proof {
            assert(parts.subrange(0, k as int) =~= parts);
            assert forall|j: int|
                0 <= j <= parts.len() && #[trigger] flat_prefix(parts, j) <= goal implies j
                <= k by {}
        }
        k
    }

    /// Where among the runs an insertion comes to stand that was made at the
    /// border `start` with the stamp `(lamport, peer)`.
    fn settle_at(&self, start: usize, lamport: Lamport, peer: PeerID) -> (k: usize)
        requires
            self.wf(),
            start <= self.content@.len(),
        ensures
            start <= k <= self.content@.len(),
            flat_prefix(span_parts(self.content@), k as int) == settle(
                self.atoms(),
                flat_prefix(span_parts(self.content@), start as int) as int,
                lamport as int,
                peer,
            ),
    {
        let ghost parts = span_parts(self.content@);
        let ghost atoms = self.atoms();
        let ghost from = flat_prefix(parts, start as int) as int;
        let mut k: usize = start;
        proof {
            lemma_flat_cut(parts, start as int);
        }
        while k < self.content.len()
            invariant
                self.wf(),
                parts == span_parts(self.content@),
                atoms == self.atoms(),
                start <= k <= self.content@.len(),
                from == flat_prefix(parts, start as int),
                from <= flat_prefix(parts, k as int) <= atoms.len(),
                settle(atoms, from, lamport as int, peer) == settle(
                    atoms,
                    flat_prefix(parts, k as int) as int,
                    lamport as int,
                    peer,
                ),
            decreases self.content@.len() - k,
        {
            let s = self.content[k];
            let ghost p = flat_prefix(parts, k as int) as int;
            proof {
                lemma_span_atoms(self.content@, k as int);
                assert(atoms[p] == s.atom(0));
            }
            let passes = s.id.peer != BASE_PEER && (s.lamport > lamport || (s.lamport == lamport
                && s.id.peer > peer));
            if !passes {
                return k;
            }
            proof {
                assert forall|i: int| p < i < p + s.len implies (#[trigger] atoms[i]).id.peer
                    == atoms[p].id.peer && atoms[i].lamport >= atoms[p].lamport by {
                    assert(atoms[i] == s.atom(i - p));
                }
                lemma_settle_through(atoms, p, s.len as int, lamport as int, peer);
            }
            k = k + 1;
        }
        proof {
            assert(parts.subrange(0, k as int) =~= parts);
        }
        k
    }
}

/// Where an insertion at place `pos` of the shown text comes to stand
/// among all atoms: it is made right after the `pos`-th shown atom, and from
/// there lets pass what outranks it.
pub open spec fn insert_place(atoms: Seq<Atom>, lamport: int, peer: PeerID, pos: nat) -> int {
    let c = cursor_from(atoms, 0, pos);
    settle(atoms, c, lamport, peer)
}

/// The run that an insertion at place `pos` of the shown text adds.
pub open spec fn inserted_span(
    atoms: Seq<Atom>,
    id: ID,
    lamport: Lamport,
    slice: SliceRange,
    pos: nat,
) -> Span {
    Span {
        id,
        len: slice.len() as usize,
        lamport,
        future: false,
        deleted: 0,
        slice,
    }
}

impl Tracker {
    /// Whether the tracker can take in an operation of `len` atoms that
    /// begins with the atom `id`: the operation is the next of its peer,
    /// both for all the tracker knows and for the version it stands at.
    pub open spec fn ready_for(&self, id: ID, len: int) -> bool {
        &&& id.peer != BASE_PEER
        &&& id.counter >= 0
        &&& len > 0
        &&& id.counter + len <= i32::MAX
        &&& self.all().counter(id.peer) == id.counter
        &&& self.current().counter(id.peer) == id.counter
    }

    /// What taking in an operation does to the versions: both come to hold
    /// its atoms.
    pub open spec fn grown_by(&self, before: &Tracker, id: ID, len: int) -> bool {
        &&& self.start() == before.start()
        &&& self.all().counter(id.peer) == id.counter + len
        &&& self.current().counter(id.peer) == id.counter + len
        &&& forall|p: PeerID| p != id.peer ==> self.all().counter(p) == before.all().counter(p)
        &&& forall|p: PeerID|
            p != id.peer ==> self.current().counter(p) == before.current().counter(p)
    }

    /// Takes in the insertion of `slice` at place `pos` of the text as the
    /// version the tracker stands at shows it.
    pub fn apply_insert(&mut self, id: ID, lamport: Lamport, slice: SliceRange, pos: usize)
        requires
            old(self).wf(),
            old(self).ready_for(id, slice.len() as int),
            slice.wf(),
            lamport + slice.len() <= u32::MAX,
            old(self).atoms().len() + slice.len() <= TRACKER_LIMIT,
        ensures
            final(self).wf(),
            final(self).grown_by(old(self), id, slice.len() as int),
            final(self).pairs() == old(self).pairs(),
            final(self).atoms() == old(self).atoms().subrange(
                0,
                insert_place(old(self).atoms(), lamport as int, id.peer, pos as nat),
            ) + inserted_span(old(self).atoms(), id, lamport, slice, pos as nat).atoms() + old(
                self,
            ).atoms().subrange(
                insert_place(old(self).atoms(), lamport as int, id.peer, pos as nat),
                old(self).atoms().len() as int,
            ),
    {
        let ghost atoms = self.atoms();
        let len = slice.atom_len();
        let start = self.cursor_border(pos);
        let k = self.settle_at(start, lamport, id.peer);
        let span = Span { id, len, lamport, future: false, deleted: 0, slice };
        let ghost spans = self.content@;
        let ghost runs = self.deletes@;
        let ghost current = self.current_vv;
        let ghost all = self.all_vv;
        let end = (id.counter as i64 + len as i64) as i32;
        self.all_vv.set_end(id.peer, end);
        self.current_vv.set_end(id.peer, end);
        self.content.insert(k, span);
        proof {
            let pairs = pairs_of(runs);
            lemma_fates_after_growth(
                spans,
                runs,
                &current,
                &all,
                &self.current_vv,
                &self.all_vv,
                id.peer,
            );
            lemma_pairs_known(runs, &all);
            assert(span_fate_ok(span, pairs, &self.current_vv)) by {
                assert forall|o: int| 0 <= o < span.len implies span.future == !held(
                    &self.current_vv,
                    #[trigger] span.id_at(o),
                ) && span.deleted == hits(pairs, &self.current_vv, span.id_at(o)) by {
                    assert forall|i: int| 0 <= i < pairs.len() implies (#[trigger] pairs[i]).1
                        != span.id_at(o) by {
                        assert(held(&all, pairs[i].1));
                    }
                    lemma_hits_none(pairs, &self.current_vv, span.id_at(o));
                }
            }
            assert forall|j: int| 0 <= j < spans.len() implies spans_apart(
                #[trigger] spans[j],
                span,
            ) by {
                assert(span_known(spans[j], &all));
            }
            lemma_insert_span_sound(spans, k as int, span, pairs, &self.current_vv, &self.all_vv);
            assert(self.content@ =~= spans.insert(k as int, span));
            lemma_flat_cut(span_parts(spans), k as int);
        }
    }
}

impl Tracker {
    /// Makes the atom `id` the first of its run, if any run holds it.
    fn border_at_id(&mut self, id: ID)
        requires
            old(self).wf(),
        ensures
            final(self).wf(),
            final(self).atoms() == old(self).atoms(),
            final(self).deletes@ == old(self).deletes@,
            final(self).start_vv == old(self).start_vv,
            final(self).all_vv == old(self).all_vv,
            final(self).current_vv == old(self).current_vv,
            bordered(final(self).content@, id),
            forall|x: ID|
                #[trigger] bordered(old(self).content@, x) ==> bordered(final(self).content@, x),
    {
        let mut k: usize = 0;
        while k < self.content.len()
            invariant
                self.wf(),
                *self == *old(self),
                k <= self.content@.len(),
                forall|j: int|
                    0 <= j < k ==> !((#[trigger] self.content@[j]).holds(id)
                        && self.content@[j].id != id),
            decreases self.content@.len() - k,
        {
            let s = self.content[k];
            if s.contains(id) && s.id.counter != id.counter {
                let ghost before = self.content@;
                let at = (id.counter as i64 - s.id.counter as i64) as usize;
                self.split_span(k, at);
                proof {
                    assert forall|j: int| 0 <= j < self.content@.len() implies !((
                    #[trigger] self.content@[j]).holds(id) && self.content@[j].id != id) by {
                        if j < k {
                            assert(self.content@[j] == self.content@.subrange(0, k as int)[j]);
                            assert(self.content@[j] == before[j]);
                        } else if j > k + 1 {
                            assert(self.content@[j] == self.content@.subrange(
                                k + 2,
                                self.content@.len() as int,
                            )[j - k - 2]);
                            assert(self.content@[j] == before[j - 1]);
                            assert(spans_apart(before[k as int], before[j - 1]));
                        }
                    }
                }
                return ;
            }
            k = k + 1;
        }
    }
}

/// Whether the atom is one of those of `peer` numbered from `lo` up to
/// `hi`.
pub open spec fn in_range(id: ID, peer: PeerID, lo: int, hi: int) -> bool {
    id.peer == peer && lo <= id.counter < hi
}

/// The run with another fate.
pub open spec fn with_fate(s: Span, future: bool, deleted: u32) -> Span {
    Span {
        id: s.id,
        len: s.len,
        lamport: s.lamport,
        future,
        deleted,
        slice: s.slice,
    }
}

/// A run that neither end of a range cuts lies within the range as a whole,
/// or without it as a whole.
pub proof fn lemma_bordered_span(s: Span, peer: PeerID, lo: int, hi: int)
    requires
        s.wf(),
        0 <= lo <= hi <= i32::MAX,
        !(s.holds(ID { peer, counter: lo as i32 }) && s.id != (ID { peer, counter: lo as i32 })),
        !(s.holds(ID { peer, counter: hi as i32 }) && s.id != (ID { peer, counter: hi as i32 })),
    ensures
        forall|o: int|
            0 <= o < s.len ==> in_range(#[trigger] s.id_at(o), peer, lo, hi) == in_range(
                s.id,
                peer,
                lo,
                hi,
            ),
{
}

/// The atoms of the runs apart from their fate depend on the fate of no
/// run.
pub proof fn lemma_items_keep(before: Seq<Span>, after: Seq<Span>)
    requires
        before.len() == after.len(),
        forall|j: int|
            0 <= j < before.len() ==> #[trigger] after[j] == with_fate(
                before[j],
                after[j].future,
                after[j].deleted,
            ),
    ensures
        items_of(atoms_of(after)) == items_of(atoms_of(before)),
        atoms_of(after).len() == atoms_of(before).len(),
    decreases before.len(),
{
    if before.len() == 0 {
        assert(span_parts(before) =~= span_parts(after));
    } else {
        let bf = before.drop_last();
        let af = after.drop_last();
        assert forall|j: int| 0 <= j < bf.len() implies #[trigger] af[j] == with_fate(
            bf[j],
            af[j].future,
            af[j].deleted,
        ) by {
            assert(af[j] == after[j]);
        }
        lemma_items_keep(bf, af);
        assert(span_parts(before).drop_last() =~= span_parts(bf));
        assert(span_parts(after).drop_last() =~= span_parts(af));
        let b = before.last();
        let a = after.last();
        assert(a == with_fate(b, a.future, a.deleted));
        assert(items_of(a.atoms()) =~= items_of(b.atoms()));
        assert(items_of(atoms_of(bf) + b.atoms()) =~= items_of(atoms_of(bf)) + items_of(
            b.atoms(),
        ));
        assert(items_of(atoms_of(af) + a.atoms()) =~= items_of(atoms_of(af)) + items_of(
            a.atoms(),
        ));
    }
}

/// What is shown once run `k` has got another fate.
pub proof fn lemma_toggle(c: Seq<Span>, k: int, s2: Span)
    requires
        0 <= k < c.len(),
        c[k].wf(),
        s2 == with_fate(c[k], s2.future, s2.deleted),
    ensures
        shown(atoms_of(c.subrange(0, k))).len() + (if c[k].spec_visible() {
            c[k].len as int
        } else {
            0
        }) <= shown(atoms_of(c)).len(),
        shown(atoms_of(c.update(k, s2).subrange(0, k))) == shown(atoms_of(c.subrange(0, k))),
        shown(atoms_of(c.update(k, s2).subrange(0, k + 1))) == shown(atoms_of(c.subrange(0, k)))
            + shown(s2.atoms()),
        shown(atoms_of(c.subrange(0, k + 1))) == shown(atoms_of(c.subrange(0, k))) + shown(
            c[k].atoms(),
        ),
        s2.spec_visible() == c[k].spec_visible() ==> shown(atoms_of(c.update(k, s2))) == shown(
            atoms_of(c),
        ),
        !c[k].spec_visible() && s2.spec_visible() ==> shown(atoms_of(c.update(k, s2))) == shown(
            atoms_of(c),
        ).subrange(0, shown(atoms_of(c.subrange(0, k))).len() as int) + slice_units(s2.slice)
            + shown(atoms_of(c)).subrange(
            shown(atoms_of(c.subrange(0, k))).len() as int,
            shown(atoms_of(c)).len() as int,
        ),
        c[k].spec_visible() && !s2.spec_visible() ==> shown(atoms_of(c.update(k, s2))) == shown(
            atoms_of(c),
        ).subrange(0, shown(atoms_of(c.subrange(0, k))).len() as int) + shown(
            atoms_of(c),
        ).subrange(
            shown(atoms_of(c.subrange(0, k))).len() + c[k].len,
            shown(atoms_of(c)).len() as int,
        ),
{
    let d = c.update(k, s2);
    let cp = span_parts(c);
    let dp = span_parts(d);
    let head = atoms_of(c.subrange(0, k));
    let tail = atoms_of(c.subrange(k + 1, c.len() as int));
    lemma_flat_around(cp, k);
    lemma_flat_around(dp, k);
    assert(cp.subrange(0, k) =~= span_parts(c.subrange(0, k)));
    assert(dp.subrange(0, k) =~= span_parts(c.subrange(0, k)));
    assert(span_parts(d.subrange(0, k)) =~= span_parts(c.subrange(0, k)));
    assert(cp.subrange(k + 1, cp.len() as int) =~= span_parts(c.subrange(k + 1, c.len() as int)));
    assert(dp.subrange(k + 1, dp.len() as int) =~= span_parts(c.subrange(k + 1, c.len() as int)));
    lemma_flat_step(cp, k);
    lemma_flat_step(dp, k);
    assert(cp.subrange(0, k + 1) =~= span_parts(c.subrange(0, k + 1)));
    assert(dp.subrange(0, k + 1) =~= span_parts(d.subrange(0, k + 1)));
    lemma_shown_concat(head, c[k].atoms());
    lemma_shown_concat(head + c[k].atoms(), tail);
    lemma_shown_concat(head, s2.atoms());
    lemma_shown_concat(head + s2.atoms(), tail);
    lemma_shown_span(c[k]);
    lemma_shown_span(s2);
    let a = shown(head);
    let b = shown(tail);
    let u = slice_units(s2.slice);
    assert((a + u + b).subrange(0, a.len() as int) =~= a);
    assert((a + u + b).subrange((a.len() + u.len()) as int, (a + u + b).len() as int) =~= b);
    assert((a + b).subrange(0, a.len() as int) =~= a);
    assert((a + b).subrange(a.len() as int, (a + b).len() as int) =~= b);
    assert(a + Seq::<Option<u32>>::empty() + b =~= a + b);
}

/// Puts `s` in place of run `k`.
fn set_at(v: &mut Vec<Span>, k: usize, s: Span)
    requires
        k < old(v)@.len(),
    ensures
        final(v)@ == old(v)@.update(k as int, s),
{
    v[k] = s;
}

impl Tracker {
    /// Gives the runs that lie within the range of atoms another fate: being
    /// held by the version or not, and one deletion more or less. What is
    /// shown changes where a run comes to be shown or ceases to be, and each
    /// such change is added to `effects`, at the place where it happens in
    /// the text as it stands then.
    #[verifier::rlimit(40)]
    fn refate(
        &mut self,
        peer: PeerID,
        lo: Counter,
        hi: Counter,
        set_future: Option<bool>,
        more: bool,
        less: bool,
        effects: &mut Vec<Effect>,
        Ghost(bound): Ghost<int>,
    )
        requires
            0 <= lo <= hi,
            !(more && less),
            atoms_below(atoms_of(old(self).content@), bound),
            effects_below(old(effects)@, bound),
            effects_sound(old(effects)@),
            forall|j: int| 0 <= j < old(self).content@.len() ==> (#[trigger] old(self).content@[j]).wf(),
            atoms_of(old(self).content@).len() <= TRACKER_LIMIT,
            bordered(old(self).content@, ID { peer, counter: lo }),
            bordered(old(self).content@, ID { peer, counter: hi }),
            forall|j: int|
                0 <= j < old(self).content@.len() && in_range(
                    (#[trigger] old(self).content@[j]).id,
                    peer,
                    lo as int,
                    hi as int,
                ) ==> (more ==> old(self).content@[j].deleted < u32::MAX) && (less ==> old(
                    self,
                ).content@[j].deleted >= 1),
        ensures
            final(self).deletes == old(self).deletes,
            final(self).start_vv == old(self).start_vv,
            final(self).all_vv == old(self).all_vv,
            final(self).current_vv == old(self).current_vv,
            final(self).content@.len() == old(self).content@.len(),
            forall|j: int|
                0 <= j < old(self).content@.len() ==> #[trigger] final(self).content@[j] == (
                if in_range(old(self).content@[j].id, peer, lo as int, hi as int) {
                    with_fate(
                        old(self).content@[j],
                        match set_future {
                            Some(f) => f,
                            None => old(self).content@[j].future,
                        },
                        (old(self).content@[j].deleted + (if more {
                            1int
                        } else {
                            0int
                        }) - (if less {
                            1int
                        } else {
                            0int
                        })) as u32,
                    )
                } else {
                    old(self).content@[j]
                }),
            exists|added: Seq<Effect>|
                final(effects)@ == old(effects)@ + added && #[trigger] effects_applied(
                    shown(atoms_of(old(self).content@)),
                    added,
                ) == shown(atoms_of(final(self).content@)) && effects_fit(
                    shown(atoms_of(old(self).content@)),
                    added,
                    i32::MAX as int,
                ),
            atoms_below(atoms_of(final(self).content@), bound),
            effects_below(final(effects)@, bound),
            effects_sound(final(effects)@),
            atoms_of(final(self).content@) == all_changed(
                atoms_of(old(self).content@),
                refate_change(peer, lo, hi, set_future, more, less),
            ),
            unit_effects(final(effects)@) == unit_effects(old(effects)@) + pass(
                atoms_of(old(self).content@),
                refate_change(peer, lo, hi, set_future, more, less),
                0,
            ),
    {
        let ghost ch = refate_change(peer, lo, hi, set_future, more, less);
        let ghost c0 = self.content@;
        let ghost e0 = effects@;
        let ghost added: Seq<Effect> = Seq::empty();
        let mut k: usize = 0;
        let mut v: usize = 0;
        proof {
            assert(c0.subrange(0, 0) =~= Seq::<Span>::empty());
            assert(span_parts(Seq::<Span>::empty()) =~= Seq::<Seq<Atom>>::empty());
            assert(e0 + added =~= e0);
            assert(all_changed(Seq::<Atom>::empty(), ch) =~= Seq::<Atom>::empty());
            assert(unit_effects(e0) + Seq::<UnitEffect>::empty() =~= unit_effects(e0));
        }
        while k < self.content.len()
            invariant
                0 <= lo <= hi,
                !(more && less),
                self.deletes == old(self).deletes,
                self.start_vv == old(self).start_vv,
                self.all_vv == old(self).all_vv,
                self.current_vv == old(self).current_vv,
                c0 == old(self).content@,
                e0 == old(effects)@,
                self.content@.len() == c0.len(),
                k <= c0.len(),
                forall|j: int| 0 <= j < c0.len() ==> (#[trigger] c0[j]).wf(),
                forall|j: int| 0 <= j < c0.len() ==> (#[trigger] self.content@[j]).wf(),
                atoms_of(self.content@).len() <= TRACKER_LIMIT,
                forall|j: int|
                    0 <= j < c0.len() && in_range((#[trigger] c0[j]).id, peer, lo as int, hi as int)
                        ==> (more ==> c0[j].deleted < u32::MAX) && (less ==> c0[j].deleted >= 1),
                forall|j: int| k <= j < c0.len() ==> #[trigger] self.content@[j] == c0[j],
                forall|j: int|
                    0 <= j < k ==> #[trigger] self.content@[j] == (if in_range(
                        c0[j].id,
                        peer,
                        lo as int,
                        hi as int,
                    ) {
                        with_fate(
                            c0[j],
                            match set_future {
                                Some(f) => f,
                                None => c0[j].future,
                            },
                            (c0[j].deleted + (if more {
                                1int
                            } else {
                                0int
                            }) - (if less {
                                1int
                            } else {
                                0int
                            })) as u32,
                        )
                    } else {
                        c0[j]
                    }),
                effects@ == e0 + added,
                effects_applied(shown(atoms_of(c0)), added) == shown(atoms_of(self.content@)),
                effects_fit(shown(atoms_of(c0)), added, i32::MAX as int),
                atoms_below(atoms_of(self.content@), bound),
                effects_below(effects@, bound),
                effects_sound(effects@),
                ch == refate_change(peer, lo, hi, set_future, more, less),
                bordered(c0, ID { peer, counter: lo }),
                bordered(c0, ID { peer, counter: hi }),
                atoms_of(self.content@.subrange(0, k as int)) == all_changed(
                    atoms_of(c0.subrange(0, k as int)),
                    ch,
                ),
                unit_effects(effects@) == unit_effects(e0) + pass(
                    atoms_of(c0.subrange(0, k as int)),
                    ch,
                    0,
                ),
                v == shown(atoms_of(self.content@.subrange(0, k as int))).len(),
            decreases c0.len() - k,
        {
            let s = self.content[k];
            let ghost c = self.content@;
            let inside = s.id.peer == peer && lo <= s.id.counter && s.id.counter < hi;
            let s2 = if inside {
                Span {
                    id: s.id,
                    len: s.len,
                                lamport: s.lamport,
                    future: match set_future {
                        Some(f) => f,
                        None => s.future,
                    },
                    deleted: if more {
                        s.deleted + 1
                    } else if less {
                        s.deleted - 1
                    } else {
                        s.deleted
                    },
                    slice: s.slice,
                }
            } else {
                s
            };
            proof {
                lemma_toggle(c, k as int, s2);
                lemma_shown_span(s);
                lemma_shown_span(s2);
                assert(c.update(k as int, s2).len() == c.len());
                lemma_items_keep_one(c, k as int, s2);
                crate::text_rope::lemma_units_len(s.slice);
                lemma_toggle(c.update(k as int, s2), k as int, s2);
                assert(c.update(k as int, s2).update(k as int, s2) =~= c.update(k as int, s2));
                crate::tracker_model::lemma_shown_bound(atoms_of(c.update(k as int, s2)));
                crate::tracker_model::lemma_shown_bound(atoms_of(c));
                lemma_below_items(atoms_of(c), atoms_of(c.update(k as int, s2)), bound);
                lemma_span_below(c, k as int, bound);
                lemma_refate_listed(c0, c, k as int, s2, ch, inside);
                crate::text_rope::lemma_units_len(s.slice);
            }
            let ghost given = effects@;
            let ghost listed = unit_effects(effects@);
            let ghost step_list = pass_step(s, s2, v as int);
            proof {
                assert(pass(atoms_of(c0.subrange(0, k + 1)), ch, 0) == pass(
                    atoms_of(c0.subrange(0, k as int)),
                    ch,
                    0,
                ) + step_list);
            }
            if inside {
                set_at(&mut self.content, k, s2);
                if !s.visible() && s2.visible() {
                    let content = slice_as_content(s.slice);
                    let ghost e = Effect::Ins { pos: v, content };
                    effects.push(Effect::Ins { pos: v, content });
                    proof {
                        assert(content_below(content, bound));
                        assert forall|i: int| 0 <= i < effects@.len() implies (#[trigger] effects@[i] matches Effect::Ins {
                            content,
                            ..
                        } ==> content_below(content, bound)) by {
                            if i < given.len() {
                                assert(effects@[i] == given[i]);
                            }
                        }
                        lemma_effects_concat(shown(atoms_of(c0)), added, seq![e]);
                        reveal_with_fuel(effects_applied, 2);
                        reveal_with_fuel(effects_fit, 2);
                        assert(seq![e].drop_last() =~= Seq::<Effect>::empty());
                        assert(seq![e].last() == e);
                        assert(effect_fits(shown(atoms_of(c)), e, i32::MAX as int));
                        added = added + seq![e];
                        assert(effects@ =~= e0 + added);
                        assert(effects@ =~= given + seq![e]);
                        assert(effects@ =~= given.push(e));
                        lemma_sound_push(given, e);
                        lemma_listed_push(given, e, slice_units(s.slice));
                        assert(unit_effects(effects@) == listed + step_list);
                    }
                } else if s.visible() && !s2.visible() {
                    effects.push(Effect::Del { pos: v, len: s.len });
                    proof {
                        let e = Effect::Del { pos: v, len: s.len };
                        assert forall|i: int| 0 <= i < effects@.len() implies (#[trigger] effects@[i] matches Effect::Ins {
                            content,
                            ..
                        } ==> content_below(content, bound)) by {
                            if i < given.len() {
                                assert(effects@[i] == given[i]);
                            }
                        }
                        lemma_effects_concat(shown(atoms_of(c0)), added, seq![e]);
                        reveal_with_fuel(effects_applied, 2);
                        reveal_with_fuel(effects_fit, 2);
                        assert(seq![e].drop_last() =~= Seq::<Effect>::empty());
                        assert(seq![e].last() == e);
                        assert(effect_fits(shown(atoms_of(c)), e, i32::MAX as int));
                        added = added + seq![e];
                        assert(effects@ =~= e0 + added);
                        assert(effects@ =~= given + seq![e]);
                        assert(effects@ =~= given.push(e));
                        lemma_sound_push(given, e);
                        lemma_listed_push(given, e, slice_units(s.slice));
                        assert(unit_effects(effects@) == listed + step_list);
                    }
                }
            } else {
                proof {
                    assert(c.update(k as int, s2) =~= c);
                }
            }
            proof {
                assert(self.content@ =~= c.update(k as int, s2));
                assert(unit_effects(effects@) == listed + step_list) by {
                    if effects@ == given {
                        assert(listed + step_list =~= listed);
                    }
                }
                assert(unit_effects(effects@) =~= unit_effects(e0) + pass(
                    atoms_of(c0.subrange(0, k + 1)),
                    ch,
                    0,
                ));
            }
            if s2.visible() {
                v = v + s.len;
            }
            k = k + 1;
        }
        proof {
            assert(effects_applied(shown(atoms_of(c0)), added) == shown(atoms_of(self.content@)));
            assert(effects_fit(shown(atoms_of(c0)), added, i32::MAX as int));
            assert(c0.subrange(0, k as int) =~= c0);
            assert(self.content@.subrange(0, k as int) =~= self.content@);
        }
    }
}

/// The change that giving runs another fate makes.
pub open spec fn refate_change(
    peer: PeerID,
    lo: Counter,
    hi: Counter,
    set_future: Option<bool>,
    more: bool,
    less: bool,
) -> Change {
    Change { peer, lo: lo as int, hi: hi as int, set_future, more, less }
}

/// The atoms of the first runs and one more are those of the first runs and
/// then those of the one.
pub proof fn lemma_atoms_step(c: Seq<Span>, k: int)
    requires
        0 <= k < c.len(),
    ensures
        atoms_of(c.subrange(0, k + 1)) == atoms_of(c.subrange(0, k)) + c[k].atoms(),
{
    let parts = span_parts(c.subrange(0, k + 1));
    assert(parts.drop_last() =~= span_parts(c.subrange(0, k)));
    assert(parts.last() == c[k].atoms());
}

/// What giving one run another fate adds to the changes of a pass, and what
/// it makes of the atoms.
pub proof fn lemma_refate_step(c0: Seq<Span>, k: int, s2: Span, ch: Change, inside: bool)
    requires
        0 <= k < c0.len(),
        c0[k].wf(),
        forall|o: int| 0 <= o < c0[k].len ==> touched(#[trigger] c0[k].id_at(o), ch) == inside,
        inside ==> s2 == with_fate(c0[k], s2.future, s2.deleted) && s2.future == (match ch.set_future {
            Some(f) => f,
            None => c0[k].future,
        }) && s2.deleted == c0[k].deleted + (if ch.more {
            1int
        } else {
            0int
        }) - (if ch.less {
            1int
        } else {
            0int
        }),
        !inside ==> s2 == c0[k],
    ensures
        all_changed(atoms_of(c0.subrange(0, k + 1)), ch) == all_changed(
            atoms_of(c0.subrange(0, k)),
            ch,
        ) + s2.atoms(),
        ({
            let pre = atoms_of(c0.subrange(0, k));
            let base = shown(all_changed(pre, ch)).len() as int;
            let s = c0[k];
            pass(atoms_of(c0.subrange(0, k + 1)), ch, 0) == pass(pre, ch, 0) + (if !s.spec_visible()
                && s2.spec_visible() {
                Seq::new(
                    s.len as nat,
                    |i: int| UnitEffect::Ins { pos: base + i, unit: slice_units(s.slice)[i] },
                )
            } else if s.spec_visible() && !s2.spec_visible() {
                Seq::new(s.len as nat, |i: int| UnitEffect::Del { pos: base })
            } else {
                Seq::empty()
            })
        }),
{
    let pre = atoms_of(c0.subrange(0, k));
    let s = c0[k];
    let x = s.atoms();
    let base = shown(all_changed(pre, ch)).len() as int;
    lemma_atoms_step(c0, k);
    lemma_pass_concat(pre, x, ch, 0);
    lemma_all_changed_concat(pre, x, ch);
    crate::text_rope::lemma_units_len(s.slice);
    assert forall|i: int| 0 <= i < x.len() implies touched((#[trigger] x[i]).id, ch) == inside
        && x[i].visible() == s.spec_visible() && x[i].unit == slice_units(s.slice)[i] by {
        assert(x[i] == s.atom(i));
    }
    if inside {
        assert forall|i: int| 0 <= i < x.len() implies (#[trigger] x[i]).visible()
            == s.spec_visible() && changed(x[i], ch).visible() == s2.spec_visible() by {
            assert(x[i] == s.atom(i));
        }
        lemma_pass_uniform(x, ch, base, s.spec_visible(), s2.spec_visible());
        assert(all_changed(x, ch) =~= s2.atoms()) by {
            assert forall|i: int| 0 <= i < x.len() implies all_changed(x, ch)[i] == s2.atoms()[i] by {
                assert(x[i] == s.atom(i));
                assert(s2.atoms()[i] == s2.atom(i));
            }
        }
        if !s.spec_visible() && s2.spec_visible() {
            assert(pass(x, ch, base) =~= Seq::new(
                s.len as nat,
                |i: int| UnitEffect::Ins { pos: base + i, unit: slice_units(s.slice)[i] },
            ));
        } else if s.spec_visible() && !s2.spec_visible() {
            assert(pass(x, ch, base) =~= Seq::new(
                s.len as nat,
                |i: int| UnitEffect::Del { pos: base },
            ));
        }
    } else {
        lemma_pass_untouched(x, ch, base);
    }
}

/// What a run that gets another fate changes in the text, place by place,
/// the run standing at place `base`.
pub open spec fn pass_step(s: Span, s2: Span, base: int) -> Seq<UnitEffect> {
    if !s.spec_visible() && s2.spec_visible() {
        Seq::new(
            s.len as nat,
            |i: int| UnitEffect::Ins { pos: base + i, unit: slice_units(s.slice)[i] },
        )
    } else if s.spec_visible() && !s2.spec_visible() {
        Seq::new(s.len as nat, |i: int| UnitEffect::Del { pos: base })
    } else {
        Seq::empty()
    }
}

/// What the next run adds to a pass that has come to it: the atoms before
/// it are those that the pass has made, and the run changes the text at the
/// place where it stands among them.
pub proof fn lemma_refate_listed(
    c0: Seq<Span>,
    c: Seq<Span>,
    k: int,
    s2: Span,
    ch: Change,
    inside: bool,
)
    requires
        0 <= k < c0.len(),
        c.len() == c0.len(),
        c[k] == c0[k],
        c0[k].wf(),
        0 <= ch.lo <= ch.hi <= i32::MAX,
        bordered(c0, ID { peer: ch.peer, counter: ch.lo as i32 }),
        bordered(c0, ID { peer: ch.peer, counter: ch.hi as i32 }),
        inside == in_range(c0[k].id, ch.peer, ch.lo, ch.hi),
        inside ==> s2 == with_fate(c0[k], s2.future, s2.deleted) && s2.future == (match ch.set_future {
            Some(f) => f,
            None => c0[k].future,
        }) && s2.deleted == c0[k].deleted + (if ch.more {
            1int
        } else {
            0int
        }) - (if ch.less {
            1int
        } else {
            0int
        }),
        !inside ==> s2 == c0[k],
        atoms_of(c.subrange(0, k)) == all_changed(atoms_of(c0.subrange(0, k)), ch),
    ensures
        atoms_of(c.update(k, s2).subrange(0, k + 1)) == all_changed(
            atoms_of(c0.subrange(0, k + 1)),
            ch,
        ),
        pass(atoms_of(c0.subrange(0, k + 1)), ch, 0) == pass(atoms_of(c0.subrange(0, k)), ch, 0)
            + pass_step(c0[k], s2, shown(atoms_of(c.subrange(0, k))).len() as int),
{
    let s = c0[k];
    lemma_bordered_span(s, ch.peer, ch.lo, ch.hi);
    assert forall|o: int| 0 <= o < s.len implies touched(#[trigger] s.id_at(o), ch) == inside by {
        assert(in_range(s.id_at(o), ch.peer, ch.lo, ch.hi) == in_range(
            s.id,
            ch.peer,
            ch.lo,
            ch.hi,
        ));
    }
    lemma_refate_step(c0, k, s2, ch, inside);
    lemma_atoms_step(c.update(k, s2), k);
    assert(c.update(k, s2).subrange(0, k) =~= c.subrange(0, k));
}

/// The changes with one more are, place by place, what they were and then
/// the places of the one. `units` is what the one puts in, if it puts in.
pub proof fn lemma_listed_push(given: Seq<Effect>, e: Effect, units: Seq<Option<u32>>)
    requires
        e matches Effect::Ins { content, .. } ==> slice_content(content) == units,
    ensures
        unit_effects(given + seq![e]) == unit_effects(given) + (match e {
            Effect::Ins { pos, content } => Seq::new(
                units.len(),
                |i: int| UnitEffect::Ins { pos: pos + i, unit: units[i] },
            ),
            Effect::Del { pos, len } => Seq::new(
                len as nat,
                |i: int| UnitEffect::Del { pos: pos as int },
            ),
        }),
{
    lemma_unit_effects_concat(given, seq![e]);
    lemma_unit_effects_one(e);
    match e {
        Effect::Ins { pos, content } => {
            assert(units_of_effect(e) =~= Seq::new(
                units.len(),
                |i: int| UnitEffect::Ins { pos: pos + i, unit: units[i] },
            ));
        },
        Effect::Del { pos, len } => {
            assert(units_of_effect(e) =~= Seq::new(
                len as nat,
                |i: int| UnitEffect::Del { pos: pos as int },
            ));
        },
    }
}

/// Giving one run another fate keeps the number of atoms.
pub proof fn lemma_items_keep_one(c: Seq<Span>, k: int, s2: Span)
    requires
        0 <= k < c.len(),
        s2 == with_fate(c[k], s2.future, s2.deleted),
    ensures
        atoms_of(c.update(k, s2)).len() == atoms_of(c).len(),
        items_of(atoms_of(c.update(k, s2))) == items_of(atoms_of(c)),
{
    let d = c.update(k, s2);
    assert forall|j: int| 0 <= j < c.len() implies #[trigger] d[j] == with_fate(
        c[j],
        d[j].future,
        d[j].deleted,
    ) by {}
    lemma_items_keep(c, d);
}

/// Which of the deletions of a run were made by the atoms of `peer`
/// numbered from `lo` up to `hi`: those from the first up to the second
/// place returned.
pub open spec fn cut(run: DelRun, peer: PeerID, lo: int, hi: int) -> (int, int) {
    if run.op.peer != peer {
        (0, 0)
    } else {
        let a = if lo - run.op.counter < 0 {
            0
        } else if lo - run.op.counter > run.len {
            run.len as int
        } else {
            lo - run.op.counter
        };
        let b = if hi - run.op.counter < 0 {
            0
        } else if hi - run.op.counter > run.len {
            run.len as int
        } else {
            hi - run.op.counter
        };
        (a, b)
    }
}

/// The change that the deletions of a run make which were made by the
/// atoms of `peer` numbered from `lo` up to `hi`: one deletion more for what
/// they deleted where the version comes to hold them, one less where it
/// ceases to.
pub open spec fn run_change(run: DelRun, peer: PeerID, lo: int, hi: int, forward: bool) -> Change {
    Change {
        peer: run.target.peer,
        lo: run.target.counter + cut(run, peer, lo, hi).0,
        hi: run.target.counter + cut(run, peer, lo, hi).1,
        set_future: None,
        more: forward,
        less: !forward,
    }
}

/// What the runs of deletions from run `m` on change, place by place, and
/// the atoms as they are then. The runs are gone through in their order,
/// and what each deleted is gone through in the order in which it stands.
pub open spec fn runs_step(
    atoms: Seq<Atom>,
    runs: Seq<DelRun>,
    m: int,
    peer: PeerID,
    lo: int,
    hi: int,
    forward: bool,
) -> (Seq<UnitEffect>, Seq<Atom>)
    decreases runs.len() - m,
{
    if m < 0 || m >= runs.len() {
        (Seq::empty(), atoms)
    } else if cut(runs[m], peer, lo, hi).0 < cut(runs[m], peer, lo, hi).1 {
        let ch = run_change(runs[m], peer, lo, hi, forward);
        let next = runs_step(all_changed(atoms, ch), runs, m + 1, peer, lo, hi, forward);
        (pass(atoms, ch, 0) + next.0, next.1)
    } else {
        runs_step(atoms, runs, m + 1, peer, lo, hi, forward)
    }
}

/// What moving the version from holding the first `cur` atoms of `peer` to
/// holding the first `to` changes in the text, place by place, and the
/// atoms as they are then. First the atoms of the peer that lie between
/// come to be held, or cease to be; then the deletions that they made come
/// to count, or cease to, run by run.
pub open spec fn shift_step(
    atoms: Seq<Atom>,
    runs: Seq<DelRun>,
    peer: PeerID,
    cur: int,
    to: int,
) -> (Seq<UnitEffect>, Seq<Atom>) {
    if to == cur {
        (Seq::empty(), atoms)
    } else {
        let forward = to > cur;
        let lo = if forward {
            cur
        } else {
            to
        };
        let hi = if forward {
            to
        } else {
            cur
        };
        let ch = Change { peer, lo, hi, set_future: Some(!forward), more: false, less: false };
        let next = runs_step(all_changed(atoms, ch), runs, 0, peer, lo, hi, forward);
        (pass(atoms, ch, 0) + next.0, next.1)
    }
}

/// Going through the runs from run `m` on is going through run `m` and
/// then through those from the next on.
pub proof fn lemma_runs_unfold(
    before: Seq<Atom>,
    after: Seq<Atom>,
    runs: Seq<DelRun>,
    m: int,
    peer: PeerID,
    lo: int,
    hi: int,
    forward: bool,
    listed: Seq<UnitEffect>,
    listed_after: Seq<UnitEffect>,
)
    requires
        0 <= m < runs.len(),
        cut(runs[m], peer, lo, hi).0 < cut(runs[m], peer, lo, hi).1 ==> after == all_changed(
            before,
            run_change(runs[m], peer, lo, hi, forward),
        ) && listed_after == listed + pass(before, run_change(runs[m], peer, lo, hi, forward), 0),
        !(cut(runs[m], peer, lo, hi).0 < cut(runs[m], peer, lo, hi).1) ==> after == before
            && listed_after == listed,
    ensures
        runs_step(before, runs, m, peer, lo, hi, forward).1 == runs_step(
            after,
            runs,
            m + 1,
            peer,
            lo,
            hi,
            forward,
        ).1,
        listed + runs_step(before, runs, m, peer, lo, hi, forward).0 == listed_after + runs_step(
            after,
            runs,
            m + 1,
            peer,
            lo,
            hi,
            forward,
        ).0,
{
    let step = runs_step(before, runs, m, peer, lo, hi, forward);
    let next = runs_step(after, runs, m + 1, peer, lo, hi, forward);
    assert(listed + step.0 =~= listed_after + next.0);
}

/// Whether both ends of what those deletions deleted are borders between
/// runs.
pub open spec fn cut_bordered(spans: Seq<Span>, run: DelRun, peer: PeerID, lo: int, hi: int) -> bool {
    let (a, b) = cut(run, peer, lo, hi);
    a < b ==> bordered(
        spans,
        ID { peer: run.target.peer, counter: (run.target.counter + a) as i32 },
    ) && bordered(spans, ID { peer: run.target.peer, counter: (run.target.counter + b) as i32 })
}

fn run_cut(run: &DelRun, peer: PeerID, lo: Counter, hi: Counter) -> (r: (usize, usize))
    requires
        run.wf(),
        0 <= lo <= hi,
    ensures
        (r.0 as int, r.1 as int) == cut(*run, peer, lo as int, hi as int),
        r.0 <= run.len,
        r.1 <= run.len,
{
    if run.op.peer != peer {
        return (0, 0);
    }
    let oc = run.op.counter as i64;
    let len = run.len as i64;
    let a = if (lo as i64) - oc < 0 {
        0
    } else if (lo as i64) - oc > len {
        len
    } else {
        (lo as i64) - oc
    };
    let b = if (hi as i64) - oc < 0 {
        0
    } else if (hi as i64) - oc > len {
        len
    } else {
        (hi as i64) - oc
    };
    (a as usize, b as usize)
}

/// Whether one version holds what the other holds and, of `peer`, the atoms
/// numbered from `lo` up to `hi` besides.
pub open spec fn differs_by(
    more: &VersionVector,
    less: &VersionVector,
    peer: PeerID,
    lo: int,
    hi: int,
) -> bool {
    &&& less.counter(peer) == lo
    &&& more.counter(peer) == hi
    &&& forall|p: PeerID| p != peer ==> more.counter(p) == less.counter(p)
}

/// Borders depend on the fate of no run.
pub proof fn lemma_bordered_keep(before: Seq<Span>, after: Seq<Span>, x: ID)
    requires
        before.len() == after.len(),
        forall|j: int|
            0 <= j < before.len() ==> #[trigger] after[j] == with_fate(
                before[j],
                after[j].future,
                after[j].deleted,
            ),
        bordered(before, x),
    ensures
        bordered(after, x),
{
    assert forall|k: int| 0 <= k < after.len() implies !((#[trigger] after[k]).holds(x)
        && after[k].id != x) by {
        assert(!(before[k].holds(x) && before[k].id != x));
        assert(after[k] == with_fate(before[k], after[k].future, after[k].deleted));
    }
}

/// What a run of deletions hits at the one version and at the other, where
/// one holds atoms of `peer` that the other does not: the same, but for the
/// atoms that were deleted by those atoms.
pub proof fn lemma_run_between(
    run: DelRun,
    more: &VersionVector,
    less: &VersionVector,
    peer: PeerID,
    lo: int,
    hi: int,
    x: ID,
)
    requires
        run.wf(),
        0 <= lo <= hi,
        differs_by(more, less, peer, lo, hi),
    ensures
        hits(run.pairs(), more, x) == hits(run.pairs(), less, x) + (if in_range(
            x,
            run.target.peer,
            run.target.counter + cut(run, peer, lo, hi).0,
            run.target.counter + cut(run, peer, lo, hi).1,
        ) {
            1nat
        } else {
            0nat
        }),
{
    lemma_run_hits_all(run, more, x);
    lemma_run_hits_all(run, less, x);
}

impl Tracker {
    /// Moves the version the tracker stands at so that it holds exactly the
    /// first `to` atoms of `peer`, and of the other peers what it held. The
    /// changes this makes to the text that is shown are added to `effects`.
    #[verifier::rlimit(80)]
    fn shift_version(
        &mut self,
        peer: PeerID,
        to: Counter,
        effects: &mut Vec<Effect>,
        Ghost(bound): Ghost<int>,
    )
        requires
            old(self).wf(),
            peer != BASE_PEER,
            old(self).start().counter(peer) <= to <= old(self).all().counter(peer),
            atoms_below(old(self).atoms(), bound),
            effects_below(old(effects)@, bound),
            effects_sound(old(effects)@),
        ensures
            final(self).wf(),
            atoms_below(final(self).atoms(), bound),
            effects_below(final(effects)@, bound),
            effects_sound(final(effects)@),
            final(self).deletes@ == old(self).deletes@,
            unit_effects(final(effects)@) == unit_effects(old(effects)@) + shift_step(
                old(self).atoms(),
                old(self).deletes@,
                peer,
                old(self).current().counter(peer) as int,
                to as int,
            ).0,
            final(self).atoms() == shift_step(
                old(self).atoms(),
                old(self).deletes@,
                peer,
                old(self).current().counter(peer) as int,
                to as int,
            ).1,
            items_of(final(self).atoms()) == items_of(old(self).atoms()),
            final(self).pairs() == old(self).pairs(),
            final(self).start() == old(self).start(),
            final(self).all() == old(self).all(),
            final(self).current().counter(peer) == to,
            forall|p: PeerID|
                p != peer ==> final(self).current().counter(p) == old(self).current().counter(p),
            exists|added: Seq<Effect>|
                final(effects)@ == old(effects)@ + added && #[trigger] effects_applied(
                    old(self).shown(),
                    added,
                ) == final(self).shown() && effects_fit(old(self).shown(), added, i32::MAX as int),
    {
        let ghost e0 = effects@;
        let ghost shown0 = self.shown();
        proof {
            self.start_vv.lemma_counter_range(peer);
            self.all_vv.lemma_counter_range(peer);
            self.current_vv.lemma_counter_range(peer);
        }
        let cur = match self.current_vv.get(&peer) {
            Some(c) => c,
            None => 0,
        };
        let ghost goal = shift_step(self.atoms(), self.deletes@, peer, cur as int, to as int);
        let ghost listed0 = unit_effects(effects@);
        if to == cur {
            proof {
                let added = Seq::<Effect>::empty();
                assert(effects@ =~= e0 + added);
                assert(effects_applied(shown0, added) == shown0);
                assert(listed0 + goal.0 =~= listed0);
            }
            return ;
        }
        let forward = to > cur;
        let lo = if forward {
            cur
        } else {
            to
        };
        let hi = if forward {
            to
        } else {
            cur
        };
        self.border_at_id(ID { peer, counter: lo });
        self.border_at_id(ID { peer, counter: hi });
        let mut m: usize = 0;
        while m < self.deletes.len()
            invariant
                self.wf(),
                0 <= lo <= hi,
                self.atoms() == old(self).atoms(),
                self.deletes@ == old(self).deletes@,
                self.start_vv == old(self).start_vv,
                self.all_vv == old(self).all_vv,
                self.current_vv == old(self).current_vv,
                m <= self.deletes@.len(),
                bordered(self.content@, ID { peer, counter: lo }),
                bordered(self.content@, ID { peer, counter: hi }),
                forall|i: int|
                    0 <= i < m ==> cut_bordered(
                        self.content@,
                        #[trigger] self.deletes@[i],
                        peer,
                        lo as int,
                        hi as int,
                    ),
            decreases self.deletes@.len() - m,
        {
            let run = self.deletes[m];
            let (a, b) = run_cut(&run, peer, lo, hi);
            if a < b {
                self.border_at_id(
                    ID { peer: run.target.peer, counter: (run.target.counter as i64 + a as i64) as i32 },
                );
                self.border_at_id(
                    ID { peer: run.target.peer, counter: (run.target.counter as i64 + b as i64) as i32 },
                );
            }
            m = m + 1;
        }
        let mut new_vv = self.current_vv.duplicate();
        new_vv.set_end(peer, to);
        let ghost c1 = self.content@;
        let ghost runs = self.deletes@;
        let ghost pairs = pairs_of(runs);
        let ghost old_vv = self.current_vv;
        let ghost more = if forward {
            new_vv
        } else {
            old_vv
        };
        let ghost less = if forward {
            old_vv
        } else {
            new_vv
        };
        proof {
            assert(differs_by(&more, &less, peer, lo as int, hi as int));
        }
        self.refate(peer, lo, hi, Some(!forward), false, false, effects, Ghost(bound));
        let ghost c2 = self.content@;
        proof {
            assert(atoms_of(c1) == old(self).atoms());
            assert(runs == old(self).deletes@);
            assert(refate_change(peer, lo, hi, Some(!forward), false, false) == (Change {
                peer,
                lo: lo as int,
                hi: hi as int,
                set_future: Some(!forward),
                more: false,
                less: false,
            }));
            let rest = runs_step(atoms_of(c2), runs, 0, peer, lo as int, hi as int, forward);
            assert(goal.1 == rest.1);
            assert(listed0 + goal.0 =~= unit_effects(effects@) + rest.0);
        }
        let ghost added = choose|added: Seq<Effect>|
            effects@ == e0 + added && #[trigger] effects_applied(shown(atoms_of(c1)), added)
                == shown(atoms_of(c2)) && effects_fit(shown(atoms_of(c1)), added, i32::MAX as int);
        proof {
            assert forall|j: int| 0 <= j < c1.len() implies #[trigger] c2[j] == with_fate(
                c1[j],
                c2[j].future,
                c2[j].deleted,
            ) && c2[j].deleted == c1[j].deleted && forall|o: int|
                0 <= o < c1[j].len ==> c2[j].future == !held(&new_vv, #[trigger] c1[j].id_at(o)) by {
                let s = c1[j];
                assert(s.wf() && span_fate_ok(s, pairs, &old_vv));
                lemma_bordered_span(s, peer, lo as int, hi as int);
                assert forall|o: int| 0 <= o < s.len implies c2[j].future == !held(
                    &new_vv,
                    #[trigger] s.id_at(o),
                ) by {
                    assert(s.future == !held(&old_vv, s.id_at(o)));
                }
            }
            assert(pairs_of(runs.subrange(0, 0)) =~= Seq::<DelPair>::empty()) by {
                assert(run_parts(runs.subrange(0, 0)) =~= Seq::<Seq<DelPair>>::empty());
            }
            assert(runs.subrange(0, runs.len() as int) =~= runs);
        }
        let mut m: usize = 0;
        while m < self.deletes.len()
            invariant
                0 <= lo <= hi,
                peer != BASE_PEER,
                forward == (to > cur),
                lo == (if forward {
                    cur
                } else {
                    to
                }),
                hi == (if forward {
                    to
                } else {
                    cur
                }),
                more == (if forward {
                    new_vv
                } else {
                    old_vv
                }),
                less == (if forward {
                    old_vv
                } else {
                    new_vv
                }),
                differs_by(&more, &less, peer, lo as int, hi as int),
                self.deletes@ == runs,
                runs == old(self).deletes@,
                pairs == pairs_of(runs),
                pairs.len() <= TRACKER_LIMIT,
                runs_ok(runs, &self.all_vv),
                self.start_vv == old(self).start_vv,
                self.all_vv == old(self).all_vv,
                self.current_vv == old_vv,
                m <= runs.len(),
                self.content@.len() == c1.len(),
                atoms_of(c1).len() <= TRACKER_LIMIT,
                atoms_below(atoms_of(self.content@), bound),
                effects_below(effects@, bound),
                effects_sound(effects@),
                goal.1 == runs_step(
                    atoms_of(self.content@),
                    runs,
                    m as int,
                    peer,
                    lo as int,
                    hi as int,
                    forward,
                ).1,
                listed0 + goal.0 == unit_effects(effects@) + runs_step(
                    atoms_of(self.content@),
                    runs,
                    m as int,
                    peer,
                    lo as int,
                    hi as int,
                    forward,
                ).0,
                forall|j: int| 0 <= j < c1.len() ==> (#[trigger] c1[j]).wf(),
                forall|i: int|
                    0 <= i < runs.len() ==> cut_bordered(
                        c1,
                        #[trigger] runs[i],
                        peer,
                        lo as int,
                        hi as int,
                    ),
                forall|j: int|
                    0 <= j < c1.len() ==> #[trigger] self.content@[j] == with_fate(
                        c1[j],
                        c2[j].future,
                        self.content@[j].deleted,
                    ),
                forall|j: int, o: int|
                    0 <= j < c1.len() && 0 <= o < c1[j].len ==> self.content@[j].deleted == hits(
                        pairs_of(runs.subrange(0, m as int)),
                        &new_vv,
                        #[trigger] c1[j].id_at(o),
                    ) + hits(
                        pairs_of(runs.subrange(m as int, runs.len() as int)),
                        &old_vv,
                        c1[j].id_at(o),
                    ),
                effects@ == e0 + added,
                effects_applied(shown(atoms_of(c1)), added) == shown(atoms_of(self.content@)),
                effects_fit(shown(atoms_of(c1)), added, i32::MAX as int),
            decreases runs.len() - m,
        {
            let run = self.deletes[m];
            let (a, b) = run_cut(&run, peer, lo, hi);
            let ghost c = self.content@;
            let ghost listed_m = unit_effects(effects@);
            let ghost t_lo = run.target.counter + a;
            let ghost t_hi = run.target.counter + b;
            proof {
                assert(cut_bordered(c1, runs[m as int], peer, lo as int, hi as int));
                assert forall|j: int| 0 <= j < c1.len() implies #[trigger] c[j] == with_fate(
                    c1[j],
                    c[j].future,
                    c[j].deleted,
                ) by {}
                assert forall|j: int, o: int|
                    0 <= j < c1.len() && 0 <= o < c1[j].len implies hits(
                    pairs_of(runs.subrange(0, m + 1)),
                    &new_vv,
                    #[trigger] c1[j].id_at(o),
                ) + hits(
                    pairs_of(runs.subrange(m + 1, runs.len() as int)),
                    &old_vv,
                    c1[j].id_at(o),
                ) == c[j].deleted + (if in_range(c1[j].id, run.target.peer, t_lo, t_hi) {
                    if forward {
                        1int
                    } else {
                        -1int
                    }
                } else {
                    0int
                }) && c[j].deleted <= TRACKER_LIMIT by {
                    let x = c1[j].id_at(o);
                    lemma_hits_by_run(runs, m as int, &new_vv, x);
                    lemma_hits_by_run(runs, m as int, &old_vv, x);
                    lemma_run_between(run, &more, &less, peer, lo as int, hi as int, x);
                    lemma_hits_bound(pairs_of(runs.subrange(0, m as int)), &new_vv, x);
                    lemma_hits_bound(
                        pairs_of(runs.subrange(m as int, runs.len() as int)),
                        &old_vv,
                        x,
                    );
                    lemma_hits_concat(
                        pairs_of(runs.subrange(0, m as int)),
                        pairs_of(runs.subrange(m as int, runs.len() as int)),
                        &old_vv,
                        x,
                    );
                    assert(runs =~= runs.subrange(0, m as int) + runs.subrange(
                        m as int,
                        runs.len() as int,
                    ));
                    assert(run_parts(runs) =~= run_parts(runs.subrange(0, m as int)) + run_parts(
                        runs.subrange(m as int, runs.len() as int),
                    ));
                    lemma_flat_concat(
                        run_parts(runs.subrange(0, m as int)),
                        run_parts(runs.subrange(m as int, runs.len() as int)),
                    );
                    if a < b {
                        lemma_bordered_keep(
                            c1,
                            c,
                            ID { peer: run.target.peer, counter: t_lo as i32 },
                        );
                        lemma_bordered_keep(
                            c1,
                            c,
                            ID { peer: run.target.peer, counter: t_hi as i32 },
                        );
                        lemma_bordered_span(c1[j], run.target.peer, t_lo, t_hi);
                    }
                }
            }
            if a < b {
                proof {
                    assert forall|j: int|
                        0 <= j < c.len() && in_range(
                            (#[trigger] c[j]).id,
                            run.target.peer,
                            t_lo,
                            t_hi,
                        ) implies (forward ==> c[j].deleted < u32::MAX) && (!forward
                        ==> c[j].deleted >= 1) by {
                        assert(c[j] == with_fate(c1[j], c[j].future, c[j].deleted));
                        assert(c1[j].wf());
                        assert(c1[j].id_at(0) == c1[j].id);
                    }
                    assert forall|j: int| 0 <= j < c.len() implies (#[trigger] c[j]).wf() by {
                        assert(c[j] == with_fate(c1[j], c[j].future, c[j].deleted));
                        assert(c1[j].wf());
                    }
                    lemma_items_keep(c1, c);
                }
                self.refate(
                    run.target.peer,
                    (run.target.counter as i64 + a as i64) as i32,
                    (run.target.counter as i64 + b as i64) as i32,
                    None,
                    forward,
                    !forward,
                    effects,
                    Ghost(bound),
                );
                proof {
                    let step = choose|step: Seq<Effect>|
                        effects@ == (e0 + added) + step && #[trigger] effects_applied(
                            shown(atoms_of(c)),
                            step,
                        ) == shown(atoms_of(self.content@)) && effects_fit(
                            shown(atoms_of(c)),
                            step,
                            i32::MAX as int,
                        );
                    lemma_effects_concat(shown(atoms_of(c1)), added, step);
                    added = added + step;
                    assert(effects@ =~= e0 + added);
                }
            }
            proof {
                lemma_runs_unfold(
                    atoms_of(c),
                    atoms_of(self.content@),
                    runs,
                    m as int,
                    peer,
                    lo as int,
                    hi as int,
                    forward,
                    listed_m,
                    unit_effects(effects@),
                );
            }
            proof {
                assert forall|j: int| 0 <= j < c1.len() implies #[trigger] self.content@[j]
                    == with_fate(c1[j], c2[j].future, self.content@[j].deleted) by {
                    assert(c[j] == with_fate(c1[j], c2[j].future, c[j].deleted));
                }
                assert forall|j: int, o: int|
                    0 <= j < c1.len() && 0 <= o < c1[j].len implies self.content@[j].deleted
                    == hits(
                    pairs_of(runs.subrange(0, m + 1)),
                    &new_vv,
                    #[trigger] c1[j].id_at(o),
                ) + hits(
                    pairs_of(runs.subrange(m + 1, runs.len() as int)),
                    &old_vv,
                    c1[j].id_at(o),
                ) by {
                    assert(c[j] == with_fate(c1[j], c2[j].future, c[j].deleted));
                }
            }
            m = m + 1;
        }
        self.current_vv = new_vv;
        proof {
            let c = self.content@;
            assert(pairs_of(runs.subrange(runs.len() as int, runs.len() as int))
                =~= Seq::<DelPair>::empty()) by {
                assert(run_parts(runs.subrange(runs.len() as int, runs.len() as int))
                    =~= Seq::<Seq<DelPair>>::empty());
            }
            assert(runs.subrange(0, runs.len() as int) =~= runs);
            assert forall|j: int| 0 <= j < c.len() implies #[trigger] c[j] == with_fate(
                c1[j],
                c[j].future,
                c[j].deleted,
            ) by {}
            lemma_items_keep(c1, c);
            assert forall|k: int| 0 <= k < c.len() implies (#[trigger] c[k]).wf() && span_fate_ok(
                c[k],
                pairs,
                &self.current_vv,
            ) && span_known(c[k], &self.all_vv) by {
                assert(c[k] == with_fate(c1[k], c2[k].future, c[k].deleted));
                assert(c1[k].wf() && span_known(c1[k], &self.all_vv));
                assert forall|o: int| 0 <= o < c[k].len implies c[k].future == !held(
                    &self.current_vv,
                    #[trigger] c[k].id_at(o),
                ) && c[k].deleted == hits(pairs, &self.current_vv, c[k].id_at(o)) by {
                    assert(c[k].id_at(o) == c1[k].id_at(o));
                }
            }
            assert forall|j: int, k: int| 0 <= j < k < c.len() implies spans_apart(
                #[trigger] c[j],
                #[trigger] c[k],
            ) by {
                assert(spans_apart(c1[j], c1[k]));
                assert(c[j] == with_fate(c1[j], c2[j].future, c[j].deleted));
                assert(c[k] == with_fate(c1[k], c2[k].future, c[k].deleted));
            }
        }
    }
}

/// How many atoms of `peer` a version holds once it has been moved forward
/// over the spans, in order: over each span it comes to hold the atoms of
/// the span and, as a version cannot hold an atom without those before it,
/// all atoms of the span's peer before them.
pub open spec fn forwarded(c: int, spans: Seq<IdSpan>, peer: PeerID) -> int
    decreases spans.len(),
{
    if spans.len() == 0 {
        c
    } else {
        let before = forwarded(c, spans.drop_last(), peer);
        if spans.last().peer == peer && spans.last().counter.end > before {
            spans.last().counter.end as int
        } else {
            before
        }
    }
}

/// What moving a version forward over the spans, in order, changes in the
/// text, place by place, and the atoms as they are then. `base` is the
/// version as it is at first.
pub open spec fn iter_step(
    atoms: Seq<Atom>,
    runs: Seq<DelRun>,
    base: &VersionVector,
    spans: Seq<IdSpan>,
) -> (Seq<UnitEffect>, Seq<Atom>)
    decreases spans.len(),
{
    if spans.len() == 0 {
        (Seq::empty(), atoms)
    } else {
        let before = iter_step(atoms, runs, base, spans.drop_last());
        let s = spans.last();
        let cur = forwarded(base.counter(s.peer), spans.drop_last(), s.peer);
        if s.counter.end > cur {
            let next = shift_step(before.1, runs, s.peer, cur, s.counter.end as int);
            (before.0 + next.0, next.1)
        } else {
            before
        }
    }
}

/// Versions that hold the same give the same changes.
pub proof fn lemma_iter_same_base(
    atoms: Seq<Atom>,
    runs: Seq<DelRun>,
    a: &VersionVector,
    b: &VersionVector,
    spans: Seq<IdSpan>,
)
    requires
        a.same(b),
    ensures
        iter_step(atoms, runs, a, spans) == iter_step(atoms, runs, b, spans),
    decreases spans.len(),
{
    if spans.len() > 0 {
        lemma_iter_same_base(atoms, runs, a, b, spans.drop_last());
    }
}

/// The changes that moving the version forward over the spans makes to
/// the text, place by place.
pub open spec fn effect_list(
    atoms: Seq<Atom>,
    runs: Seq<DelRun>,
    base: &VersionVector,
    spans: Seq<IdSpan>,
) -> Seq<UnitEffect> {
    iter_step(atoms, runs, base, spans).0
}

/// How many atoms of `peer` a version holds once it has been moved back over
/// the spans, in order: over each span it ceases to hold the atoms of the
/// span and all atoms of the span's peer after them.
pub open spec fn retreated(c: int, spans: Seq<IdSpan>, peer: PeerID) -> int
    decreases spans.len(),
{
    if spans.len() == 0 {
        c
    } else {
        let before = retreated(c, spans.drop_last(), peer);
        if spans.last().peer == peer && spans.last().counter.start < before {
            spans.last().counter.start as int
        } else {
            before
        }
    }
}

impl Tracker {
    /// Whether the tracker can move forward over the spans: it knows their
    /// atoms.
    pub open spec fn can_forward(&self, spans: Seq<IdSpan>) -> bool {
        forall|i: int|
            0 <= i < spans.len() ==> (#[trigger] spans[i]).peer != BASE_PEER && 0
                <= spans[i].counter.start <= spans[i].counter.end <= self.all().counter(
                spans[i].peer,
            )
    }

    /// Whether the tracker can move back over the spans: none of their atoms
    /// is held by the version the tracker started at.
    pub open spec fn can_retreat(&self, spans: Seq<IdSpan>) -> bool {
        forall|i: int|
            0 <= i < spans.len() ==> (#[trigger] spans[i]).peer != BASE_PEER
                && self.start().counter(spans[i].peer) <= spans[i].counter.start
                <= spans[i].counter.end
    }

    /// What moving the version does and does not change: the tracker knows
    /// what it knew, and every atom has the fate that the new version
    /// decides for it.
    pub open spec fn moved_from(&self, before: &Tracker) -> bool {
        &&& items_of(self.atoms()) == items_of(before.atoms())
        &&& self.pairs() == before.pairs()
        &&& self.strikes() == before.strikes()
        &&& self.start() == before.start()
        &&& self.all() == before.all()
    }

    /// Moves the version the tracker stands at forward over the spans, and
    /// returns the changes this makes to the text that is shown, each at its
    /// place in the text as it stands when the change is made. Span by span,
    /// first the atoms that come to be held go in, in the order in which
    /// they stand; then what their deletions deleted goes, run of deletions
    /// by run, each run in the order in which its atoms stand. A change may
    /// cover several places that lie together.
    pub fn iter_effects(&mut self, effect_spans: &IdSpanVector) -> (effects: Vec<Effect>)
        requires
            old(self).wf(),
            old(self).can_forward(effect_spans@),
        ensures
            final(self).wf(),
            final(self).moved_from(old(self)),
            forall|p: PeerID|
                final(self).current().counter(p) == forwarded(
                    old(self).current().counter(p),
                    effect_spans@,
                    p,
                ),
            effects_applied(old(self).shown(), effects@) == final(self).shown(),
            effects_fit(old(self).shown(), effects@, i32::MAX as int),
            effects_sound(effects@),
            final(self).strikes() == old(self).strikes(),
            unit_effects(effects@) == effect_list(
                old(self).atoms(),
                old(self).strikes(),
                &old(self).current(),
                effect_spans@,
            ),
    {
        self.iter_effects_below(effect_spans, Ghost(0x1_0000_0000))
    }

    /// The same, for a tracker whose atoms have their content within the
    /// first `bound` characters of the pool: the content that the changes
    /// put in lies within them too.
    pub(crate) fn iter_effects_below(
        &mut self,
        effect_spans: &IdSpanVector,
        Ghost(bound): Ghost<int>,
    ) -> (effects: Vec<Effect>)
        requires
            old(self).wf(),
            old(self).can_forward(effect_spans@),
            atoms_below(old(self).atoms(), bound),
        ensures
            final(self).wf(),
            final(self).moved_from(old(self)),
            forall|p: PeerID|
                final(self).current().counter(p) == forwarded(
                    old(self).current().counter(p),
                    effect_spans@,
                    p,
                ),
            effects_applied(old(self).shown(), effects@) == final(self).shown(),
            effects_fit(old(self).shown(), effects@, i32::MAX as int),
            effects_below(effects@, bound),
            effects_sound(effects@),
            final(self).strikes() == old(self).strikes(),
            unit_effects(effects@) == effect_list(
                old(self).atoms(),
                old(self).strikes(),
                &old(self).current(),
                effect_spans@,
            ),
    {
        let mut effects: Vec<Effect> = Vec::new();
        let ghost shown0 = self.shown();
        let ghost atoms0 = self.atoms();
        let ghost runs0 = self.deletes@;
        let ghost base = self.current();
        let mut i: usize = 0;
        proof {
            assert(effect_spans@.subrange(0, 0) =~= Seq::<IdSpan>::empty());
        }
        while i < effect_spans.len()
            invariant
                self.wf(),
                self.moved_from(old(self)),
                old(self).can_forward(effect_spans@),
                i <= effect_spans@.len(),
                forall|p: PeerID|
                    self.current().counter(p) == forwarded(
                        old(self).current().counter(p),
                        effect_spans@.subrange(0, i as int),
                        p,
                    ),
                effects_applied(shown0, effects@) == self.shown(),
                effects_fit(shown0, effects@, i32::MAX as int),
                atoms_below(self.atoms(), bound),
                effects_below(effects@, bound),
                effects_sound(effects@),
                atoms0 == old(self).atoms(),
                runs0 == old(self).deletes@,
                base == old(self).current(),
                self.deletes@ == runs0,
                unit_effects(effects@) == iter_step(
                    atoms0,
                    runs0,
                    &base,
                    effect_spans@.subrange(0, i as int),
                ).0,
                self.atoms() == iter_step(
                    atoms0,
                    runs0,
                    &base,
                    effect_spans@.subrange(0, i as int),
                ).1,
            decreases effect_spans@.len() - i,
        {
            let span = effect_spans[i];
            let ghost e = effects@;
            let ghost before = *self;
            proof {
                self.lemma_wf();
                self.current_vv.lemma_counter_range(span.peer);
                assert(effect_spans@.subrange(0, i + 1).drop_last() =~= effect_spans@.subrange(
                    0,
                    i as int,
                ));
            }
            let cur = match self.current_vv.get(&span.peer) {
                Some(c) => c,
                None => 0,
            };
            if span.counter.end > cur {
                self.shift_version(span.peer, span.counter.end, &mut effects, Ghost(bound));
                proof {
                    let added = choose|added: Seq<Effect>|
                        effects@ == e + added && #[trigger] effects_applied(before.shown(), added)
                            == self.shown() && effects_fit(
                            before.shown(),
                            added,
                            i32::MAX as int,
                        );
                    lemma_effects_concat(shown0, e, added);
                }
            }
            proof {
                assert(effect_spans@.subrange(0, i + 1).last() == span);
            }
            i = i + 1;
        }
        proof {
            assert(effect_spans@.subrange(0, i as int) =~= effect_spans@);
        }
        effects
    }

    /// Moves the version the tracker stands at forward over the spans.
    pub fn forward(&mut self, spans: &IdSpanVector)
        requires
            old(self).wf(),
            old(self).can_forward(spans@),
        ensures
            final(self).wf(),
            final(self).moved_from(old(self)),
            forall|p: PeerID|
                final(self).current().counter(p) == forwarded(
                    old(self).current().counter(p),
                    spans@,
                    p,
                ),
    {
        let _ = self.iter_effects(spans);
    }

    /// Moves the version the tracker stands at back over the spans.
    pub fn retreat(&mut self, spans: &IdSpanVector)
        requires
            old(self).wf(),
            old(self).can_retreat(spans@),
        ensures
            final(self).wf(),
            final(self).moved_from(old(self)),
            forall|p: PeerID|
                final(self).current().counter(p) == retreated(
                    old(self).current().counter(p),
                    spans@,
                    p,
                ),
    {
        let mut effects: Vec<Effect> = Vec::new();
        let mut i: usize = 0;
        proof {
            assert(spans@.subrange(0, 0) =~= Seq::<IdSpan>::empty());
        }
        while i < spans.len()
            invariant
                effects_sound(effects@),
                self.wf(),
                self.moved_from(old(self)),
                old(self).can_retreat(spans@),
                i <= spans@.len(),
                forall|p: PeerID|
                    self.current().counter(p) == retreated(
                        old(self).current().counter(p),
                        spans@.subrange(0, i as int),
                        p,
                    ),
            decreases spans@.len() - i,
        {
            let span = spans[i];
            proof {
                self.lemma_wf();
                self.current_vv.lemma_counter_range(span.peer);
                assert(spans@.subrange(0, i + 1).drop_last() =~= spans@.subrange(0, i as int));
            }
            let cur = match self.current_vv.get(&span.peer) {
                Some(c) => c,
                None => 0,
            };
            if span.counter.start < cur {
                self.shift_version(
                    span.peer,
                    span.counter.start,
                    &mut effects,
                    Ghost(0x1_0000_0000),
                );
            }
            i = i + 1;
        }
        proof {
            assert(spans@.subrange(0, i as int) =~= spans@);
        }
    }

    /// Moves the version the tracker stands at to `vv`, which must lie
    /// between the version the tracker started at and all it knows.
    pub fn checkout(&mut self, vv: &VersionVector)
        requires
            old(self).wf(),
            vv.wf(),
            old(self).all().covers(vv),
            vv.covers(&old(self).start()),
        ensures
            final(self).wf(),
            final(self).moved_from(old(self)),
            final(self).current().same(vv),
    {
        let mut effects: Vec<Effect> = Vec::new();
        let mine = self.current_vv.duplicate();
        let entries = mine.entries();
        let mut i: usize = 0;
        proof {
            self.lemma_wf();
        }
        while i < entries.len()
            invariant
                effects_sound(effects@),
                self.wf(),
                vv.wf(),
                self.moved_from(old(self)),
                self.all().covers(vv),
                vv.covers(&self.start()),
                self.all().counter(BASE_PEER) == 0,
                crate::version::entries_wf(entries@),
                forall|p: PeerID|
                    crate::version::lookup(entries@, p) == old(self).current().counter(p),
                i <= entries@.len(),
                forall|p: PeerID|
                    self.current().counter(p) == (if exists|k: int|
                        0 <= k < i && (#[trigger] entries@[k]).0 == p {
                        vv.counter(p)
                    } else {
                        old(self).current().counter(p)
                    }),
            decreases entries@.len() - i,
        {
            let peer = entries[i].0;
            proof {
                vv.lemma_counter_range(peer);
                crate::version::lemma_lookup_at(entries@, i as int);
                self.lemma_wf();
            }
            let target = match vv.get(&peer) {
                Some(c) => c,
                None => 0,
            };
            let ghost before = *self;
            self.shift_version(peer, target, &mut effects, Ghost(0x1_0000_0000));
            proof {
                assert forall|p: PeerID|
                    self.current().counter(p) == (if exists|k: int|
                        0 <= k < i + 1 && (#[trigger] entries@[k]).0 == p {
                        vv.counter(p)
                    } else {
                        old(self).current().counter(p)
                    }) by {
                    if p == peer {
                        assert(entries@[i as int].0 == p);
                    } else {
                        if exists|k: int| 0 <= k < i + 1 && (#[trigger] entries@[k]).0 == p {
                            let k = choose|k: int| 0 <= k < i + 1 && (#[trigger] entries@[k]).0 == p;
                            assert(k < i);
                        }
                    }
                }
            }
            i = i + 1;
        }
        let theirs = vv.entries();
        let mut j: usize = 0;
        proof {
            assert forall|p: PeerID|
                self.current().counter(p) == vv.counter(p) || self.current().counter(p)
                    == 0 by {
                if !(exists|k: int| 0 <= k < entries@.len() && (#[trigger] entries@[k]).0 == p) {
                    crate::version::lemma_lookup_absent(entries@, p);
                }
            }
        }
        while j < theirs.len()
            invariant
                effects_sound(effects@),
                self.wf(),
                vv.wf(),
                self.moved_from(old(self)),
                self.all().covers(vv),
                vv.covers(&self.start()),
                self.all().counter(BASE_PEER) == 0,
                crate::version::entries_wf(theirs@),
                forall|p: PeerID| crate::version::lookup(theirs@, p) == vv.counter(p),
                j <= theirs@.len(),
                forall|p: PeerID|
                    self.current().counter(p) == vv.counter(p) || (self.current().counter(p) == 0
                        && forall|k: int| 0 <= k < j ==> (#[trigger] theirs@[k]).0 != p),
            decreases theirs@.len() - j,
        {
            let peer = theirs[j].0;
            let target = theirs[j].1;
            proof {
                crate::version::lemma_lookup_at(theirs@, j as int);
                self.lemma_wf();
            }
            self.shift_version(peer, target, &mut effects, Ghost(0x1_0000_0000));
            j = j + 1;
        }
        proof {
            assert forall|p: PeerID| vv.counter(p) == self.current().counter(p) by {
                if self.current().counter(p) != vv.counter(p) {
                    crate::version::lemma_lookup_absent(theirs@, p);
                }
            }
        }
    }
}

/// Where the tracker stands is all that decides what it shows: two trackers
/// that know the same insertions and deletions and stand at the same
/// version show the same text, however each came to stand there.
pub proof fn lemma_same_version_same_text(a: &Tracker, b: &Tracker)
    requires
        a.wf(),
        b.wf(),
        items_of(a.atoms()) == items_of(b.atoms()),
        a.pairs() == b.pairs(),
        a.current().same(&b.current()),
    ensures
        a.atoms() == b.atoms(),
        a.shown() == b.shown(),
{
    a.lemma_wf();
    b.lemma_wf();
    crate::tracker_model::lemma_fates_decide(
        a.atoms(),
        b.atoms(),
        a.pairs(),
        &a.current(),
        &b.current(),
    );
}

impl Tracker {
    /// Takes in the deletion of `len` characters from place `start` on of
    /// the text as the version the tracker stands at shows it. The atoms of
    /// the operation, numbered from `id` on, delete the characters one by
    /// one in document order.
    pub fn apply_delete(&mut self, id: ID, start: usize, len: usize)
        requires
            old(self).wf(),
            old(self).ready_for(id, len as int),
            old(self).pairs().len() + len <= TRACKER_LIMIT,
        ensures
            final(self).wf(),
            final(self).grown_by(old(self), id, len as int),
            items_of(final(self).atoms()) == items_of(old(self).atoms()),
            final(self).pairs() == old(self).pairs() + strike_pairs(
                old(self).atoms(),
                cursor_from(old(self).atoms(), 0, start as nat),
                cursor_from(
                    old(self).atoms(),
                    cursor_from(old(self).atoms(), 0, start as nat),
                    len as nat,
                ),
                id,
            ),
    {
        let ghost atoms = self.atoms();
        let ghost lo = cursor_from(atoms, 0, start as nat);
        let ghost hi = cursor_from(atoms, lo, len as nat);
        proof {
            self.lemma_wf();
            lemma_cursor_range(atoms, 0, start as nat);
            lemma_cursor_onward(atoms, 0, start as nat, len as nat);
            lemma_cursor_count(atoms, lo, len as nat);
            lemma_strike_count(atoms, lo, hi, id);
        }
        let a = self.cursor_border(start);
        let b = if start > TRACKER_LIMIT || len > TRACKER_LIMIT {
            proof {
                lemma_cursor_big(atoms, 0, start as nat);
                lemma_cursor_big(atoms, lo, len as nat);
            }
            self.content.len()
        } else {
            self.cursor_border(start + len)
        };
        let ghost c0 = self.content@;
        let ghost parts0 = span_parts(c0);
        let ghost runs0 = self.deletes@;
        let ghost pairs0 = pairs_of(runs0);
        let ghost old_cur = self.current_vv;
        let ghost old_all = self.all_vv;
        let end = (id.counter as i64 + len as i64) as i32;
        let mut new_all = self.all_vv.duplicate();
        new_all.set_end(id.peer, end);
        let mut new_cur = self.current_vv.duplicate();
        new_cur.set_end(id.peer, end);
        let ghost fresh: Seq<DelRun> = Seq::empty();
        let mut assigned: usize = 0;
        let mut k: usize = a;
        proof {
            assert(parts0.subrange(0, parts0.len() as int) =~= parts0);
            assert(flat_prefix(parts0, a as int) == lo);
            assert(flat_prefix(parts0, b as int) == hi);
            assert(a <= b);
            lemma_fates_after_growth(c0, runs0, &old_cur, &old_all, &new_cur, &new_all, id.peer);
            assert(run_parts(fresh) =~= Seq::<Seq<DelPair>>::empty());
            assert(runs0 + fresh =~= runs0);
        }
        while k < b
            invariant
                a <= k <= b <= c0.len(),
                self.content@.len() == c0.len(),
                parts0 == span_parts(c0),
                atoms == atoms_of(c0),
                lo == flat_prefix(parts0, a as int),
                hi == flat_prefix(parts0, b as int),
                0 <= lo <= hi <= atoms.len(),
                strike_pairs(atoms, lo, hi, id).len() <= len,
                id.peer != BASE_PEER,
                id.counter >= 0,
                id.counter + len <= i32::MAX,
                end == id.counter + len,
                new_cur.counter(id.peer) == end,
                new_all.counter(id.peer) == end,
                new_all.wf(),
                spans_ok(c0, pairs0, &new_cur, &new_all),
                self.start_vv == old(self).start_vv,
                self.all_vv == old_all,
                self.current_vv == old_cur,
                self.deletes@ == runs0 + fresh,
                pairs_of(fresh) == strike_pairs(atoms, lo, flat_prefix(parts0, k as int) as int, id),
                assigned == pairs_of(fresh).len(),
                runs_ok(fresh, &new_all),
                forall|j: int|
                    0 <= j < c0.len() ==> #[trigger] self.content@[j] == (if a <= j < k
                        && c0[j].spec_visible() {
                        with_fate(c0[j], c0[j].future, (c0[j].deleted + 1) as u32)
                    } else {
                        c0[j]
                    }),
                forall|j: int, o: int|
                    0 <= j < c0.len() && 0 <= o < c0[j].len ==> hits(
                        pairs_of(fresh),
                        &new_cur,
                        #[trigger] c0[j].id_at(o),
                    ) == (if a <= j < k && c0[j].spec_visible() {
                        1nat
                    } else {
                        0nat
                    }),
            decreases b - k,
        {
            let s = self.content[k];
            let ghost p = flat_prefix(parts0, k as int) as int;
            let ghost before = pairs_of(fresh);
            proof {
                assert(s == c0[k as int]);
                assert(s.wf() && span_known(s, &new_all));
                lemma_span_atoms(c0, k as int);
                lemma_flat_monotone(parts0, a as int, k as int);
                lemma_flat_monotone(parts0, k + 1, b as int);
                lemma_strike_mono(atoms, lo, p + s.len, hi, id);
                lemma_strike_mono(atoms, lo, p, hi, id);
                lemma_strike_span(atoms, lo, p, s, s.len as int, id);
            }
            if s.visible() {
                let run = DelRun {
                    op: ID { peer: id.peer, counter: (id.counter as i64 + assigned as i64) as i32 },
                    target: s.id,
                    len: s.len,
                };
                proof {
                    assert(run.pairs().subrange(0, s.len as int) =~= run.pairs());
                    lemma_hits_bound(pairs0, &new_cur, s.id_at(0));
                    assert(span_fate_ok(s, pairs0, &new_cur));
                    assert(s.deleted == hits(pairs0, &new_cur, s.id_at(0)));
                }
                set_at(
                    &mut self.content,
                    k,
                    Span {
                        id: s.id,
                        len: s.len,
                                        lamport: s.lamport,
                        future: s.future,
                        deleted: s.deleted + 1,
                        slice: s.slice,
                    },
                );
                self.deletes.push(run);
                proof {
                    let grown = fresh.push(run);
                    assert(run_parts(grown).drop_last() =~= run_parts(fresh));
                    assert(run_parts(grown).last() == run.pairs());
                    assert(pairs_of(grown) == before + run.pairs());
                    assert(self.deletes@ =~= runs0 + grown);
                    assert forall|j: int, o: int|
                        0 <= j < c0.len() && 0 <= o < c0[j].len implies hits(
                        pairs_of(grown),
                        &new_cur,
                        #[trigger] c0[j].id_at(o),
                    ) == (if a <= j < k + 1 && c0[j].spec_visible() {
                        1nat
                    } else {
                        0nat
                    }) by {
                        let x = c0[j].id_at(o);
                        lemma_hits_concat(before, run.pairs(), &new_cur, x);
                        lemma_run_hits_all(run, &new_cur, x);
                        assert(c0[j].wf());
                        if j != k {
                            if j < k {
                                assert(spans_apart(c0[j], c0[k as int]));
                            } else {
                                assert(spans_apart(c0[k as int], c0[j]));
                            }
                        }
                    }
                    fresh = grown;
                }
                assigned = assigned + s.len;
            }
            k = k + 1;
        }
        self.all_vv = new_all;
        self.current_vv = new_cur;
        proof {
            let c = self.content@;
            let pairs = pairs_of(self.deletes@);
            assert(run_parts(runs0 + fresh) =~= run_parts(runs0) + run_parts(fresh));
            lemma_flat_concat(run_parts(runs0), run_parts(fresh));
            assert(pairs == pairs0 + pairs_of(fresh));
            assert forall|j: int| 0 <= j < c0.len() implies #[trigger] c[j] == with_fate(
                c0[j],
                c[j].future,
                c[j].deleted,
            ) by {}
            lemma_items_keep(c0, c);
            assert forall|j: int| 0 <= j < c.len() implies (#[trigger] c[j]).wf() && span_fate_ok(
                c[j],
                pairs,
                &self.current_vv,
            ) && span_known(c[j], &self.all_vv) by {
                assert(c0[j].wf() && span_fate_ok(c0[j], pairs0, &new_cur) && span_known(
                    c0[j],
                    &new_all,
                ));
                assert forall|o: int| 0 <= o < c[j].len implies c[j].future == !held(
                    &self.current_vv,
                    #[trigger] c[j].id_at(o),
                ) && c[j].deleted == hits(pairs, &self.current_vv, c[j].id_at(o)) by {
                    assert(c[j].id_at(o) == c0[j].id_at(o));
                    lemma_hits_concat(pairs0, pairs_of(fresh), &new_cur, c0[j].id_at(o));
                }
            }
            assert forall|i: int, j: int| 0 <= i < j < c.len() implies spans_apart(
                #[trigger] c[i],
                #[trigger] c[j],
            ) by {
                assert(spans_apart(c0[i], c0[j]));
            }
            assert(runs_ok(self.deletes@, &self.all_vv)) by {
                assert forall|i: int| 0 <= i < self.deletes@.len() implies (
                #[trigger] self.deletes@[i]).wf() && self.all_vv.counter(self.deletes@[i].op.peer)
                    >= self.deletes@[i].op.counter + self.deletes@[i].len
                    && self.deletes@[i].op.peer != BASE_PEER && (self.deletes@[i].target.peer
                    == BASE_PEER || self.all_vv.counter(self.deletes@[i].target.peer)
                    >= self.deletes@[i].target.counter + self.deletes@[i].len) by {
                    if i < runs0.len() {
                        assert(self.deletes@[i] == runs0[i]);
                    } else {
                        assert(self.deletes@[i] == fresh[i - runs0.len()]);
                    }
                }
            }
        }
    }

    /// Whether the tracker can take in the operation: it is an insertion
    /// that carries its content as a range of the pool or as a placeholder,
    /// or a deletion; it is the next of its peer; and there is room for it.
    pub open spec fn can_apply(&self, id: ID, lamport: Lamport, content: ListOp) -> bool {
        &&& content.wf()
        &&& content matches ListOp::Insert { slice, .. } ==> slice is Slice || slice is Unknown
        &&& content is Insert || content is Delete
        &&& self.ready_for(id, content.len() as int)
        &&& lamport + content.len() <= u32::MAX
        &&& self.atoms().len() + content.len() <= TRACKER_LIMIT
        &&& self.pairs().len() + content.len() <= TRACKER_LIMIT
        &&& content matches ListOp::Delete(span) ==> span.spec_end() <= TRACKER_LIMIT
    }

    /// What taking in an operation does: `self` is `before` with the
    /// operation taken in at the version that `before` stood at. Both
    /// versions come to hold the operation. An insertion adds its atoms at
    /// the place where they come to stand; a deletion adds its deletions.
    pub open spec fn applied_from(
        &self,
        before: &Tracker,
        id: ID,
        lamport: Lamport,
        content: ListOp,
    ) -> bool {
        &&& self.grown_by(before, id, content.len() as int)
        &&& match content {
            ListOp::Insert { slice, pos } => {
                let range = match slice {
                    ListSlice::Slice(r) => r,
                    _ => SliceRange {
                        start: UNKNOWN_START,
                        end: (UNKNOWN_START + slice.len()) as u32,
                    },
                };
                &&& self.pairs() == before.pairs()
                &&& self.atoms() == before.atoms().subrange(
                    0,
                    insert_place(before.atoms(), lamport as int, id.peer, pos as nat),
                ) + inserted_span(before.atoms(), id, lamport, range, pos as nat).atoms()
                    + before.atoms().subrange(
                    insert_place(before.atoms(), lamport as int, id.peer, pos as nat),
                    before.atoms().len() as int,
                )
            },
            ListOp::Delete(span) => {
                &&& items_of(self.atoms()) == items_of(before.atoms())
                &&& self.pairs() == before.pairs() + strike_pairs(
                    before.atoms(),
                    cursor_from(before.atoms(), 0, span.spec_start() as nat),
                    cursor_from(
                        before.atoms(),
                        cursor_from(before.atoms(), 0, span.spec_start() as nat),
                        span.len(),
                    ),
                    id,
                )
            },
            _ => true,
        }
    }

    /// Takes in an operation. The place it names is a place of the text as
    /// the version the tracker stands at shows it.
    pub fn apply(&mut self, id: ID, lamport: Lamport, content: &ListOp)
        requires
            old(self).wf(),
            old(self).can_apply(id, lamport, *content),
        ensures
            final(self).wf(),
            final(self).applied_from(old(self), id, lamport, *content),
    {
        match content {
            ListOp::Insert { slice, pos } => {
                let range = match slice {
                    ListSlice::Slice(r) => *r,
                    ListSlice::Unknown(n) => ListSlice::unknown_range(*n),
                    _ => vstd::pervasive::unreached(),
                };
                self.apply_insert(id, lamport, range, *pos);
            },
            ListOp::Delete(span) => {
                self.apply_delete(id, span.start() as usize, span.atom_len());
            },
            _ => {},
        }
    }
}

/// A cursor that is to pass more shown atoms than there are atoms passes
/// them all.
pub proof fn lemma_cursor_big(atoms: Seq<Atom>, from: int, n: nat)
    requires
        0 <= from <= atoms.len(),
        n > atoms.len() - from,
    ensures
        cursor_from(atoms, from, n) == atoms.len(),
    decreases atoms.len() - from,
{
    if from < atoms.len() {
        if atoms[from].visible() {
            lemma_cursor_big(atoms, from + 1, (n - 1) as nat);
        } else {
            lemma_cursor_big(atoms, from + 1, n);
        }
    }
}

/// The deletions of the atoms up to some place are the first of the
/// deletions of the atoms up to a later place.
pub proof fn lemma_strike_mono(atoms: Seq<Atom>, lo: int, mid: int, hi: int, op: ID)
    requires
        lo <= mid <= hi,
    ensures
        strike_pairs(atoms, lo, mid, op).len() <= strike_pairs(atoms, lo, hi, op).len(),
    decreases hi - mid,
{
    if mid < hi {
        lemma_strike_mono(atoms, lo, mid, hi - 1, op);
    }
}

} // verus!
