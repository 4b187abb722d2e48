//! Which changes a move of the tracker makes to the text, place by place.
//! The tracker hands out changes that cover runs of places; taken place by
//! place they are the same list however the tracker has its atoms cut into
//! runs.

use crate::id::{PeerID, ID};
use crate::tracker_model::{
    effect_applied, effect_fits, effects_applied, effects_fit, lemma_shown_concat,
    lemma_shown_uniform, shown, slice_content, Atom, Effect,
};
use vstd::prelude::*;

verus! {

/// A change to one place of the text: a character goes in before place
/// `pos`, or the character at place `pos` goes.
pub enum UnitEffect {
    Ins { pos: int, unit: Option<u32> },
    Del { pos: int },
}

pub open spec fn unit_ins(pos: int, units: Seq<Option<u32>>, i: int) -> UnitEffect {
    UnitEffect::Ins { pos: pos + i, unit: units[i] }
}

pub open spec fn unit_del(pos: int, i: int) -> UnitEffect {
    UnitEffect::Del { pos }
}

/// A change, place by place.
pub open spec fn units_of_effect(e: Effect) -> Seq<UnitEffect> {
    match e {
        Effect::Ins { pos, content } => Seq::new(
            slice_content(content).len(),
            |i: int| unit_ins(pos as int, slice_content(content), i),
        ),
        Effect::Del { pos, len } => Seq::new(len as nat, |i: int| unit_del(pos as int, i)),
    }
}

/// Changes, place by place.
pub open spec fn unit_effects(effects: Seq<Effect>) -> Seq<UnitEffect>
    decreases effects.len(),
{
    if effects.len() == 0 {
        Seq::empty()
    } else {
        unit_effects(effects.drop_last()) + units_of_effect(effects.last())
    }
}

pub proof fn lemma_unit_effects_concat(a: Seq<Effect>, b: Seq<Effect>)
    ensures
        unit_effects(a + b) == unit_effects(a) + unit_effects(b),
    decreases b.len(),
{
    if b.len() == 0 {
        assert(a + b =~= a);
        assert(unit_effects(a) + unit_effects(b) =~= unit_effects(a));
    } else {
        assert((a + b).drop_last() =~= a + b.drop_last());
        lemma_unit_effects_concat(a, b.drop_last());
        assert(unit_effects(a + b) =~= unit_effects(a) + unit_effects(b));
    }
}

pub proof fn lemma_unit_effects_one(e: Effect)
    ensures
        unit_effects(seq![e]) == units_of_effect(e),
{
    reveal_with_fuel(unit_effects, 2);
    assert(seq![e].drop_last() =~= Seq::<Effect>::empty());
    assert(unit_effects(seq![e]) =~= units_of_effect(e));
}

/// Another fate for the atoms of one peer within a range: being held by
/// the version or not, and one deletion more or less.
pub struct Change {
    pub peer: PeerID,
    pub lo: int,
    pub hi: int,
    pub set_future: Option<bool>,
    pub more: bool,
    pub less: bool,
}

/// Whether the change is about the atom.
pub open spec fn touched(id: ID, ch: Change) -> bool {
    id.peer == ch.peer && ch.lo <= id.counter < ch.hi
}

/// The atom once the change has been made.
pub open spec fn changed(a: Atom, ch: Change) -> Atom {
    if touched(a.id, ch) {
        Atom {
            id: a.id,
            lamport: a.lamport,
            unit: a.unit,
            future: match ch.set_future {
                Some(f) => f,
                None => a.future,
            },
            deleted: (a.deleted + (if ch.more {
                1int
            } else {
                0int
            }) - (if ch.less {
                1int
            } else {
                0int
            })) as nat,
        }
    } else {
        a
    }
}

pub open spec fn changed_at(atoms: Seq<Atom>, ch: Change, i: int) -> Atom {
    changed(atoms[i], ch)
}

/// The atoms once the change has been made.
pub open spec fn all_changed(atoms: Seq<Atom>, ch: Change) -> Seq<Atom> {
    Seq::new(atoms.len(), |i: int| changed_at(atoms, ch, i))
}

/// What the change of one atom does to the text, the atom standing at
/// place `at` of it.
pub open spec fn step_of(a: Atom, ch: Change, at: int) -> Seq<UnitEffect> {
    if !a.visible() && changed(a, ch).visible() {
        seq![UnitEffect::Ins { pos: at, unit: a.unit }]
    } else if a.visible() && !changed(a, ch).visible() {
        seq![UnitEffect::Del { pos: at }]
    } else {
        Seq::empty()
    }
}

/// What the change does to the text, place by place: the atoms are gone
/// through in the order in which they stand, and each that comes to be
/// shown, or ceases to be, changes the text at the place where it stands
/// then. `base` places of the text lie before the atoms.
pub open spec fn pass(atoms: Seq<Atom>, ch: Change, base: int) -> Seq<UnitEffect>
    decreases atoms.len(),
{
    if atoms.len() == 0 {
        Seq::empty()
    } else {
        pass(atoms.drop_last(), ch, base) + step_of(
            atoms.last(),
            ch,
            base + shown(all_changed(atoms.drop_last(), ch)).len(),
        )
    }
}

pub proof fn lemma_all_changed_concat(a: Seq<Atom>, b: Seq<Atom>, ch: Change)
    ensures
        all_changed(a + b, ch) == all_changed(a, ch) + all_changed(b, ch),
{
    assert(all_changed(a + b, ch) =~= all_changed(a, ch) + all_changed(b, ch));
}

/// Going through atoms is going through the first of them and then through
/// the others.
pub proof fn lemma_pass_concat(a: Seq<Atom>, b: Seq<Atom>, ch: Change, base: int)
    ensures
        pass(a + b, ch, base) == pass(a, ch, base) + pass(
            b,
            ch,
            base + shown(all_changed(a, ch)).len(),
        ),
    decreases b.len(),
{
    let mid = base + shown(all_changed(a, ch)).len();
    if b.len() == 0 {
        assert(a + b =~= a);
        assert(pass(a, ch, base) + pass(b, ch, mid) =~= pass(a, ch, base));
    } else {
        let rest = b.drop_last();
        assert((a + b).drop_last() =~= a + rest);
        assert((a + b).last() == b.last());
        lemma_pass_concat(a, rest, ch, base);
        lemma_all_changed_concat(a, rest, ch);
        lemma_shown_concat(all_changed(a, ch), all_changed(rest, ch));
        assert(pass(a + b, ch, base) =~= pass(a, ch, base) + pass(b, ch, mid));
    }
}

/// Atoms that the change is not about stay as they are and change nothing.
pub proof fn lemma_pass_untouched(x: Seq<Atom>, ch: Change, base: int)
    requires
        forall|i: int| 0 <= i < x.len() ==> !touched((#[trigger] x[i]).id, ch),
    ensures
        all_changed(x, ch) == x,
        pass(x, ch, base) == Seq::<UnitEffect>::empty(),
    decreases x.len(),
{
    assert(all_changed(x, ch) =~= x);
    if x.len() > 0 {
        let rest = x.drop_last();
        assert forall|i: int| 0 <= i < rest.len() implies !touched((#[trigger] rest[i]).id, ch) by {
            assert(rest[i] == x[i]);
        }
        lemma_pass_untouched(rest, ch, base);
        assert(x[x.len() - 1] == x.last());
    }
}

/// Atoms of the same fate that the change is about, standing together:
/// where they come to be shown, they go in one after another; where they
/// cease to be shown, they go one by one from the place of the first.
pub proof fn lemma_pass_uniform(x: Seq<Atom>, ch: Change, base: int, was: bool, now: bool)
    requires
        forall|i: int|
            0 <= i < x.len() ==> (#[trigger] x[i]).visible() == was && changed(x[i], ch).visible()
                == now,
    ensures
        shown(all_changed(x, ch)).len() == (if now {
            x.len()
        } else {
            0
        }),
        !was && now ==> pass(x, ch, base) == Seq::new(
            x.len(),
            |i: int| UnitEffect::Ins { pos: base + i, unit: x[i].unit },
        ),
        was && !now ==> pass(x, ch, base) == Seq::new(
            x.len(),
            |i: int| UnitEffect::Del { pos: base },
        ),
        was == now ==> pass(x, ch, base) == Seq::<UnitEffect>::empty(),
    decreases x.len(),
{
    let y = all_changed(x, ch);
    let units = Seq::new(x.len(), |i: int| x[i].unit);
    assert forall|i: int| 0 <= i < y.len() implies (#[trigger] y[i]).visible() == now && y[i].unit
        == units[i] by {
        assert(y[i] == changed(x[i], ch));
    }
    lemma_shown_uniform(y, units, now);
    if x.len() > 0 {
        let rest = x.drop_last();
        assert forall|i: int| 0 <= i < rest.len() implies (#[trigger] rest[i]).visible() == was
            && changed(rest[i], ch).visible() == now by {
            assert(rest[i] == x[i]);
        }
        lemma_pass_uniform(rest, ch, base, was, now);
        assert(x[x.len() - 1] == x.last());
        if !was && now {
            assert(pass(x, ch, base) =~= Seq::new(
                x.len(),
                |i: int| UnitEffect::Ins { pos: base + i, unit: x[i].unit },
            ));
        } else if was && !now {
            assert(pass(x, ch, base) =~= Seq::new(x.len(), |i: int| UnitEffect::Del { pos: base }));
        }
    } else {
        assert(pass(x, ch, base) =~= Seq::new(
            x.len(),
            |i: int| UnitEffect::Ins { pos: base + i, unit: x[i].unit },
        ));
        assert(pass(x, ch, base) =~= Seq::new(x.len(), |i: int| UnitEffect::Del { pos: base }));
    }
}

/// Whether each of the changes is one that a tracker hands out: what it
/// puts in is a range of the pool or a placeholder, and it covers at least
/// one place.
pub open spec fn effects_sound(effects: Seq<Effect>) -> bool {
    forall|k: int|
        0 <= k < effects.len() ==> match #[trigger] effects[k] {
            Effect::Ins { pos, content } => content.wf() && (content is Slice
                || content is Unknown) && slice_content(content).len() > 0,
            Effect::Del { pos, len } => len > 0,
        }
}

/// Changes of that kind with one more of the kind are of that kind.
pub proof fn lemma_sound_push(given: Seq<Effect>, e: Effect)
    requires
        effects_sound(given),
        effects_sound(seq![e]),
    ensures
        effects_sound(given.push(e)),
{
    assert forall|k: int| 0 <= k < given.push(e).len() implies match #[trigger] given.push(e)[k] {
        Effect::Ins { pos, content } => content.wf() && (content is Slice || content is Unknown)
            && slice_content(content).len() > 0,
        Effect::Del { pos, len } => len > 0,
    } by {
        if k < given.len() {
            assert(given.push(e)[k] == given[k]);
        } else {
            assert(given.push(e)[k] == seq![e][0]);
        }
    }
}

/// The text once the change to one place has been made.
pub open spec fn unit_applied(units: Seq<Option<u32>>, e: UnitEffect) -> Seq<Option<u32>> {
    match e {
        UnitEffect::Ins { pos, unit } => units.subrange(0, pos) + seq![unit] + units.subrange(
            pos,
            units.len() as int,
        ),
        UnitEffect::Del { pos } => units.subrange(0, pos) + units.subrange(
            pos + 1,
            units.len() as int,
        ),
    }
}

/// Whether the change to one place can be made to the text.
pub open spec fn unit_fits(units: Seq<Option<u32>>, e: UnitEffect, limit: int) -> bool {
    match e {
        UnitEffect::Ins { pos, unit } => 0 <= pos <= units.len() && units.len() + 1 <= limit,
        UnitEffect::Del { pos } => 0 <= pos < units.len(),
    }
}

/// The text once the changes have been made, place by place.
pub open spec fn units_applied(units: Seq<Option<u32>>, list: Seq<UnitEffect>) -> Seq<Option<u32>>
    decreases list.len(),
{
    if list.len() == 0 {
        units
    } else {
        unit_applied(units_applied(units, list.drop_last()), list.last())
    }
}

/// Whether the changes can be made to the text, place by place.
pub open spec fn units_fit(units: Seq<Option<u32>>, list: Seq<UnitEffect>, limit: int) -> bool
    decreases list.len(),
{
    if list.len() == 0 {
        true
    } else {
        units_fit(units, list.drop_last(), limit) && unit_fits(
            units_applied(units, list.drop_last()),
            list.last(),
            limit,
        )
    }
}

pub proof fn lemma_units_concat(units: Seq<Option<u32>>, a: Seq<UnitEffect>, b: Seq<UnitEffect>, limit: int)
    ensures
        units_applied(units, a + b) == units_applied(units_applied(units, a), b),
        units_fit(units, a + b, limit) == (units_fit(units, a, limit) && units_fit(
            units_applied(units, a),
            b,
            limit,
        )),
    decreases b.len(),
{
    if b.len() == 0 {
        assert(a + b =~= a);
    } else {
        assert((a + b).drop_last() =~= a + b.drop_last());
        assert((a + b).last() == b.last());
        lemma_units_concat(units, a, b.drop_last(), limit);
    }
}

/// Putting characters in one by one, each after the one before, puts them
/// in together.
pub proof fn lemma_units_ins(
    units: Seq<Option<u32>>,
    pos: int,
    c: Seq<Option<u32>>,
    k: int,
    limit: int,
)
    requires
        0 <= k <= c.len(),
        0 <= pos,
    ensures
        units_fit(units, Seq::new(k as nat, |i: int| unit_ins(pos, c, i)), limit) == (k == 0 || (pos
            <= units.len() && units.len() + k <= limit)),
        pos <= units.len() ==> units_applied(units, Seq::new(k as nat, |i: int| unit_ins(pos, c, i)))
            == units.subrange(0, pos) + c.subrange(0, k) + units.subrange(pos, units.len() as int),
    decreases k,
{
    let list = Seq::new(k as nat, |i: int| unit_ins(pos, c, i));
    if k == 0 {
        assert(pos <= units.len() ==> units.subrange(0, pos) + c.subrange(0, 0) + units.subrange(
            pos,
            units.len() as int,
        ) =~= units);
    } else {
        let rest = Seq::new((k - 1) as nat, |i: int| unit_ins(pos, c, i));
        assert(list.drop_last() =~= rest);
        assert(list.last() == unit_ins(pos, c, k - 1));
        lemma_units_ins(units, pos, c, k - 1, limit);
        if pos <= units.len() {
            let before = units.subrange(0, pos) + c.subrange(0, k - 1) + units.subrange(
                pos,
                units.len() as int,
            );
            assert(unit_applied(before, unit_ins(pos, c, k - 1)) =~= units.subrange(0, pos)
                + c.subrange(0, k) + units.subrange(pos, units.len() as int));
        }
    }
}

/// Taking characters out one by one at the same place takes them out
/// together.
pub proof fn lemma_units_del(units: Seq<Option<u32>>, pos: int, k: int, limit: int)
    requires
        0 <= k,
        0 <= pos,
    ensures
        units_fit(units, Seq::new(k as nat, |i: int| unit_del(pos, i)), limit) == (k == 0 || pos
            + k <= units.len()),
        pos + k <= units.len() ==> units_applied(units, Seq::new(k as nat, |i: int| unit_del(pos, i)))
            == units.subrange(0, pos) + units.subrange(pos + k, units.len() as int),
    decreases k,
{
    let list = Seq::new(k as nat, |i: int| unit_del(pos, i));
    if k == 0 {
        assert(pos <= units.len() ==> units.subrange(0, pos) + units.subrange(
            pos,
            units.len() as int,
        ) =~= units);
    } else {
        let rest = Seq::new((k - 1) as nat, |i: int| unit_del(pos, i));
        assert(list.drop_last() =~= rest);
        assert(list.last() == unit_del(pos, k - 1));
        lemma_units_del(units, pos, k - 1, limit);
        if pos + k <= units.len() {
            let before = units.subrange(0, pos) + units.subrange(pos + k - 1, units.len() as int);
            assert(unit_applied(before, unit_del(pos, k - 1)) =~= units.subrange(0, pos)
                + units.subrange(pos + k, units.len() as int));
        }
    }
}

/// Changes that a tracker hands out can be made to a text exactly where
/// they can be made place by place, and make of it what they make of it
/// place by place.
pub proof fn lemma_units_of_effects(units: Seq<Option<u32>>, effects: Seq<Effect>, limit: int)
    requires
        effects_sound(effects),
    ensures
        effects_fit(units, effects, limit) == units_fit(units, unit_effects(effects), limit),
        effects_fit(units, effects, limit) ==> effects_applied(units, effects) == units_applied(
            units,
            unit_effects(effects),
        ),
    decreases effects.len(),
{
    if effects.len() > 0 {
        let rest = effects.drop_last();
        let e = effects.last();
        assert(effects[effects.len() - 1] == e);
        assert(effects_sound(rest)) by {
            assert forall|k: int| 0 <= k < rest.len() implies match #[trigger] rest[k] {
                Effect::Ins { pos, content } => content.wf() && (content is Slice
                    || content is Unknown) && slice_content(content).len() > 0,
                Effect::Del { pos, len } => len > 0,
            } by {
                assert(rest[k] == effects[k]);
            }
        }
        lemma_units_of_effects(units, rest, limit);
        lemma_units_concat(units, unit_effects(rest), units_of_effect(e), limit);
        if effects_fit(units, rest, limit) {
            let before = effects_applied(units, rest);
            match e {
                Effect::Ins { pos, content } => {
                    let c = slice_content(content);
                    lemma_units_ins(before, pos as int, c, c.len() as int, limit);
                    assert(c.subrange(0, c.len() as int) =~= c);
                },
                Effect::Del { pos, len } => {
                    lemma_units_del(before, pos as int, len as int, limit);
                },
            }
        }
    }
}

} // verus!
