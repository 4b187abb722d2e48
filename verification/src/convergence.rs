//! Why peers that take in the same operations in different orders come to
//! hold the same text. Two insertions that know nothing of each other come
//! to stand the same way whichever is taken in first; from this, any number
//! of insertions come to stand the same way in every order that keeps each
//! behind the one it was made after. Deletions move no atom and count the
//! same in whatever order they are known, so that trackers which know the
//! same and stand at the same version show the same text.

use crate::id::{PeerID, ID};
use crate::id::IdSpan;
use crate::tracker::{effect_list, insert_place, Tracker};
use crate::tracker_model::{
    cursor_from, hits, item_at, items_of, lemma_cursor_count, lemma_cursor_range,
    lemma_cursor_skip, lemma_hits_concat, lemma_hits_same, lemma_shown_concat, outranks, settle,
    shown, shown_one, strike_pairs, Atom, DelPair, BASE_PEER,
};
use crate::version::VersionVector;
use vstd::prelude::*;

verus! {

/// Whether the atoms are those of one operation: there is at least one, they
/// are of one peer, which is no stand-in for the base, and none is earlier
/// than the first.
pub open spec fn is_block(x: Seq<Atom>) -> bool {
    &&& x.len() > 0
    &&& x[0].id.peer != BASE_PEER
    &&& forall|j: int|
        0 <= j < x.len() ==> (#[trigger] x[j]).id.peer == x[0].id.peer && x[j].lamport
            >= x[0].lamport
}

/// The atoms with the block put in before place `p`.
pub open spec fn placed(s: Seq<Atom>, p: int, x: Seq<Atom>) -> Seq<Atom> {
    s.subrange(0, p) + x + s.subrange(p, s.len() as int)
}

/// Where the place `c` lies once `n` atoms have been put in before place
/// `p`: a place at or before `p` stays, a place after it moves on.
pub open spec fn shifted(c: int, p: int, n: int) -> int {
    if c <= p {
        c
    } else {
        c + n
    }
}

/// Where a block that is inserted at place `c` comes to stand.
pub open spec fn landed(s: Seq<Atom>, c: int, x: Seq<Atom>) -> int {
    settle(s, c, x[0].lamport, x[0].id.peer)
}

/// The atoms once the block has been inserted at place `c`.
pub open spec fn integrated(s: Seq<Atom>, c: int, x: Seq<Atom>) -> Seq<Atom> {
    placed(s, landed(s, c, x), x)
}

/// Whether the atom before place `c`, if there is one, does not outrank the
/// block: an operation is later than the atom it was inserted after.
pub open spec fn follows_origin(s: Seq<Atom>, c: int, x: Seq<Atom>) -> bool {
    0 < c <= s.len() ==> !outranks(
        s[c - 1].lamport,
        s[c - 1].id.peer,
        x[0].lamport,
        x[0].id.peer,
    )
}

/// What the place where an insertion comes to stand is: every atom it
/// passed outranks it, and the atom it stands before does not.
pub proof fn lemma_settle_facts(s: Seq<Atom>, c: int, lamport: int, peer: PeerID)
    requires
        0 <= c <= s.len(),
    ensures
        c <= settle(s, c, lamport, peer) <= s.len(),
        forall|i: int|
            c <= i < settle(s, c, lamport, peer) ==> outranks(
                (#[trigger] s[i]).lamport,
                s[i].id.peer,
                lamport,
                peer,
            ),
        settle(s, c, lamport, peer) < s.len() ==> !outranks(
            s[settle(s, c, lamport, peer)].lamport,
            s[settle(s, c, lamport, peer)].id.peer,
            lamport,
            peer,
        ),
    decreases s.len() - c,
{
    if c < s.len() && outranks(s[c].lamport, s[c].id.peer, lamport, peer) {
        lemma_settle_facts(s, c + 1, lamport, peer);
    }
}

/// A place of which this holds is the place where the insertion comes to
/// stand.
pub proof fn lemma_settle_is(s: Seq<Atom>, c: int, p: int, lamport: int, peer: PeerID)
    requires
        0 <= c <= p <= s.len(),
        forall|i: int|
            c <= i < p ==> outranks((#[trigger] s[i]).lamport, s[i].id.peer, lamport, peer),
        p < s.len() ==> !outranks(s[p].lamport, s[p].id.peer, lamport, peer),
    ensures
        settle(s, c, lamport, peer) == p,
    decreases p - c,
{
    if c < p {
        lemma_settle_is(s, c + 1, p, lamport, peer);
    }
}

/// Two insertions of which the first comes to stand before the place at
/// which the second was made do not meet: each stands the same whether the
/// other is there or not.
proof fn lemma_apart(s: Seq<Atom>, cx: int, x: Seq<Atom>, cy: int, y: Seq<Atom>)
    requires
        0 <= cx <= s.len(),
        0 <= cy <= s.len(),
        is_block(x),
        is_block(y),
        landed(s, cx, x) < cy,
    ensures
        integrated(integrated(s, cx, x), shifted(cy, landed(s, cx, x), x.len() as int), y)
            == integrated(integrated(s, cy, y), shifted(cx, landed(s, cy, y), y.len() as int), x),
{
    let n = x.len() as int;
    let m = y.len() as int;
    let px = landed(s, cx, x);
    let py = landed(s, cy, y);
    lemma_settle_facts(s, cx, x[0].lamport, x[0].id.peer);
    lemma_settle_facts(s, cy, y[0].lamport, y[0].id.peer);
    let s1 = placed(s, px, x);
    let s2 = placed(s, py, y);
    assert forall|i: int| cy + n <= i < py + n implies outranks(
        (#[trigger] s1[i]).lamport,
        s1[i].id.peer,
        y[0].lamport,
        y[0].id.peer,
    ) by {
        assert(s1[i] == s[i - n]);
    }
    if py < s.len() {
        assert(s1[py + n] == s[py]);
    }
    lemma_settle_is(s1, cy + n, py + n, y[0].lamport, y[0].id.peer);
    assert forall|i: int| cx <= i < px implies outranks(
        (#[trigger] s2[i]).lamport,
        s2[i].id.peer,
        x[0].lamport,
        x[0].id.peer,
    ) by {
        assert(s2[i] == s[i]);
    }
    assert(s2[px] == s[px]);
    lemma_settle_is(s2, cx, px, x[0].lamport, x[0].id.peer);
    assert(placed(s1, py + n, y) =~= placed(s2, px, x));
}

/// Two insertions that meet, of which the second outranks the first: the
/// second comes to stand first, whichever is taken in first.
proof fn lemma_overlap(s: Seq<Atom>, cx: int, x: Seq<Atom>, cy: int, y: Seq<Atom>)
    requires
        0 <= cx <= s.len(),
        0 <= cy <= s.len(),
        is_block(x),
        is_block(y),
        cx <= landed(s, cy, y) <= landed(s, cx, x),
        outranks(y[0].lamport, y[0].id.peer, x[0].lamport, x[0].id.peer),
    ensures
        integrated(integrated(s, cx, x), shifted(cy, landed(s, cx, x), x.len() as int), y)
            == integrated(integrated(s, cy, y), shifted(cx, landed(s, cy, y), y.len() as int), x),
{
    let n = x.len() as int;
    let m = y.len() as int;
    let px = landed(s, cx, x);
    let py = landed(s, cy, y);
    lemma_settle_facts(s, cx, x[0].lamport, x[0].id.peer);
    lemma_settle_facts(s, cy, y[0].lamport, y[0].id.peer);
    let s1 = placed(s, px, x);
    let s2 = placed(s, py, y);
    assert forall|i: int| cy <= i < py implies outranks(
        (#[trigger] s1[i]).lamport,
        s1[i].id.peer,
        y[0].lamport,
        y[0].id.peer,
    ) by {
        assert(s1[i] == s[i]);
    }
    if py < px {
        assert(s1[py] == s[py]);
    } else {
        assert(s1[py] == x[0]);
    }
    lemma_settle_is(s1, cy, py, y[0].lamport, y[0].id.peer);
    assert forall|i: int| cx <= i < px + m implies outranks(
        (#[trigger] s2[i]).lamport,
        s2[i].id.peer,
        x[0].lamport,
        x[0].id.peer,
    ) by {
        if i < py {
            assert(s2[i] == s[i]);
        } else if i < py + m {
            assert(s2[i] == y[i - py]);
        } else {
            assert(s2[i] == s[i - m]);
        }
    }
    if px < s.len() {
        assert(s2[px + m] == s[px]);
    }
    lemma_settle_is(s2, cx, px + m, x[0].lamport, x[0].id.peer);
    assert(placed(s1, py, y) =~= placed(s2, px + m, x));
}

/// An insertion that outranks another comes to stand no later than the other
/// where it is made at or before the place where the other comes to stand.
proof fn lemma_first_lands_first(s: Seq<Atom>, cx: int, x: Seq<Atom>, cy: int, y: Seq<Atom>)
    requires
        0 <= cx <= s.len(),
        0 <= cy <= s.len(),
        is_block(x),
        is_block(y),
        cy <= landed(s, cx, x),
        outranks(y[0].lamport, y[0].id.peer, x[0].lamport, x[0].id.peer),
    ensures
        landed(s, cy, y) <= landed(s, cx, x),
{
    let px = landed(s, cx, x);
    let py = landed(s, cy, y);
    lemma_settle_facts(s, cx, x[0].lamport, x[0].id.peer);
    lemma_settle_facts(s, cy, y[0].lamport, y[0].id.peer);
    if py > px {
        assert(outranks(s[px].lamport, s[px].id.peer, y[0].lamport, y[0].id.peer));
    }
}

/// Two operations with different stamps that insert into the same atoms,
/// each knowing nothing of the other, come to stand the same way whichever
/// is taken in first. `cx` and `cy` are the places at which they were made:
/// right after the atom each was inserted after, which each is later than.
/// When the second is taken in, the place at which it was made is where it
/// was, or further on by the atoms of the first where those stand before it.
pub proof fn lemma_concurrent_inserts_commute(
    s: Seq<Atom>,
    cx: int,
    x: Seq<Atom>,
    cy: int,
    y: Seq<Atom>,
)
    requires
        0 <= cx <= s.len(),
        0 <= cy <= s.len(),
        is_block(x),
        is_block(y),
        x[0].lamport != y[0].lamport || x[0].id.peer != y[0].id.peer,
        follows_origin(s, cx, x),
        follows_origin(s, cy, y),
    ensures
        integrated(integrated(s, cx, x), shifted(cy, landed(s, cx, x), x.len() as int), y)
            == integrated(integrated(s, cy, y), shifted(cx, landed(s, cy, y), y.len() as int), x),
{
    let px = landed(s, cx, x);
    let py = landed(s, cy, y);
    lemma_settle_facts(s, cx, x[0].lamport, x[0].id.peer);
    lemma_settle_facts(s, cy, y[0].lamport, y[0].id.peer);
    if px < cy {
        lemma_apart(s, cx, x, cy, y);
    } else if py < cx {
        lemma_apart(s, cy, y, cx, x);
    } else if cx < cy {
        assert(outranks(s[cy - 1].lamport, s[cy - 1].id.peer, x[0].lamport, x[0].id.peer));
        lemma_first_lands_first(s, cx, x, cy, y);
        lemma_overlap(s, cx, x, cy, y);
    } else if cy < cx {
        assert(outranks(s[cx - 1].lamport, s[cx - 1].id.peer, y[0].lamport, y[0].id.peer));
        lemma_first_lands_first(s, cy, y, cx, x);
        lemma_overlap(s, cy, y, cx, x);
    } else if outranks(y[0].lamport, y[0].id.peer, x[0].lamport, x[0].id.peer) {
        lemma_first_lands_first(s, cx, x, cy, y);
        lemma_overlap(s, cx, x, cy, y);
    } else {
        lemma_first_lands_first(s, cy, y, cx, x);
        lemma_overlap(s, cy, y, cx, x);
    }
}

/// Deletions count the same in whatever order they came to be known.
pub proof fn lemma_deletions_commute(
    known: Seq<DelPair>,
    a: Seq<DelPair>,
    b: Seq<DelPair>,
    vv: &VersionVector,
    x: ID,
)
    ensures
        hits(known + a + b, vv, x) == hits(known + b + a, vv, x),
{
    lemma_hits_concat(known, a, vv, x);
    lemma_hits_concat(known + a, b, vv, x);
    lemma_hits_concat(known, b, vv, x);
    lemma_hits_concat(known + b, a, vv, x);
}

/// Whether none of the atoms is shown.
pub open spec fn unseen(x: Seq<Atom>) -> bool {
    forall|j: int| 0 <= j < x.len() ==> !(#[trigger] x[j]).visible()
}

/// What is shown from an atom on is what that atom shows and then what is
/// shown from the next on.
proof fn lemma_shown_from(s: Seq<Atom>, from: int)
    requires
        0 <= from < s.len(),
    ensures
        shown(s.subrange(from, s.len() as int)) == shown_one(s[from]) + shown(
            s.subrange(from + 1, s.len() as int),
        ),
{
    let rest = s.subrange(from + 1, s.len() as int);
    assert(s.subrange(from, s.len() as int) =~= seq![s[from]] + rest);
    lemma_shown_concat(seq![s[from]], rest);
    assert(shown(seq![s[from]]) =~= shown_one(s[from])) by {
        reveal_with_fuel(shown, 2);
        assert(seq![s[from]].drop_last() =~= Seq::<Atom>::empty());
    }
}

/// A cursor that sets out after atoms that were put in comes as much
/// further as there were atoms put in.
proof fn lemma_cursor_after(s: Seq<Atom>, p: int, x: Seq<Atom>, from: int, n: nat)
    requires
        0 <= p <= from <= s.len(),
    ensures
        cursor_from(placed(s, p, x), from + x.len(), n) == cursor_from(s, from, n) + x.len(),
    decreases s.len() - from,
{
    let s1 = placed(s, p, x);
    if from < s.len() {
        assert(s1[from + x.len()] == s[from]);
        if n > 0 {
            if s[from].visible() {
                lemma_cursor_after(s, p, x, from + 1, (n - 1) as nat);
            } else {
                lemma_cursor_after(s, p, x, from + 1, n);
            }
        }
    }
}

/// Atoms that are not shown do not move a cursor from the atom it stops
/// after: where they were put in before the place it comes to, it comes as
/// much further as there are of them; else it comes to where it came.
pub proof fn lemma_cursor_past_unseen(s: Seq<Atom>, p: int, x: Seq<Atom>, from: int, n: nat)
    requires
        0 <= from <= p <= s.len(),
        unseen(x),
        n <= shown(s.subrange(from, s.len() as int)).len(),
    ensures
        cursor_from(placed(s, p, x), from, n) == shifted(
            cursor_from(s, from, n),
            p,
            x.len() as int,
        ),
    decreases s.len() - from,
{
    let s1 = placed(s, p, x);
    let k = x.len() as int;
    if n == 0 {
        lemma_cursor_range(s, from, n);
        lemma_cursor_range(s1, from, n);
    } else {
        if from >= s.len() {
            assert(s.subrange(from, s.len() as int) =~= Seq::<Atom>::empty());
        }
        lemma_shown_from(s, from);
        if from < p {
            assert(s1[from] == s[from]);
            let next = if s[from].visible() {
                (n - 1) as nat
            } else {
                n
            };
            lemma_cursor_past_unseen(s, p, x, from + 1, next);
        } else {
            assert forall|i: int| p <= i < p + k implies (#[trigger] s1[i]).visible() == false by {
                assert(s1[i] == x[i - p]);
            }
            lemma_cursor_skip(s1, p, k, n, false);
            lemma_cursor_after(s, p, x, p, n);
            lemma_cursor_range(s, p + 1, (n - 1) as nat);
            lemma_cursor_range(s, p + 1, n);
        }
    }
}

/// Convergence of two insertions. Two operations of different peers are
/// made at the same version, at the places `posx` and `posy` of the text
/// that the version shows, and `s` holds what is known at that version and
/// beside it. A peer that takes in the one, goes back to the version and
/// takes in the other comes to hold the same atoms in the same order as a
/// peer that takes them in the other way round. Each operation is later
/// than the atom it was inserted after, and while the tracker stands at the
/// version, the atoms of neither are shown.
pub proof fn lemma_apply_order(s: Seq<Atom>, x: Seq<Atom>, posx: nat, y: Seq<Atom>, posy: nat)
    requires
        is_block(x),
        is_block(y),
        unseen(x),
        unseen(y),
        x[0].id.peer != y[0].id.peer,
        posx <= shown(s).len(),
        posy <= shown(s).len(),
        follows_origin(s, cursor_from(s, 0, posx), x),
        follows_origin(s, cursor_from(s, 0, posy), y),
    ensures
        ({
            let px = insert_place(s, x[0].lamport, x[0].id.peer, posx);
            let py = insert_place(s, y[0].lamport, y[0].id.peer, posy);
            let x_first = placed(s, px, x);
            let y_first = placed(s, py, y);
            placed(x_first, insert_place(x_first, y[0].lamport, y[0].id.peer, posy), y) == placed(
                y_first,
                insert_place(y_first, x[0].lamport, x[0].id.peer, posx),
                x,
            )
        }),
{
    let cx = cursor_from(s, 0, posx);
    let cy = cursor_from(s, 0, posy);
    lemma_cursor_range(s, 0, posx);
    lemma_cursor_range(s, 0, posy);
    let px = landed(s, cx, x);
    let py = landed(s, cy, y);
    crate::tracker_model::lemma_settle_range(s, cx, x[0].lamport, x[0].id.peer);
    crate::tracker_model::lemma_settle_range(s, cy, y[0].lamport, y[0].id.peer);
    assert(s.subrange(0, s.len() as int) =~= s);
    lemma_cursor_past_unseen(s, px, x, 0, posy);
    lemma_cursor_past_unseen(s, py, y, 0, posx);
    lemma_concurrent_inserts_commute(s, cx, x, cy, y);
}

/// Whether the place `i1` among atoms into which `n` atoms were put in
/// before place `p` is the place `i` among the atoms as they were.
pub open spec fn same_place(i: int, i1: int, p: int, n: int) -> bool {
    (i <= p && i1 == i) || (i >= p && i1 == i + n)
}

/// The deletions of the atoms of a range before the place where atoms were
/// put in are what they were.
proof fn lemma_strikes_before(s: Seq<Atom>, p: int, x: Seq<Atom>, lo: int, hi: int, op: ID)
    requires
        0 <= lo <= hi <= p <= s.len(),
    ensures
        strike_pairs(placed(s, p, x), lo, hi, op) == strike_pairs(s, lo, hi, op),
    decreases hi - lo,
{
    if hi > lo {
        lemma_strikes_before(s, p, x, lo, hi - 1, op);
        assert(placed(s, p, x)[hi - 1] == s[hi - 1]);
    }
}

/// The deletions of the atoms of a range after the place where atoms were
/// put in are what they were.
proof fn lemma_strikes_after(s: Seq<Atom>, p: int, x: Seq<Atom>, lo: int, hi: int, op: ID)
    requires
        0 <= p <= lo <= hi <= s.len(),
    ensures
        strike_pairs(placed(s, p, x), lo + x.len(), hi + x.len(), op) == strike_pairs(
            s,
            lo,
            hi,
            op,
        ),
    decreases hi - lo,
{
    if hi > lo {
        lemma_strikes_after(s, p, x, lo, hi - 1, op);
        assert(placed(s, p, x)[hi + x.len() - 1] == s[hi - 1]);
    }
}

/// Atoms that are not shown add no deletions at the end of a range.
proof fn lemma_strikes_unseen_tail(s: Seq<Atom>, lo: int, mid: int, hi: int, op: ID)
    requires
        0 <= lo <= mid <= hi <= s.len(),
        forall|i: int| mid <= i < hi ==> !(#[trigger] s[i]).visible(),
    ensures
        strike_pairs(s, lo, hi, op) == strike_pairs(s, lo, mid, op),
    decreases hi - mid,
{
    if hi > mid {
        lemma_strikes_unseen_tail(s, lo, mid, hi - 1, op);
    }
}

/// The deletions of the atoms of a range that holds the place where atoms
/// that are not shown were put in are what they were.
proof fn lemma_strikes_across(s: Seq<Atom>, p: int, x: Seq<Atom>, lo: int, hi: int, op: ID)
    requires
        0 <= lo <= p <= hi <= s.len(),
        unseen(x),
    ensures
        strike_pairs(placed(s, p, x), lo, hi + x.len(), op) == strike_pairs(s, lo, hi, op),
    decreases hi - p,
{
    let s1 = placed(s, p, x);
    if hi > p {
        lemma_strikes_across(s, p, x, lo, hi - 1, op);
        assert(s1[hi + x.len() - 1] == s[hi - 1]);
    } else {
        assert forall|i: int| p <= i < p + x.len() implies !(#[trigger] s1[i]).visible() by {
            assert(s1[i] == x[i - p]);
        }
        lemma_strikes_unseen_tail(s1, lo, p, p + x.len(), op);
        lemma_strikes_before(s, p, x, lo, p, op);
    }
}

/// Atoms that are not shown are not deleted: the deletions that an operation
/// makes of the shown atoms of a range are the same with such atoms put in.
proof fn lemma_strikes_past_unseen(
    s: Seq<Atom>,
    p: int,
    x: Seq<Atom>,
    lo: int,
    hi: int,
    lo1: int,
    hi1: int,
    op: ID,
)
    requires
        0 <= p <= s.len(),
        unseen(x),
        0 <= lo <= hi <= s.len(),
        same_place(lo, lo1, p, x.len() as int),
        same_place(hi, hi1, p, x.len() as int),
    ensures
        strike_pairs(placed(s, p, x), lo1, hi1, op) == strike_pairs(s, lo, hi, op),
{
    let k = x.len() as int;
    if lo1 == lo && lo <= p {
        if hi1 == hi && hi <= p {
            lemma_strikes_before(s, p, x, lo, hi, op);
        } else {
            lemma_strikes_across(s, p, x, lo, hi, op);
        }
    } else {
        if hi1 == hi + k && hi >= p {
            lemma_strikes_after(s, p, x, lo, hi, op);
        }
    }
}

/// Convergence of an insertion and a deletion. Both are made at the same
/// version; `s` holds what is known at that version and beside it, `x` the
/// atoms of the insertion, which the version does not show. The deletion of
/// `len` characters from place `start` on deletes the same atoms whether the
/// insertion has been taken in before it or not; and the insertion comes to
/// stand the same way either way, as a deletion moves no atom.
pub proof fn lemma_insert_delete_order(
    s: Seq<Atom>,
    x: Seq<Atom>,
    posx: nat,
    start: nat,
    len: nat,
    op: ID,
)
    requires
        unseen(x),
        start + len <= shown(s).len(),
    ensures
        ({
            let px = insert_place(s, x[0].lamport, x[0].id.peer, posx);
            let with_x = placed(s, px, x);
            let lo = cursor_from(s, 0, start);
            let hi = cursor_from(s, lo, len);
            let lo1 = cursor_from(with_x, 0, start);
            let hi1 = cursor_from(with_x, lo1, len);
            strike_pairs(with_x, lo1, hi1, op) == strike_pairs(s, lo, hi, op)
        }),
{
    let cx = cursor_from(s, 0, posx);
    lemma_cursor_range(s, 0, posx);
    let px = settle(s, cx, x[0].lamport, x[0].id.peer);
    crate::tracker_model::lemma_settle_range(s, cx, x[0].lamport, x[0].id.peer);
    let with_x = placed(s, px, x);
    let k = x.len() as int;
    let lo = cursor_from(s, 0, start);
    lemma_cursor_count(s, 0, start);
    let hi = cursor_from(s, lo, len);
    lemma_cursor_count(s, lo, len);
    assert(s.subrange(0, s.len() as int) =~= s);
    lemma_cursor_past_unseen(s, px, x, 0, start);
    let lo1 = cursor_from(with_x, 0, start);
    assert(s =~= s.subrange(0, lo) + s.subrange(lo, s.len() as int));
    lemma_shown_concat(s.subrange(0, lo), s.subrange(lo, s.len() as int));
    if lo <= px {
        lemma_cursor_past_unseen(s, px, x, lo, len);
    } else {
        lemma_cursor_after(s, px, x, lo, len);
    }
    let hi1 = cursor_from(with_x, lo1, len);
    lemma_strikes_past_unseen(s, px, x, lo, hi, lo1, hi1, op);
}

/// Whether one of the atoms has the identity `id`.
pub open spec fn has_id(s: Seq<Atom>, id: ID) -> bool {
    exists|i: int| 0 <= i < s.len() && (#[trigger] s[i]).id == id
}

/// Whether no two of the atoms have the same identity.
pub open spec fn distinct_ids(s: Seq<Atom>) -> bool {
    forall|i: int, j: int|
        0 <= i < j < s.len() ==> (#[trigger] s[i]).id != (#[trigger] s[j]).id
}

/// An insertion as it is known apart from any peer: the atom it was made
/// after, if any, and its atoms.
pub struct Insertion {
    pub after: Option<ID>,
    pub atoms: Seq<Atom>,
}

/// The place right after the atom that an insertion was made after: the
/// beginning, where it was made after none.
pub open spec fn place_after(s: Seq<Atom>, after: Option<ID>) -> int {
    match after {
        None => 0,
        Some(id) => (choose|i: int| 0 <= i < s.len() && (#[trigger] s[i]).id == id) + 1,
    }
}

/// The atoms once the insertion has been taken in.
pub open spec fn taken_in(s: Seq<Atom>, op: Insertion) -> Seq<Atom> {
    integrated(s, place_after(s, op.after), op.atoms)
}

/// The atoms once the insertions have been taken in, in order.
pub open spec fn all_taken_in(s: Seq<Atom>, ops: Seq<Insertion>) -> Seq<Atom>
    decreases ops.len(),
{
    if ops.len() == 0 {
        s
    } else {
        taken_in(all_taken_in(s, ops.drop_last()), ops.last())
    }
}

/// Whether the insertion can be taken in: its atoms are those of one
/// operation and are new, and the atom it was made after is there and is
/// not later than it.
pub open spec fn fits(s: Seq<Atom>, op: Insertion) -> bool {
    &&& is_block(op.atoms)
    &&& distinct_ids(op.atoms)
    &&& forall|j: int| 0 <= j < op.atoms.len() ==> !has_id(s, (#[trigger] op.atoms[j]).id)
    &&& op.after matches Some(id) ==> has_id(s, id)
    &&& follows_origin(s, place_after(s, op.after), op.atoms)
}

/// Whether the insertions can be taken in, in order.
pub open spec fn all_fit(s: Seq<Atom>, ops: Seq<Insertion>) -> bool
    decreases ops.len(),
{
    if ops.len() == 0 {
        true
    } else {
        all_fit(s, ops.drop_last()) && fits(all_taken_in(s, ops.drop_last()), ops.last())
    }
}

/// Whether the two insertions have different stamps.
pub open spec fn stamps_differ(a: Insertion, b: Insertion) -> bool {
    a.atoms[0].lamport != b.atoms[0].lamport || a.atoms[0].id.peer != b.atoms[0].id.peer
}

/// Whether `b` holds what `a` holds, in some order: the last of `a` is
/// somewhere in `b`, and without it `b` holds the others of `a` in some
/// order.
pub open spec fn is_reordering<T>(a: Seq<T>, b: Seq<T>) -> bool
    decreases a.len(),
{
    if a.len() == 0 {
        b.len() == 0
    } else {
        exists|k: int|
            0 <= k < b.len() && #[trigger] b[k] == a.last() && is_reordering(
                a.drop_last(),
                b.remove(k),
            )
    }
}

/// The place of an atom is where the atom is.
proof fn lemma_place_is(s: Seq<Atom>, id: ID, i: int)
    requires
        distinct_ids(s),
        0 <= i < s.len(),
        s[i].id == id,
    ensures
        place_after(s, Some(id)) == i + 1,
{
    let j = choose|j: int| 0 <= j < s.len() && (#[trigger] s[j]).id == id;
    if j < i {
        assert(s[j].id != s[i].id);
    } else if i < j {
        assert(s[i].id != s[j].id);
    }
}

/// What atoms there are once a block has been put in, and that they are
/// still all different if the block is new.
proof fn lemma_placed_ids(s: Seq<Atom>, p: int, x: Seq<Atom>)
    requires
        0 <= p <= s.len(),
    ensures
        forall|id: ID| #[trigger] has_id(placed(s, p, x), id) <==> has_id(s, id) || has_id(x, id),
        distinct_ids(s) && distinct_ids(x) && (forall|j: int|
            0 <= j < x.len() ==> !has_id(s, (#[trigger] x[j]).id)) ==> distinct_ids(
            placed(s, p, x),
        ),
{
    let s1 = placed(s, p, x);
    let n = x.len() as int;
    assert forall|id: ID| #[trigger] has_id(s1, id) <==> has_id(s, id) || has_id(x, id) by {
        if has_id(s, id) {
            let i = choose|i: int| 0 <= i < s.len() && (#[trigger] s[i]).id == id;
            let i1 = if i < p {
                i
            } else {
                i + n
            };
            assert(s1[i1] == s[i]);
        }
        if has_id(x, id) {
            let j = choose|j: int| 0 <= j < x.len() && (#[trigger] x[j]).id == id;
            assert(s1[p + j] == x[j]);
        }
        if has_id(s1, id) {
            let i = choose|i: int| 0 <= i < s1.len() && (#[trigger] s1[i]).id == id;
            if i < p {
                assert(s1[i] == s[i]);
            } else if i < p + n {
                assert(s1[i] == x[i - p]);
            } else {
                assert(s1[i] == s[i - n]);
            }
        }
    }
    if distinct_ids(s) && distinct_ids(x) && (forall|j: int|
        0 <= j < x.len() ==> !has_id(s, (#[trigger] x[j]).id)) {
        assert forall|i: int, j: int| 0 <= i < j < s1.len() implies (#[trigger] s1[i]).id != (
        #[trigger] s1[j]).id by {
            let from = |k: int| -> (bool, int)
                {
                    if k < p {
                        (true, k)
                    } else if k < p + n {
                        (false, k - p)
                    } else {
                        (true, k - n)
                    }
                };
            let (si, ii) = from(i);
            let (sj, ij) = from(j);
            if si {
                assert(s1[i] == s[ii]);
            } else {
                assert(s1[i] == x[ii]);
            }
            if sj {
                assert(s1[j] == s[ij]);
            } else {
                assert(s1[j] == x[ij]);
            }
            if si && sj {
                assert(s[ii].id != s[ij].id);
            } else if !si && !sj {
                assert(x[ii].id != x[ij].id);
            } else if si {
                assert(!has_id(s, x[ij].id));
            } else {
                assert(!has_id(s, x[ii].id));
            }
        }
    }
}

/// The place right after an atom moves with the atom when a block of other
/// atoms is put in.
proof fn lemma_place_shift(s: Seq<Atom>, p: int, x: Seq<Atom>, after: Option<ID>)
    requires
        0 <= p <= s.len(),
        distinct_ids(placed(s, p, x)),
        distinct_ids(s),
        after matches Some(id) ==> has_id(s, id),
    ensures
        place_after(placed(s, p, x), after) == shifted(place_after(s, after), p, x.len() as int),
{
    if let Some(id) = after {
        let s1 = placed(s, p, x);
        let i = choose|i: int| 0 <= i < s.len() && (#[trigger] s[i]).id == id;
        lemma_place_is(s, id, i);
        let i1 = if i < p {
            i
        } else {
            i + x.len()
        };
        assert(s1[i1] == s[i]);
        lemma_place_is(s1, id, i1);
    }
}

/// The atom before the place right after an atom is that atom.
proof fn lemma_place_holds(s: Seq<Atom>, after: Option<ID>)
    requires
        distinct_ids(s),
        after matches Some(id) ==> has_id(s, id),
    ensures
        0 <= place_after(s, after) <= s.len(),
        after matches Some(id) ==> place_after(s, after) > 0 && s[place_after(s, after) - 1].id
            == id,
        after is None ==> place_after(s, after) == 0,
{
    if let Some(id) = after {
        let i = choose|i: int| 0 <= i < s.len() && (#[trigger] s[i]).id == id;
        lemma_place_is(s, id, i);
    }
}

/// Whether the two blocks have no atom in common.
pub open spec fn apart(x: Seq<Atom>, y: Seq<Atom>) -> bool {
    forall|j: int| 0 <= j < y.len() ==> !has_id(x, (#[trigger] y[j]).id)
}

/// Blocks that have no atom in common have none in common the other way
/// round.
proof fn lemma_apart_symmetric(x: Seq<Atom>, y: Seq<Atom>)
    requires
        apart(x, y),
    ensures
        apart(y, x),
{
    assert forall|j: int| 0 <= j < x.len() implies !has_id(y, (#[trigger] x[j]).id) by {
        if has_id(y, x[j].id) {
            let i = choose|i: int| 0 <= i < y.len() && (#[trigger] y[i]).id == x[j].id;
            assert(has_id(x, y[i].id));
        }
    }
}

/// An insertion that fits still fits once another that fits, with other
/// atoms, has been taken in; and the place at which it was made has moved
/// with the atom it was made after.
proof fn lemma_fits_with(t: Seq<Atom>, a: Insertion, b: Insertion)
    requires
        distinct_ids(t),
        fits(t, a),
        fits(t, b),
        apart(a.atoms, b.atoms),
    ensures
        fits(taken_in(t, a), b),
        distinct_ids(taken_in(t, a)),
        place_after(taken_in(t, a), b.after) == shifted(
            place_after(t, b.after),
            landed(t, place_after(t, a.after), a.atoms),
            a.atoms.len() as int,
        ),
{
    let x = a.atoms;
    let cx = place_after(t, a.after);
    lemma_place_holds(t, a.after);
    lemma_place_holds(t, b.after);
    let px = landed(t, cx, x);
    lemma_settle_facts(t, cx, x[0].lamport, x[0].id.peer);
    let ta = placed(t, px, x);
    lemma_placed_ids(t, px, x);
    lemma_place_shift(t, px, x, b.after);
    lemma_place_holds(ta, b.after);
    let cy = place_after(t, b.after);
    let c1 = place_after(ta, b.after);
    if cy > 0 {
        assert(ta[c1 - 1] == t[cy - 1]);
    }
}

/// An insertion that fits once another has been taken in, and was not made
/// after an atom of that other, fits without it; and the two have no atom
/// in common.
proof fn lemma_fits_without(t: Seq<Atom>, a: Insertion, b: Insertion)
    requires
        distinct_ids(t),
        fits(t, a),
        fits(taken_in(t, a), b),
        b.after matches Some(id) ==> !has_id(a.atoms, id),
    ensures
        fits(t, b),
        apart(a.atoms, b.atoms),
{
    let x = a.atoms;
    let cx = place_after(t, a.after);
    lemma_place_holds(t, a.after);
    let px = landed(t, cx, x);
    lemma_settle_facts(t, cx, x[0].lamport, x[0].id.peer);
    let ta = placed(t, px, x);
    lemma_placed_ids(t, px, x);
    assert(b.after matches Some(id) ==> has_id(t, id));
    lemma_place_holds(t, b.after);
    lemma_place_shift(t, px, x, b.after);
    lemma_place_holds(ta, b.after);
    let cy = place_after(t, b.after);
    let c1 = place_after(ta, b.after);
    if cy > 0 {
        assert(ta[c1 - 1] == t[cy - 1]);
    }
    assert forall|j: int| 0 <= j < b.atoms.len() implies !has_id(t, (#[trigger] b.atoms[j]).id)
        && !has_id(x, b.atoms[j].id) by {
        assert(!has_id(ta, b.atoms[j].id));
    }
}

/// Two insertions of which the second was not made after an atom of the
/// first can be taken in the other way round, and come to stand the same
/// way.
proof fn lemma_swap(t: Seq<Atom>, a: Insertion, b: Insertion)
    requires
        distinct_ids(t),
        fits(t, a),
        fits(taken_in(t, a), b),
        stamps_differ(a, b),
        b.after matches Some(id) ==> !has_id(a.atoms, id),
    ensures
        fits(t, b),
        fits(taken_in(t, b), a),
        taken_in(taken_in(t, a), b) == taken_in(taken_in(t, b), a),
        distinct_ids(taken_in(t, a)),
        distinct_ids(taken_in(t, b)),
{
    lemma_fits_without(t, a, b);
    lemma_fits_with(t, a, b);
    lemma_apart_symmetric(a.atoms, b.atoms);
    lemma_fits_with(t, b, a);
    lemma_place_holds(t, a.after);
    lemma_place_holds(t, b.after);
    lemma_concurrent_inserts_commute(
        t,
        place_after(t, a.after),
        a.atoms,
        place_after(t, b.after),
        b.atoms,
    );
}

/// Insertions that were taken in leave the atoms all different; what was
/// there is still there, and so are the atoms of each insertion and the atom
/// each was made after.
proof fn lemma_taken_ids(s: Seq<Atom>, ops: Seq<Insertion>)
    requires
        distinct_ids(s),
        all_fit(s, ops),
    ensures
        distinct_ids(all_taken_in(s, ops)),
        forall|id: ID| has_id(s, id) ==> #[trigger] has_id(all_taken_in(s, ops), id),
        forall|i: int, id: ID|
            0 <= i < ops.len() && (#[trigger] ops[i]).after == Some(id) ==> #[trigger] has_id(
                all_taken_in(s, ops),
                id,
            ),
    decreases ops.len(),
{
    if ops.len() > 0 {
        let rest = ops.drop_last();
        let op = ops.last();
        let t = all_taken_in(s, rest);
        lemma_taken_ids(s, rest);
        lemma_place_holds(t, op.after);
        let c = place_after(t, op.after);
        lemma_settle_facts(t, c, op.atoms[0].lamport, op.atoms[0].id.peer);
        lemma_placed_ids(t, landed(t, c, op.atoms), op.atoms);
        assert forall|i: int, id: ID|
            0 <= i < ops.len() && (#[trigger] ops[i]).after == Some(id) implies #[trigger] has_id(
            all_taken_in(s, ops),
            id,
        ) by {
            if i < ops.len() - 1 {
                assert(rest[i] == ops[i]);
                assert(has_id(t, id));
            }
        }
    }
}

/// Whether the insertion is one of `a`.
pub open spec fn among(a: Seq<Insertion>, op: Insertion) -> bool {
    exists|i: int| 0 <= i < a.len() && #[trigger] a[i] == op
}

/// Insertions in another order are as many, and each of them is one of
/// those in the first order.
proof fn lemma_reordering_members(a: Seq<Insertion>, b: Seq<Insertion>)
    requires
        is_reordering(a, b),
    ensures
        a.len() == b.len(),
        forall|j: int| 0 <= j < b.len() ==> among(a, #[trigger] b[j]),
    decreases a.len(),
{
    if a.len() > 0 {
        let k = choose|k: int|
            0 <= k < b.len() && #[trigger] b[k] == a.last() && is_reordering(
                a.drop_last(),
                b.remove(k),
            );
        let a1 = a.drop_last();
        let b1 = b.remove(k);
        lemma_reordering_members(a1, b1);
        assert forall|j: int| 0 <= j < b.len() implies among(a, #[trigger] b[j]) by {
            if j == k {
                assert(a[a.len() - 1] == b[j]);
            } else {
                let j1 = if j < k {
                    j
                } else {
                    j - 1
                };
                assert(b1[j1] == b[j]);
                assert(among(a1, b1[j1]));
                let i = choose|i: int| 0 <= i < a1.len() && #[trigger] a1[i] == b1[j1];
                assert(a[i] == a1[i]);
            }
        }
    }
}

/// An insertion after which none was made after one of its atoms can be
/// taken in last instead: the others fit without it, it fits after them,
/// and the atoms come to stand the same way.
proof fn lemma_taken_last(s: Seq<Atom>, ops: Seq<Insertion>, k: int)
    requires
        distinct_ids(s),
        all_fit(s, ops),
        0 <= k < ops.len(),
        forall|j: int| k < j < ops.len() ==> stamps_differ(ops[k], #[trigger] ops[j]),
        forall|j: int, id: ID|
            k < j < ops.len() && (#[trigger] ops[j]).after == Some(id) ==> !#[trigger] has_id(
                ops[k].atoms,
                id,
            ),
    ensures
        all_fit(s, ops.remove(k)),
        fits(all_taken_in(s, ops.remove(k)), ops[k]),
        all_taken_in(s, ops) == taken_in(all_taken_in(s, ops.remove(k)), ops[k]),
    decreases ops.len(),
{
    let rest = ops.drop_last();
    if k == ops.len() - 1 {
        assert(ops.remove(k) =~= rest);
    } else {
        let a = ops[k];
        let b = ops.last();
        assert(rest[k] == a);
        assert forall|j: int| k < j < rest.len() implies stamps_differ(rest[k], #[trigger] rest[j]) by {
            assert(rest[j] == ops[j]);
        }
        assert forall|j: int, id: ID|
            k < j < rest.len() && (#[trigger] rest[j]).after == Some(id) implies !#[trigger] has_id(
            rest[k].atoms,
            id,
        ) by {
            assert(rest[j] == ops[j]);
        }
        lemma_taken_last(s, rest, k);
        let others = rest.remove(k);
        let t = all_taken_in(s, others);
        lemma_taken_ids(s, others);
        assert(ops[ops.len() - 1] == b);
        assert(b.after matches Some(id) ==> !has_id(a.atoms, id));
        lemma_swap(t, a, b);
        assert(ops.remove(k).drop_last() =~= others);
        assert(ops.remove(k).last() == b);
    }
}

/// Convergence of insertions. `a` and `b` hold the same insertions, no two
/// of them with the same stamp, in two orders in each of which every
/// insertion comes after the one that brought the atom it was made after.
/// A peer that takes them in in the one order comes to hold the same atoms
/// in the same order as a peer that takes them in in the other.
pub proof fn lemma_insertions_converge(s: Seq<Atom>, a: Seq<Insertion>, b: Seq<Insertion>)
    requires
        distinct_ids(s),
        all_fit(s, a),
        all_fit(s, b),
        is_reordering(a, b),
        forall|i: int, j: int| 0 <= i < j < b.len() ==> stamps_differ(#[trigger] b[i], #[trigger] b[j]),
    ensures
        all_taken_in(s, a) == all_taken_in(s, b),
    decreases a.len(),
{
    if a.len() > 0 {
        let k = choose|k: int|
            0 <= k < b.len() && #[trigger] b[k] == a.last() && is_reordering(
                a.drop_last(),
                b.remove(k),
            );
        let a1 = a.drop_last();
        let b1 = b.remove(k);
        let last = a.last();
        let t = all_taken_in(s, a1);
        lemma_taken_ids(s, a1);
        lemma_reordering_members(a1, b1);
        assert forall|j: int, id: ID|
            k < j < b.len() && (#[trigger] b[j]).after == Some(id) implies !#[trigger] has_id(
            b[k].atoms,
            id,
        ) by {
            assert(b1[j - 1] == b[j]);
            assert(among(a1, b1[j - 1]));
            let i = choose|i: int| 0 <= i < a1.len() && #[trigger] a1[i] == b1[j - 1];
            assert(a1[i].after == Some(id));
            assert(has_id(t, id));
            if has_id(last.atoms, id) {
                let m = choose|m: int| 0 <= m < last.atoms.len() && (#[trigger] last.atoms[m]).id == id;
                assert(!has_id(t, last.atoms[m].id));
            }
        }
        lemma_taken_last(s, b, k);
        assert forall|i: int, j: int| 0 <= i < j < b1.len() implies stamps_differ(
            #[trigger] b1[i],
            #[trigger] b1[j],
        ) by {
            let i0 = if i < k {
                i
            } else {
                i + 1
            };
            let j0 = if j < k {
                j
            } else {
                j + 1
            };
            assert(b1[i] == b[i0] && b1[j] == b[j0]);
        }
        lemma_insertions_converge(s, a1, b1);
    } else {
        assert(b.len() == 0);
    }
}

/// What the tracker does with an insertion at a place of the shown text is
/// to take in an insertion after the atom that its cursor stops after, or
/// after none where the cursor stays at the beginning.
pub proof fn lemma_insert_is_after(s: Seq<Atom>, x: Seq<Atom>, pos: nat)
    requires
        distinct_ids(s),
        x.len() > 0,
    ensures
        ({
            let c = cursor_from(s, 0, pos);
            let after = if c == 0 {
                None
            } else {
                Some(s[c - 1].id)
            };
            &&& 0 <= c <= s.len()
            &&& placed(s, insert_place(s, x[0].lamport, x[0].id.peer, pos), x) == taken_in(
                s,
                (Insertion { after, atoms: x }),
            )
        }),
{
    let c = cursor_from(s, 0, pos);
    lemma_cursor_range(s, 0, pos);
    if c > 0 {
        lemma_place_is(s, s[c - 1].id, c - 1);
    }
}

/// Atoms that are the same characters in the same order are as many, and
/// agree in everything but their fate.
proof fn lemma_items_agree(s1: Seq<Atom>, s2: Seq<Atom>)
    requires
        items_of(s1) == items_of(s2),
    ensures
        s1.len() == s2.len(),
        forall|i: int|
            0 <= i < s1.len() ==> (#[trigger] s1[i]).id == s2[i].id && s1[i].lamport
                == s2[i].lamport && s1[i].unit == s2[i].unit,
        forall|id: ID| has_id(s1, id) <==> has_id(s2, id),
        distinct_ids(s1) <==> distinct_ids(s2),
{
    assert(s1.len() == items_of(s1).len());
    assert(s2.len() == items_of(s2).len());
    assert forall|i: int| 0 <= i < s1.len() implies (#[trigger] s1[i]).id == s2[i].id
        && s1[i].lamport == s2[i].lamport && s1[i].unit == s2[i].unit by {
        assert(items_of(s1)[i] == item_at(s1, i));
        assert(items_of(s2)[i] == item_at(s2, i));
    }
    assert forall|id: ID| has_id(s1, id) <==> has_id(s2, id) by {
        if has_id(s1, id) {
            let i = choose|i: int| 0 <= i < s1.len() && (#[trigger] s1[i]).id == id;
            assert(s2[i].id == id);
        }
        if has_id(s2, id) {
            let i = choose|i: int| 0 <= i < s2.len() && (#[trigger] s2[i]).id == id;
            assert(s1[i].id == id);
        }
    }
    if distinct_ids(s1) {
        assert forall|i: int, j: int| 0 <= i < j < s2.len() implies (#[trigger] s2[i]).id != (
        #[trigger] s2[j]).id by {
            assert(s1[i].id != s1[j].id);
        }
    }
    if distinct_ids(s2) {
        assert forall|i: int, j: int| 0 <= i < j < s1.len() implies (#[trigger] s1[i]).id != (
        #[trigger] s1[j]).id by {
            assert(s2[i].id != s2[j].id);
        }
    }
}

/// Where an insertion comes to stand does not depend on the fates of the
/// atoms.
proof fn lemma_settle_blind(s1: Seq<Atom>, s2: Seq<Atom>, i: int, lamport: int, peer: PeerID)
    requires
        items_of(s1) == items_of(s2),
    ensures
        settle(s1, i, lamport, peer) == settle(s2, i, lamport, peer),
    decreases s1.len() - i,
{
    lemma_items_agree(s1, s2);
    if 0 <= i < s1.len() {
        if outranks(s1[i].lamport, s1[i].id.peer, lamport, peer) {
            lemma_settle_blind(s1, s2, i + 1, lamport, peer);
        }
    }
}

/// Taking in an insertion does not depend on the fates of the atoms: it
/// fits atoms that are the same characters in the same order, and leaves
/// them the same characters in the same order.
proof fn lemma_taken_in_blind(s1: Seq<Atom>, s2: Seq<Atom>, op: Insertion)
    requires
        items_of(s1) == items_of(s2),
        distinct_ids(s1),
        fits(s1, op),
    ensures
        fits(s2, op),
        items_of(taken_in(s1, op)) == items_of(taken_in(s2, op)),
{
    lemma_items_agree(s1, s2);
    lemma_place_holds(s1, op.after);
    let c = place_after(s1, op.after);
    if let Some(id) = op.after {
        assert(s2[c - 1].id == id);
        lemma_place_is(s2, id, c - 1);
    }
    let x = op.atoms;
    lemma_settle_blind(s1, s2, c, x[0].lamport, x[0].id.peer);
    lemma_settle_facts(s1, c, x[0].lamport, x[0].id.peer);
    let p = landed(s1, c, x);
    let t1 = placed(s1, p, x);
    let t2 = placed(s2, p, x);
    assert(items_of(t1) =~= items_of(t2)) by {
        assert(t1.len() == t2.len());
        assert forall|i: int| 0 <= i < t1.len() implies item_at(t1, i) == item_at(t2, i) by {
            if i < p {
                assert(t1[i] == s1[i] && t2[i] == s2[i]);
            } else if i < p + x.len() {
                assert(t1[i] == x[i - p] && t2[i] == x[i - p]);
            } else {
                assert(t1[i] == s1[i - x.len()] && t2[i] == s2[i - x.len()]);
            }
        }
    }
}

/// Whether a peer that holds the atoms `mid` can take in the insertion and
/// then holds, but for the fates, the atoms `t`.
pub open spec fn takes_in(mid: Seq<Atom>, op: Insertion, t: Seq<Atom>) -> bool {
    fits(mid, op) && items_of(t) == items_of(taken_in(mid, op))
}

/// Whether a peer that began with the atoms `s` can have come to hold the
/// atoms `t` by taking in the insertions in order, the fates of its atoms
/// changing in whatever way between one insertion and the next.
pub open spec fn reached(s: Seq<Atom>, ops: Seq<Insertion>, t: Seq<Atom>) -> bool
    decreases ops.len(),
{
    if ops.len() == 0 {
        items_of(t) == items_of(s)
    } else {
        exists|mid: Seq<Atom>|
            reached(s, ops.drop_last(), mid) && #[trigger] takes_in(mid, ops.last(), t)
    }
}

/// What a peer has come to hold is, but for the fates, what taking in the
/// insertions with no change of fate gives.
proof fn lemma_reached(s: Seq<Atom>, ops: Seq<Insertion>, t: Seq<Atom>)
    requires
        distinct_ids(s),
        reached(s, ops, t),
    ensures
        all_fit(s, ops),
        items_of(t) == items_of(all_taken_in(s, ops)),
    decreases ops.len(),
{
    if ops.len() > 0 {
        let rest = ops.drop_last();
        let mid = choose|mid: Seq<Atom>|
            reached(s, ops.drop_last(), mid) && #[trigger] takes_in(mid, ops.last(), t);
        lemma_reached(s, rest, mid);
        lemma_taken_ids(s, rest);
        lemma_items_agree(mid, all_taken_in(s, rest));
        lemma_taken_in_blind(mid, all_taken_in(s, rest), ops.last());
    }
}

/// Convergence of peers. Two peers begin with the same atoms and take in
/// the same insertions, no two of them with the same stamp, each in an
/// order in which every insertion comes after the one that brought the atom
/// it was made after. Whatever versions they move to in between, and
/// whatever deletions they take in, which change the fates of atoms only,
/// they come to hold the same characters in the same order.
pub proof fn lemma_peers_converge(
    s: Seq<Atom>,
    a: Seq<Insertion>,
    ta: Seq<Atom>,
    b: Seq<Insertion>,
    tb: Seq<Atom>,
)
    requires
        distinct_ids(s),
        reached(s, a, ta),
        reached(s, b, tb),
        is_reordering(a, b),
        forall|i: int, j: int| 0 <= i < j < b.len() ==> stamps_differ(#[trigger] b[i], #[trigger] b[j]),
    ensures
        items_of(ta) == items_of(tb),
{
    lemma_reached(s, a, ta);
    lemma_reached(s, b, tb);
    lemma_insertions_converge(s, a, b);
}

/// Deletions count the same in whatever order they are known.
proof fn lemma_hits_reordered(a: Seq<DelPair>, b: Seq<DelPair>, vv: &VersionVector, x: ID)
    requires
        is_reordering(a, b),
    ensures
        hits(a, vv, x) == hits(b, vv, x),
    decreases a.len(),
{
    if a.len() > 0 {
        let k = choose|k: int|
            0 <= k < b.len() && #[trigger] b[k] == a.last() && is_reordering(
                a.drop_last(),
                b.remove(k),
            );
        lemma_hits_reordered(a.drop_last(), b.remove(k), vv, x);
        let front = b.subrange(0, k);
        let back = b.subrange(k + 1, b.len() as int);
        assert(b =~= front.push(b[k]) + back);
        assert(b.remove(k) =~= front + back);
        assert(front.push(b[k]).drop_last() =~= front);
        lemma_hits_concat(front.push(b[k]), back, vv, x);
        lemma_hits_concat(front, back, vv, x);
    } else {
        assert(b.len() == 0);
    }
}

/// What a tracker shows is decided by what it knows and where it stands:
/// two trackers that hold the same characters in the same order, know the
/// same deletions, in whatever order they came to know them, and stand at
/// the same version show the same text.
pub proof fn lemma_same_knowledge_same_text(a: &Tracker, b: &Tracker)
    requires
        a.wf(),
        b.wf(),
        items_of(a.atoms()) == items_of(b.atoms()),
        is_reordering(a.pairs(), b.pairs()),
        a.current().same(&b.current()),
    ensures
        a.atoms() == b.atoms(),
        a.shown() == b.shown(),
{
    a.lemma_wf();
    b.lemma_wf();
    let x = a.atoms();
    let y = b.atoms();
    lemma_items_agree(x, y);
    assert forall|i: int| 0 <= i < x.len() implies x[i] == y[i] by {
        assert forall|j: int| 0 <= j < b.pairs().len() implies a.current().includes(
            (#[trigger] b.pairs()[j]).0,
        ) == b.current().includes(b.pairs()[j].0) by {}
        lemma_hits_reordered(a.pairs(), b.pairs(), &a.current(), x[i].id);
        lemma_hits_same(b.pairs(), &a.current(), &b.current(), x[i].id);
    }
    assert(x =~= y);
}

/// What a tracker changes in the text when it is moved forward is decided
/// by what it knows and where it stands: two trackers that hold the same
/// characters in the same order, know the same deletions in the same runs
/// and stand at the same version make, place by place, the same changes in
/// the same order, however each has its atoms cut into runs.
pub proof fn lemma_same_knowledge_same_changes(a: &Tracker, b: &Tracker, spans: Seq<IdSpan>)
    requires
        a.wf(),
        b.wf(),
        items_of(a.atoms()) == items_of(b.atoms()),
        a.strikes() == b.strikes(),
        a.pairs() == b.pairs(),
        a.current().same(&b.current()),
    ensures
        effect_list(a.atoms(), a.strikes(), &a.current(), spans) == effect_list(
            b.atoms(),
            b.strikes(),
            &b.current(),
            spans,
        ),
{
    crate::tracker::lemma_same_version_same_text(a, b);
    crate::tracker::lemma_iter_same_base(a.atoms(), a.strikes(), &a.current(), &b.current(), spans);
}

} // verus!
