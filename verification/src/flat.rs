//! Sequences that are held in pieces: what the pieces stand for when they
//! are laid end to end, and what cutting, replacing and removing pieces does
//! to it.

use vstd::prelude::*;

verus! {

/// The pieces laid end to end.
pub open spec fn flat<T>(parts: Seq<Seq<T>>) -> Seq<T>
    decreases parts.len(),
{
    if parts.len() == 0 {
        Seq::empty()
    } else {
        flat(parts.drop_last()) + parts.last()
    }
}

/// The number of elements in the first `k` pieces.
pub open spec fn flat_prefix<T>(parts: Seq<Seq<T>>, k: int) -> nat {
    flat(parts.subrange(0, k)).len()
}

pub proof fn lemma_flat_concat<T>(a: Seq<Seq<T>>, b: Seq<Seq<T>>)
    ensures
        flat(a + b) == flat(a) + flat(b),
    decreases b.len(),
{
    if b.len() == 0 {
        assert(a + b =~= a);
        assert(flat(a) + flat(b) =~= flat(a));
    } else {
        assert((a + b).drop_last() =~= a + b.drop_last());
        lemma_flat_concat(a, b.drop_last());
        assert(flat(a + b) =~= flat(a) + flat(b));
    }
}

pub proof fn lemma_flat_one<T>(part: Seq<T>)
    ensures
        flat(seq![part]) == part,
{
    reveal_with_fuel(flat, 2);
    assert(seq![part].drop_last() =~= Seq::<Seq<T>>::empty());
    assert(flat(seq![part]) =~= part);
}

/// The elements of the first `k + 1` pieces are those of the first `k` and
/// then those of piece `k`.
pub proof fn lemma_flat_step<T>(parts: Seq<Seq<T>>, k: int)
    requires
        0 <= k < parts.len(),
    ensures
        flat(parts.subrange(0, k + 1)) == flat(parts.subrange(0, k)) + parts[k],
        flat_prefix(parts, k + 1) == flat_prefix(parts, k) + parts[k].len(),
{
    let next = parts.subrange(0, k + 1);
    assert(next.drop_last() =~= parts.subrange(0, k));
    assert(next.last() == parts[k]);
}

/// What lies around piece `k`.
pub proof fn lemma_flat_around<T>(parts: Seq<Seq<T>>, k: int)
    requires
        0 <= k < parts.len(),
    ensures
        flat(parts) == flat(parts.subrange(0, k)) + parts[k] + flat(
            parts.subrange(k + 1, parts.len() as int),
        ),
        flat_prefix(parts, k) + parts[k].len() <= flat(parts).len(),
        forall|o: int|
            0 <= o < parts[k].len() ==> flat(parts)[flat_prefix(parts, k) + o] == #[trigger] parts[k][o],
{
    let head = parts.subrange(0, k);
    let tail = parts.subrange(k + 1, parts.len() as int);
    assert(parts =~= head + seq![parts[k]] + tail);
    lemma_flat_concat(head, seq![parts[k]]);
    lemma_flat_concat(head + seq![parts[k]], tail);
    lemma_flat_one(parts[k]);
}

/// The elements before and after a border between pieces are the beginning
/// and the rest of all elements.
pub proof fn lemma_flat_cut<T>(parts: Seq<Seq<T>>, k: int)
    requires
        0 <= k <= parts.len(),
    ensures
        flat_prefix(parts, k) <= flat(parts).len(),
        flat(parts.subrange(0, k)) == flat(parts).subrange(0, flat_prefix(parts, k) as int),
        flat(parts.subrange(k, parts.len() as int)) == flat(parts).subrange(
            flat_prefix(parts, k) as int,
            flat(parts).len() as int,
        ),
{
    let a = parts.subrange(0, k);
    let b = parts.subrange(k, parts.len() as int);
    assert(parts =~= a + b);
    lemma_flat_concat(a, b);
    let ea = flat(a);
    let eb = flat(b);
    assert((ea + eb).subrange(0, ea.len() as int) =~= ea);
    assert((ea + eb).subrange(ea.len() as int, (ea + eb).len() as int) =~= eb);
}

pub proof fn lemma_flat_monotone<T>(parts: Seq<Seq<T>>, j: int, k: int)
    requires
        0 <= j <= k <= parts.len(),
    ensures
        flat_prefix(parts, j) <= flat_prefix(parts, k),
        flat(parts.subrange(0, k)) == flat(parts.subrange(0, j)) + flat(parts.subrange(j, k)),
{
    assert(parts.subrange(0, k) =~= parts.subrange(0, j) + parts.subrange(j, k));
    lemma_flat_concat(parts.subrange(0, j), parts.subrange(j, k));
}

/// Putting pieces in place of piece `at` puts their elements in place of
/// its elements.
pub proof fn lemma_flat_replace<T>(
    before: Seq<Seq<T>>,
    after: Seq<Seq<T>>,
    at: int,
    with: Seq<Seq<T>>,
)
    requires
        0 <= at < before.len(),
        after == before.subrange(0, at) + with + before.subrange(at + 1, before.len() as int),
    ensures
        flat(after) == flat(before.subrange(0, at)) + flat(with) + flat(
            before.subrange(at + 1, before.len() as int),
        ),
        flat(with) == before[at] ==> flat(after) == flat(before),
        forall|j: int| 0 <= j <= at ==> #[trigger] flat_prefix(after, j) == flat_prefix(before, j),
        flat_prefix(after, at + with.len()) == flat_prefix(before, at) + flat(with).len(),
{
    let head = before.subrange(0, at);
    let tail = before.subrange(at + 1, before.len() as int);
    lemma_flat_around(before, at);
    lemma_flat_concat(head, with);
    lemma_flat_concat(head + with, tail);
    assert forall|j: int| 0 <= j <= at implies #[trigger] flat_prefix(after, j) == flat_prefix(
        before,
        j,
    ) by {
        assert(after.subrange(0, j) =~= before.subrange(0, j));
    }
    assert(after.subrange(0, at + with.len()) =~= head + with);
}

/// Putting a piece in before piece `at` puts its elements in before the
/// elements of that piece.
pub proof fn lemma_flat_insert<T>(before: Seq<Seq<T>>, at: int, part: Seq<T>)
    requires
        0 <= at <= before.len(),
    ensures
        flat(before.insert(at, part)) == flat(before).subrange(0, flat_prefix(before, at) as int)
            + part + flat(before).subrange(
            flat_prefix(before, at) as int,
            flat(before).len() as int,
        ),
{
    let head = before.subrange(0, at);
    let tail = before.subrange(at, before.len() as int);
    lemma_flat_cut(before, at);
    assert(before.insert(at, part) =~= head + seq![part] + tail);
    lemma_flat_concat(head, seq![part]);
    lemma_flat_concat(head + seq![part], tail);
    lemma_flat_one(part);
}

/// The piece in which element `j` lies, and the element's place in it.
pub open spec fn find_part<T>(parts: Seq<Seq<T>>, j: int) -> (int, int)
    decreases parts.len(),
{
    if parts.len() == 0 {
        (0, 0)
    } else if j >= flat(parts.drop_last()).len() {
        (parts.len() - 1, j - flat(parts.drop_last()).len())
    } else {
        find_part(parts.drop_last(), j)
    }
}

pub proof fn lemma_find_part<T>(parts: Seq<Seq<T>>, j: int)
    requires
        0 <= j < flat(parts).len(),
    ensures
        0 <= find_part(parts, j).0 < parts.len(),
        0 <= find_part(parts, j).1 < parts[find_part(parts, j).0].len(),
        flat_prefix(parts, find_part(parts, j).0) + find_part(parts, j).1 == j,
        flat(parts)[j] == parts[find_part(parts, j).0][find_part(parts, j).1],
    decreases parts.len(),
{
    let front = parts.drop_last();
    if j >= flat(front).len() {
        assert(parts.subrange(0, parts.len() - 1) =~= front);
    } else {
        lemma_find_part(front, j);
        let k = find_part(front, j).0;
        assert(parts.subrange(0, k) =~= front.subrange(0, k));
    }
}

} // verus!
