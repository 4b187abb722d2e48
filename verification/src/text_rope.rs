//! The rope that holds plain text: ranges of the string pool in document
//! order, addressed by character position.

use crate::flat::{
    flat, flat_prefix, lemma_flat_around, lemma_flat_concat, lemma_flat_cut, lemma_flat_insert,
    lemma_flat_monotone, lemma_flat_one, lemma_flat_replace, lemma_flat_step,
};
use crate::op::SliceRange;
use vstd::prelude::*;

verus! {

/// The largest number of characters a rope holds.
pub const TEXT_LIMIT: usize = 0x7fff_ffff;

/// What stands at place `i` of a range: the place of a character in the
/// pool, or nothing where the range is a placeholder for content that is
/// gone.
pub open spec fn unit_at(r: SliceRange, i: int) -> Option<u32> {
    if r.spec_is_unknown() {
        None
    } else {
        Some((r.start + i) as u32)
    }
}

/// What a range stands for, place by place.
pub open spec fn slice_units(r: SliceRange) -> Seq<Option<u32>> {
    Seq::new(r.len(), |i: int| unit_at(r, i))
}

pub open spec fn leaf_units(leaves: Seq<SliceRange>, i: int) -> Seq<Option<u32>> {
    slice_units(leaves[i])
}

/// The ranges, each as what it stands for.
pub open spec fn leaves_parts(leaves: Seq<SliceRange>) -> Seq<Seq<Option<u32>>> {
    Seq::new(leaves.len(), |i: int| leaf_units(leaves, i))
}

/// What ranges laid end to end stand for.
pub open spec fn units_of(leaves: Seq<SliceRange>) -> Seq<Option<u32>> {
    flat(leaves_parts(leaves))
}

/// A range stands for as many places as it is long.
pub proof fn lemma_units_len(r: SliceRange)
    ensures
        slice_units(r).len() == r.len(),
{
}

/// A range cut in two stands for the same.
pub proof fn lemma_slice_split(r: SliceRange, l: SliceRange, rest: SliceRange, at: int)
    requires
        r.wf(),
        0 <= at <= r.len(),
        l.spec_is_unknown() == r.spec_is_unknown(),
        rest.spec_is_unknown() == r.spec_is_unknown(),
        l.len() == at,
        rest.len() == r.len() - at,
        !r.spec_is_unknown() ==> l.start == r.start && rest.start == r.start + at,
    ensures
        slice_units(r) == slice_units(l) + slice_units(rest),
{
    assert(slice_units(r) =~= slice_units(l) + slice_units(rest));
}

pub struct TextRope {
    leaves: Vec<SliceRange>,
    len: usize,
}

impl TextRope {
    /// The ranges, in document order.
    pub closed spec fn leaves(&self) -> Seq<SliceRange> {
        self.leaves@
    }

    /// What the rope stands for, character by character.
    pub closed spec fn units(&self) -> Seq<Option<u32>> {
        units_of(self.leaves@)
    }

    pub closed spec fn wf(&self) -> bool {
        &&& forall|i: int| 0 <= i < self.leaves@.len() ==> (#[trigger] self.leaves@[i]).wf()
        &&& self.len == self.units().len()
        &&& self.len <= TEXT_LIMIT
    }

    pub proof fn lemma_wf(&self)
        requires
            self.wf(),
        ensures
            self.units() == units_of(self.leaves()),
            self.units().len() <= TEXT_LIMIT,
            forall|i: int| 0 <= i < self.leaves().len() ==> (#[trigger] self.leaves()[i]).wf(),
    {
    }

    pub fn new() -> (rope: TextRope)
        ensures
            rope.wf(),
            rope.units() == Seq::<Option<u32>>::empty(),
            rope.leaves() == Seq::<SliceRange>::empty(),
    {
        let rope = TextRope { leaves: Vec::new(), len: 0 };
        proof {
            assert(leaves_parts(rope.leaves@) =~= Seq::<Seq<Option<u32>>>::empty());
        }
        rope
    }

    /// The number of characters.
    pub fn len(&self) -> (n: usize)
        requires
            self.wf(),
        ensures
            n == self.units().len(),
    {
        self.len
    }

    /// The ranges, in document order.
    pub fn iter(&self) -> (leaves: &Vec<SliceRange>)
        requires
            self.wf(),
        ensures
            leaves@ == self.leaves(),
            units_of(leaves@) == self.units(),
            forall|i: int| 0 <= i < leaves@.len() ==> (#[trigger] leaves@[i]).wf(),
    {
        &self.leaves
    }

    /// The range in which character `index` lies, and the character's place
    /// in it; or the number of ranges and zero, for the position after the
    /// last character.
    fn locate(&self, index: usize) -> (r: (usize, usize))
        requires
            self.wf(),
            index <= self.units().len(),
        ensures
            r.0 <= self.leaves@.len(),
            flat_prefix(leaves_parts(self.leaves@), r.0 as int) + r.1 == index,
            r.0 < self.leaves@.len() ==> r.1 < self.leaves@[r.0 as int].len(),
            r.0 == self.leaves@.len() ==> r.1 == 0,
    {
        let ghost parts = leaves_parts(self.leaves@);
        let mut k: usize = 0;
        let mut before: usize = 0;
        proof {
            assert(parts.subrange(0, 0) =~= Seq::<Seq<Option<u32>>>::empty());
        }
        while k < self.leaves.len()
            invariant
                self.wf(),
                parts == leaves_parts(self.leaves@),
                index <= self.units().len(),
                k <= self.leaves@.len(),
                before == flat_prefix(parts, k as int),
                before <= index,
            decreases self.leaves@.len() - k,
        {
            proof {
                lemma_flat_step(parts, k as int);
                lemma_flat_monotone(parts, k + 1, parts.len() as int);
                assert(parts.subrange(0, parts.len() as int) =~= parts);
            }
            let len = self.leaves[k].atom_len();
            if index < before + len {
                return (k, index - before);
            }
            before = before + len;
            k = k + 1;
        }
        proof {
            assert(parts.subrange(0, k as int) =~= parts);
        }
        (k, 0)
    }

    /// Makes character `index` the first of a range, cutting a range in two
    /// where it lies inside one, and returns the position of that range.
    #[verifier::rlimit(40)]
    fn ensure_border(&mut self, index: usize) -> (k: usize)
        requires
            old(self).wf(),
            index <= old(self).units().len(),
        ensures
            final(self).wf(),
            final(self).units() == old(self).units(),
            k <= final(self).leaves@.len(),
            flat_prefix(leaves_parts(final(self).leaves@), k as int) == index,
            forall|j: int|
                0 <= j <= old(self).leaves@.len() && #[trigger] flat_prefix(
                    leaves_parts(old(self).leaves@),
                    j,
                ) <= index ==> j <= k && flat_prefix(leaves_parts(final(self).leaves@), j)
                    == flat_prefix(leaves_parts(old(self).leaves@), j),
    {
        let (at, offset) = self.locate(index);
        let ghost before = leaves_parts(self.leaves@);
        if offset == 0 {
            proof {
                assert forall|j: int|
                    0 <= j <= before.len() && #[trigger] flat_prefix(before, j) <= index implies j
                    <= at by {
                    if j > at {
                        lemma_flat_step(before, at as int);
                        lemma_flat_monotone(before, at + 1, j);
                    }
                }
            }
            return at;
        }
        assert(at < self.leaves@.len());
        let leaf = self.leaves.remove(at);
        let total = leaf.atom_len();
        let left = leaf.slice(0, offset);
        let right = leaf.slice(offset, total);
        self.leaves.insert(at, right);
        self.leaves.insert(at, left);
        let count = self.leaves.len();
        assert(at + 1 < count);
        proof {
            let after = leaves_parts(self.leaves@);
            let with = seq![slice_units(left), slice_units(right)];
            assert(after =~= before.subrange(0, at as int) + with + before.subrange(
                at + 1,
                before.len() as int,
            ));
            lemma_slice_split(leaf, left, right, offset as int);
            reveal_with_fuel(flat, 3);
            assert(with.drop_last() =~= seq![slice_units(left)]);
            assert(with.drop_last().drop_last() =~= Seq::<Seq<Option<u32>>>::empty());
            assert(flat(with) =~= slice_units(left) + slice_units(right));
            lemma_flat_replace(before, after, at as int, with);
            assert(after.subrange(0, at + 1) =~= before.subrange(0, at as int) + seq![
                slice_units(left),
            ]);
            lemma_flat_concat(before.subrange(0, at as int), seq![slice_units(left)]);
            lemma_flat_one(slice_units(left));
            assert forall|j: int|
                0 <= j <= before.len() && #[trigger] flat_prefix(before, j) <= index implies j
                <= at + 1 && flat_prefix(after, j) == flat_prefix(before, j) by {
                if j > at {
                    lemma_flat_step(before, at as int);
                    lemma_flat_monotone(before, at + 1, j);
                }
            }
        }
        at + 1
    }

    /// Puts the range in so that its first character becomes character
    /// `pos`. An empty range changes nothing.
    pub fn insert(&mut self, pos: usize, slice: SliceRange)
        requires
            old(self).wf(),
            slice.wf(),
            pos <= old(self).units().len(),
            old(self).units().len() + slice.len() <= TEXT_LIMIT,
        ensures
            final(self).wf(),
            final(self).units() == old(self).units().subrange(0, pos as int) + slice_units(slice)
                + old(self).units().subrange(pos as int, old(self).units().len() as int),
    {
        let ghost us = self.units();
        if slice.atom_len() == 0 {
            proof {
                assert(us.subrange(0, pos as int) + slice_units(slice) + us.subrange(
                    pos as int,
                    us.len() as int,
                ) =~= us);
            }
            return ;
        }
        let at = self.ensure_border(pos);
        let ghost mid = leaves_parts(self.leaves@);
        self.leaves.insert(at, slice);
        self.len = self.len + slice.atom_len();
        proof {
            assert(leaves_parts(self.leaves@) =~= mid.insert(at as int, slice_units(slice)));
            lemma_flat_insert(mid, at as int, slice_units(slice));
        }
    }

    /// Removes the characters from `start` up to `end`. Without `start` the
    /// removal begins at the first character, without `end` it goes on to
    /// the last.
    pub fn delete_range(&mut self, start: Option<usize>, end: Option<usize>)
        requires
            old(self).wf(),
            (match start {
                Some(s) => s,
                None => 0,
            }) <= (match end {
                Some(e) => e as int,
                None => old(self).units().len() as int,
            }) <= old(self).units().len(),
        ensures
            final(self).wf(),
            final(self).units() == old(self).units().subrange(
                0,
                (match start {
                    Some(s) => s as int,
                    None => 0,
                }),
            ) + old(self).units().subrange(
                (match end {
                    Some(e) => e as int,
                    None => old(self).units().len() as int,
                }),
                old(self).units().len() as int,
            ),
    {
        let ghost us = self.units();
        let from = match start {
            Some(s) => s,
            None => 0,
        };
        let to = match end {
            Some(e) => e,
            None => self.len,
        };
        if from == to {
            proof {
                assert(us.subrange(0, from as int) + us.subrange(to as int, us.len() as int)
                    =~= us);
            }
            return ;
        }
        let a = self.ensure_border(from);
        let ghost mid = leaves_parts(self.leaves@);
        let b = self.ensure_border(to);
        let ghost cut = leaves_parts(self.leaves@);
        proof {
            assert(flat_prefix(mid, a as int) <= to);
            assert(a <= b);
            lemma_flat_cut(cut, a as int);
            lemma_flat_cut(cut, b as int);
        }
        let mut tail = self.leaves.split_off(b);
        let _ = self.leaves.split_off(a);
        self.leaves.append(&mut tail);
        self.len = self.len - (to - from);
        proof {
            assert(leaves_parts(self.leaves@) =~= cut.subrange(0, a as int) + cut.subrange(
                b as int,
                cut.len() as int,
            ));
            lemma_flat_concat(cut.subrange(0, a as int), cut.subrange(b as int, cut.len() as int));
        }
    }
}

} // verus!
