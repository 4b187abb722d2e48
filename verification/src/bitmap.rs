//! A growable sequence of bits, packed eight to a byte, the first bit of a
//! byte being its least significant one.

use vstd::prelude::*;

verus! {

/// Whether bit `j` of `v` is set, counting from the least significant bit.
pub open spec fn byte_bit(v: u8, j: u8) -> bool {
    v & (1u8 << j) != 0
}

/// Whether bit `i` of the packed bytes is set.
pub open spec fn bit_at(bytes: Seq<u8>, i: int) -> bool {
    byte_bit(bytes[i / 8], (i % 8) as u8)
}

/// The first `n` bits of the packed bytes.
pub open spec fn unpacked(bytes: Seq<u8>, n: nat) -> Seq<bool> {
    Seq::new(n, |i: int| bit_at(bytes, i))
}

proof fn lemma_set_bit(v: u8, j: u8, k: u8)
    requires
        j < 8,
        k < 8,
    ensures
        byte_bit(v | (1u8 << j), k) == (k == j || byte_bit(v, k)),
        !byte_bit(0u8, k),
{
    assert(j < 8 && k < 8 ==> (((v | (1u8 << j)) & (1u8 << k) != 0) == (k == j || (v & (1u8 << k)
        != 0)))) by (bit_vector);
    assert(k < 8 ==> (0u8 & (1u8 << k)) == 0) by (bit_vector);
}

pub struct BitMap {
    vec: Vec<u8>,
    len: usize,
}

impl BitMap {
    /// The bits, in the order in which they were pushed.
    pub closed spec fn bits(&self) -> Seq<bool> {
        unpacked(self.vec@, self.len as nat)
    }

    /// The bytes hold the bits and nothing else: there are just as many
    /// bytes as the bits need, and what is left of the last byte is zero.
    pub closed spec fn wf(&self) -> bool {
        &&& self.vec@.len() == (self.len + 7) / 8
        &&& self.len + 8 <= usize::MAX
        &&& forall|i: int| self.len <= i < self.vec@.len() * 8 ==> !#[trigger] bit_at(self.vec@, i)
    }

    pub fn new() -> (b: BitMap)
        ensures
            b.wf(),
            b.bits() == Seq::<bool>::empty(),
    {
        let b = BitMap { vec: Vec::new(), len: 0 };
        proof {
            assert(b.bits() =~= Seq::<bool>::empty());
        }
        b
    }

    /// The bitmap of the `len` first bits of `vec`. The bytes must be just
    /// as many as the bits need, and what is left of the last byte zero.
    pub fn from_vec(vec: Vec<u8>, len: usize) -> (b: BitMap)
        requires
            vec@.len() == (len + 7) / 8,
            len + 8 <= usize::MAX,
            forall|i: int| len <= i < vec@.len() * 8 ==> !#[trigger] bit_at(vec@, i),
        ensures
            b.wf(),
            b.bits() == unpacked(vec@, len as nat),
    {
        BitMap { vec, len }
    }

    /// The packed bytes.
    pub fn into_vec(self) -> (bytes: Vec<u8>)
        requires
            self.wf(),
        ensures
            bytes@.len() == (self.bits().len() + 7) / 8,
            unpacked(bytes@, self.bits().len()) == self.bits(),
            forall|i: int| self.bits().len() <= i < bytes@.len() * 8 ==> !#[trigger] bit_at(bytes@, i),
    {
        self.vec
    }

    pub fn len(&self) -> (n: usize)
        ensures
            n == self.bits().len(),
    {
        self.len
    }

    /// Appends a bit.
    pub fn push(&mut self, v: bool)
        requires
            old(self).wf(),
            old(self).bits().len() + 9 <= usize::MAX,
        ensures
            final(self).wf(),
            final(self).bits() == old(self).bits().push(v),
    {
        let ghost before = self.vec@;
        let ghost n = self.len as int;
        if self.len / 8 >= self.vec.len() {
            self.vec.push(0);
        }
        let at = self.len / 8;
        let j: u8 = (self.len % 8) as u8;
        if v {
            let last = self.vec.pop().unwrap();
            self.vec.push(last | (1u8 << j));
        }
        self.len = self.len + 1;
        proof {
            let after = self.vec@;
            assert forall|i: int| 0 <= i < after.len() * 8 implies #[trigger] bit_at(after, i) == (
            if i < n {
                bit_at(before, i)
            } else {
                i == n && v
            }) by {
                let k = (i % 8) as u8;
                if i / 8 == at {
                    let old_byte: u8 = if at < before.len() {
                        before[at as int]
                    } else {
                        0u8
                    };
                    lemma_set_bit(old_byte, j, k);
                    if at < before.len() && i >= n {
                        assert(!bit_at(before, i));
                    }
                } else {
                    assert(after[i / 8] == before[i / 8]);
                }
            }
            assert(self.bits() =~= unpacked(before, n as nat).push(v));
        }
    }

    /// The bit at place `index`.
    pub fn get(&self, index: usize) -> (v: bool)
        requires
            self.wf(),
            index < self.bits().len(),
        ensures
            v == self.bits()[index as int],
    {
        let j: u8 = (index % 8) as u8;
        (self.vec[index / 8] & (1u8 << j)) != 0
    }
}

} // verus!
