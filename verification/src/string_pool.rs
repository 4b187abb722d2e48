//! The pool of text of one plain-text container: an arena of all text the
//! container has ever been given, and for each character whether the
//! container still shows it.

use crate::byte_pool::POOL_LIMIT;
use crate::op::SliceRange;
use crate::str_arena::StrArena;
use crate::text_metrics::utf8_len;
use vstd::prelude::*;

verus! {

/// A run of characters that are all still shown, or all no longer.
#[derive(Clone, Copy, Debug, PartialEq, Eq, Structural)]
pub enum Alive {
    True(usize),
    False(usize),
}

impl Alive {
    pub open spec fn kind(&self) -> bool {
        self is True
    }

    pub open spec fn len(&self) -> nat {
        match self {
            Alive::True(n) => *n as nat,
            Alive::False(n) => *n as nat,
        }
    }

    pub fn atom_len(&self) -> (n: usize)
        ensures
            n == self.len(),
    {
        match self {
            Alive::True(n) => *n,
            Alive::False(n) => *n,
        }
    }
}

/// A run of `n` characters of the given kind.
pub open spec fn run_of(kind: bool, n: nat) -> Alive {
    if kind {
        Alive::True(n as usize)
    } else {
        Alive::False(n as usize)
    }
}

/// The marks as runs: each run is as long as it can be.
pub open spec fn runs_of(bits: Seq<bool>) -> Seq<Alive>
    decreases bits.len(),
{
    if bits.len() == 0 {
        Seq::empty()
    } else {
        let before = runs_of(bits.drop_last());
        if before.len() > 0 && before.last().kind() == bits.last() {
            before.drop_last().push(run_of(bits.last(), before.last().len() + 1))
        } else {
            before.push(run_of(bits.last(), 1))
        }
    }
}

/// The number of characters the runs cover.
pub open spec fn runs_len(runs: Seq<Alive>) -> nat
    decreases runs.len(),
{
    if runs.len() == 0 {
        0
    } else {
        runs_len(runs.drop_last()) + runs.last().len()
    }
}

/// The runs cover all marks, and no run is empty.
pub proof fn lemma_runs_cover(bits: Seq<bool>)
    requires
        bits.len() <= usize::MAX,
    ensures
        runs_len(runs_of(bits)) == bits.len(),
        forall|k: int| 0 <= k < runs_of(bits).len() ==> 0 < (#[trigger] runs_of(bits)[k]).len() <= bits.len(),
    decreases bits.len(),
{
    if bits.len() > 0 {
        lemma_runs_cover(bits.drop_last());
        let before = runs_of(bits.drop_last());
        if before.len() > 0 && before.last().kind() == bits.last() {
            let grown = run_of(bits.last(), before.last().len() + 1);
            assert(before.drop_last().push(grown).drop_last() =~= before.drop_last());
        } else {
            assert(before.push(run_of(bits.last(), 1)).drop_last() =~= before);
        }
    }
}

/// The number of marks that are set.
pub open spec fn count_true(bits: Seq<bool>) -> nat
    decreases bits.len(),
{
    if bits.len() == 0 {
        0
    } else {
        count_true(bits.drop_last()) + (if bits.last() {
            1nat
        } else {
            0nat
        })
    }
}

pub proof fn lemma_count_bound(bits: Seq<bool>)
    ensures
        count_true(bits) <= bits.len(),
    decreases bits.len(),
{
    if bits.len() > 0 {
        lemma_count_bound(bits.drop_last());
    }
}

pub proof fn lemma_count_concat(a: Seq<bool>, b: Seq<bool>)
    ensures
        count_true(a + b) == count_true(a) + count_true(b),
    decreases b.len(),
{
    if b.len() == 0 {
        assert(a + b =~= a);
    } else {
        assert((a + b).drop_last() =~= a + b.drop_last());
        lemma_count_concat(a, b.drop_last());
    }
}

/// Whether one of the ranges that are no placeholders holds place `i`.
pub open spec fn covered_by(ranges: Seq<SliceRange>, i: int) -> bool {
    exists|k: int|
        0 <= k < ranges.len() && !(#[trigger] ranges[k]).spec_is_unknown() && ranges[k].start <= i
            < ranges[k].end
}

/// As many marks as there are new characters, each saying that its
/// character is held to be shown.
pub open spec fn all_alive(n: nat) -> Seq<bool> {
    Seq::new(n, |i: int| true)
}

pub struct StringPool {
    data: StrArena,
    alive: Vec<bool>,
    alive_count: usize,
}

impl StringPool {
    /// All text the pool has been given, in the order in which it came.
    pub closed spec fn text(&self) -> Seq<char> {
        self.data.text()
    }

    /// For each character, whether it is held to be shown still.
    pub closed spec fn alive(&self) -> Seq<bool> {
        self.alive@
    }

    pub closed spec fn wf(&self) -> bool {
        &&& self.data.wf()
        &&& self.alive@.len() == self.data.text().len()
        &&& self.alive_count == count_true(self.alive@)
    }

    pub proof fn lemma_wf(&self)
        requires
            self.wf(),
        ensures
            self.alive().len() == self.text().len(),
            self.text().len() <= utf8_len(self.text()) <= POOL_LIMIT,
    {
        self.data.lemma_raw_is_encoding();
        crate::text_metrics::lemma_counts_of_encoding(self.text());
    }

    pub fn new() -> (pool: StringPool)
        ensures
            pool.wf(),
            pool.text() == Seq::<char>::empty(),
            pool.alive() == Seq::<bool>::empty(),
    {
        StringPool { data: StrArena::new(), alive: Vec::new(), alive_count: 0 }
    }

    /// The number of characters the pool holds.
    pub fn len(&self) -> (n: usize)
        requires
            self.wf(),
        ensures
            n == self.text().len(),
    {
        self.data.len_unicode()
    }

    /// The number of bytes the text of the pool takes.
    pub fn len_bytes(&self) -> (n: usize)
        requires
            self.wf(),
        ensures
            n == utf8_len(self.text()),
    {
        self.data.len_bytes()
    }

    /// Takes in `s` and returns the range it took. The new characters are
    /// held to be shown.
    pub fn alloc_str(&mut self, s: &str) -> (range: SliceRange)
        requires
            old(self).wf(),
            utf8_len(old(self).text()) + utf8_len(s@) <= POOL_LIMIT,
        ensures
            final(self).wf(),
            final(self).text() == old(self).text() + s@,
            final(self).alive() == old(self).alive() + all_alive(s@.len()),
            range.start == old(self).text().len(),
            range.end == final(self).text().len(),
            range.wf(),
            !range.spec_is_unknown(),
    {
        let start = self.data.len_unicode();
        let ghost marks = self.alive@;
        proof {
            self.lemma_wf();
        }
        self.data.intern(s);
        let end = self.data.len_unicode();
        let ghost data_after = self.data;
        proof {
            self.data.lemma_raw_is_encoding();
            crate::text_metrics::lemma_counts_of_encoding(self.data.text());
            lemma_count_bound(self.alive@);
            assert(marks + Seq::new(0nat, |j: int| true) =~= marks);
        }
        let mut i: usize = start;
        while i < end
            invariant
                start <= i <= end,
                end <= POOL_LIMIT,
                self.data == data_after,
                self.alive@ == marks + Seq::new((i - start) as nat, |j: int| true),
                self.alive_count == count_true(self.alive@),
                self.alive_count <= self.alive@.len(),
                marks.len() == start,
            decreases end - i,
        {
            let ghost before = self.alive@;
            self.alive.push(true);
            self.alive_count = self.alive_count + 1;
            proof {
                assert(self.alive@.drop_last() =~= before);
                assert(self.alive@ =~= marks + Seq::new((i + 1 - start) as nat, |j: int| true));
            }
            i = i + 1;
        }
        SliceRange { start: start as u32, end: end as u32 }
    }

    /// The text of the range.
    pub fn get_str(&self, range: &SliceRange) -> (s: String)
        requires
            self.wf(),
            range.start <= range.end <= self.text().len(),
        ensures
            s@ == self.text().subrange(range.start as int, range.end as int),
    {
        let mut s = String::new();
        s.append(self.data.slice_str_by_unicode(range.start as usize, range.end as usize));
        proof {
            assert(Seq::<char>::empty() + self.text().subrange(
                range.start as int,
                range.end as int,
            ) =~= self.text().subrange(range.start as int, range.end as int));
        }
        s
    }

    /// Whether it is time to find out anew which characters are shown: the
    /// pool holds more than twice as many characters to be shown as the
    /// container shows.
    pub fn should_update_aliveness(&self, current_state_len: usize) -> (r: bool)
        requires
            self.wf(),
        ensures
            r == (count_true(self.alive()) > 2 * current_state_len),
    {
        self.alive_count / 2 >= current_state_len && (self.alive_count / 2 > current_state_len
            || self.alive_count % 2 == 1)
    }

    /// Finds out anew which characters are shown: those that one of the
    /// ranges holds.
    pub fn update_aliveness(&mut self, ranges: &Vec<SliceRange>)
        requires
            old(self).wf(),
        ensures
            final(self).wf(),
            final(self).text() == old(self).text(),
            forall|i: int|
                0 <= i < final(self).alive().len() ==> #[trigger] final(self).alive()[i]
                    == covered_by(ranges@, i),
    {
        let n = self.alive.len();
        let mut marks: Vec<bool> = Vec::new();
        let mut i: usize = 0;
        while i < n
            invariant
                i <= n,
                marks@.len() == i,
                forall|j: int| 0 <= j < i ==> !#[trigger] marks@[j],
            decreases n - i,
        {
            marks.push(false);
            i = i + 1;
        }
        let mut k: usize = 0;
        proof {
            assert(ranges@.subrange(0, 0) =~= Seq::<SliceRange>::empty());
        }
        while k < ranges.len()
            invariant
                k <= ranges@.len(),
                marks@.len() == n,
                forall|j: int|
                    0 <= j < n ==> #[trigger] marks@[j] == covered_by(
                        ranges@.subrange(0, k as int),
                        j,
                    ),
            decreases ranges@.len() - k,
        {
            let r = ranges[k];
            let ghost done = ranges@.subrange(0, k as int);
            let ghost next = ranges@.subrange(0, k + 1);
            proof {
                assert forall|j: int| covered_by(next, j) == (covered_by(done, j) || (
                !r.spec_is_unknown() && r.start <= j < r.end)) by {
                    if covered_by(done, j) {
                        let w = choose|w: int|
                            0 <= w < done.len() && !(#[trigger] done[w]).spec_is_unknown()
                                && done[w].start <= j < done[w].end;
                        assert(next[w] == done[w]);
                    }
                    if !r.spec_is_unknown() && r.start <= j < r.end {
                        assert(next[k as int] == r);
                    }
                    if covered_by(next, j) {
                        let w = choose|w: int|
                            0 <= w < next.len() && !(#[trigger] next[w]).spec_is_unknown()
                                && next[w].start <= j < next[w].end;
                        if w < k {
                            assert(done[w] == next[w]);
                        }
                    }
                }
            }
            if !r.is_unknown() {
                let mut j: usize = r.start as usize;
                while j < r.end as usize && j < n
                    invariant
                        r.start <= j,
                        marks@.len() == n,
                        !r.spec_is_unknown(),
                        forall|x: int|
                            0 <= x < n ==> #[trigger] marks@[x] == (covered_by(done, x) || (
                            r.start <= x < j && x < r.end)),
                    decreases n - j,
                {
                    marks[j] = true;
                    j = j + 1;
                }
            }
            k = k + 1;
        }
        let mut count: usize = 0;
        let mut i: usize = 0;
        proof {
            assert(ranges@.subrange(0, k as int) =~= ranges@);
            assert(marks@.subrange(0, 0) =~= Seq::<bool>::empty());
        }
        while i < n
            invariant
                i <= n,
                marks@.len() == n,
                count == count_true(marks@.subrange(0, i as int)),
                count <= i,
            decreases n - i,
        {
            proof {
                assert(marks@.subrange(0, i + 1).drop_last() =~= marks@.subrange(0, i as int));
            }
            if marks[i] {
                count = count + 1;
            }
            i = i + 1;
        }
        proof {
            assert(marks@.subrange(0, i as int) =~= marks@);
        }
        self.alive = marks;
        self.alive_count = count;
    }

    /// The range as runs of characters that are shown and runs that are no
    /// longer, each run as long as it can be.
    pub fn get_aliveness(&self, range: &SliceRange) -> (runs: Vec<Alive>)
        requires
            self.wf(),
            range.start <= range.end <= self.text().len(),
        ensures
            runs@ == runs_of(self.alive().subrange(range.start as int, range.end as int)),
    {
        let mut runs: Vec<Alive> = Vec::new();
        let start = range.start as usize;
        let end = range.end as usize;
        let mut i: usize = start;
        proof {
            assert(self.alive@.subrange(start as int, start as int) =~= Seq::<bool>::empty());
        }
        while i < end
            invariant
                self.wf(),
                start <= i <= end <= self.alive@.len(),
                runs@ == runs_of(self.alive@.subrange(start as int, i as int)),
            decreases end - i,
        {
            let b = self.alive[i];
            let ghost bits = self.alive@.subrange(start as int, i + 1);
            proof {
                assert(bits.drop_last() =~= self.alive@.subrange(start as int, i as int));
                assert(bits.last() == b);
                lemma_runs_cover(bits.drop_last());
            }
            let n = runs.len();
            let same = n > 0 && match runs[n - 1] {
                Alive::True(_) => b,
                Alive::False(_) => !b,
            };
            if same {
                let last = runs.pop().unwrap();
                let grown = last.atom_len() + 1;
                if b {
                    runs.push(Alive::True(grown));
                } else {
                    runs.push(Alive::False(grown));
                }
            } else if b {
                runs.push(Alive::True(1));
            } else {
                runs.push(Alive::False(1));
            }
            i = i + 1;
        }
        runs
    }
}

} // verus!
