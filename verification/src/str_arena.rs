//! The string arena: every piece of text the document has ever held, appended
//! once and never moved, addressed by character position.

use crate::byte_pool::{pool_bytes, pool_slice, pool_text, slice_bytes, slice_offset, POOL_LIMIT};
use crate::text_metrics::{
    is_lead, lead_count, lemma_continuations_follow_wide, lemma_counts_of_decoding,
    lemma_counts_of_encoding, lemma_encode_concat, lemma_lead_count_concat, lemma_split_at_boundary,
    lemma_utf16_len_concat, measure, seek_char, utf16_len, utf8_len,
};
use append_only_bytes::AppendOnlyBytes;
use append_only_bytes::BytesSlice;
use vstd::pervasive::unreached;
use vstd::prelude::*;
use vstd::string::StringSliceAdditionalSpecFns;
use vstd::utf8::*;

verus! {

/// A place in the arena where an allocation began: its byte offset and the
/// number of characters before it.
pub struct Mark {
    pub bytes: usize,
    pub unicode: usize,
}

/// The three lengths the arena keeps side by side.
pub struct Index {
    pub bytes: usize,
    pub utf16: usize,
    pub unicode: usize,
}

pub struct StrArena {
    bytes: AppendOnlyBytes,
    marks: Vec<Mark>,
    len: Index,
}

/// The number of bytes before character `pos` of `text`.
pub open spec fn byte_offset_of(text: Seq<char>, pos: int) -> nat {
    utf8_len(text.subrange(0, pos))
}

impl StrArena {
    /// The raw bytes held.
    pub closed spec fn raw(&self) -> Seq<u8> {
        pool_bytes(self.bytes)
    }

    /// The text held: all allocations, one after another.
    pub closed spec fn text(&self) -> Seq<char> {
        decode_utf8(pool_bytes(self.bytes))
    }

    pub closed spec fn mark_ok(&self, m: Mark) -> bool {
        let raw = pool_bytes(self.bytes);
        &&& m.bytes < raw.len()
        &&& is_lead(raw[m.bytes as int])
        &&& m.unicode == lead_count(raw.subrange(0, m.bytes as int))
    }

    pub closed spec fn wf(&self) -> bool {
        let raw = pool_bytes(self.bytes);
        &&& valid_utf8(raw)
        &&& raw.len() <= POOL_LIMIT
        &&& self.len.bytes == raw.len()
        &&& self.len.unicode == self.text().len()
        &&& self.len.utf16 == utf16_len(self.text())
        &&& forall|k: int| 0 <= k < self.marks@.len() ==> self.mark_ok(#[trigger] self.marks@[k])
        &&& forall|j: int, k: int|
            0 <= j <= k < self.marks@.len() ==> (#[trigger] self.marks@[j]).unicode <= (
            #[trigger] self.marks@[k]).unicode
    }

    /// The raw bytes are the encoding of the text, and nothing else.
    pub proof fn lemma_raw_is_encoding(&self)
        requires
            self.wf(),
        ensures
            self.raw() == encode_utf8(self.text()),
            self.raw().len() <= POOL_LIMIT,
            self.text().len() <= utf16_len(self.text()) <= self.raw().len(),
    {
        decode_utf8_encode_utf8(pool_bytes(self.bytes));
        lemma_counts_of_decoding(pool_bytes(self.bytes));
        lemma_continuations_follow_wide(pool_bytes(self.bytes));
    }

    pub fn new() -> (arena: StrArena)
        ensures
            arena.wf(),
            arena.text() == Seq::<char>::empty(),
    {
        let arena = StrArena {
            bytes: AppendOnlyBytes::new(),
            marks: Vec::new(),
            len: Index { bytes: 0, utf16: 0, unicode: 0 },
        };
        proof {
            assert(decode_utf8(Seq::<u8>::empty()) =~= Seq::<char>::empty());
        }
        arena
    }

    pub fn is_empty(&self) -> (r: bool)
        requires
            self.wf(),
        ensures
            r == (self.text().len() == 0),
    {
        proof {
            self.lemma_raw_is_encoding();
            lemma_counts_of_encoding(self.text());
        }
        self.len.bytes == 0
    }

    pub fn len_bytes(&self) -> (n: usize)
        requires
            self.wf(),
        ensures
            n == utf8_len(self.text()),
            n <= POOL_LIMIT,
    {
        proof {
            self.lemma_raw_is_encoding();
        }
        self.len.bytes
    }

    pub fn len_unicode(&self) -> (n: usize)
        requires
            self.wf(),
        ensures
            n == self.text().len(),
            n <= POOL_LIMIT,
    {
        proof {
            self.lemma_raw_is_encoding();
        }
        self.len.unicode
    }

    pub fn len_utf16(&self) -> (n: usize)
        requires
            self.wf(),
        ensures
            n == utf16_len(self.text()),
            n <= POOL_LIMIT,
    {
        proof {
            self.lemma_raw_is_encoding();
        }
        self.len.utf16
    }

    /// Appends `input`. Nothing that was in the arena before moves.
    pub fn intern(&mut self, input: &str)
        requires
            old(self).wf(),
            utf8_len(old(self).text()) + utf8_len(input@) <= POOL_LIMIT,
        ensures
            final(self).wf(),
            final(self).text() == old(self).text() + input@,
    {
        proof {
            self.lemma_raw_is_encoding();
        }
        if input.is_empty() {
            proof {
                assert(self.text() + input@ =~= self.text());
            }
            return ;
        }
        let ghost before = *self;
        let ghost old_raw = pool_bytes(self.bytes);
        let ghost old_text = self.text();
        let ghost added = encode_utf8(input@);
        proof {
            encode_utf8_valid_utf8(input@);
            encode_utf8_decode_utf8(input@);
            lemma_counts_of_encoding(input@);
        }
        let (chars, units) = measure(input.as_bytes());
        self.marks.push(Mark { bytes: self.len.bytes, unicode: self.len.unicode });
        self.bytes.push_str(input);
        self.len.bytes = self.len.bytes + input.len();
        self.len.unicode = self.len.unicode + chars;
        self.len.utf16 = self.len.utf16 + units;
        proof {
            let raw = pool_bytes(self.bytes);
            assert(raw == old_raw + added);
            lemma_encode_concat(old_text, input@);
            encode_utf8_valid_utf8(old_text + input@);
            encode_utf8_decode_utf8(old_text + input@);
            assert(self.text() == old_text + input@);
            lemma_utf16_len_concat(old_text, input@);
            lemma_counts_of_decoding(old_raw);
            is_char_boundary_start_end_of_seq(added);
            is_char_boundary_iff_not_is_continuation_byte(added, 0);
            assert forall|k: int| 0 <= k < self.marks@.len() implies self.mark_ok(
                #[trigger] self.marks@[k],
            ) by {
                let m = self.marks@[k];
                if k < before.marks@.len() {
                    assert(before.mark_ok(before.marks@[k]));
                    assert(raw.subrange(0, m.bytes as int) =~= old_raw.subrange(
                        0,
                        m.bytes as int,
                    ));
                } else {
                    assert(raw.subrange(0, m.bytes as int) =~= old_raw);
                    assert(raw[m.bytes as int] == added[0]);
                }
            }
            assert forall|j: int, k: int| 0 <= j <= k < self.marks@.len() implies (
            #[trigger] self.marks@[j]).unicode <= (#[trigger] self.marks@[k]).unicode by {
                if j < before.marks@.len() {
                    let m = before.marks@[j];
                    assert(before.mark_ok(m));
                    lemma_lead_count_concat(
                        old_raw.subrange(0, m.bytes as int),
                        old_raw.subrange(m.bytes as int, old_raw.len() as int),
                    );
                    assert(old_raw.subrange(0, m.bytes as int) + old_raw.subrange(
                        m.bytes as int,
                        old_raw.len() as int,
                    ) =~= old_raw);
                }
            }
        }
    }

    /// The last mark at or before character `pos`, or the start of the arena
    /// where there is none: of the marks at or before `pos`, none lies
    /// further on.
    fn mark_before(&self, pos: usize) -> (m: Mark)
        requires
            self.wf(),
        ensures
            m.unicode <= pos,
            m.bytes <= self.raw().len(),
            m.bytes < self.raw().len() ==> is_lead(self.raw()[m.bytes as int]),
            m.unicode == lead_count(self.raw().subrange(0, m.bytes as int)),
            (m.bytes == 0 && m.unicode == 0) || exists|k: int|
                0 <= k < self.marks@.len() && #[trigger] self.marks@[k] == m,
            forall|k: int|
                0 <= k < self.marks@.len() && (#[trigger] self.marks@[k]).unicode <= pos
                    ==> self.marks@[k].unicode <= m.unicode,
    {
        let mut lo: usize = 0;
        let mut hi: usize = self.marks.len();
        while lo < hi
            invariant
                self.wf(),
                lo <= hi <= self.marks@.len(),
                forall|k: int| 0 <= k < lo ==> (#[trigger] self.marks@[k]).unicode <= pos,
                forall|k: int|
                    hi <= k < self.marks@.len() ==> (#[trigger] self.marks@[k]).unicode > pos,
            decreases hi - lo,
        {
            let mid = lo + (hi - lo) / 2;
            if self.marks[mid].unicode <= pos {
                lo = mid + 1;
            } else {
                hi = mid;
            }
        }
        if lo == 0 {
            proof {
                assert(self.raw().subrange(0, 0) =~= Seq::<u8>::empty());
                if self.raw().len() > 0 {
                    is_char_boundary_start_end_of_seq(self.raw());
                    is_char_boundary_iff_not_is_continuation_byte(self.raw(), 0);
                }
            }
            Mark { bytes: 0, unicode: 0 }
        } else {
            proof {
                assert(self.mark_ok(self.marks@[lo - 1]));
                assert forall|k: int|
                    0 <= k < self.marks@.len() && (#[trigger] self.marks@[k]).unicode
                        <= pos implies self.marks@[k].unicode <= self.marks@[lo - 1].unicode by {
                    assert(k < lo);
                }
            }
            Mark { bytes: self.marks[lo - 1].bytes, unicode: self.marks[lo - 1].unicode }
        }
    }

    /// The byte at which character `pos` starts.
    pub fn byte_offset(&self, pos: usize) -> (at: usize)
        requires
            self.wf(),
            pos <= self.text().len(),
        ensures
            at == byte_offset_of(self.text(), pos as int),
            at <= self.raw().len(),
            at < self.raw().len() ==> is_lead(self.raw()[at as int]),
            lead_count(self.raw().subrange(0, at as int)) == pos,
    {
        let m = self.mark_before(pos);
        let at = seek_char(self.bytes.as_bytes(), m.bytes, m.unicode, pos);
        proof {
            let raw = self.raw();
            lemma_split_at_boundary(raw, at as int);
            decode_utf8_encode_utf8(raw.subrange(0, at as int));
        }
        at
    }

    /// What lies between two character positions, seen from the raw bytes.
    pub proof fn lemma_range(&self, start: int, end: int, from: int, to: int)
        requires
            self.wf(),
            0 <= start <= end <= self.text().len(),
            from == byte_offset_of(self.text(), start),
            to == byte_offset_of(self.text(), end),
        ensures
            from <= to <= self.raw().len(),
            self.raw().subrange(from, to) == encode_utf8(self.text().subrange(start, end)),
            valid_utf8(self.raw().subrange(from, to)),
    {
        let text = self.text();
        let a = text.subrange(0, start);
        let b = text.subrange(start, end);
        let c = text.subrange(end, text.len() as int);
        self.lemma_raw_is_encoding();
        assert(text.subrange(0, end) =~= a + b);
        assert(text =~= (a + b) + c);
        lemma_encode_concat(a, b);
        lemma_encode_concat(a + b, c);
        assert(self.raw().subrange(from, to) =~= encode_utf8(b));
        encode_utf8_valid_utf8(b);
    }

    /// A view of the bytes of characters `start..end`.
    pub fn slice_by_unicode(&self, start: usize, end: usize) -> (slice: BytesSlice)
        requires
            self.wf(),
            start <= end <= self.text().len(),
        ensures
            slice_bytes(slice) == encode_utf8(self.text().subrange(start as int, end as int)),
            slice_offset(slice) == byte_offset_of(self.text(), start as int),
    {
        let from = self.byte_offset(start);
        let to = self.byte_offset(end);
        proof {
            self.lemma_range(start as int, end as int, from as int, to as int);
        }
        pool_slice(&self.bytes, from, to)
    }

    /// A view of the bytes `start..end`.
    pub fn slice_bytes(&self, start: usize, end: usize) -> (slice: BytesSlice)
        requires
            self.wf(),
            start <= end <= self.raw().len(),
        ensures
            slice_bytes(slice) == self.raw().subrange(start as int, end as int),
            slice_offset(slice) == start,
    {
        pool_slice(&self.bytes, start, end)
    }

    /// The characters `start..end`, borrowed from the arena.
    pub fn slice_str_by_unicode(&self, start: usize, end: usize) -> (s: &str)
        requires
            self.wf(),
            start <= end <= self.text().len(),
        ensures
            s@ == self.text().subrange(start as int, end as int),
    {
        let from = self.byte_offset(start);
        let to = self.byte_offset(end);
        proof {
            self.lemma_range(start as int, end as int, from as int, to as int);
        }
        match pool_text(&self.bytes, from, to) {
            Some(s) => {
                proof {
                    encode_utf8_decode_utf8(s@);
                    encode_utf8_decode_utf8(self.text().subrange(start as int, end as int));
                }
                s
            },
            None => unreached(),
        }
    }
}

} // verus!
