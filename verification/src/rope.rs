//! The rope that holds rich text: chunks of characters and style anchors in
//! document order, addressed by entity index, with the totals of its four
//! length metrics and the ranges that styles have been recorded on.

use crate::byte_pool::{slice_bytes, POOL_LIMIT};
use crate::chunk::{
    backed_by, entities_of, is_backed, keeps_backing, lemma_entities_concat, lemma_entities_one,
    lemma_split_backed, lemma_text_concat, lemma_text_len_bound, text_of, ChunkModel, Entity,
    RichtextStateChunk,
};
use crate::id::ID;
use crate::style::{AnchorType, StyleOp};
use crate::text_metrics::{
    lemma_counts_of_encoding, lemma_encode_concat, lemma_utf16_len_bounds, lemma_utf16_len_concat,
    utf16_len, utf8_len,
};
use append_only_bytes::BytesSlice;
use std::ops::Range;
use vstd::prelude::*;
use vstd::utf8::{decode_utf8, valid_utf8};

verus! {

/// The largest number of entities, and of bytes of text, a rope holds.
pub const ROPE_LIMIT: usize = 0x4000_0000;

/// A range of entities on which a style has been recorded.
#[derive(Clone, Copy, Debug, PartialEq, Eq, Structural)]
pub struct StyleRange {
    pub start: usize,
    pub end: usize,
    pub style: ID,
}

impl StyleRange {
    /// Where the range lies once `n` entities have been inserted before
    /// entity `at`. Entities inserted inside the range join it; entities
    /// inserted at either border stay outside.
    pub open spec fn after_insert(&self, at: int, n: int) -> StyleRange {
        if self.start >= at {
            StyleRange {
                start: (self.start + n) as usize,
                end: (self.end + n) as usize,
                style: self.style,
            }
        } else if self.end > at {
            StyleRange { start: self.start, end: (self.end + n) as usize, style: self.style }
        } else {
            *self
        }
    }

    /// Where the range lies once the entities `from..to` have been removed.
    pub open spec fn after_remove(&self, from: int, to: int) -> StyleRange {
        StyleRange {
            start: moved_by_remove(self.start as int, from, to) as usize,
            end: moved_by_remove(self.end as int, from, to) as usize,
            style: self.style,
        }
    }

}

/// Where the ranges lie once `n` entities have been inserted before entity
/// `at`.
pub open spec fn ranges_after_insert(rs: Seq<StyleRange>, at: int, n: int) -> Seq<StyleRange> {
    Seq::new(rs.len(), |k: int| rs[k].after_insert(at, n))
}

/// Where the ranges lie once the entities `from..to` have been removed.
pub open spec fn ranges_after_remove(rs: Seq<StyleRange>, from: int, to: int) -> Seq<StyleRange> {
    Seq::new(rs.len(), |k: int| rs[k].after_remove(from, to))
}

/// A run of text with the styles that are recorded on it, in the order of
/// their recording.
#[derive(Debug, PartialEq, Eq)]
pub struct RichtextSpan {
    pub text: String,
    pub styles: Vec<ID>,
}

/// What a run of text with its styles says.
pub struct SpanModel {
    pub text: Seq<char>,
    pub styles: Seq<ID>,
}

impl View for RichtextSpan {
    type V = SpanModel;

    open spec fn view(&self) -> SpanModel {
        SpanModel { text: self.text@, styles: self.styles@ }
    }
}

pub open spec fn span_at(spans: Seq<RichtextSpan>, i: int) -> SpanModel {
    spans[i]@
}

/// The runs, each as what it says.
pub open spec fn span_models(spans: Seq<RichtextSpan>) -> Seq<SpanModel> {
    Seq::new(spans.len(), |i: int| span_at(spans, i))
}

/// The styles whose recorded range holds entity `at`, in the order of their
/// recording.
pub open spec fn styles_at(rs: Seq<StyleRange>, at: int) -> Seq<ID>
    decreases rs.len(),
{
    if rs.len() == 0 {
        Seq::empty()
    } else if rs.last().start <= at < rs.last().end {
        styles_at(rs.drop_last(), at).push(rs.last().style)
    } else {
        styles_at(rs.drop_last(), at)
    }
}

/// The text as a rich value: each run of characters among the chunks, with
/// the styles that are recorded on its first entity.
pub open spec fn spans_of(chunks: Seq<ChunkModel>, rs: Seq<StyleRange>) -> Seq<SpanModel>
    decreases chunks.len(),
{
    if chunks.len() == 0 {
        Seq::empty()
    } else {
        match chunks.last() {
            ChunkModel::Text { chars, .. } => spans_of(chunks.drop_last(), rs).push(
                SpanModel {
                    text: chars,
                    styles: styles_at(rs, entities_of(chunks.drop_last()).len() as int),
                },
            ),
            _ => spans_of(chunks.drop_last(), rs),
        }
    }
}

/// Where position `x` lies once the entities `from..to` have been removed.
pub open spec fn moved_by_remove(x: int, from: int, to: int) -> int {
    if x <= from {
        x
    } else if x < to {
        from
    } else {
        x - (to - from)
    }
}

/// The chunk at position `i`, as what it stands for.
pub open spec fn model_at(chunks: Seq<RichtextStateChunk>, i: int) -> ChunkModel {
    chunks[i]@
}

/// The chunks, each as what it stands for.
pub open spec fn models_of(chunks: Seq<RichtextStateChunk>) -> Seq<ChunkModel> {
    Seq::new(chunks.len(), |i: int| model_at(chunks, i))
}

/// The number of entities in the first `k` chunks.
pub open spec fn prefix_len(chunks: Seq<ChunkModel>, k: int) -> nat {
    entities_of(chunks.subrange(0, k)).len()
}

pub proof fn lemma_prefix_monotone(chunks: Seq<ChunkModel>, j: int, k: int)
    requires
        0 <= j <= k <= chunks.len(),
    ensures
        prefix_len(chunks, j) <= prefix_len(chunks, k),
        entities_of(chunks.subrange(0, k)) == entities_of(chunks.subrange(0, j)) + entities_of(
            chunks.subrange(j, k),
        ),
{
    assert(chunks.subrange(0, k) =~= chunks.subrange(0, j) + chunks.subrange(j, k));
    lemma_entities_concat(chunks.subrange(0, j), chunks.subrange(j, k));
}

/// The entities before and after a chunk border are the beginning and the
/// rest of all entities.
pub proof fn lemma_cut_at_border(chunks: Seq<ChunkModel>, k: int)
    requires
        0 <= k <= chunks.len(),
    ensures
        prefix_len(chunks, k) <= entities_of(chunks).len(),
        entities_of(chunks.subrange(0, k)) == entities_of(chunks).subrange(
            0,
            prefix_len(chunks, k) as int,
        ),
        entities_of(chunks.subrange(k, chunks.len() as int)) == entities_of(chunks).subrange(
            prefix_len(chunks, k) as int,
            entities_of(chunks).len() as int,
        ),
{
    let a = chunks.subrange(0, k);
    let b = chunks.subrange(k, chunks.len() as int);
    assert(chunks =~= a + b);
    lemma_entities_concat(a, b);
    let ea = entities_of(a);
    let eb = entities_of(b);
    assert((ea + eb).subrange(0, ea.len() as int) =~= ea);
    assert((ea + eb).subrange(ea.len() as int, (ea + eb).len() as int) =~= eb);
}

/// The entities of the first `k + 1` chunks are those of the first `k` and
/// then those of chunk `k`.
pub proof fn lemma_prefix_step(chunks: Seq<ChunkModel>, k: int)
    requires
        0 <= k < chunks.len(),
    ensures
        entities_of(chunks.subrange(0, k + 1)) == entities_of(chunks.subrange(0, k))
            + chunks[k].entities(),
        prefix_len(chunks, k + 1) == prefix_len(chunks, k) + chunks[k].len(),
{
    let next = chunks.subrange(0, k + 1);
    assert(next.drop_last() =~= chunks.subrange(0, k));
    assert(next.last() == chunks[k]);
    lemma_entities_one(chunks[k]);
}

/// Cutting chunk `at` in two changes no entity; the cut becomes a border.
pub proof fn lemma_split_chunk(
    before: Seq<ChunkModel>,
    after: Seq<ChunkModel>,
    at: int,
    l: ChunkModel,
    r: ChunkModel,
)
    requires
        0 <= at < before.len(),
        before[at].entities() == l.entities() + r.entities(),
        after == before.subrange(0, at) + seq![l] + seq![r] + before.subrange(
            at + 1,
            before.len() as int,
        ),
    ensures
        entities_of(after) == entities_of(before),
        prefix_len(after, at + 1) == prefix_len(before, at) + l.len(),
{
    let head = before.subrange(0, at);
    let tail = before.subrange(at + 1, before.len() as int);
    assert(before =~= head + seq![before[at]] + tail);
    lemma_entities_concat(head, seq![before[at]]);
    lemma_entities_concat(head + seq![before[at]], tail);
    lemma_entities_concat(head, seq![l]);
    lemma_entities_concat(head + seq![l], seq![r]);
    lemma_entities_concat(head + seq![l] + seq![r], tail);
    lemma_entities_one(before[at]);
    lemma_entities_one(l);
    lemma_entities_one(r);
    assert(entities_of(after) =~= entities_of(before));
    assert(after.subrange(0, at + 1) =~= head + seq![l]);
}

/// Taking out the chunks between two borders takes out the entities between
/// them, and their share of each length.
pub proof fn lemma_remove_chunks(cut: Seq<ChunkModel>, from: int, to: int, pos: int, len: int)
    requires
        0 <= from <= to <= cut.len(),
        0 <= len,
        prefix_len(cut, from) == pos,
        prefix_len(cut, to) == pos + len,
    ensures
        pos + len <= entities_of(cut).len(),
        entities_of(cut.subrange(0, from) + cut.subrange(to, cut.len() as int)) == entities_of(
            cut,
        ).subrange(0, pos) + entities_of(cut).subrange(pos + len, entities_of(cut).len() as int),
        entities_of(cut.subrange(from, to)) == entities_of(cut).subrange(pos, pos + len),
        ({
            let kept = text_of(
                entities_of(cut.subrange(0, from) + cut.subrange(to, cut.len() as int)),
            );
            let gone = text_of(entities_of(cut.subrange(from, to)));
            let all = text_of(entities_of(cut));
            &&& all.len() == kept.len() + gone.len()
            &&& utf16_len(all) == utf16_len(kept) + utf16_len(gone)
            &&& utf8_len(all) == utf8_len(kept) + utf8_len(gone)
        }),
{
    let es = entities_of(cut);
    let a = cut.subrange(0, from);
    let b = cut.subrange(from, to);
    let c = cut.subrange(to, cut.len() as int);
    lemma_cut_at_border(cut, from);
    lemma_cut_at_border(cut, to);
    lemma_prefix_monotone(cut, from, to);
    lemma_entities_concat(a, c);
    let ea = es.subrange(0, pos);
    let eb = es.subrange(pos, pos + len);
    let ec = es.subrange(pos + len, es.len() as int);
    assert(entities_of(cut.subrange(0, to)).subrange(pos, pos + len) =~= eb);
    assert((entities_of(a) + entities_of(b)).subrange(pos, pos + len) =~= entities_of(b));
    assert(es =~= ea + eb + ec);
    lemma_metrics_concat(ea, eb);
    lemma_metrics_concat(ea + eb, ec);
    lemma_metrics_concat(ea, ec);
}

/// The four lengths of a text add up over concatenation.
pub proof fn lemma_metrics_concat(a: Seq<Entity>, b: Seq<Entity>)
    ensures
        text_of(a + b) == text_of(a) + text_of(b),
        text_of(a + b).len() == text_of(a).len() + text_of(b).len(),
        utf16_len(text_of(a + b)) == utf16_len(text_of(a)) + utf16_len(text_of(b)),
        utf8_len(text_of(a + b)) == utf8_len(text_of(a)) + utf8_len(text_of(b)),
        text_of(a).len() <= utf16_len(text_of(a)) <= utf8_len(text_of(a)),
{
    lemma_text_concat(a, b);
    lemma_utf16_len_concat(text_of(a), text_of(b));
    lemma_encode_concat(text_of(a), text_of(b));
    lemma_counts_of_encoding(text_of(a));
    vstd::utf8::encode_utf8_valid_utf8(text_of(a));
    crate::text_metrics::lemma_continuations_follow_wide(vstd::utf8::encode_utf8(text_of(a)));
}

pub struct RichtextRope {
    chunks: Vec<RichtextStateChunk>,
    annotations: Vec<StyleRange>,
    utf8_len: usize,
    utf16_len: usize,
    unicode_len: usize,
    entity_len: usize,
}

impl RichtextRope {
    /// The chunks, in document order.
    pub closed spec fn chunks(&self) -> Seq<ChunkModel> {
        models_of(self.chunks@)
    }

    /// The entities, in document order.
    pub open spec fn entities(&self) -> Seq<Entity> {
        entities_of(self.chunks())
    }

    /// The text as a reader sees it.
    pub open spec fn text(&self) -> Seq<char> {
        text_of(self.entities())
    }

    /// The ranges that styles have been recorded on, in the order of their
    /// recording.
    pub closed spec fn annotations(&self) -> Seq<StyleRange> {
        self.annotations@
    }

    pub closed spec fn wf(&self) -> bool {
        &&& forall|i: int| 0 <= i < self.chunks@.len() ==> (#[trigger] self.chunks@[i]).wf()
        &&& self.entity_len == self.entities().len()
        &&& self.unicode_len == self.text().len()
        &&& self.utf16_len == utf16_len(self.text())
        &&& self.utf8_len == utf8_len(self.text())
        &&& self.entity_len <= ROPE_LIMIT
        &&& self.utf8_len <= ROPE_LIMIT
        &&& forall|k: int|
            0 <= k < self.annotations@.len() ==> (#[trigger] self.annotations@[k]).start
                <= self.annotations@[k].end <= self.entity_len
    }

    /// What well-formedness says of the lengths.
    pub proof fn lemma_bounds(&self)
        requires
            self.wf(),
        ensures
            self.text().len() <= self.entities().len() <= ROPE_LIMIT,
            self.text().len() <= utf16_len(self.text()) <= utf8_len(self.text()) <= ROPE_LIMIT,
            forall|k: int|
                0 <= k < self.annotations().len() ==> (#[trigger] self.annotations()[k]).start
                    <= self.annotations()[k].end <= self.entities().len(),
    {
        lemma_text_len_bound(self.entities());
        lemma_metrics_concat(self.entities(), Seq::empty());
    }

    pub fn new() -> (rope: RichtextRope)
        ensures
            rope.wf(),
            rope.chunks() == Seq::<ChunkModel>::empty(),
            rope.entities() == Seq::<Entity>::empty(),
            rope.annotations() == Seq::<StyleRange>::empty(),
    {
        let rope = RichtextRope {
            chunks: Vec::new(),
            annotations: Vec::new(),
            utf8_len: 0,
            utf16_len: 0,
            unicode_len: 0,
            entity_len: 0,
        };
        proof {
            assert(rope.chunks() =~= Seq::<ChunkModel>::empty());
            lemma_counts_of_encoding(Seq::<char>::empty());
        }
        rope
    }

    pub fn is_empty(&self) -> (r: bool)
        requires
            self.wf(),
        ensures
            r == (self.entities().len() == 0),
    {
        self.entity_len == 0
    }

    pub fn len_utf8(&self) -> (n: usize)
        requires
            self.wf(),
        ensures
            n == utf8_len(self.text()),
    {
        self.utf8_len
    }

    pub fn len_utf16(&self) -> (n: usize)
        requires
            self.wf(),
        ensures
            n == utf16_len(self.text()),
    {
        self.utf16_len
    }

    pub fn len_unicode(&self) -> (n: usize)
        requires
            self.wf(),
        ensures
            n == self.text().len(),
    {
        self.unicode_len
    }

    pub fn len_entity(&self) -> (n: usize)
        requires
            self.wf(),
        ensures
            n == self.entities().len(),
    {
        self.entity_len
    }

    /// The chunks, in document order.
    pub fn iter_chunk(&self) -> (chunks: &Vec<RichtextStateChunk>)
        requires
            self.wf(),
        ensures
            models_of(chunks@) == self.chunks(),
            forall|i: int| 0 <= i < chunks@.len() ==> (#[trigger] chunks@[i]).wf(),
    {
        &self.chunks
    }

    /// The ranges that styles have been recorded on.
    pub fn style_ranges(&self) -> (ranges: Vec<StyleRange>)
        ensures
            ranges@ == self.annotations(),
    {
        self.annotations.clone()
    }

    /// The text as a reader sees it.
    pub fn to_string(&self) -> (s: String)
        requires
            self.wf(),
        ensures
            s@ == self.text(),
    {
        let mut s = String::new();
        let mut k: usize = 0;
        while k < self.chunks.len()
            invariant
                self.wf(),
                k <= self.chunks@.len(),
                s@ == text_of(entities_of(self.chunks().subrange(0, k as int))),
            decreases self.chunks@.len() - k,
        {
            proof {
                lemma_prefix_step(self.chunks(), k as int);
                lemma_text_concat(
                    entities_of(self.chunks().subrange(0, k as int)),
                    self.chunks()[k as int].entities(),
                );
            }
            s.append(self.chunks[k].as_str());
            k = k + 1;
        }
        proof {
            assert(self.chunks().subrange(0, k as int) =~= self.chunks());
        }
        s
    }

    /// The styles whose recorded range holds entity `at`.
    fn styles_on(&self, at: usize) -> (ids: Vec<ID>)
        ensures
            ids@ == styles_at(self.annotations(), at as int),
    {
        let mut ids: Vec<ID> = Vec::new();
        let mut k: usize = 0;
        proof {
            assert(self.annotations@.subrange(0, 0) =~= Seq::<StyleRange>::empty());
        }
        while k < self.annotations.len()
            invariant
                k <= self.annotations@.len(),
                ids@ == styles_at(self.annotations@.subrange(0, k as int), at as int),
            decreases self.annotations@.len() - k,
        {
            proof {
                assert(self.annotations@.subrange(0, k + 1).drop_last()
                    =~= self.annotations@.subrange(0, k as int));
                assert(self.annotations@.subrange(0, k + 1).last() == self.annotations@[k as int]);
            }
            let r = self.annotations[k];
            if r.start <= at && at < r.end {
                ids.push(r.style);
            }
            k = k + 1;
        }
        proof {
            assert(self.annotations@.subrange(0, k as int) =~= self.annotations@);
        }
        ids
    }

    /// The text as a rich value: each run of characters with the styles that
    /// are recorded on it.
    pub fn get_richtext_value(&self) -> (spans: Vec<RichtextSpan>)
        requires
            self.wf(),
        ensures
            span_models(spans@) == spans_of(self.chunks(), self.annotations()),
    {
        let mut spans: Vec<RichtextSpan> = Vec::new();
        let mut at: usize = 0;
        let mut k: usize = 0;
        proof {
            assert(self.chunks().subrange(0, 0) =~= Seq::<ChunkModel>::empty());
            assert(span_models(spans@) =~= Seq::<SpanModel>::empty());
        }
        while k < self.chunks.len()
            invariant
                self.wf(),
                k <= self.chunks@.len(),
                at == prefix_len(self.chunks(), k as int),
                span_models(spans@) == spans_of(
                    self.chunks().subrange(0, k as int),
                    self.annotations(),
                ),
            decreases self.chunks@.len() - k,
        {
            let ghost so_far = span_models(spans@);
            proof {
                lemma_prefix_step(self.chunks(), k as int);
                lemma_prefix_monotone(self.chunks(), k + 1, self.chunks().len() as int);
                assert(self.chunks().subrange(0, self.chunks().len() as int) =~= self.chunks());
                self.lemma_bounds();
                assert(self.chunks().subrange(0, k + 1).drop_last() =~= self.chunks().subrange(
                    0,
                    k as int,
                ));
                assert(self.chunks().subrange(0, k + 1).last() == self.chunks()[k as int]);
                crate::chunk::lemma_text_of_chunk(self.chunks()[k as int]);
            }
            let chunk = &self.chunks[k];
            match chunk {
                RichtextStateChunk::Text { .. } => {
                    let mut text = String::new();
                    text.append(chunk.as_str());
                    let styles = self.styles_on(at);
                    let span = RichtextSpan { text, styles };
                    spans.push(span);
                    proof {
                        assert(span_models(spans@) =~= so_far.push(span@));
                    }
                },
                RichtextStateChunk::Style { .. } => {
                    proof {
                        assert(span_models(spans@) =~= so_far);
                    }
                },
            }
            at = at + chunk.rle_len();
            k = k + 1;
        }
        proof {
            assert(self.chunks().subrange(0, k as int) =~= self.chunks());
        }
        spans
    }

    /// The chunk in which entity `index` lies, and the entity's place in it;
    /// or the number of chunks and zero, for the position after the last
    /// entity.
    fn locate(&self, index: usize) -> (r: (usize, usize))
        requires
            self.wf(),
            index <= self.entities().len(),
        ensures
            r.0 <= self.chunks().len(),
            prefix_len(self.chunks(), r.0 as int) + r.1 == index,
            r.0 < self.chunks().len() ==> r.1 < self.chunks()[r.0 as int].len(),
            r.0 == self.chunks().len() ==> r.1 == 0,
    {
        let mut k: usize = 0;
        let mut before: usize = 0;
        while k < self.chunks.len()
            invariant
                self.wf(),
                index <= self.entities().len(),
                k <= self.chunks@.len(),
                before == prefix_len(self.chunks(), k as int),
                before <= index,
            decreases self.chunks@.len() - k,
        {
            proof {
                lemma_prefix_step(self.chunks(), k as int);
                lemma_prefix_monotone(self.chunks(), k + 1, self.chunks().len() as int);
                assert(self.chunks().subrange(0, self.chunks().len() as int) =~= self.chunks());
            }
            let len = self.chunks[k].rle_len();
            if index < before + len {
                return (k, index - before);
            }
            before = before + len;
            k = k + 1;
        }
        proof {
            assert(self.chunks().subrange(0, k as int) =~= self.chunks());
        }
        (k, 0)
    }

    /// Makes entity `index` the first of a chunk, cutting a run of text in
    /// two where it lies inside one, and returns the position of that chunk.
    /// What the rope stands for does not change, nor do the chunks that end
    /// at or before `index`.
    fn ensure_border(&mut self, index: usize) -> (k: usize)
        requires
            old(self).wf(),
            index <= old(self).entities().len(),
        ensures
            final(self).wf(),
            final(self).entities() == old(self).entities(),
            final(self).annotations() == old(self).annotations(),
            keeps_backing(old(self).chunks(), Seq::empty(), final(self).chunks()),
            k <= final(self).chunks().len(),
            prefix_len(final(self).chunks(), k as int) == index,
            forall|j: int|
                0 <= j <= old(self).chunks().len() && #[trigger] prefix_len(old(self).chunks(), j)
                    <= index ==> j <= k && final(self).chunks().subrange(0, j)
                    == old(self).chunks().subrange(0, j),
    {
        let (at, offset) = self.locate(index);
        let ghost before = self.chunks();
        if offset == 0 {
            proof {
                assert forall|j: int|
                    0 <= j <= before.len() && #[trigger] prefix_len(before, j) <= index implies j
                    <= at by {
                    if j > at {
                        lemma_prefix_step(before, at as int);
                        lemma_prefix_monotone(before, at + 1, j);
                    }
                }
            }
            return at;
        }
        assert(at < self.chunks@.len());
        let chunk = self.chunks.remove(at);
        let (left, right) = chunk.split_text(offset);
        let ghost l = left@;
        let ghost r = right@;
        self.chunks.insert(at, right);
        self.chunks.insert(at, left);
        let total = self.chunks.len();
        assert(at + 1 < total);
        proof {
            let after = self.chunks();
            let head = before.subrange(0, at as int);
            let tail = before.subrange(at + 1, before.len() as int);
            assert(before =~= head + seq![before[at as int]] + tail);
            assert(after =~= head + seq![l] + seq![r] + tail);
            lemma_split_chunk(before, after, at as int, l, r);
            assert forall|interned: Seq<char>| #[trigger]
                backed_by(before, interned) implies backed_by(after, interned) by {
                assert forall|i: int| 0 <= i < after.len() implies is_backed(
                    #[trigger] after[i],
                    interned,
                ) by {
                    assert(is_backed(before[at as int], interned));
                    lemma_split_backed(before[at as int], l, r, offset as int, interned);
                    if i < at {
                        assert(after[i] == before[i]);
                    } else if i > at + 1 {
                        assert(after[i] == before[i - 1]);
                    }
                }
            }
            assert forall|j: int|
                0 <= j <= before.len() && #[trigger] prefix_len(before, j) <= index implies j
                <= at + 1 && after.subrange(0, j) == before.subrange(0, j) by {
                if j > at {
                    lemma_prefix_step(before, at as int);
                    lemma_prefix_monotone(before, at + 1, j);
                }
                assert(after.subrange(0, j) =~= before.subrange(0, j));
            }
        }
        at + 1
    }

    /// Moves the recorded ranges for `n` entities inserted before entity
    /// `at`.
    fn shift_annotations(&mut self, at: usize, n: usize)
        requires
            n <= ROPE_LIMIT,
            forall|k: int|
                0 <= k < old(self).annotations@.len() ==> (#[trigger] old(self).annotations@[k]).end
                    <= ROPE_LIMIT && old(self).annotations@[k].start <= ROPE_LIMIT,
        ensures
            final(self).chunks@ == old(self).chunks@,
            final(self).utf8_len == old(self).utf8_len,
            final(self).utf16_len == old(self).utf16_len,
            final(self).unicode_len == old(self).unicode_len,
            final(self).entity_len == old(self).entity_len,
            final(self).annotations@.len() == old(self).annotations@.len(),
            forall|k: int|
                0 <= k < final(self).annotations@.len() ==> #[trigger] final(self).annotations@[k]
                    == old(self).annotations@[k].after_insert(at as int, n as int),
    {
        let mut moved: Vec<StyleRange> = Vec::new();
        let mut k: usize = 0;
        while k < self.annotations.len()
            invariant
                k <= self.annotations@.len(),
                moved@.len() == k,
                n <= ROPE_LIMIT,
                forall|j: int|
                    0 <= j < self.annotations@.len() ==> (#[trigger] self.annotations@[j]).end
                        <= ROPE_LIMIT && self.annotations@[j].start <= ROPE_LIMIT,
                forall|j: int|
                    0 <= j < k ==> #[trigger] moved@[j] == self.annotations@[j].after_insert(
                        at as int,
                        n as int,
                    ),
            decreases self.annotations@.len() - k,
        {
            let r = self.annotations[k];
            if r.start >= at {
                moved.push(StyleRange { start: r.start + n, end: r.end + n, style: r.style });
            } else if r.end > at {
                moved.push(StyleRange { start: r.start, end: r.end + n, style: r.style });
            } else {
                moved.push(r);
            }
            k = k + 1;
        }
        self.annotations = moved;
    }

    /// Moves the recorded ranges for the removal of the entities `from..to`.
    fn clip_annotations(&mut self, from: usize, to: usize)
        requires
            from <= to,
        ensures
            final(self).chunks@ == old(self).chunks@,
            final(self).utf8_len == old(self).utf8_len,
            final(self).utf16_len == old(self).utf16_len,
            final(self).unicode_len == old(self).unicode_len,
            final(self).entity_len == old(self).entity_len,
            final(self).annotations@.len() == old(self).annotations@.len(),
            forall|k: int|
                0 <= k < final(self).annotations@.len() ==> #[trigger] final(self).annotations@[k]
                    == old(self).annotations@[k].after_remove(from as int, to as int),
    {
        let mut moved: Vec<StyleRange> = Vec::new();
        let mut k: usize = 0;
        while k < self.annotations.len()
            invariant
                from <= to,
                k <= self.annotations@.len(),
                moved@.len() == k,
                forall|j: int|
                    0 <= j < k ==> #[trigger] moved@[j] == self.annotations@[j].after_remove(
                        from as int,
                        to as int,
                    ),
            decreases self.annotations@.len() - k,
        {
            let r = self.annotations[k];
            let start = if r.start <= from {
                r.start
            } else if r.start < to {
                from
            } else {
                r.start - (to - from)
            };
            let end = if r.end <= from {
                r.end
            } else if r.end < to {
                from
            } else {
                r.end - (to - from)
            };
            moved.push(StyleRange { start, end, style: r.style });
            k = k + 1;
        }
        self.annotations = moved;
    }

    /// Whether the rope has room for a chunk that stands for `elem`.
    pub open spec fn has_room_for(&self, elem: ChunkModel) -> bool {
        &&& self.entities().len() + elem.len() <= ROPE_LIMIT
        &&& utf8_len(self.text()) + utf8_len(text_of(elem.entities())) <= ROPE_LIMIT
    }

    /// Inserts a chunk so that its first entity becomes entity `index`.
    /// Recorded ranges that the new entities fall inside grow by them; ranges
    /// at or after `index` move on.
    pub fn insert_elem_at_entity_index(&mut self, index: usize, elem: RichtextStateChunk)
        requires
            old(self).wf(),
            elem.wf(),
            index <= old(self).entities().len(),
            old(self).has_room_for(elem@),
        ensures
            final(self).wf(),
            final(self).entities() == old(self).entities().subrange(0, index as int)
                + elem@.entities() + old(self).entities().subrange(
                index as int,
                old(self).entities().len() as int,
            ),
            final(self).annotations().len() == old(self).annotations().len(),
            forall|k: int|
                0 <= k < final(self).annotations().len() ==> #[trigger] final(self).annotations()[k] == old(self).annotations()[k].after_insert(
                    index as int,
                    elem@.len() as int,
                ),
            keeps_backing(old(self).chunks(), seq![elem@], final(self).chunks()),
    {
        let ghost es = self.entities();
        let ghost start = self.chunks();
        let ghost model = elem@;
        let at = self.ensure_border(index);
        let ghost mid = self.chunks();
        let n = elem.rle_len();
        let bytes = elem.utf8_len();
        let units = elem.utf16_len();
        let chars = elem.unicode_len();
        self.chunks.insert(at, elem);
        self.entity_len = self.entity_len + n;
        self.utf8_len = self.utf8_len + bytes;
        proof {
            let head = mid.subrange(0, at as int);
            let tail = mid.subrange(at as int, mid.len() as int);
            lemma_cut_at_border(mid, at as int);
            assert(self.chunks() =~= head + seq![model] + tail);
            let after = self.chunks();
            assert forall|interned: Seq<char>| #[trigger]
                backed_by(start, interned) && backed_by(
                    seq![model],
                    interned,
                ) implies backed_by(after, interned) by {
                assert(backed_by(Seq::<ChunkModel>::empty(), interned));
                assert(backed_by(mid, interned));
                assert forall|i: int| 0 <= i < after.len() implies is_backed(
                    #[trigger] after[i],
                    interned,
                ) by {
                    if i < at {
                        assert(after[i] == mid[i]);
                    } else if i == at {
                        assert(after[i] == seq![model][0]);
                    } else {
                        assert(after[i] == mid[i - 1]);
                    }
                }
            }
            lemma_entities_concat(head, seq![model]);
            lemma_entities_concat(head + seq![model], tail);
            lemma_entities_one(model);
            let a = es.subrange(0, index as int);
            let c = es.subrange(index as int, es.len() as int);
            assert(es =~= a + c);
            lemma_metrics_concat(a, c);
            lemma_metrics_concat(a, model.entities());
            lemma_metrics_concat(a + model.entities(), c);
            lemma_metrics_concat(model.entities(), Seq::empty());
            lemma_metrics_concat(es, Seq::empty());
        }
        self.utf16_len = self.utf16_len + units;
        self.unicode_len = self.unicode_len + chars;
        let ghost notes = self.annotations@;
        self.shift_annotations(index, n);
        proof {
            assert forall|k: int| 0 <= k < self.annotations@.len() implies (
            #[trigger] self.annotations@[k]).start <= self.annotations@[k].end
                <= self.entity_len by {
                assert(notes[k].start <= notes[k].end);
            }
        }
    }

    /// Inserts the text that `text` shows so that its first character
    /// becomes entity `index`. `unicode_start` is the position in the arena
    /// of that character. Empty text changes nothing.
    pub fn insert_at_entity_index(&mut self, index: usize, text: BytesSlice, unicode_start: u32)
        requires
            old(self).wf(),
            valid_utf8(slice_bytes(text)),
            slice_bytes(text).len() <= POOL_LIMIT,
            unicode_start + decode_utf8(slice_bytes(text)).len() <= POOL_LIMIT,
            index <= old(self).entities().len(),
            old(self).has_room_for(
                ChunkModel::Text {
                    chars: decode_utf8(slice_bytes(text)),
                    start: unicode_start as nat,
                },
            ),
        ensures
            final(self).wf(),
            final(self).entities() == old(self).entities().subrange(0, index as int)
                + crate::chunk::chars_as_entities(decode_utf8(slice_bytes(text))) + old(self).entities().subrange(index as int, old(self).entities().len() as int),
            final(self).annotations().len() == old(self).annotations().len(),
            forall|k: int|
                0 <= k < final(self).annotations().len() ==> #[trigger] final(self).annotations()[k] == old(self).annotations()[k].after_insert(
                    index as int,
                    decode_utf8(slice_bytes(text)).len() as int,
                ),
            keeps_backing(
                old(self).chunks(),
                seq![
                    ChunkModel::Text {
                        chars: decode_utf8(slice_bytes(text)),
                        start: unicode_start as nat,
                    },
                ],
                final(self).chunks(),
            ),
            slice_bytes(text).len() == 0 ==> final(self).chunks() == old(self).chunks(),
    {
        if text.len() == 0 {
            proof {
                let es = self.entities();
                assert(decode_utf8(slice_bytes(text)) =~= Seq::<char>::empty());
                assert(es.subrange(0, index as int) + crate::chunk::chars_as_entities(
                    Seq::<char>::empty(),
                ) + es.subrange(index as int, es.len() as int) =~= es);
            }
            return ;
        }
        let elem = RichtextStateChunk::new_text(text, unicode_start);
        self.insert_elem_at_entity_index(index, elem);
    }

    /// Appends a chunk.
    pub fn push(&mut self, elem: RichtextStateChunk)
        requires
            old(self).wf(),
            elem.wf(),
            old(self).has_room_for(elem@),
        ensures
            final(self).wf(),
            final(self).chunks() == old(self).chunks().push(elem@),
            final(self).entities() == old(self).entities() + elem@.entities(),
            final(self).annotations() == old(self).annotations(),
            keeps_backing(old(self).chunks(), seq![elem@], final(self).chunks()),
    {
        let ghost es = self.entities();
        let ghost before = self.chunks();
        let ghost model = elem@;
        let n = elem.rle_len();
        let bytes = elem.utf8_len();
        let units = elem.utf16_len();
        let chars = elem.unicode_len();
        self.chunks.push(elem);
        proof {
            assert(self.chunks() =~= before.push(model));
            assert(before.push(model) =~= before + seq![model]);
            assert forall|interned: Seq<char>| #[trigger]
                backed_by(before, interned) && backed_by(
                    seq![model],
                    interned,
                ) implies backed_by(before.push(model), interned) by {
                assert forall|i: int| 0 <= i < before.push(model).len() implies is_backed(
                    #[trigger] before.push(model)[i],
                    interned,
                ) by {
                    if i < before.len() {
                        assert(before.push(model)[i] == before[i]);
                    } else {
                        assert(before.push(model)[i] == seq![model][0]);
                    }
                }
            }
            lemma_entities_concat(before, seq![model]);
            lemma_entities_one(model);
            lemma_metrics_concat(es, model.entities());
            lemma_metrics_concat(model.entities(), Seq::empty());
            lemma_metrics_concat(es, Seq::empty());
        }
        self.entity_len = self.entity_len + n;
        self.utf8_len = self.utf8_len + bytes;
        self.utf16_len = self.utf16_len + units;
        self.unicode_len = self.unicode_len + chars;
    }

    /// Removes the entities `pos..pos + len` and returns them as chunks, in
    /// order. Recorded ranges shrink by what they lose.
    pub fn drain_by_entity_index(&mut self, pos: usize, len: usize) -> (removed: Vec<
        RichtextStateChunk,
    >)
        requires
            old(self).wf(),
            pos + len <= old(self).entities().len(),
        ensures
            final(self).wf(),
            final(self).entities() == old(self).entities().subrange(0, pos as int) + old(self).entities().subrange(pos + len, old(self).entities().len() as int),
            entities_of(models_of(removed@)) == old(self).entities().subrange(
                pos as int,
                pos + len,
            ),
            forall|i: int| 0 <= i < removed@.len() ==> (#[trigger] removed@[i]).wf(),
            keeps_backing(old(self).chunks(), Seq::empty(), final(self).chunks()),
            keeps_backing(old(self).chunks(), Seq::empty(), models_of(removed@)),
            final(self).annotations().len() == old(self).annotations().len(),
            forall|k: int|
                0 <= k < final(self).annotations().len() ==> #[trigger] final(self).annotations()[k] == old(self).annotations()[k].after_remove(
                    pos as int,
                    pos + len,
                ),
    {
        let ghost es = self.entities();
        let ghost start = self.chunks();
        proof {
            self.lemma_bounds();
        }
        let from = self.ensure_border(pos);
        let ghost mid = self.chunks();
        let to = self.ensure_border(pos + len);
        let ghost cut = self.chunks();
        proof {
            assert(prefix_len(mid, from as int) <= pos + len);
            assert(cut.subrange(0, from as int) == mid.subrange(0, from as int));
            assert(from <= to);
            lemma_remove_chunks(cut, from as int, to as int, pos as int, len as int);
        }
        let mut tail = self.chunks.split_off(to);
        let removed = self.chunks.split_off(from);
        self.chunks.append(&mut tail);
        proof {
            assert(self.chunks() =~= cut.subrange(0, from as int) + cut.subrange(
                to as int,
                cut.len() as int,
            ));
            assert(models_of(removed@) =~= cut.subrange(from as int, to as int));
            let kept = self.chunks();
            let gone = models_of(removed@);
            assert forall|interned: Seq<char>| #[trigger]
                backed_by(start, interned) implies backed_by(kept, interned) && backed_by(
                gone,
                interned,
            ) by {
                assert(backed_by(Seq::<ChunkModel>::empty(), interned));
                assert(backed_by(mid, interned));
                assert(backed_by(cut, interned));
                assert forall|i: int| 0 <= i < kept.len() implies is_backed(
                    #[trigger] kept[i],
                    interned,
                ) by {
                    if i < from {
                        assert(kept[i] == cut[i]);
                    } else {
                        assert(kept[i] == cut[i + (to - from)]);
                    }
                }
                assert forall|i: int| 0 <= i < gone.len() implies is_backed(
                    #[trigger] gone[i],
                    interned,
                ) by {
                    assert(gone[i] == cut[from + i]);
                }
            }
        }
        let totals = measure_chunks(&removed);
        self.entity_len = self.entity_len - len;
        self.utf8_len = self.utf8_len - totals.0;
        self.utf16_len = self.utf16_len - totals.1;
        self.unicode_len = self.unicode_len - totals.2;
        let ghost notes = self.annotations@;
        self.clip_annotations(pos, pos + len);
        proof {
            assert forall|k: int| 0 <= k < self.annotations@.len() implies (
            #[trigger] self.annotations@[k]).start <= self.annotations@[k].end
                <= self.entity_len by {
                assert(notes[k].start <= notes[k].end);
            }
        }
        removed
    }

    /// Records `style` on the entities `range`.
    pub fn annotate_style_range(&mut self, range: Range<usize>, style: &StyleOp)
        requires
            old(self).wf(),
            range.start <= range.end <= old(self).entities().len(),
        ensures
            final(self).entities() == old(self).entities(),
            final(self).wf(),
            final(self).chunks() == old(self).chunks(),
            final(self).annotations() == old(self).annotations().push(
                StyleRange { start: range.start, end: range.end, style: style@.id() },
            ),
    {
        self.annotations.push(StyleRange { start: range.start, end: range.end, style: style.id() });
    }

    /// Puts `ranges` in place of the recorded ranges.
    pub fn set_annotations(&mut self, ranges: Vec<StyleRange>)
        requires
            old(self).wf(),
            forall|k: int|
                0 <= k < ranges@.len() ==> (#[trigger] ranges@[k]).start <= ranges@[k].end <= old(
                    self,
                ).entities().len(),
        ensures
            final(self).wf(),
            final(self).entities() == old(self).entities(),
            final(self).chunks() == old(self).chunks(),
            final(self).annotations() == ranges@,
    {
        self.annotations = ranges;
    }

    /// Whether the rope has room for the two anchors of a style.
    pub open spec fn has_room_for_mark(&self) -> bool {
        self.entities().len() + 2 <= ROPE_LIMIT
    }

    /// Puts the start anchor of `style` before entity `range.start` and its
    /// end anchor before entity `range.end`, and records the style on what
    /// lies between them and on both anchors.
    pub fn mark_with_entity_index(&mut self, range: Range<usize>, style: StyleOp)
        requires
            old(self).wf(),
            range.start <= range.end <= old(self).entities().len(),
            old(self).has_room_for_mark(),
        ensures
            final(self).wf(),
            final(self).entities() == old(self).entities().subrange(0, range.start as int)
                + seq![Entity::Anchor(style@, AnchorType::Start)] + old(self).entities().subrange(
                range.start as int,
                range.end as int,
            ) + seq![Entity::Anchor(style@, AnchorType::End)] + old(self).entities().subrange(
                range.end as int,
                old(self).entities().len() as int,
            ),
            final(self).annotations().len() == old(self).annotations().len() + 1,
            final(self).annotations().last() == (StyleRange {
                start: range.start,
                end: (range.end + 2) as usize,
                style: style@.id(),
            }),
            forall|k: int|
                0 <= k < old(self).annotations().len() ==> #[trigger] final(self).annotations()[k]
                    == old(self).annotations()[k].after_insert(
                    range.end as int,
                    1,
                ).after_insert(range.start as int, 1),
            keeps_backing(old(self).chunks(), Seq::empty(), final(self).chunks()),
    {
        let ghost es = self.entities();
        let ghost notes = self.annotations();
        proof {
            lemma_metrics_concat(Seq::<Entity>::empty(), Seq::<Entity>::empty());
            crate::chunk::lemma_text_of_chunk(
                ChunkModel::Style { op: style@, anchor: AnchorType::End },
            );
            crate::chunk::lemma_text_of_chunk(
                ChunkModel::Style { op: style@, anchor: AnchorType::Start },
            );
            lemma_counts_of_encoding(Seq::<char>::empty());
        }
        let end_anchor = RichtextStateChunk::new_style(style.duplicate(), AnchorType::End);
        self.insert_elem_at_entity_index(range.end, end_anchor);
        let ghost mid = self.entities();
        let start_anchor = RichtextStateChunk::new_style(style.duplicate(), AnchorType::Start);
        self.insert_elem_at_entity_index(range.start, start_anchor);
        proof {
            assert(self.entities() =~= es.subrange(0, range.start as int)
                + seq![Entity::Anchor(style@, AnchorType::Start)] + es.subrange(
                range.start as int,
                range.end as int,
            ) + seq![Entity::Anchor(style@, AnchorType::End)] + es.subrange(
                range.end as int,
                es.len() as int,
            ));
        }
        self.annotate_style_range(range.start..range.end + 2, &style);
    }
}

/// The totals of the chunks: bytes, UTF-16 code units, characters.
fn measure_chunks(chunks: &Vec<RichtextStateChunk>) -> (r: (usize, usize, usize))
    requires
        forall|i: int| 0 <= i < chunks@.len() ==> (#[trigger] chunks@[i]).wf(),
        utf8_len(text_of(entities_of(models_of(chunks@)))) <= ROPE_LIMIT,
    ensures
        r.0 == utf8_len(text_of(entities_of(models_of(chunks@)))),
        r.1 == utf16_len(text_of(entities_of(models_of(chunks@)))),
        r.2 == text_of(entities_of(models_of(chunks@))).len(),
{
    let ghost all = models_of(chunks@);
    let mut k: usize = 0;
    let mut bytes: usize = 0;
    let mut units: usize = 0;
    let mut chars: usize = 0;
    proof {
        lemma_counts_of_encoding(Seq::<char>::empty());
    }
    while k < chunks.len()
        invariant
            forall|i: int| 0 <= i < chunks@.len() ==> (#[trigger] chunks@[i]).wf(),
            all == models_of(chunks@),
            utf8_len(text_of(entities_of(all))) <= ROPE_LIMIT,
            k <= chunks@.len(),
            bytes == utf8_len(text_of(entities_of(all.subrange(0, k as int)))),
            units == utf16_len(text_of(entities_of(all.subrange(0, k as int)))),
            chars == text_of(entities_of(all.subrange(0, k as int))).len(),
            chars <= units <= bytes <= ROPE_LIMIT,
        decreases chunks@.len() - k,
    {
        proof {
            lemma_prefix_step(all, k as int);
            lemma_metrics_concat(entities_of(all.subrange(0, k as int)), all[k as int].entities());
            lemma_prefix_monotone(all, k + 1, all.len() as int);
            assert(all.subrange(0, all.len() as int) =~= all);
            lemma_metrics_concat(
                entities_of(all.subrange(0, k + 1)),
                entities_of(all.subrange(k + 1, all.len() as int)),
            );
            lemma_metrics_concat(entities_of(all.subrange(0, k + 1)), Seq::empty());
        }
        bytes = bytes + chunks[k].utf8_len();
        units = units + chunks[k].utf16_len();
        chars = chars + chunks[k].unicode_len();
        k = k + 1;
    }
    proof {
        assert(all.subrange(0, k as int) =~= all);
    }
    (bytes, units, chars)
}

} // verus!
