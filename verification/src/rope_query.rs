//! Positions in rich text: from a position in the text, counted in
//! characters or in UTF-16 code units, to the entity at which an insertion
//! there lands, and to the entities that a range of the text covers.

use crate::chunk::{
    chars_as_entities, entities_of, lemma_entities_concat, lemma_entities_one,
    lemma_text_concat, lemma_text_of_chars, lemma_text_of_chunk, text_of, ChunkModel, Entity,
    RichtextStateChunk,
};
use crate::rope::{
    lemma_cut_at_border, lemma_metrics_concat, lemma_prefix_monotone, lemma_prefix_step,
    models_of, prefix_len, RichtextRope, ROPE_LIMIT,
};
use crate::style::AnchorType;
use crate::text_metrics::{lemma_units_monotone, lemma_utf16_len_concat, units};
use std::ops::Range;
use vstd::prelude::*;

verus! {

/// The length, in the given unit, of the text before entity `i`.
pub open spec fn units_before(es: Seq<Entity>, i: int, utf16: bool) -> nat {
    units(text_of(es.subrange(0, i)), utf16)
}

/// Whether text inserted at this entity's place goes before it: before a
/// character, before the start of a style that does not take in text at its
/// start, before the end of a style that takes in text at its end.
pub open spec fn holds_back(e: Entity) -> bool {
    match e {
        Entity::Char(_) => true,
        Entity::Anchor(op, AnchorType::Start) => !op.info.spec_expand_before(),
        Entity::Anchor(op, AnchorType::End) => op.info.spec_expand_after(),
    }
}

/// Whether `r` is the entity index at which text inserted at position `pos`
/// of the text lands: the first place with at least `pos` units of text
/// before it whose entity holds the insertion back. Among the anchors that
/// stand at `pos`, the insertion passes those that let it.
pub open spec fn is_insert_slot(es: Seq<Entity>, pos: int, utf16: bool, r: int) -> bool {
    &&& 0 <= r <= es.len()
    &&& units_before(es, r, utf16) >= pos
    &&& r < es.len() ==> holds_back(es[r])
    &&& forall|i: int| 0 <= i < r && #[trigger] units_before(es, i, utf16) >= pos ==> !holds_back(es[i])
}

/// There is one such place at most.
pub proof fn lemma_insert_slot_unique(es: Seq<Entity>, pos: int, utf16: bool, a: int, b: int)
    requires
        is_insert_slot(es, pos, utf16, a),
        is_insert_slot(es, pos, utf16, b),
    ensures
        a == b,
{
    if a < b {
        assert(units_before(es, a, utf16) >= pos);
    } else if b < a {
        assert(units_before(es, b, utf16) >= pos);
    }
}

/// Whether one of the ranges holds `i`.
pub open spec fn covered(ranges: Seq<Range<usize>>, i: int) -> bool {
    exists|j: int| 0 <= j < ranges.len() && (#[trigger] ranges[j]).start <= i < ranges[j].end
}

/// Whether `ranges` are the runs of entities that are characters of the text
/// between the positions `from` and `to`: each run is not empty, the runs
/// come in order with something between any two of them, and together they
/// hold exactly those characters.
pub open spec fn is_text_cover(
    es: Seq<Entity>,
    from: int,
    to: int,
    utf16: bool,
    ranges: Seq<Range<usize>>,
) -> bool {
    &&& forall|j: int|
        0 <= j < ranges.len() ==> (#[trigger] ranges[j]).start < ranges[j].end && ranges[j].end
            <= es.len()
    &&& forall|j: int|
        0 <= j < ranges.len() - 1 ==> (#[trigger] ranges[j]).end < ranges[j + 1].start
    &&& forall|i: int|
        0 <= i < es.len() ==> (#[trigger] covered(ranges, i) <==> es[i] is Char && from
            <= units_before(es, i, utf16) < to)
}

pub proof fn lemma_units_before_monotone(es: Seq<Entity>, i: int, j: int, utf16: bool)
    requires
        0 <= i <= j <= es.len(),
    ensures
        units_before(es, i, utf16) <= units_before(es, j, utf16),
{
    assert(es.subrange(0, j) =~= es.subrange(0, i) + es.subrange(i, j));
    lemma_metrics_concat(es.subrange(0, i), es.subrange(i, j));
}

/// What lies before the entity at place `o` of chunk `k`.
pub proof fn lemma_inside_chunk(chunks: Seq<ChunkModel>, k: int, o: int, utf16: bool)
    requires
        0 <= k < chunks.len(),
        0 <= o <= chunks[k].len(),
    ensures
        prefix_len(chunks, k) + chunks[k].len() == prefix_len(chunks, k + 1),
        prefix_len(chunks, k + 1) <= entities_of(chunks).len(),
        o < chunks[k].len() ==> entities_of(chunks)[prefix_len(chunks, k) + o]
            == chunks[k].entities()[o],
        chunks[k] is Text ==> units_before(entities_of(chunks), prefix_len(chunks, k) + o, utf16)
            == units_before(entities_of(chunks), prefix_len(chunks, k) as int, utf16) + units(
            chunks[k]->chars.subrange(0, o),
            utf16,
        ),
        chunks[k] is Style ==> units_before(entities_of(chunks), prefix_len(chunks, k) + o, utf16)
            == units_before(entities_of(chunks), prefix_len(chunks, k) as int, utf16),
{
    let es = entities_of(chunks);
    let p = prefix_len(chunks, k) as int;
    let head = entities_of(chunks.subrange(0, k));
    let mine = chunks[k].entities();
    lemma_prefix_step(chunks, k);
    lemma_cut_at_border(chunks, k);
    lemma_cut_at_border(chunks, k + 1);
    lemma_entities_one(chunks[k]);
    assert(es.subrange(0, p + chunks[k].len()) == head + mine);
    assert(es.subrange(0, p + o) =~= head + mine.subrange(0, o));
    assert(es.subrange(0, p) =~= head);
    lemma_metrics_concat(head, mine.subrange(0, o));
    if o < chunks[k].len() {
        assert(es[p + o] == (head + mine)[p + o]);
    }
    if chunks[k] is Text {
        let chars = chunks[k]->chars;
        assert(mine.subrange(0, o) =~= chars_as_entities(chars.subrange(0, o)));
        lemma_text_of_chars(chars.subrange(0, o));
    } else {
        if o == 0 {
            assert(mine.subrange(0, o) =~= Seq::<Entity>::empty());
        } else {
            assert(mine.subrange(0, o) =~= mine);
            lemma_text_of_chunk(chunks[k]);
        }
    }
}

/// Adding a run after all others, or lengthening the last run, adds the
/// entities of the run to those covered and no others.
pub proof fn lemma_cover_grows(
    before: Seq<Range<usize>>,
    after: Seq<Range<usize>>,
    a: usize,
    b: usize,
)
    requires
        a < b,
        after == before.push(a..b) || (before.len() > 0 && before.last().end == a && after
            == before.drop_last().push(before.last().start..b)),
        forall|j: int| 0 <= j < before.len() ==> (#[trigger] before[j]).start < before[j].end,
    ensures
        forall|i: int| #[trigger] covered(after, i) <==> covered(before, i) || a <= i < b,
{
    assert forall|i: int| #[trigger] covered(after, i) <==> covered(before, i) || a <= i
        < b by {
        let last = after.len() - 1;
        if after == before.push(a..b) {
            if covered(after, i) {
                let j = choose|j: int|
                    0 <= j < after.len() && (#[trigger] after[j]).start <= i < after[j].end;
                if j < last {
                    assert(before[j].start <= i < before[j].end);
                }
            }
            if covered(before, i) {
                let j = choose|j: int|
                    0 <= j < before.len() && (#[trigger] before[j]).start <= i < before[j].end;
                assert(after[j].start <= i < after[j].end);
            }
            if a <= i < b {
                assert(after[last].start <= i < after[last].end);
            }
        } else {
            if covered(after, i) {
                let j = choose|j: int|
                    0 <= j < after.len() && (#[trigger] after[j]).start <= i < after[j].end;
                if j < last {
                    assert(before[j].start <= i < before[j].end);
                } else if i < a {
                    assert(before[last].start <= i < before[last].end);
                }
            }
            if covered(before, i) {
                let j = choose|j: int|
                    0 <= j < before.len() && (#[trigger] before[j]).start <= i < before[j].end;
                assert(after[j].start <= i < after[j].end);
            }
            if a <= i < b {
                assert(after[last].start <= i < after[last].end);
            }
        }
    }
}

impl RichtextRope {
    /// The entity index at which text inserted at position `pos`, counted in
    /// the given unit, lands.
    fn insert_slot(&self, pos: usize, utf16: bool) -> (r: usize)
        requires
            self.wf(),
            pos <= units(self.text(), utf16),
        ensures
            is_insert_slot(self.entities(), pos as int, utf16, r as int),
    {
        let chunks = self.iter_chunk();
        let ghost all = self.chunks();
        let ghost es = self.entities();
        let mut k: usize = 0;
        let mut p: usize = 0;
        let mut u: usize = 0;
        proof {
            self.lemma_bounds();
            assert(es.subrange(0, 0) =~= Seq::<Entity>::empty());
            assert(all.subrange(0, 0) =~= Seq::<ChunkModel>::empty());
        }
        while k < chunks.len()
            invariant
                self.wf(),
                all == models_of(chunks@),
                all == self.chunks(),
                es == entities_of(all),
                forall|i: int| 0 <= i < chunks@.len() ==> (#[trigger] chunks@[i]).wf(),
                k <= chunks@.len(),
                p == prefix_len(all, k as int),
                p <= es.len() <= ROPE_LIMIT,
                u == units_before(es, p as int, utf16),
                u <= units(text_of(es), utf16) <= ROPE_LIMIT,
                pos <= units(text_of(es), utf16),
                forall|i: int|
                    0 <= i < p && #[trigger] units_before(es, i, utf16) >= pos ==> !holds_back(
                        es[i],
                    ),
            decreases chunks@.len() - k,
        {
            let c = &chunks[k];
            let n = c.rle_len();
            proof {
                lemma_inside_chunk(all, k as int, 0, utf16);
                lemma_inside_chunk(all, k as int, n as int, utf16);
                lemma_units_before_monotone(es, p + n, es.len() as int, utf16);
                assert(es.subrange(0, es.len() as int) =~= es);
            }
            if c.is_text() {
                if n > 0 {
                    if u >= pos {
                        return p;
                    }
                    let o = c.seek_units(pos - u, utf16);
                    proof {
                        lemma_inside_chunk(all, k as int, o as int, utf16);
                        assert forall|i: int|
                            0 <= i < p + o && #[trigger] units_before(es, i, utf16)
                                >= pos implies !holds_back(es[i]) by {
                            if i >= p {
                                lemma_inside_chunk(all, k as int, i - p, utf16);
                                lemma_units_monotone(all[k as int]->chars, i - p, o - 1, utf16);
                            }
                        }
                    }
                    if o < n {
                        return p + o;
                    }
                    u = u + if utf16 {
                        c.utf16_len()
                    } else {
                        c.unicode_len()
                    };
                    proof {
                        lemma_text_of_chunk(all[k as int]);
                        assert(all[k as int]->chars.subrange(0, n as int)
                            =~= all[k as int]->chars);
                    }
                    p = p + n;
                }
            } else {
                let back = match c {
                    RichtextStateChunk::Style { style, anchor_type } => match anchor_type {
                        AnchorType::Start => !style.info.expand_before(),
                        AnchorType::End => style.info.expand_after(),
                    },
                    RichtextStateChunk::Text { .. } => true,
                };
                if u >= pos && back {
                    return p;
                }
                proof {
                    assert forall|i: int|
                        0 <= i < p + 1 && #[trigger] units_before(es, i, utf16)
                            >= pos implies !holds_back(es[i]) by {}
                }
                p = p + 1;
            }
            k = k + 1;
        }
        proof {
            assert(all.subrange(0, k as int) =~= all);
            assert(es.subrange(0, p as int) =~= es);
        }
        p
    }

    /// The entity index at which text inserted before character `pos` of the
    /// text lands.
    pub fn get_entity_index_for_text_insert_pos(&self, pos: usize) -> (r: usize)
        requires
            self.wf(),
            pos <= self.text().len(),
        ensures
            is_insert_slot(self.entities(), pos as int, false, r as int),
    {
        self.insert_slot(pos, false)
    }

    /// The entity index at which text inserted before UTF-16 code unit `pos`
    /// of the text lands. A position inside a character counts as the
    /// position after it.
    pub fn get_entity_index_for_utf16_insert_pos(&self, pos: usize) -> (r: usize)
        requires
            self.wf(),
            pos <= crate::text_metrics::utf16_len(self.text()),
        ensures
            is_insert_slot(self.entities(), pos as int, true, r as int),
    {
        self.insert_slot(pos, true)
    }

    /// The runs of entities that are the characters of the text from
    /// position `pos` on, `len` units long.
    fn text_ranges(&self, pos: usize, len: usize, utf16: bool) -> (ranges: Vec<Range<usize>>)
        requires
            self.wf(),
            pos + len <= usize::MAX,
        ensures
            is_text_cover(self.entities(), pos as int, pos + len, utf16, ranges@),
    {
        let chunks = self.iter_chunk();
        let ghost all = self.chunks();
        let ghost es = self.entities();
        let to = pos + len;
        let mut ranges: Vec<Range<usize>> = Vec::new();
        let mut k: usize = 0;
        let mut p: usize = 0;
        let mut u: usize = 0;
        proof {
            self.lemma_bounds();
            assert(es.subrange(0, 0) =~= Seq::<Entity>::empty());
            assert(all.subrange(0, 0) =~= Seq::<ChunkModel>::empty());
        }
        while k < chunks.len()
            invariant
                self.wf(),
                all == models_of(chunks@),
                all == self.chunks(),
                es == entities_of(all),
                to == pos + len,
                forall|i: int| 0 <= i < chunks@.len() ==> (#[trigger] chunks@[i]).wf(),
                k <= chunks@.len(),
                p == prefix_len(all, k as int),
                p <= es.len() <= ROPE_LIMIT,
                u == units_before(es, p as int, utf16),
                u <= units(text_of(es), utf16) <= ROPE_LIMIT,
                forall|j: int|
                    0 <= j < ranges@.len() ==> (#[trigger] ranges@[j]).start < ranges@[j].end
                        && ranges@[j].end <= p,
                forall|j: int|
                    0 <= j < ranges@.len() - 1 ==> (#[trigger] ranges@[j]).end < ranges@[j
                        + 1].start,
                forall|i: int|
                    0 <= i < p ==> (#[trigger] covered(ranges@, i) <==> es[i] is Char && pos
                        <= units_before(es, i, utf16) < to),
            decreases chunks@.len() - k,
        {
            let c = &chunks[k];
            let n = c.rle_len();
            let ghost before = ranges@;
            proof {
                lemma_inside_chunk(all, k as int, 0, utf16);
                lemma_inside_chunk(all, k as int, n as int, utf16);
                lemma_units_before_monotone(es, p + n, es.len() as int, utf16);
                assert(es.subrange(0, es.len() as int) =~= es);
                assert forall|i: int| i >= p implies !covered(before, i) by {
                    if covered(before, i) {
                        let j = choose|j: int|
                            0 <= j < before.len() && (#[trigger] before[j]).start <= i
                                < before[j].end;
                    }
                }
            }
            if c.is_text() {
                if n > 0 {
                    let o1 = c.seek_units(
                        if u >= pos {
                            0
                        } else {
                            pos - u
                        },
                        utf16,
                    );
                    let o2 = c.seek_units(
                        if u >= to {
                            0
                        } else {
                            to - u
                        },
                        utf16,
                    );
                    let ghost chars = all[k as int]->chars;
                    proof {
                        assert forall|i: int| p <= i < p + n implies (es[i] is Char && (o1 <= i
                            - p <==> pos <= #[trigger] units_before(es, i, utf16)) && (i - p < o2
                            <==> units_before(es, i, utf16) < to)) by {
                            let j = i - p;
                            lemma_inside_chunk(all, k as int, j, utf16);
                            if o1 <= j {
                                lemma_units_monotone(chars, o1 as int, j, utf16);
                            } else {
                                lemma_units_monotone(chars, j, o1 - 1, utf16);
                            }
                            if o2 <= j {
                                lemma_units_monotone(chars, o2 as int, j, utf16);
                            } else {
                                lemma_units_monotone(chars, j, o2 - 1, utf16);
                            }
                        }
                    }
                    if o1 < o2 {
                        let a = p + o1;
                        let b = p + o2;
                        let count = ranges.len();
                        if count > 0 && ranges[count - 1].end == a {
                            let last = ranges.pop().unwrap();
                            ranges.push(last.start..b);
                            proof {
                                assert(ranges@ =~= before.drop_last().push(
                                    before.last().start..b,
                                ));
                            }
                        } else {
                            ranges.push(a..b);
                        }
                        proof {
                            lemma_cover_grows(before, ranges@, a, b);
                        }
                    }
                    proof {
                        assert forall|i: int| 0 <= i < p + n implies (#[trigger] covered(
                            ranges@,
                            i,
                        ) <==> es[i] is Char && pos <= units_before(es, i, utf16) < to) by {
                            if i < p {
                                assert(covered(before, i) <==> es[i] is Char && pos
                                    <= units_before(es, i, utf16) < to);
                            } else {
                                assert(pos <= units_before(es, i, utf16) <==> o1 <= i - p);
                            }
                        }
                        lemma_text_of_chunk(all[k as int]);
                        assert(chars.subrange(0, n as int) =~= chars);
                    }
                    u = u + if utf16 {
                        c.utf16_len()
                    } else {
                        c.unicode_len()
                    };
                    p = p + n;
                }
            } else {
                proof {
                    assert forall|i: int| 0 <= i < p + 1 implies (#[trigger] covered(ranges@, i)
                        <==> es[i] is Char && pos <= units_before(es, i, utf16) < to) by {
                        if i < p {
                            assert(covered(before, i) <==> es[i] is Char && pos <= units_before(
                                es,
                                i,
                                utf16,
                            ) < to);
                        }
                    }
                }
                p = p + 1;
            }
            k = k + 1;
        }
        proof {
            assert(all.subrange(0, k as int) =~= all);
        }
        ranges
    }

    /// The runs of entities that are the characters `pos..pos + len` of the
    /// text.
    pub fn get_text_entity_ranges_in_unicode_range(&self, pos: usize, len: usize) -> (ranges: Vec<
        Range<usize>,
    >)
        requires
            self.wf(),
            pos + len <= usize::MAX,
        ensures
            is_text_cover(self.entities(), pos as int, pos + len, false, ranges@),
    {
        self.text_ranges(pos, len, false)
    }

    /// The runs of entities that are the characters that start in the UTF-16
    /// code units `pos..pos + len` of the text.
    pub fn get_text_entity_ranges_in_utf16_range(&self, pos: usize, len: usize) -> (ranges: Vec<
        Range<usize>,
    >)
        requires
            self.wf(),
            pos + len <= usize::MAX,
        ensures
            is_text_cover(self.entities(), pos as int, pos + len, true, ranges@),
    {
        self.text_ranges(pos, len, true)
    }
}

} // verus!
