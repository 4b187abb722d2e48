//! The snapshot of a rich-text state: its chunks as runs of text and runs of
//! style anchors, text by its range in the arena, styles with their peer and
//! key looked up in tables that are kept beside the snapshot.

use crate::arena::SharedArena;
use crate::bitmap::{bit_at, unpacked, BitMap};
use crate::byte_pool::POOL_LIMIT;
use crate::chunk::{
    backed_by, entities_of, is_backed, lemma_entities_concat, lemma_entities_one,
    lemma_text_of_chars, lemma_text_of_chunk, text_of, ChunkModel, Entity, RichtextStateChunk,
};
use crate::fx_maps::{anchor_entries, anchors_get, anchors_insert, anchors_new};
use crate::id::PeerID;
use crate::op::TextStyleInfoFlag;
use crate::richtext_state::{fits_rope, RichtextState, StateView};
use crate::rope::{lemma_metrics_concat, models_of, ROPE_LIMIT};
use crate::style::{AnchorType, StyleModel, StyleOp};
use crate::text_metrics::{lemma_counts_of_encoding, utf8_len};
use crate::value::InternalString;
use fxhash::FxHashMap;
use vstd::prelude::*;

verus! {

/// A style operation with its peer and key replaced by their places in the
/// tables. The counter is held as an unsigned number of 32 bits, so only a
/// style whose counter is not negative has a snapshot, and only a counter
/// that a style can have is read back.
#[derive(Clone, Copy, Debug, PartialEq, Eq, Structural)]
pub struct CompactStyleOp {
    pub peer_idx: u32,
    pub key_idx: u32,
    pub counter: u32,
    pub lamport: u32,
    pub style_info: u8,
}

/// The snapshot of a rich-text state. `len` holds the lengths of the runs of
/// chunks, a run of text first, runs of text and runs of style anchors taking
/// turns; `text` holds the range in the arena of each run of characters;
/// `styles` holds the style of each anchor; `is_style_start` holds one bit
/// for each anchor, set for a start anchor. The runs account for every range
/// and every style: a snapshot with ranges or styles left over is not
/// well-formed.
#[derive(Debug)]
pub struct EncodedRichtextState {
    pub len: Vec<u32>,
    pub text: Vec<(u32, u32)>,
    pub styles: Vec<CompactStyleOp>,
    pub is_style_start: Vec<u8>,
}

/// The table of peers that snapshots refer to.
#[derive(Debug)]
pub struct CommonArena {
    pub peer_ids: Vec<PeerID>,
}

/// The table of keys that snapshots refer to.
#[derive(Debug)]
pub struct TempArena {
    pub keywords: Vec<InternalString>,
}

impl CommonArena {
    pub fn new() -> (t: CommonArena)
        ensures
            t.peer_ids@ == Seq::<PeerID>::empty(),
    {
        CommonArena { peer_ids: Vec::new() }
    }

    /// The first place of `peer` in the table. A peer that is not there is
    /// entered at the end.
    pub fn record_peer(&mut self, peer: PeerID) -> (at: u32)
        requires
            old(self).peer_ids@.len() < u32::MAX,
        ensures
            old(self).peer_ids@.is_prefix_of(final(self).peer_ids@),
            final(self).peer_ids@.len() <= old(self).peer_ids@.len() + 1,
            at < final(self).peer_ids@.len(),
            final(self).peer_ids@[at as int] == peer,
            forall|j: int| 0 <= j < at ==> old(self).peer_ids@[j] != peer,
            at < old(self).peer_ids@.len() ==> final(self).peer_ids@ == old(self).peer_ids@,
            at >= old(self).peer_ids@.len() ==> final(self).peer_ids@ == old(self).peer_ids@.push(
                peer,
            ),
    {
        let mut i: usize = 0;
        while i < self.peer_ids.len()
            invariant
                i <= self.peer_ids@.len(),
                self.peer_ids@ == old(self).peer_ids@,
                self.peer_ids@.len() < u32::MAX,
                forall|j: int| 0 <= j < i ==> self.peer_ids@[j] != peer,
            decreases self.peer_ids@.len() - i,
        {
            if self.peer_ids[i] == peer {
                return i as u32;
            }
            i = i + 1;
        }
        self.peer_ids.push(peer);
        i as u32
    }
}

impl TempArena {
    pub fn new() -> (t: TempArena)
        ensures
            t.keywords@ == Seq::<InternalString>::empty(),
    {
        TempArena { keywords: Vec::new() }
    }

    /// The first place of `key` in the table. A key that is not there is
    /// entered at the end.
    pub fn record_key(&mut self, key: &InternalString) -> (at: usize)
        requires
            old(self).keywords@.len() < u32::MAX,
        ensures
            old(self).keywords@.is_prefix_of(final(self).keywords@),
            final(self).keywords@.len() <= old(self).keywords@.len() + 1,
            at < final(self).keywords@.len(),
            final(self).keywords@[at as int]@ == key@,
            forall|j: int| 0 <= j < at ==> old(self).keywords@[j]@ != key@,
            at < old(self).keywords@.len() ==> final(self).keywords@ == old(self).keywords@,
            at >= old(self).keywords@.len() ==> final(self).keywords@.len() == old(
                self,
            ).keywords@.len() + 1,
    {
        let mut i: usize = 0;
        while i < self.keywords.len()
            invariant
                i <= self.keywords@.len(),
                self.keywords@ == old(self).keywords@,
                forall|j: int| 0 <= j < i ==> self.keywords@[j]@ != key@,
            decreases self.keywords@.len() - i,
        {
            if self.keywords[i] == *key {
                return i;
            }
            i = i + 1;
        }
        self.keywords.push(key.clone());
        i
    }
}

/// One chunk as a snapshot holds it.
pub enum SnapshotItem {
    Text { start: u32, end: u32 },
    Style { op: StyleModel, anchor: AnchorType },
}

/// Whether run `r` is a run of text: the runs take turns, text first.
pub open spec fn run_is_text(r: int) -> bool {
    r % 2 == 0
}

/// The number of chunks in the runs of text.
pub open spec fn text_count(lens: Seq<u32>) -> nat
    decreases lens.len(),
{
    if lens.len() == 0 {
        0
    } else {
        text_count(lens.drop_last()) + (if run_is_text(lens.len() - 1) {
            lens.last() as nat
        } else {
            0
        })
    }
}

/// The number of chunks in the runs of style anchors.
pub open spec fn style_count(lens: Seq<u32>) -> nat
    decreases lens.len(),
{
    if lens.len() == 0 {
        0
    } else {
        style_count(lens.drop_last()) + (if run_is_text(lens.len() - 1) {
            0
        } else {
            lens.last() as nat
        })
    }
}

/// The chunks that runs of the lengths `lens` stand for, in order, the text
/// taken from `texts` and the styles from `styles` as they come.
pub open spec fn runs_items(
    lens: Seq<u32>,
    texts: Seq<(u32, u32)>,
    styles: Seq<(StyleModel, AnchorType)>,
) -> Seq<SnapshotItem>
    decreases lens.len(), (if lens.len() > 0 {
        lens.last() as int
    } else {
        0
    }),
{
    if lens.len() == 0 {
        Seq::empty()
    } else if lens.last() == 0 {
        runs_items(lens.drop_last(), texts, styles)
    } else {
        let shorter = lens.drop_last().push((lens.last() - 1) as u32);
        if run_is_text(lens.len() - 1) {
            if texts.len() == 0 {
                Seq::empty()
            } else {
                runs_items(shorter, texts.drop_last(), styles).push(
                    SnapshotItem::Text { start: texts.last().0, end: texts.last().1 },
                )
            }
        } else {
            if styles.len() == 0 {
                Seq::empty()
            } else {
                runs_items(shorter, texts, styles.drop_last()).push(
                    SnapshotItem::Style { op: styles.last().0, anchor: styles.last().1 },
                )
            }
        }
    }
}

/// The style of an anchor, its peer and key looked up in the tables.
pub open spec fn resolved_style(
    op: CompactStyleOp,
    is_start: bool,
    peers: Seq<PeerID>,
    keys: Seq<InternalString>,
) -> (StyleModel, AnchorType) {
    (
        StyleModel {
            lamport: op.lamport,
            peer: peers[op.peer_idx as int],
            cnt: op.counter as i32,
            key: keys[op.key_idx as int]@,
            info: TextStyleInfoFlag { data: op.style_info },
        },
        if is_start {
            AnchorType::Start
        } else {
            AnchorType::End
        },
    )
}

pub open spec fn resolved_at(
    styles: Seq<CompactStyleOp>,
    starts: Seq<bool>,
    peers: Seq<PeerID>,
    keys: Seq<InternalString>,
    i: int,
) -> (StyleModel, AnchorType) {
    resolved_style(styles[i], starts[i], peers, keys)
}

/// The styles of all anchors, in order.
pub open spec fn resolved_styles(
    styles: Seq<CompactStyleOp>,
    starts: Seq<bool>,
    peers: Seq<PeerID>,
    keys: Seq<InternalString>,
) -> Seq<(StyleModel, AnchorType)> {
    Seq::new(styles.len(), |i: int| resolved_at(styles, starts, peers, keys, i))
}

/// A chunk as a snapshot holds it.
pub open spec fn item_of(chunk: ChunkModel) -> SnapshotItem {
    match chunk {
        ChunkModel::Text { chars, start } => SnapshotItem::Text {
            start: start as u32,
            end: (start + chars.len()) as u32,
        },
        ChunkModel::Style { op, anchor } => SnapshotItem::Style { op, anchor },
    }
}

pub open spec fn item_at(chunks: Seq<ChunkModel>, i: int) -> SnapshotItem {
    item_of(chunks[i])
}

/// The chunks as a snapshot holds them.
pub open spec fn items_of(chunks: Seq<ChunkModel>) -> Seq<SnapshotItem> {
    Seq::new(chunks.len(), |i: int| item_at(chunks, i))
}

/// The chunk that a snapshot's item stands for, its text read from the
/// arena's text `interned`.
pub open spec fn chunk_of(item: SnapshotItem, interned: Seq<char>) -> ChunkModel {
    match item {
        SnapshotItem::Text { start, end } => ChunkModel::Text {
            chars: interned.subrange(start as int, end as int),
            start: start as nat,
        },
        SnapshotItem::Style { op, anchor } => ChunkModel::Style { op, anchor },
    }
}

pub open spec fn chunk_at(items: Seq<SnapshotItem>, interned: Seq<char>, i: int) -> ChunkModel {
    chunk_of(items[i], interned)
}

/// The chunks that a snapshot's items stand for.
pub open spec fn chunks_of(items: Seq<SnapshotItem>, interned: Seq<char>) -> Seq<ChunkModel> {
    Seq::new(items.len(), |i: int| chunk_at(items, interned, i))
}

/// Whether the counter of each style fits the snapshot's field for it.
pub open spec fn counters_fit(chunks: Seq<ChunkModel>) -> bool {
    forall|i: int|
        0 <= i < chunks.len() ==> (#[trigger] chunks[i] matches ChunkModel::Style { op, .. }
            ==> op.cnt >= 0)
}

/// The number of characters in the ranges.
pub open spec fn range_chars(texts: Seq<(u32, u32)>) -> nat
    decreases texts.len(),
{
    if texts.len() == 0 {
        0
    } else {
        range_chars(texts.drop_last()) + (if texts.last().0 <= texts.last().1 {
            (texts.last().1 - texts.last().0) as nat
        } else {
            0
        })
    }
}

impl EncodedRichtextState {
    /// Which anchors are start anchors.
    pub open spec fn starts(&self) -> Seq<bool> {
        unpacked(self.is_style_start@, self.styles@.len())
    }

    /// The chunks the snapshot holds, in order.
    pub open spec fn items(
        &self,
        peers: Seq<PeerID>,
        keys: Seq<InternalString>,
    ) -> Seq<SnapshotItem> {
        runs_items(self.len@, self.text@, resolved_styles(self.styles@, self.starts(), peers, keys))
    }

    /// Whether the snapshot holds together: the runs account for every range
    /// of text and every style, there is a bit for every style, and every
    /// style finds its peer and its key in tables of the lengths `peers` and
    /// `keys`.
    pub open spec fn wf(&self, peers: nat, keys: nat) -> bool {
        &&& text_count(self.len@) == self.text@.len()
        &&& style_count(self.len@) == self.styles@.len()
        &&& self.styles@.len() <= self.is_style_start@.len() * 8
        &&& forall|i: int|
            0 <= i < self.styles@.len() ==> (#[trigger] self.styles@[i]).peer_idx < peers
                && self.styles@[i].key_idx < keys && self.styles@[i].counter <= i32::MAX
    }

    /// Whether no run but the first is empty: the runs are as few as they
    /// can be.
    pub open spec fn is_canonical(&self) -> bool {
        forall|r: int| 1 <= r < self.len@.len() ==> #[trigger] self.len@[r] > 0
    }
}

pub proof fn lemma_runs_skip_empty(
    lens: Seq<u32>,
    texts: Seq<(u32, u32)>,
    styles: Seq<(StyleModel, AnchorType)>,
)
    ensures
        runs_items(lens.push(0), texts, styles) == runs_items(lens, texts, styles),
        text_count(lens.push(0)) == text_count(lens),
        style_count(lens.push(0)) == style_count(lens),
{
    assert(lens.push(0).drop_last() =~= lens);
}

/// One more chunk of text at the end of the last run, which is a run of
/// text.
pub proof fn lemma_runs_more_text(
    lens: Seq<u32>,
    n: u32,
    texts: Seq<(u32, u32)>,
    styles: Seq<(StyleModel, AnchorType)>,
    t: (u32, u32),
)
    requires
        run_is_text(lens.len() as int),
        n < u32::MAX,
    ensures
        runs_items(lens.push((n + 1) as u32), texts.push(t), styles) == runs_items(
            lens.push(n),
            texts,
            styles,
        ).push(SnapshotItem::Text { start: t.0, end: t.1 }),
        text_count(lens.push((n + 1) as u32)) == text_count(lens.push(n)) + 1,
        style_count(lens.push((n + 1) as u32)) == style_count(lens.push(n)),
{
    let now = lens.push((n + 1) as u32);
    assert(now.drop_last() =~= lens);
    assert(lens.push(n).drop_last() =~= lens);
    assert(now.drop_last().push((now.last() - 1) as u32) =~= lens.push(n));
    assert(texts.push(t).drop_last() =~= texts);
}

/// One more style anchor at the end of the last run, which is a run of
/// style anchors.
pub proof fn lemma_runs_more_style(
    lens: Seq<u32>,
    n: u32,
    texts: Seq<(u32, u32)>,
    styles: Seq<(StyleModel, AnchorType)>,
    s: (StyleModel, AnchorType),
)
    requires
        !run_is_text(lens.len() as int),
        n < u32::MAX,
    ensures
        runs_items(lens.push((n + 1) as u32), texts, styles.push(s)) == runs_items(
            lens.push(n),
            texts,
            styles,
        ).push(SnapshotItem::Style { op: s.0, anchor: s.1 }),
        text_count(lens.push((n + 1) as u32)) == text_count(lens.push(n)),
        style_count(lens.push((n + 1) as u32)) == style_count(lens.push(n)) + 1,
{
    let now = lens.push((n + 1) as u32);
    assert(now.drop_last() =~= lens);
    assert(lens.push(n).drop_last() =~= lens);
    assert(now.drop_last().push((now.last() - 1) as u32) =~= lens.push(n));
    assert(styles.push(s).drop_last() =~= styles);
}

/// A snapshot taken of chunks that are views of the arena stands for those
/// chunks.
pub proof fn lemma_chunks_of_items(chunks: Seq<ChunkModel>, interned: Seq<char>)
    requires
        backed_by(chunks, interned),
        interned.len() <= POOL_LIMIT,
    ensures
        chunks_of(items_of(chunks), interned) == chunks,
{
    assert forall|i: int| 0 <= i < chunks.len() implies chunk_at(items_of(chunks), interned, i)
        == chunks[i] by {
        let c = chunks[i];
        assert(is_backed(c, interned));
        assert(item_at(chunks, i) == item_of(c));
    }
    assert(chunks_of(items_of(chunks), interned) =~= chunks);
}

/// The runs up to some run account for no more chunks than all runs do.
pub proof fn lemma_counts_of_prefix(lens: Seq<u32>, r: int)
    requires
        0 <= r <= lens.len(),
    ensures
        text_count(lens.subrange(0, r)) <= text_count(lens),
        style_count(lens.subrange(0, r)) <= style_count(lens),
        r < lens.len() ==> text_count(lens.subrange(0, r + 1)) == text_count(lens.subrange(0, r))
            + (if run_is_text(r) {
            lens[r] as nat
        } else {
            0
        }),
        r < lens.len() ==> style_count(lens.subrange(0, r + 1)) == style_count(
            lens.subrange(0, r),
        ) + (if run_is_text(r) {
            0
        } else {
            lens[r] as nat
        }),
    decreases lens.len() - r,
{
    if r == lens.len() {
        assert(lens.subrange(0, r) =~= lens);
    } else {
        assert(lens.subrange(0, r + 1).drop_last() =~= lens.subrange(0, r));
        lemma_counts_of_prefix(lens, r + 1);
    }
}

/// The number of bytes that the characters in the ranges take in the
/// arena's text `interned`.
pub open spec fn range_bytes(texts: Seq<(u32, u32)>, interned: Seq<char>) -> nat
    decreases texts.len(),
{
    if texts.len() == 0 {
        0
    } else {
        range_bytes(texts.drop_last(), interned) + (if texts.last().0 <= texts.last().1
            <= interned.len() {
            utf8_len(interned.subrange(texts.last().0 as int, texts.last().1 as int))
        } else {
            0
        })
    }
}

/// The first ranges take no more bytes than all ranges do.
pub proof fn lemma_range_bytes_of_prefix(texts: Seq<(u32, u32)>, interned: Seq<char>, t: int)
    requires
        0 <= t <= texts.len(),
    ensures
        range_bytes(texts.subrange(0, t), interned) <= range_bytes(texts, interned),
        t < texts.len() ==> range_bytes(texts.subrange(0, t + 1), interned) == range_bytes(
            texts.subrange(0, t),
            interned,
        ) + (if texts[t].0 <= texts[t].1 <= interned.len() {
            utf8_len(interned.subrange(texts[t].0 as int, texts[t].1 as int))
        } else {
            0
        }),
    decreases texts.len() - t,
{
    if t == texts.len() {
        assert(texts.subrange(0, t) =~= texts);
    } else {
        assert(texts.subrange(0, t + 1).drop_last() =~= texts.subrange(0, t));
        lemma_range_bytes_of_prefix(texts, interned, t + 1);
    }
}

/// The places in the arena of the runs of characters among the chunks, in
/// order.
pub open spec fn text_ranges_of(chunks: Seq<ChunkModel>) -> Seq<(u32, u32)>
    decreases chunks.len(),
{
    if chunks.len() == 0 {
        Seq::empty()
    } else {
        match chunks.last() {
            ChunkModel::Text { chars, start } => text_ranges_of(chunks.drop_last()).push(
                (start as u32, (start + chars.len()) as u32),
            ),
            _ => text_ranges_of(chunks.drop_last()),
        }
    }
}

/// The number of anchors among the chunks.
pub open spec fn anchors_in(chunks: Seq<ChunkModel>) -> nat
    decreases chunks.len(),
{
    if chunks.len() == 0 {
        0
    } else {
        anchors_in(chunks.drop_last()) + (if chunks.last() is Style {
            1nat
        } else {
            0nat
        })
    }
}

/// What the ranges of chunks that are views of the arena's text are: each
/// lies within the text, and together with the anchors they are as many
/// entities, and take as many bytes, as the chunks.
pub proof fn lemma_ranges_of_chunks(chunks: Seq<ChunkModel>, interned: Seq<char>)
    requires
        backed_by(chunks, interned),
        interned.len() <= POOL_LIMIT,
    ensures
        forall|i: int|
            0 <= i < text_ranges_of(chunks).len() ==> (#[trigger] text_ranges_of(chunks)[i]).0
                <= text_ranges_of(chunks)[i].1 <= interned.len(),
        range_chars(text_ranges_of(chunks)) + anchors_in(chunks) == entities_of(chunks).len(),
        range_bytes(text_ranges_of(chunks), interned) == utf8_len(text_of(entities_of(chunks))),
    decreases chunks.len(),
{
    if chunks.len() == 0 {
        assert(entities_of(chunks) =~= Seq::<Entity>::empty());
        lemma_metrics_concat(Seq::<Entity>::empty(), Seq::<Entity>::empty());
        assert(Seq::<Entity>::empty() + Seq::<Entity>::empty() =~= Seq::<Entity>::empty());
    } else {
        let rest = chunks.drop_last();
        let c = chunks.last();
        assert(backed_by(rest, interned)) by {
            assert forall|i: int| 0 <= i < rest.len() implies is_backed(
                #[trigger] rest[i],
                interned,
            ) by {
                assert(rest[i] == chunks[i]);
            }
        }
        lemma_ranges_of_chunks(rest, interned);
        assert(chunks =~= rest + seq![c]);
        crate::chunk::lemma_entities_concat(rest, seq![c]);
        lemma_entities_one(c);
        lemma_metrics_concat(entities_of(rest), c.entities());
        lemma_text_of_chunk(c);
        assert(chunks[chunks.len() - 1] == c);
        assert(is_backed(c, interned));
        let ranges = text_ranges_of(rest);
        match c {
            ChunkModel::Text { chars, start } => {
                let r = (start as u32, (start + chars.len()) as u32);
                assert(chars == interned.subrange(start as int, (start + chars.len()) as int));
                assert(text_ranges_of(chunks) == ranges.push(r));
                assert(ranges.push(r).drop_last() =~= ranges);
                assert(ranges.push(r).last() == r);
                assert(c.entities().len() == chars.len());
                assert(text_of(c.entities()) == chars);
            },
            _ => {
                assert(text_ranges_of(chunks) == ranges);
                assert(c.entities().len() == 1);
                assert(text_of(c.entities()) == Seq::<char>::empty());
                assert(utf8_len(Seq::<char>::empty()) == 0) by {
                    lemma_counts_of_encoding(Seq::<char>::empty());
                }
            },
        }
        assert(entities_of(chunks) == entities_of(rest) + c.entities());
    }
}

/// There are no more anchors among the chunks than entities.
pub proof fn lemma_anchors_bound(chunks: Seq<ChunkModel>)
    ensures
        anchors_in(chunks) <= entities_of(chunks).len(),
    decreases chunks.len(),
{
    if chunks.len() > 0 {
        let rest = chunks.drop_last();
        let c = chunks.last();
        lemma_anchors_bound(rest);
        assert(chunks =~= rest + seq![c]);
        crate::chunk::lemma_entities_concat(rest, seq![c]);
        lemma_entities_one(c);
    }
}

/// The first ranges hold no more characters than all ranges do.
pub proof fn lemma_range_chars_of_prefix(texts: Seq<(u32, u32)>, t: int)
    requires
        0 <= t <= texts.len(),
    ensures
        range_chars(texts.subrange(0, t)) <= range_chars(texts),
        t < texts.len() ==> range_chars(texts.subrange(0, t + 1)) == range_chars(
            texts.subrange(0, t),
        ) + (if texts[t].0 <= texts[t].1 {
            (texts[t].1 - texts[t].0) as nat
        } else {
            0
        }),
    decreases texts.len() - t,
{
    if t == texts.len() {
        assert(texts.subrange(0, t) =~= texts);
    } else {
        assert(texts.subrange(0, t + 1).drop_last() =~= texts.subrange(0, t));
        lemma_range_chars_of_prefix(texts, t + 1);
    }
}

/// What loading a chunk records: the end anchor of a style whose start
/// anchor was loaded before has the style recorded from the start anchor up
/// to and including itself.
pub open spec fn loaded_annotations(
    before: Seq<crate::rope::StyleRange>,
    starts: Map<(u64, i32), usize>,
    elem: ChunkModel,
    at: nat,
) -> Seq<crate::rope::StyleRange> {
    match elem {
        ChunkModel::Style { op, anchor: AnchorType::End } => if starts.contains_key(
            (op.peer, op.cnt),
        ) {
            before.push(
                crate::rope::StyleRange {
                    start: starts[(op.peer, op.cnt)],
                    end: (at + 1) as usize,
                    style: op.id(),
                },
            )
        } else {
            before
        },
        _ => before,
    }
}

/// Where the start anchors stand once a chunk has been loaded at entity
/// `at`.
pub open spec fn loaded_starts(
    starts: Map<(u64, i32), usize>,
    elem: ChunkModel,
    at: nat,
) -> Map<(u64, i32), usize> {
    match elem {
        ChunkModel::Style { op, anchor: AnchorType::Start } => starts.insert(
            (op.peer, op.cnt),
            at as usize,
        ),
        _ => starts,
    }
}

/// What loading the chunks, one after another, behind the chunks `base`
/// records, and where the start anchors among them stand.
pub open spec fn loaded_all(
    before: Seq<crate::rope::StyleRange>,
    base: Seq<ChunkModel>,
    chunks: Seq<ChunkModel>,
) -> (Seq<crate::rope::StyleRange>, Map<(u64, i32), usize>)
    decreases chunks.len(),
{
    if chunks.len() == 0 {
        (before, Map::empty())
    } else {
        let so_far = loaded_all(before, base, chunks.drop_last());
        let at = entities_of(base + chunks.drop_last()).len();
        (
            loaded_annotations(so_far.0, so_far.1, chunks.last(), at),
            loaded_starts(so_far.1, chunks.last(), at),
        )
    }
}

/// Appends a chunk to a state that is being loaded. `anchors` holds the
/// places of the start anchors loaded so far.
pub fn load_elem(
    state: &mut RichtextState,
    anchors: &mut FxHashMap<(u64, i32), usize>,
    elem: RichtextStateChunk,
)
    requires
        old(state).wf(),
        !old(state)@.in_txn,
        elem.wf(),
        fits_rope(old(state)@.entities + elem@.entities()),
        forall|key: (u64, i32)|
            anchor_entries(*old(anchors)).contains_key(key) ==> #[trigger] anchor_entries(
                *old(anchors),
            )[key] <= old(state)@.entities.len(),
    ensures
        final(state).wf(),
        final(state).container() == old(state).container(),
        final(state).chunks() == old(state).chunks().push(elem@),
        final(state)@ == (StateView {
            entities: old(state)@.entities + elem@.entities(),
            rollback: old(state)@.entities + elem@.entities(),
            in_txn: false,
        }),
        anchor_entries(*final(anchors)) == loaded_starts(
            anchor_entries(*old(anchors)),
            elem@,
            old(state)@.entities.len(),
        ),
        final(state).annotations() == loaded_annotations(
            old(state).annotations(),
            anchor_entries(*old(anchors)),
            elem@,
            old(state)@.entities.len(),
        ),
        forall|interned: Seq<char>|
            #![trigger old(state).backed(interned)]
            #![trigger final(state).backed(interned)]
            old(state).backed(interned) && is_backed(elem@, interned) ==> final(state).backed(
                interned,
            ),
        forall|key: (u64, i32)|
            anchor_entries(*final(anchors)).contains_key(key) ==> #[trigger] anchor_entries(
                *final(anchors),
            )[key] <= final(state)@.entities.len(),
{
    let ghost begun = *state;
    let ghost model = elem@;
    let pos = state.len_entity();
    let mut closing: Option<(usize, StyleOp)> = None;
    match &elem {
        RichtextStateChunk::Style { style, anchor_type } => match anchor_type {
            AnchorType::Start => {
                anchors_insert(anchors, (style.peer, style.cnt), pos);
            },
            AnchorType::End => {
                match anchors_get(anchors, (style.peer, style.cnt)) {
                    Some(start) => {
                        closing = Some((start, style.duplicate()));
                    },
                    None => {},
                }
            },
        },
        RichtextStateChunk::Text { .. } => {},
    }
    proof {
        lemma_entities_one(elem@);
        state.lemma_wf();
    }
    state.push_chunk(elem);
    let ghost pushed = *state;
    match closing {
        Some((start, style)) => {
            state.annotate_style_range(start..pos + 1, &style);
        },
        None => {},
    }
    proof {
        assert forall|interned: Seq<char>| #[trigger]
            begun.backed(interned) && is_backed(model, interned) implies state.backed(
            interned,
        ) by {
            assert(pushed.backed(interned));
            pushed.lemma_backed(interned);
            state.lemma_backed(interned);
        }
    }
}

/// Appends chunks to a state that is being loaded, and records each style
/// when its end anchor arrives.
pub struct RichtextStateLoader<'a> {
    pub state: &'a mut RichtextState,
    pub start_anchor_pos: FxHashMap<(u64, i32), usize>,
}

impl<'a> RichtextStateLoader<'a> {
    pub open spec fn wf(&self) -> bool {
        &&& self.state.wf()
        &&& !self.state@.in_txn
        &&& forall|key: (u64, i32)|
            anchor_entries(self.start_anchor_pos).contains_key(key) ==> #[trigger] anchor_entries(
                self.start_anchor_pos,
            )[key] <= self.state@.entities.len()
    }

    /// Appends a chunk.
    pub fn push(&mut self, elem: RichtextStateChunk)
        requires
            old(self).wf(),
            elem.wf(),
            fits_rope(old(self).state@.entities + elem@.entities()),
        ensures
            final(self).wf(),
            *final(final(self).state) == *final(old(self).state),
            final(self).state.container() == old(self).state.container(),
            final(self).state.chunks() == old(self).state.chunks().push(elem@),
            final(self).state@.entities == old(self).state@.entities + elem@.entities(),
            final(self).state.annotations() == loaded_annotations(
                old(self).state.annotations(),
                anchor_entries(old(self).start_anchor_pos),
                elem@,
                old(self).state@.entities.len(),
            ),
            forall|interned: Seq<char>|
                #![trigger old(self).state.backed(interned)]
                #![trigger final(self).state.backed(interned)]
                old(self).state.backed(interned) && is_backed(elem@, interned)
                    ==> final(self).state.backed(interned),
    {
        load_elem(self.state, &mut self.start_anchor_pos, elem);
    }
}

impl RichtextState {
    /// A loader that appends to this state. The state must be outside any
    /// transaction.
    pub fn get_loader(&mut self) -> (loader: RichtextStateLoader<'_>)
        requires
            old(self).wf(),
            !old(self)@.in_txn,
        ensures
            loader.wf(),
            *loader.state == *old(self),
            *final(loader.state) == *final(self),
    {
        RichtextStateLoader { state: self, start_anchor_pos: anchors_new() }
    }

    /// The snapshot of the state. Each style's peer and key are looked up in
    /// the tables, and entered there if need be.
    pub fn encode_snapshot(&self, common: &mut CommonArena, temp: &mut TempArena) -> (enc:
        EncodedRichtextState)
        requires
            self.wf(),
            counters_fit(self.chunks()),
            old(common).peer_ids@.len() + self.chunks().len() + 16 < u32::MAX,
            old(temp).keywords@.len() + self.chunks().len() + 16 < u32::MAX,
        ensures
            old(common).peer_ids@.is_prefix_of(final(common).peer_ids@),
            old(temp).keywords@.is_prefix_of(final(temp).keywords@),
            enc.wf(final(common).peer_ids@.len(), final(temp).keywords@.len()),
            enc.is_canonical(),
            enc.items(final(common).peer_ids@, final(temp).keywords@) == items_of(self.chunks()),
            enc.is_style_start@.len() == (enc.styles@.len() + 7) / 8,
            enc.is_style_start@.len() <= 0x0fff_ffff,
            enc.text@ == text_ranges_of(self.chunks()),
            enc.styles@.len() == anchors_in(self.chunks()),
            self.chunks().len() == 0 ==> enc.len@.len() == 0,
    {
        let chunks = self.iter_chunk();
        let ghost all = self.chunks();
        let mut len: Vec<u32> = Vec::new();
        let mut text_ranges: Vec<(u32, u32)> = Vec::new();
        let mut styles: Vec<CompactStyleOp> = Vec::new();
        let mut is_style_start = BitMap::new();
        let mut is_last_style = false;
        let mut k: usize = 0;
        proof {
            self.lemma_wf();
            assert(all.subrange(0, 0) =~= Seq::<ChunkModel>::empty());
            assert(items_of(all.subrange(0, 0)) =~= Seq::<SnapshotItem>::empty());
        }
        while k < chunks.len()
            invariant
                all == models_of(chunks@),
                all == self.chunks(),
                counters_fit(all),
                forall|i: int| 0 <= i < chunks@.len() ==> (#[trigger] chunks@[i]).wf(),
                k <= chunks@.len(),
                old(common).peer_ids@.is_prefix_of(common.peer_ids@),
                old(temp).keywords@.is_prefix_of(temp.keywords@),
                common.peer_ids@.len() <= old(common).peer_ids@.len() + k,
                temp.keywords@.len() <= old(temp).keywords@.len() + k,
                old(common).peer_ids@.len() + all.len() + 16 < u32::MAX,
                old(temp).keywords@.len() + all.len() + 16 < u32::MAX,
                is_style_start.wf(),
                len@.len() <= k + 1,
                k == 0 ==> len@.len() == 0,
                text_ranges@ == text_ranges_of(all.subrange(0, k as int)),
                styles@.len() == anchors_in(all.subrange(0, k as int)),
                forall|r: int| 0 <= r < len@.len() ==> #[trigger] len@[r] <= k,
                forall|r: int| 1 <= r < len@.len() ==> #[trigger] len@[r] > 0,
                is_last_style == (len@.len() > 0 && !run_is_text(len@.len() - 1)),
                text_ranges@.len() == text_count(len@),
                styles@.len() == style_count(len@),
                styles@.len() == is_style_start.bits().len(),
                styles@.len() <= k,
                forall|i: int|
                    0 <= i < styles@.len() ==> (#[trigger] styles@[i]).peer_idx
                        < common.peer_ids@.len() && styles@[i].key_idx < temp.keywords@.len()
                        && styles@[i].counter <= i32::MAX,
                runs_items(
                    len@,
                    text_ranges@,
                    resolved_styles(
                        styles@,
                        is_style_start.bits(),
                        common.peer_ids@,
                        temp.keywords@,
                    ),
                ) == items_of(all.subrange(0, k as int)),
            decreases chunks@.len() - k,
        {
            let ghost lens = len@;
            let ghost texts = text_ranges@;
            let ghost resolved = resolved_styles(
                styles@,
                is_style_start.bits(),
                common.peer_ids@,
                temp.keywords@,
            );
            proof {
                assert(items_of(all.subrange(0, k + 1)) =~= items_of(
                    all.subrange(0, k as int),
                ).push(item_of(all[k as int])));
                assert(all.subrange(0, k + 1).drop_last() =~= all.subrange(0, k as int));
                assert(all.subrange(0, k + 1).last() == all[k as int]);
                assert(all[k as int] == chunks@[k as int]@);
            }
            match &chunks[k] {
                RichtextStateChunk::Text { unicode_start, unicode_len, .. } => {
                    let t = (*unicode_start, *unicode_start + *unicode_len);
                    if is_last_style || len.len() == 0 {
                        len.push(1);
                        proof {
                            lemma_runs_more_text(lens, 0, texts, resolved, t);
                            lemma_runs_skip_empty(lens, texts, resolved);
                        }
                    } else {
                        let n = len.pop().unwrap();
                        len.push(n + 1);
                        proof {
                            assert(lens.drop_last().push(n) =~= lens);
                            lemma_runs_more_text(lens.drop_last(), n, texts, resolved, t);
                        }
                    }
                    is_last_style = false;
                    text_ranges.push(t);
                },
                RichtextStateChunk::Style { style, anchor_type } => {
                    let is_start = match anchor_type {
                        AnchorType::Start => true,
                        AnchorType::End => false,
                    };
                    let ghost bits = is_style_start.bits();
                    let ghost compact = styles@;
                    let ghost peers = common.peer_ids@;
                    let ghost keys = temp.keywords@;
                    let peer_idx = common.record_peer(style.peer);
                    let key_idx = temp.record_key(&style.key) as u32;
                    let op = CompactStyleOp {
                        peer_idx,
                        key_idx,
                        counter: style.cnt as u32,
                        lamport: style.lamport,
                        style_info: style.info.to_u8(),
                    };
                    is_style_start.push(is_start);
                    styles.push(op);
                    let ghost s = (style@, *anchor_type);
                    let ghost next = resolved_styles(
                        styles@,
                        is_style_start.bits(),
                        common.peer_ids@,
                        temp.keywords@,
                    );
                    proof {
                        assert(all[k as int] == chunks@[k as int]@);
                        assert(next =~= resolved.push(s));
                    }
                    if is_last_style {
                        let n = len.pop().unwrap();
                        len.push(n + 1);
                        proof {
                            assert(lens.drop_last().push(n) =~= lens);
                            lemma_runs_more_style(lens.drop_last(), n, texts, resolved, s);
                        }
                    } else {
                        if len.len() == 0 {
                            len.push(0);
                        }
                        let ghost padded = len@;
                        len.push(1);
                        proof {
                            lemma_runs_skip_empty(lens, texts, resolved);
                            lemma_runs_more_style(padded, 0, texts, resolved, s);
                            lemma_runs_skip_empty(padded, texts, resolved);
                        }
                    }
                    is_last_style = true;
                },
            }
            k = k + 1;
        }
        proof {
            assert(all.subrange(0, k as int) =~= all);
            lemma_anchors_bound(all);
            self.lemma_wf();
        }
        let ghost bits = is_style_start.bits();
        let bytes = is_style_start.into_vec();
        proof {
            assert(unpacked(bytes@, styles@.len()) =~= bits);
        }
        EncodedRichtextState { len, text: text_ranges, styles, is_style_start: bytes }
    }

    /// Loads the chunks of a snapshot after those the state holds. Text is
    /// read from `arena`, peers and keys from the tables.
    pub fn decode_snapshot(
        &mut self,
        enc: EncodedRichtextState,
        state_arena: &TempArena,
        common: &CommonArena,
        arena: &SharedArena,
    )
        requires
            old(self).wf(),
            !old(self)@.in_txn,
            arena.wf(),
            enc.wf(common.peer_ids@.len(), state_arena.keywords@.len()),
            enc.is_style_start@.len() <= 0x0fff_ffff,
            forall|i: int|
                0 <= i < enc.text@.len() ==> (#[trigger] enc.text@[i]).0 <= enc.text@[i].1
                    <= arena.text().len(),
            old(self)@.entities.len() + range_chars(enc.text@) + enc.styles@.len() <= ROPE_LIMIT,
            utf8_len(old(self)@.text()) + range_bytes(enc.text@, arena.text()) <= ROPE_LIMIT,
        ensures
            final(self).wf(),
            !final(self)@.in_txn,
            final(self).container() == old(self).container(),
            final(self).chunks() == old(self).chunks() + chunks_of(
                enc.items(common.peer_ids@, state_arena.keywords@),
                arena.text(),
            ),
            final(self).annotations() == loaded_all(
                old(self).annotations(),
                old(self).chunks(),
                chunks_of(enc.items(common.peer_ids@, state_arena.keywords@), arena.text()),
            ).0,
            old(self).backed(arena.text()) ==> final(self).backed(arena.text()),
    {
        let ghost notes = self.annotations();
        let EncodedRichtextState { len, text, styles, is_style_start } = enc;
        let ghost peers = common.peer_ids@;
        let ghost keys = state_arena.keywords@;
        let ghost interned = arena.text();
        let ghost base = self.chunks();
        let ghost base_entities = self@.entities.len();
        let ghost base_bytes = utf8_len(self@.text());
        let ghost resolved = resolved_styles(
            styles@,
            unpacked(is_style_start@, styles@.len()),
            peers,
            keys,
        );
        let bit_len = is_style_start.len() * 8;
        let ghost packed = is_style_start@;
        let is_style_start = BitMap::from_vec(is_style_start, bit_len);
        let mut anchors = anchors_new();
        let mut is_text = true;
        let mut text_index: usize = 0;
        let mut style_index: usize = 0;
        let mut r: usize = 0;
        proof {
            assert(len@.subrange(0, 0) =~= Seq::<u32>::empty());
            assert(text@.subrange(0, 0) =~= Seq::<(u32, u32)>::empty());
            assert(chunks_of(Seq::<SnapshotItem>::empty(), interned) =~= Seq::<
                ChunkModel,
            >::empty());
            assert(base + Seq::<ChunkModel>::empty() =~= base);
            assert(base.subrange(base.len() as int, base.len() as int) =~= Seq::<
                ChunkModel,
            >::empty());
            self.lemma_wf();
        }
        while r < len.len()
            invariant
                self.wf(),
                !self@.in_txn,
                arena.wf(),
                interned == arena.text(),
                peers == common.peer_ids@,
                keys == state_arena.keywords@,
                self.container() == old(self).container(),
                is_style_start.wf(),
                is_style_start.bits() == unpacked(packed, (packed.len() * 8) as nat),
                styles@.len() <= packed.len() * 8,
                resolved == resolved_styles(
                    styles@,
                    unpacked(packed, styles@.len()),
                    peers,
                    keys,
                ),
                text_count(len@) == text@.len(),
                style_count(len@) == styles@.len(),
                forall|i: int|
                    0 <= i < styles@.len() ==> (#[trigger] styles@[i]).peer_idx < peers.len()
                        && styles@[i].key_idx < keys.len() && styles@[i].counter <= i32::MAX,
                forall|i: int|
                    0 <= i < text@.len() ==> (#[trigger] text@[i]).0 <= text@[i].1
                        <= interned.len(),
                base_entities + range_chars(text@) + styles@.len() <= ROPE_LIMIT,
                base_bytes + range_bytes(text@, interned) <= ROPE_LIMIT,
                r <= len@.len(),
                is_text == run_is_text(r as int),
                text_index == text_count(len@.subrange(0, r as int)),
                style_index == style_count(len@.subrange(0, r as int)),
                self@.entities.len() == base_entities + range_chars(
                    text@.subrange(0, text_index as int),
                ) + style_index,
                utf8_len(self@.text()) == base_bytes + range_bytes(
                    text@.subrange(0, text_index as int),
                    interned,
                ),
                forall|key: (u64, i32)|
                    anchor_entries(anchors).contains_key(key) ==> #[trigger] anchor_entries(
                        anchors,
                    )[key] <= self@.entities.len(),
                text.len() == text@.len(),
                old(self).backed(interned) ==> self.backed(interned),
                styles.len() == styles@.len(),
                base.len() <= self.chunks().len(),
                loaded_all(
                    notes,
                    base,
                    self.chunks().subrange(base.len() as int, self.chunks().len() as int),
                ) == (self.annotations(), anchor_entries(anchors)),
                self.chunks() == base + chunks_of(
                    runs_items(
                        len@.subrange(0, r as int),
                        text@.subrange(0, text_index as int),
                        resolved.subrange(0, style_index as int),
                    ),
                    interned,
                ),
            decreases len@.len() - r,
        {
            let n = len[r];
            let ghost done = len@.subrange(0, r as int);
            let mut j: u32 = 0;
            proof {
                lemma_counts_of_prefix(len@, r as int);
                lemma_counts_of_prefix(len@, r + 1);
                lemma_runs_skip_empty(
                    done,
                    text@.subrange(0, text_index as int),
                    resolved.subrange(0, style_index as int),
                );
            }
            while j < n
                invariant
                    self.wf(),
                    !self@.in_txn,
                    arena.wf(),
                    interned == arena.text(),
                    peers == common.peer_ids@,
                    keys == state_arena.keywords@,
                    self.container() == old(self).container(),
                    is_style_start.wf(),
                    is_style_start.bits() == unpacked(packed, (packed.len() * 8) as nat),
                    styles@.len() <= packed.len() * 8,
                    resolved == resolved_styles(
                        styles@,
                        unpacked(packed, styles@.len()),
                        peers,
                        keys,
                    ),
                    forall|i: int|
                        0 <= i < styles@.len() ==> (#[trigger] styles@[i]).peer_idx < peers.len()
                            && styles@[i].key_idx < keys.len() && styles@[i].counter <= i32::MAX,
                    forall|i: int|
                        0 <= i < text@.len() ==> (#[trigger] text@[i]).0 <= text@[i].1
                            <= interned.len(),
                    base_entities + range_chars(text@) + styles@.len() <= ROPE_LIMIT,
                    base_bytes + range_bytes(text@, interned) <= ROPE_LIMIT,
                    r < len@.len(),
                    n == len@[r as int],
                    done == len@.subrange(0, r as int),
                    is_text == run_is_text(r as int),
                    j <= n,
                    is_text ==> text_index == text_count(done) + j && style_index == style_count(
                        done,
                    ) && text_count(done) + n <= text@.len(),
                    !is_text ==> text_index == text_count(done) && style_index == style_count(
                        done,
                    ) + j && style_count(done) + n <= styles@.len(),
                    text_index <= text@.len(),
                    style_index <= styles@.len(),
                    self@.entities.len() == base_entities + range_chars(
                        text@.subrange(0, text_index as int),
                    ) + style_index,
                    utf8_len(self@.text()) == base_bytes + range_bytes(
                        text@.subrange(0, text_index as int),
                        interned,
                    ),
                    forall|key: (u64, i32)|
                        anchor_entries(anchors).contains_key(key) ==> #[trigger] anchor_entries(
                            anchors,
                        )[key] <= self@.entities.len(),
                    text.len() == text@.len(),
                    old(self).backed(interned) ==> self.backed(interned),
                    styles.len() == styles@.len(),
                    base.len() <= self.chunks().len(),
                    loaded_all(
                        notes,
                        base,
                        self.chunks().subrange(base.len() as int, self.chunks().len() as int),
                    ) == (self.annotations(), anchor_entries(anchors)),
                    self.chunks() == base + chunks_of(
                        runs_items(
                            done.push(j),
                            text@.subrange(0, text_index as int),
                            resolved.subrange(0, style_index as int),
                        ),
                        interned,
                    ),
                decreases n - j,
            {
                let ghost so_far = runs_items(
                    done.push(j),
                    text@.subrange(0, text_index as int),
                    resolved.subrange(0, style_index as int),
                );
                let ghost es = self@.entities;
                let ghost held = self.chunks();
                let ghost loaded = held.subrange(base.len() as int, held.len() as int);
                proof {
                    self.lemma_wf();
                    assert(base + loaded =~= held);
                    lemma_range_chars_of_prefix(text@, text_index as int);
                    lemma_range_bytes_of_prefix(text@, interned, text_index as int);
                    if text_index < text@.len() {
                        lemma_range_chars_of_prefix(text@, text_index + 1);
                        lemma_range_bytes_of_prefix(text@, interned, text_index + 1);
                    }
                }
                if is_text {
                    let range = text[text_index];
                    let ghost chars = interned.subrange(range.0 as int, range.1 as int);
                    proof {
                        arena.lemma_text_bounds(range.0 as int, range.1 as int);
                        vstd::utf8::encode_utf8_valid_utf8(chars);
                        vstd::utf8::encode_utf8_decode_utf8(chars);
                        lemma_counts_of_encoding(chars);
                        lemma_text_of_chars(chars);
                        lemma_metrics_concat(es, crate::chunk::chars_as_entities(chars));
                        lemma_runs_more_text(
                            done,
                            j,
                            text@.subrange(0, text_index as int),
                            resolved.subrange(0, style_index as int),
                            range,
                        );
                        assert(text@.subrange(0, text_index as int).push(range)
                            =~= text@.subrange(0, text_index + 1));
                    }
                    let slice = arena.slice_by_unicode(range.0 as usize, range.1 as usize);
                    load_elem(self, &mut anchors, RichtextStateChunk::new_text(slice, range.0));
                    proof {
                        let item = SnapshotItem::Text { start: range.0, end: range.1 };
                        assert(chunks_of(so_far.push(item), interned) =~= chunks_of(
                            so_far,
                            interned,
                        ).push(chunk_of(item, interned)));
                        assert((base + chunks_of(so_far, interned)).push(chunk_of(item, interned))
                            =~= base + chunks_of(so_far, interned).push(
                            chunk_of(item, interned),
                        ));
                    }
                    text_index = text_index + 1;
                } else {
                    let is_start = is_style_start.get(style_index);
                    let style_compact = &styles[style_index];
                    let style = StyleOp {
                        lamport: style_compact.lamport,
                        peer: common.peer_ids[style_compact.peer_idx as usize],
                        cnt: style_compact.counter as i32,
                        key: state_arena.keywords[style_compact.key_idx as usize].clone(),
                        info: TextStyleInfoFlag::from_u8(style_compact.style_info),
                    };
                    let anchor = if is_start {
                        AnchorType::Start
                    } else {
                        AnchorType::End
                    };
                    let ghost s = resolved[style_index as int];
                    proof {
                        assert(s == (style@, anchor));
                        let elem = ChunkModel::Style { op: style@, anchor };
                        lemma_text_of_chunk(elem);
                        lemma_metrics_concat(es, elem.entities());
                        lemma_counts_of_encoding(Seq::<char>::empty());
                        lemma_runs_more_style(
                            done,
                            j,
                            text@.subrange(0, text_index as int),
                            resolved.subrange(0, style_index as int),
                            s,
                        );
                        assert(resolved.subrange(0, style_index as int).push(s)
                            =~= resolved.subrange(0, style_index + 1));
                    }
                    load_elem(self, &mut anchors, RichtextStateChunk::new_style(style, anchor));
                    proof {
                        let item = SnapshotItem::Style { op: s.0, anchor: s.1 };
                        assert(chunks_of(so_far.push(item), interned) =~= chunks_of(
                            so_far,
                            interned,
                        ).push(chunk_of(item, interned)));
                        assert((base + chunks_of(so_far, interned)).push(chunk_of(item, interned))
                            =~= base + chunks_of(so_far, interned).push(
                            chunk_of(item, interned),
                        ));
                    }
                    style_index = style_index + 1;
                }
                proof {
                    let now = self.chunks().subrange(base.len() as int, self.chunks().len() as int);
                    assert(now.drop_last() =~= loaded);
                }
                j = j + 1;
            }
            proof {
                assert(done.push(n) =~= len@.subrange(0, r + 1));
            }
            is_text = !is_text;
            r = r + 1;
        }
        proof {
            assert(len@.subrange(0, r as int) =~= len@);
            assert(text@.subrange(0, text_index as int) =~= text@);
            assert(resolved.subrange(0, style_index as int) =~= resolved);
            assert(self.chunks().subrange(base.len() as int, self.chunks().len() as int)
                =~= chunks_of(enc.items(peers, keys), interned));
        }
    }
}

/// A snapshot, loaded into an empty state, gives back the state it was taken
/// of. `enc` is a snapshot that holds the chunks of a state, as encoding the
/// state yields it; `loaded` are the chunks of a state that was empty and
/// into which the snapshot was decoded with the same tables and the same
/// arena. Where each run of characters of the state holds what the arena
/// holds at its place, the chunks that were loaded are the chunks of the state:
/// each run of characters with its text and its place, each anchor with its
/// style operation.
pub proof fn lemma_snapshot_round_trip(
    chunks: Seq<ChunkModel>,
    enc: EncodedRichtextState,
    peers: Seq<PeerID>,
    keys: Seq<InternalString>,
    interned: Seq<char>,
    loaded: Seq<ChunkModel>,
)
    requires
        backed_by(chunks, interned),
        interned.len() <= POOL_LIMIT,
        enc.items(peers, keys) == items_of(chunks),
        loaded == Seq::<ChunkModel>::empty() + chunks_of(enc.items(peers, keys), interned),
    ensures
        loaded == chunks,
        entities_of(loaded) == entities_of(chunks),
        text_of(entities_of(loaded)) == text_of(entities_of(chunks)),
{
    lemma_chunks_of_items(chunks, interned);
    assert(Seq::<ChunkModel>::empty() + chunks =~= chunks);
}

/// The snapshot of a state can be loaded. `enc` holds the ranges and as
/// many styles as encoding the state yields; the chunks of the state are
/// views of the text of `arena`. Then every range lies within the arena's
/// text, and a state that holds nothing has room for what the snapshot
/// holds.
pub proof fn lemma_snapshot_loads(
    state: &RichtextState,
    enc: EncodedRichtextState,
    arena: &SharedArena,
)
    requires
        state.wf(),
        arena.wf(),
        backed_by(state.chunks(), arena.text()),
        enc.text@ == text_ranges_of(state.chunks()),
        enc.styles@.len() == anchors_in(state.chunks()),
    ensures
        forall|i: int|
            0 <= i < enc.text@.len() ==> (#[trigger] enc.text@[i]).0 <= enc.text@[i].1
                <= arena.text().len(),
        range_chars(enc.text@) + enc.styles@.len() <= ROPE_LIMIT,
        range_bytes(enc.text@, arena.text()) <= ROPE_LIMIT,
{
    state.lemma_wf();
    arena.lemma_text_bounds(0, 0);
    lemma_ranges_of_chunks(state.chunks(), arena.text());
}

} // verus!
