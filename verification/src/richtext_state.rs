//! The state of a rich-text container: the rope that holds the text and its
//! style anchors, and the record that lets a transaction be taken back.

use crate::arena::SharedArena;
use crate::byte_pool::{slice_bytes, POOL_LIMIT};
use crate::chunk::{
    backed_by, chars_as_entities, entities_of, is_backed, keeps_backing, lemma_entities_concat,
    lemma_entities_one, lemma_text_of_chars, lemma_text_of_chunk, text_of, ChunkModel, Entity,
    RichtextStateChunk,
};
use crate::fx_maps::{anchor_entries, anchors_get, anchors_insert, anchors_new};
use crate::id::{ContainerIdx, ID};
use crate::op::{InnerContent, InnerListOp, Op, RawOp};
use crate::rope::{
    lemma_metrics_concat, models_of, ranges_after_insert, ranges_after_remove, span_models,
    spans_of, RichtextRope, RichtextSpan, StyleRange, ROPE_LIMIT,
};
use crate::rope_query::{is_insert_slot, is_text_cover, lemma_inside_chunk};
use crate::style::{AnchorType, StyleModel, StyleOp};
use crate::text_metrics::{lemma_counts_of_encoding, utf16_len, utf8_len};
use crate::value::LoroValue;
use std::ops::Range;
use vstd::prelude::*;
use vstd::utf8::{decode_utf8, encode_utf8, valid_utf8};

verus! {

/// How to take back one change of a transaction.
#[derive(Debug)]
pub enum UndoItem {
    /// Entities were inserted: remove them.
    Insert { index: u32, len: u32 },
    /// A chunk was removed: put it back.
    Delete { index: u32, content: RichtextStateChunk },
}

/// What an undo item says.
pub enum UndoModel {
    Insert { index: nat, len: nat },
    Delete { index: nat, content: ChunkModel },
}

impl View for UndoItem {
    type V = UndoModel;

    open spec fn view(&self) -> UndoModel {
        match self {
            UndoItem::Insert { index, len } => UndoModel::Insert {
                index: *index as nat,
                len: *len as nat,
            },
            UndoItem::Delete { index, content } => UndoModel::Delete {
                index: *index as nat,
                content: content@,
            },
        }
    }
}

pub open spec fn undo_model_at(stack: Seq<UndoItem>, i: int) -> UndoModel {
    stack[i]@
}

/// The undo items, each as what it says.
pub open spec fn undo_models(stack: Seq<UndoItem>) -> Seq<UndoModel> {
    Seq::new(stack.len(), |i: int| undo_model_at(stack, i))
}

/// The entities `es` with `what` put in before entity `at`.
pub open spec fn with_inserted(es: Seq<Entity>, at: int, what: Seq<Entity>) -> Seq<Entity> {
    es.subrange(0, at) + what + es.subrange(at, es.len() as int)
}

/// The entities `es` without those from `from` up to `to`.
pub open spec fn with_removed(es: Seq<Entity>, from: int, to: int) -> Seq<Entity> {
    es.subrange(0, from) + es.subrange(to, es.len() as int)
}

/// Whether entities fit a rope.
pub open spec fn fits_rope(es: Seq<Entity>) -> bool {
    es.len() <= ROPE_LIMIT && utf8_len(text_of(es)) <= ROPE_LIMIT
}

/// The entities once one change has been taken back.
pub open spec fn undo_one(es: Seq<Entity>, item: UndoModel) -> Seq<Entity> {
    match item {
        UndoModel::Insert { index, len } => with_removed(es, index as int, (index + len) as int),
        UndoModel::Delete { index, content } => with_inserted(
            es,
            index as int,
            content.entities(),
        ),
    }
}

/// The entities once all recorded changes have been taken back, the last
/// first.
pub open spec fn undone(es: Seq<Entity>, stack: Seq<UndoModel>) -> Seq<Entity>
    decreases stack.len(),
{
    if stack.len() == 0 {
        es
    } else {
        undone(undo_one(es, stack.last()), stack.drop_last())
    }
}

/// Whether the recorded changes can be taken back from `es`, the last first:
/// each refers to entities that are there, each chunk to put back is text,
/// and what results fits a rope.
pub open spec fn undo_fits(es: Seq<Entity>, stack: Seq<UndoModel>) -> bool
    decreases stack.len(),
{
    if stack.len() == 0 {
        true
    } else {
        &&& match stack.last() {
            UndoModel::Insert { index, len } => index + len <= es.len(),
            UndoModel::Delete { index, content } => index <= es.len() && content is Text
                && fits_rope(undo_one(es, stack.last())),
        }
        &&& undo_fits(undo_one(es, stack.last()), stack.drop_last())
    }
}

/// One step of a change that walks through rich text.
#[derive(Debug)]
pub enum DeltaItem {
    /// Pass `len` entities.
    Retain { len: usize },
    /// Put a chunk in here, and pass it.
    Insert { value: RichtextStateChunk },
    /// Remove the next `len` entities.
    Delete { len: usize },
}

/// What a step says.
pub enum DeltaModel {
    Retain { len: nat },
    Insert { value: ChunkModel },
    Delete { len: nat },
}

impl View for DeltaItem {
    type V = DeltaModel;

    open spec fn view(&self) -> DeltaModel {
        match self {
            DeltaItem::Retain { len } => DeltaModel::Retain { len: *len as nat },
            DeltaItem::Insert { value } => DeltaModel::Insert { value: value@ },
            DeltaItem::Delete { len } => DeltaModel::Delete { len: *len as nat },
        }
    }
}

pub open spec fn delta_model_at(items: Seq<DeltaItem>, i: int) -> DeltaModel {
    items[i]@
}

/// The steps, each as what it says.
pub open spec fn delta_models(items: Seq<DeltaItem>) -> Seq<DeltaModel> {
    Seq::new(items.len(), |i: int| delta_model_at(items, i))
}

/// A change that walks through rich text from its start.
#[derive(Debug)]
pub struct Delta {
    pub vec: Vec<DeltaItem>,
}

/// A change to a container's state, as it is handed from one state to
/// another.
#[derive(Debug)]
pub enum Diff {
    RichtextRaw(Delta),
    Values(Vec<LoroValue>),
}

/// The entities once the steps have been taken, the walk standing before
/// entity `index`.
pub open spec fn delta_applied(es: Seq<Entity>, items: Seq<DeltaModel>, index: int) -> Seq<Entity>
    decreases items.len(),
{
    if items.len() == 0 {
        es
    } else {
        match items[0] {
            DeltaModel::Retain { len } => delta_applied(es, items.drop_first(), index + len),
            DeltaModel::Insert { value } => delta_applied(
                with_inserted(es, index, value.entities()),
                items.drop_first(),
                index + value.len(),
            ),
            DeltaModel::Delete { len } => delta_applied(
                with_removed(es, index, index + len),
                items.drop_first(),
                index,
            ),
        }
    }
}

/// Whether the steps can be taken, the walk standing before entity `index`:
/// each step refers to entities that are there, what results fits a rope,
/// the end of a style comes after its start among the steps (`started` holds
/// the styles whose start has been passed), and inside a transaction no
/// anchor is removed.
pub open spec fn delta_fits(
    es: Seq<Entity>,
    items: Seq<DeltaModel>,
    index: int,
    started: Set<ID>,
    in_txn: bool,
) -> bool
    decreases items.len(),
{
    if items.len() == 0 {
        true
    } else {
        match items[0] {
            DeltaModel::Retain { len } => index + len <= es.len() && delta_fits(
                es,
                items.drop_first(),
                index + len,
                started,
                in_txn,
            ),
            DeltaModel::Insert { value } => {
                &&& 0 <= index <= es.len()
                &&& fits_rope(with_inserted(es, index, value.entities()))
                &&& value matches ChunkModel::Style { op, anchor: AnchorType::End }
                    ==> started.contains(op.id())
                &&& delta_fits(
                    with_inserted(es, index, value.entities()),
                    items.drop_first(),
                    index + value.len(),
                    match value {
                        ChunkModel::Style { op, anchor: AnchorType::Start } => started.insert(
                            op.id(),
                        ),
                        _ => started,
                    },
                    in_txn,
                )
            },
            DeltaModel::Delete { len } => {
                &&& 0 <= index
                &&& index + len <= es.len()
                &&& in_txn ==> only_text(es, index, index + len)
                &&& delta_fits(
                    with_removed(es, index, index + len),
                    items.drop_first(),
                    index,
                    started,
                    in_txn,
                )
            },
        }
    }
}

/// The ranges that styles are recorded on once the steps have been taken,
/// the walk standing before entity `index`: they move with the entities
/// they lie on, and where a step puts in the end anchor of a style, the
/// style is recorded from where its start anchor was put in (`starts` holds
/// that place for each style whose start has been passed) up to and
/// including the end anchor.
pub open spec fn delta_ranges(
    rs: Seq<StyleRange>,
    items: Seq<DeltaModel>,
    index: int,
    starts: Map<ID, int>,
) -> Seq<StyleRange>
    decreases items.len(),
{
    if items.len() == 0 {
        rs
    } else {
        match items[0] {
            DeltaModel::Retain { len } => delta_ranges(rs, items.drop_first(), index + len, starts),
            DeltaModel::Insert { value } => {
                let moved = ranges_after_insert(rs, index, value.len() as int);
                match value {
                    ChunkModel::Style { op, anchor: AnchorType::Start } => delta_ranges(
                        moved,
                        items.drop_first(),
                        index + 1,
                        starts.insert(op.id(), index),
                    ),
                    ChunkModel::Style { op, anchor: AnchorType::End } => delta_ranges(
                        moved.push(
                            StyleRange {
                                start: starts[op.id()] as usize,
                                end: (index + 1) as usize,
                                style: op.id(),
                            },
                        ),
                        items.drop_first(),
                        index + 1,
                        starts,
                    ),
                    _ => delta_ranges(moved, items.drop_first(), index + value.len(), starts),
                }
            },
            DeltaModel::Delete { len } => delta_ranges(
                ranges_after_remove(rs, index, index + len),
                items.drop_first(),
                index,
                starts,
            ),
        }
    }
}

/// The places that the walk has put start anchors in at, by style.
pub open spec fn starts_of(entries: Map<(u64, i32), usize>) -> Map<ID, int> {
    Map::new(
        |id: ID| entries.contains_key((id.peer, id.counter)),
        |id: ID| entries[(id.peer, id.counter)] as int,
    )
}

/// A change to rich text.
pub enum Edit {
    /// The steps of a walk through the text are taken.
    Walk { items: Seq<DeltaModel> },
    /// Characters go in before entity `pos`.
    Insert { pos: int, chars: Seq<char> },
    /// The entities from `start` up to `end` go.
    Delete { start: int, end: int },
    /// The anchors of a style go in before the entities `start` and `end`.
    Mark { start: int, end: int, style: StyleModel },
    Nothing,
}

/// The entities once a change has been made.
pub open spec fn edited(es: Seq<Entity>, e: Edit) -> Seq<Entity> {
    match e {
        Edit::Walk { items } => delta_applied(es, items, 0),
        Edit::Insert { pos, chars } => with_inserted(es, pos, chars_as_entities(chars)),
        Edit::Delete { start, end } => with_removed(es, start, end),
        Edit::Mark { start, end, style } => es.subrange(0, start) + seq![
            Entity::Anchor(style, AnchorType::Start),
        ] + es.subrange(start, end) + seq![Entity::Anchor(style, AnchorType::End)] + es.subrange(
            end,
            es.len() as int,
        ),
        Edit::Nothing => es,
    }
}

/// The ranges that styles are recorded on once a single change has been
/// made: they move with the entities they lie on, and a style that the
/// change applies is recorded on what lies between its anchors and on both
/// anchors.
pub open spec fn ranges_edited(rs: Seq<StyleRange>, e: Edit) -> Seq<StyleRange> {
    match e {
        Edit::Insert { pos, chars } => ranges_after_insert(rs, pos, chars.len() as int),
        Edit::Delete { start, end } => ranges_after_remove(rs, start, end),
        Edit::Mark { start, end, style } => ranges_after_insert(
            ranges_after_insert(rs, end, 1),
            start,
            1,
        ).push(StyleRange { start: start as usize, end: (end + 2) as usize, style: style.id() }),
        _ => rs,
    }
}

/// Whether a change can be made: it refers to entities that are there, and
/// what results fits a rope.
pub open spec fn edit_fits(es: Seq<Entity>, e: Edit) -> bool {
    match e {
        Edit::Walk { items } => delta_fits(es, items, 0, Set::empty(), false),
        Edit::Insert { pos, chars } => 0 <= pos <= es.len() && es.len() + chars.len()
            <= ROPE_LIMIT && utf8_len(text_of(es)) + utf8_len(chars) <= ROPE_LIMIT,
        Edit::Delete { start, end } => 0 <= start <= end <= es.len(),
        Edit::Mark { start, end, style } => 0 <= start <= end <= es.len() && es.len() + 2
            <= ROPE_LIMIT,
        Edit::Nothing => true,
    }
}

/// Whether none of the entities from `start` up to `end` is an anchor.
pub open spec fn only_text(es: Seq<Entity>, start: int, end: int) -> bool {
    forall|i: int| start <= i < end ==> #[trigger] es[i] is Char
}

/// What a rich-text state stands for: the entities it holds, the entities it
/// would hold were the running transaction taken back, and whether a
/// transaction is running. Outside a transaction the two are the same.
pub struct StateView {
    pub entities: Seq<Entity>,
    pub rollback: Seq<Entity>,
    pub in_txn: bool,
}

impl StateView {
    /// The state once a change has been made. Inside a transaction, what
    /// taking it back would restore stays as it is.
    pub open spec fn apply(self, e: Edit) -> StateView {
        StateView {
            entities: edited(self.entities, e),
            rollback: if self.in_txn {
                self.rollback
            } else {
                edited(self.entities, e)
            },
            in_txn: self.in_txn,
        }
    }

    /// The state once a transaction has been started.
    pub open spec fn start(self) -> StateView {
        StateView { entities: self.entities, rollback: self.rollback, in_txn: true }
    }

    /// The state once the transaction has been taken back.
    pub open spec fn abort(self) -> StateView {
        StateView { entities: self.rollback, rollback: self.rollback, in_txn: false }
    }

    /// The state once the transaction has been kept.
    pub open spec fn commit(self) -> StateView {
        StateView { entities: self.entities, rollback: self.entities, in_txn: false }
    }

    /// The state once the changes have been made, in order.
    pub open spec fn apply_all(self, edits: Seq<Edit>) -> StateView
        decreases edits.len(),
    {
        if edits.len() == 0 {
            self
        } else {
            self.apply_all(edits.drop_last()).apply(edits.last())
        }
    }

    /// The text as a reader sees it.
    pub open spec fn text(self) -> Seq<char> {
        text_of(self.entities)
    }
}

/// Whatever is changed inside a transaction, taking the transaction back
/// restores what taking it back would have restored at its start.
pub proof fn lemma_edits_keep_rollback(v: StateView, edits: Seq<Edit>)
    requires
        v.in_txn,
    ensures
        v.apply_all(edits).in_txn,
        v.apply_all(edits).rollback == v.rollback,
    decreases edits.len(),
{
    if edits.len() > 0 {
        lemma_edits_keep_rollback(v, edits.drop_last());
    }
}

/// A transaction is atomic: start one on a state that runs none, make any
/// changes, take it back, and the state holds the entities it held before,
/// so its text and each of its four lengths are what they were.
pub proof fn lemma_abort_restores(v: StateView, edits: Seq<Edit>)
    requires
        !v.in_txn,
        v.rollback == v.entities,
    ensures
        v.start().apply_all(edits).abort().entities == v.entities,
        v.start().apply_all(edits).abort().text() == v.text(),
        v.start().apply_all(edits).abort().entities.len() == v.entities.len(),
        utf8_len(v.start().apply_all(edits).abort().text()) == utf8_len(v.text()),
        utf16_len(v.start().apply_all(edits).abort().text()) == utf16_len(v.text()),
        !v.start().apply_all(edits).abort().in_txn,
{
    lemma_edits_keep_rollback(v.start(), edits);
}

/// What the content of an operation changes in rich text. Text is looked up
/// in the arena's text `interned`; a style takes its identity from the
/// operation as it arrived.
pub open spec fn edit_of(op: Op, r_op: RawOp, interned: Seq<char>) -> Edit {
    match op.content {
        InnerContent::List(InnerListOp::Insert { slice, pos }) => Edit::Insert {
            pos: pos as int,
            chars: interned.subrange(slice.start as int, slice.end as int),
        },
        InnerContent::List(InnerListOp::InsertText { slice, pos, .. }) => Edit::Insert {
            pos: pos as int,
            chars: decode_utf8(slice_bytes(slice)),
        },
        InnerContent::List(InnerListOp::Delete(span)) => Edit::Delete {
            start: span.spec_start(),
            end: span.spec_end(),
        },
        InnerContent::List(InnerListOp::StyleStart { start, end, key, info }) => Edit::Mark {
            start: start as int,
            end: end as int,
            style: StyleModel {
                lamport: r_op.lamport,
                peer: r_op.id.peer,
                cnt: r_op.id.counter,
                key: key@,
                info,
            },
        },
        _ => Edit::Nothing,
    }
}

/// Whether the text that an operation brings with it is the text that the
/// arena holds at the place the operation names.
pub open spec fn op_backed(op: Op, interned: Seq<char>) -> bool {
    op.content matches InnerContent::List(
        InnerListOp::InsertText { slice, unicode_start, unicode_len, pos },
    ) ==> is_backed(
        ChunkModel::Text { chars: decode_utf8(slice_bytes(slice)), start: unicode_start as nat },
        interned,
    )
}

/// Whether the chunks that the steps put in are views of the arena's text.
pub open spec fn delta_backed(items: Seq<DeltaModel>, interned: Seq<char>) -> bool {
    forall|i: int|
        0 <= i < items.len() ==> (#[trigger] items[i] matches DeltaModel::Insert { value }
            ==> is_backed(value, interned))
}

/// Whether the chunks that the records would put in again are views of the
/// arena's text.
pub open spec fn records_backed(stack: Seq<UndoModel>, interned: Seq<char>) -> bool {
    forall|i: int|
        0 <= i < stack.len() ==> (#[trigger] stack[i] matches UndoModel::Delete { content, .. }
            ==> is_backed(content, interned))
}

/// Chunks that stand in place of others that are views of the arena's text,
/// with one more that is a view of it put in, are views of it.
pub proof fn lemma_backing_kept(
    before: Seq<ChunkModel>,
    added: ChunkModel,
    after: Seq<ChunkModel>,
    interned: Seq<char>,
)
    requires
        keeps_backing(before, seq![added], after),
        backed_by(before, interned),
        is_backed(added, interned),
    ensures
        backed_by(after, interned),
{
    assert(backed_by(seq![added], interned));
}

/// Chunks that stand in place of others that are views of the arena's text
/// are views of it.
pub proof fn lemma_backing_stays(
    before: Seq<ChunkModel>,
    after: Seq<ChunkModel>,
    interned: Seq<char>,
)
    requires
        keeps_backing(before, Seq::empty(), after),
        backed_by(before, interned),
    ensures
        backed_by(after, interned),
{
    assert(backed_by(Seq::<ChunkModel>::empty(), interned));
}

/// Whether an operation can be applied to rich text: it is an operation on
/// a list, and what it refers to is there.
pub open spec fn op_fits(op: Op, interned: Seq<char>) -> bool {
    match op.content {
        InnerContent::List(InnerListOp::Insert { slice, pos }) => slice.start <= slice.end
            <= interned.len(),
        InnerContent::List(
            InnerListOp::InsertText { slice, unicode_start, unicode_len, pos },
        ) => valid_utf8(slice_bytes(slice)) && slice_bytes(slice).len() <= POOL_LIMIT
            && unicode_len == decode_utf8(slice_bytes(slice)).len() && unicode_start + unicode_len
            <= POOL_LIMIT,
        InnerContent::List(InnerListOp::Delete(span)) => span.wf(),
        InnerContent::List(_) => true,
        _ => false,
    }
}

pub struct RichtextState {
    idx: ContainerIdx,
    state: RichtextRope,
    in_txn: bool,
    undo_stack: Vec<UndoItem>,
    /// The style ranges as they were recorded when the transaction started.
    saved: Vec<StyleRange>,
}

impl View for RichtextState {
    type V = StateView;

    closed spec fn view(&self) -> StateView {
        StateView {
            entities: self.state.entities(),
            rollback: undone(self.state.entities(), undo_models(self.undo_stack@)),
            in_txn: self.in_txn,
        }
    }
}

impl RichtextState {
    pub closed spec fn wf(&self) -> bool {
        &&& self.state.wf()
        &&& undo_fits(self.state.entities(), undo_models(self.undo_stack@))
        &&& !self.in_txn ==> self.undo_stack@.len() == 0
        &&& forall|i: int|
            0 <= i < self.undo_stack@.len() ==> (#[trigger] self.undo_stack@[i] matches UndoItem::Delete {
                content,
                ..
            } ==> content.wf())
        &&& self.in_txn ==> self.saved_fit(
            undone(self.state.entities(), undo_models(self.undo_stack@)).len(),
        )
    }

    /// Whether the chunks of the state, and those that taking back the
    /// running transaction would put in again, are views of the arena's text
    /// `interned`.
    pub closed spec fn backed(&self, interned: Seq<char>) -> bool {
        backed_by(self.state.chunks(), interned) && records_backed(
            undo_models(self.undo_stack@),
            interned,
        )
    }

    /// What being backed says of the chunks.
    pub proof fn lemma_backed(&self, interned: Seq<char>)
        requires
            self.wf(),
        ensures
            self.backed(interned) ==> backed_by(self.chunks(), interned),
            !self@.in_txn ==> self.backed(interned) == backed_by(self.chunks(), interned),
    {
    }

    /// Whether the ranges kept from the start of the transaction lie within
    /// `n` entities.
    spec fn saved_fit(&self, n: nat) -> bool {
        forall|k: int|
            0 <= k < self.saved@.len() ==> (#[trigger] self.saved@[k]).start <= self.saved@[k].end
                <= n
    }

    /// The ranges that styles are recorded on once the transaction has been
    /// taken back: those recorded when it started. Outside a transaction,
    /// those recorded now.
    pub closed spec fn rollback_ranges(&self) -> Seq<StyleRange> {
        if self.in_txn {
            self.saved@
        } else {
            self.state.annotations()
        }
    }

    /// The chunks, in document order.
    pub closed spec fn chunks(&self) -> Seq<ChunkModel> {
        self.state.chunks()
    }

    /// The container the state belongs to.
    pub closed spec fn container(&self) -> ContainerIdx {
        self.idx
    }

    /// The ranges that styles have been recorded on, in the order of their
    /// recording.
    pub closed spec fn annotations(&self) -> Seq<StyleRange> {
        self.state.annotations()
    }

    /// The ranges that styles have been recorded on.
    pub fn style_ranges(&self) -> (ranges: Vec<StyleRange>)
        ensures
            ranges@ == self.annotations(),
    {
        self.state.style_ranges()
    }

    /// Whether a transaction is running.
    pub fn in_txn(&self) -> (r: bool)
        ensures
            r == self@.in_txn,
    {
        self.in_txn
    }

    /// Appends a chunk, outside any transaction.
    pub fn push_chunk(&mut self, elem: RichtextStateChunk)
        requires
            old(self).wf(),
            !old(self)@.in_txn,
            elem.wf(),
            fits_rope(old(self)@.entities + elem@.entities()),
        ensures
            final(self).wf(),
            final(self).container() == old(self).container(),
            final(self).chunks() == old(self).chunks().push(elem@),
            final(self).annotations() == old(self).annotations(),
            final(self)@ == (StateView {
                entities: old(self)@.entities + elem@.entities(),
                rollback: old(self)@.entities + elem@.entities(),
                in_txn: false,
            }),
            forall|interned: Seq<char>|
                #![trigger old(self).backed(interned)]
                #![trigger final(self).backed(interned)]
                old(self).backed(interned) && is_backed(elem@, interned) ==> final(self).backed(
                    interned,
                ),
    {
        proof {
            lemma_metrics_concat(self.state.entities(), elem@.entities());
            lemma_entities_one(elem@);
            assert(undo_models(self.undo_stack@) =~= Seq::<UndoModel>::empty());
        }
        self.state.push(elem);
    }

    /// Records `style` on the entities `range`.
    pub fn annotate_style_range(&mut self, range: Range<usize>, style: &StyleOp)
        requires
            old(self).wf(),
            range.start <= range.end <= old(self)@.entities.len(),
        ensures
            final(self).wf(),
            final(self).container() == old(self).container(),
            final(self).chunks() == old(self).chunks(),
            final(self)@ == old(self)@,
            final(self).annotations() == old(self).annotations().push(
                StyleRange { start: range.start, end: range.end, style: style@.id() },
            ),
    {
        self.state.annotate_style_range(range, style);
    }

    /// What well-formedness says to the outside.
    pub proof fn lemma_wf(&self)
        requires
            self.wf(),
        ensures
            self@.entities == entities_of(self.chunks()),
            fits_rope(self@.entities),
            !self@.in_txn ==> self@.rollback == self@.entities,
    {
        self.state.lemma_bounds();
    }

    pub fn new(idx: ContainerIdx) -> (s: RichtextState)
        ensures
            s.wf(),
            s.container() == idx,
            s@ == (StateView {
                entities: Seq::<Entity>::empty(),
                rollback: Seq::<Entity>::empty(),
                in_txn: false,
            }),
            s.chunks() == Seq::<ChunkModel>::empty(),
            forall|interned: Seq<char>| #[trigger] s.backed(interned),
    {
        RichtextState {
            idx,
            state: RichtextRope::new(),
            in_txn: false,
            undo_stack: Vec::new(),
            saved: Vec::new(),
        }
    }

    /// The text as a reader sees it.
    pub fn to_string(&self) -> (s: String)
        requires
            self.wf(),
        ensures
            s@ == self@.text(),
    {
        self.state.to_string()
    }

    pub fn is_empty(&self) -> (r: bool)
        requires
            self.wf(),
        ensures
            r == (self@.entities.len() == 0),
    {
        self.state.is_empty()
    }

    /// A copy of what the state holds, outside any transaction.
    pub fn duplicate(&self) -> (copy: RichtextState)
        requires
            self.wf(),
        ensures
            copy.wf(),
            copy.container() == self.container(),
            copy.chunks() == self.chunks(),
            copy.annotations() == self.annotations(),
            copy@ == self@.commit(),
            forall|interned: Seq<char>|
                #![trigger self.backed(interned)]
                #![trigger copy.backed(interned)]
                self.backed(interned) ==> copy.backed(interned),
    {
        let mut rope = RichtextRope::new();
        let chunks = self.state.iter_chunk();
        let ghost all = self.state.chunks();
        let mut k: usize = 0;
        proof {
            self.state.lemma_bounds();
        }
        while k < chunks.len()
            invariant
                self.state.wf(),
                rope.wf(),
                all == models_of(chunks@),
                all == self.state.chunks(),
                fits_rope(entities_of(all)),
                forall|i: int| 0 <= i < chunks@.len() ==> (#[trigger] chunks@[i]).wf(),
                k <= chunks@.len(),
                rope.chunks() == all.subrange(0, k as int),
            decreases chunks@.len() - k,
        {
            proof {
                crate::rope::lemma_prefix_step(all, k as int);
                crate::rope::lemma_prefix_monotone(all, k + 1, all.len() as int);
                assert(all.subrange(0, all.len() as int) =~= all);
                lemma_metrics_concat(
                    entities_of(all.subrange(0, k + 1)),
                    entities_of(all.subrange(k + 1, all.len() as int)),
                );
                lemma_metrics_concat(
                    entities_of(all.subrange(0, k as int)),
                    all[k as int].entities(),
                );
                lemma_metrics_concat(entities_of(all.subrange(0, k + 1)), Seq::empty());
            }
            rope.push(chunks[k].duplicate());
            proof {
                assert(all.subrange(0, k as int).push(all[k as int]) =~= all.subrange(0, k + 1));
            }
            k = k + 1;
        }
        proof {
            assert(all.subrange(0, k as int) =~= all);
        }
        rope.set_annotations(self.state.style_ranges());
        RichtextState {
            idx: self.idx,
            state: rope,
            in_txn: false,
            undo_stack: Vec::new(),
            saved: Vec::new(),
        }
    }

    /// Starts a transaction. What is changed from here on can be taken back.
    pub fn start_txn(&mut self)
        requires
            old(self).wf(),
        ensures
            final(self).wf(),
            final(self)@ == old(self)@.start(),
            final(self).container() == old(self).container(),
            final(self).chunks() == old(self).chunks(),
            final(self).annotations() == old(self).annotations(),
            final(self).rollback_ranges() == old(self).rollback_ranges(),
            forall|interned: Seq<char>|
                #![trigger old(self).backed(interned)]
                #![trigger final(self).backed(interned)]
                old(self).backed(interned) ==> final(self).backed(interned),
    {
        if !self.in_txn {
            proof {
                self.state.lemma_bounds();
            }
            self.saved = self.state.style_ranges();
        }
        self.in_txn = true;
    }

    /// Takes back what was changed since the transaction started: the
    /// entities are those of the start again, and so are the ranges that
    /// styles are recorded on. Outside a transaction nothing changes.
    pub fn abort_txn(&mut self)
        requires
            old(self).wf(),
        ensures
            final(self).wf(),
            final(self)@ == old(self)@.abort(),
            final(self).container() == old(self).container(),
            final(self).annotations() == old(self).rollback_ranges(),
            !old(self)@.in_txn ==> final(self).chunks() == old(self).chunks(),
            forall|interned: Seq<char>|
                #![trigger old(self).backed(interned)]
                #![trigger final(self).backed(interned)]
                old(self).backed(interned) ==> final(self).backed(interned),
    {
        let was_in_txn = self.in_txn;
        self.in_txn = false;
        let ghost begun = *self;
        self.undo_all();
        let ghost undone_all = *self;
        if was_in_txn {
            let mut ranges: Vec<StyleRange> = Vec::new();
            std::mem::swap(&mut self.saved, &mut ranges);
            self.state.set_annotations(ranges);
        }
        proof {
            assert forall|interned: Seq<char>| #[trigger]
                old(self).backed(interned) implies self.backed(interned) by {
                assert(begun.backed(interned));
                assert(undone_all.backed(interned));
            }
        }
    }

    /// Keeps what was changed since the transaction started.
    pub fn commit_txn(&mut self)
        requires
            old(self).wf(),
        ensures
            final(self).wf(),
            final(self)@ == old(self)@.commit(),
            final(self).container() == old(self).container(),
            final(self).chunks() == old(self).chunks(),
            final(self).annotations() == old(self).annotations(),
            forall|interned: Seq<char>|
                #![trigger old(self).backed(interned)]
                #![trigger final(self).backed(interned)]
                old(self).backed(interned) ==> final(self).backed(interned),
    {
        self.in_txn = false;
        self.undo_stack.clear();
        proof {
            assert(undo_models(self.undo_stack@) =~= Seq::<UndoModel>::empty());
        }
    }

    /// The text as a rich value: each run of characters with the styles that
    /// are recorded on it.
    pub fn get_richtext_value(&self) -> (spans: Vec<RichtextSpan>)
        requires
            self.wf(),
        ensures
            span_models(spans@) == spans_of(self.chunks(), self.annotations()),
    {
        self.state.get_richtext_value()
    }

    /// The text as a value.
    pub fn get_value(&self) -> (v: LoroValue)
        requires
            self.wf(),
        ensures
            v matches LoroValue::Str(s) && s@ == self@.text(),
    {
        LoroValue::Str(self.state.to_string())
    }

    /// Takes back the recorded changes, the last first, and forgets them.
    fn undo_all(&mut self)
        requires
            old(self).state.wf(),
            undo_fits(old(self).state.entities(), undo_models(old(self).undo_stack@)),
            forall|i: int|
                0 <= i < old(self).undo_stack@.len() ==> (#[trigger] old(self).undo_stack@[i] matches UndoItem::Delete {
                    content,
                    ..
                } ==> content.wf()),
        ensures
            final(self).state.wf(),
            final(self).undo_stack@.len() == 0,
            final(self).in_txn == old(self).in_txn,
            final(self).idx == old(self).idx,
            final(self).saved == old(self).saved,
            old(self).undo_stack@.len() == 0 ==> final(self).state == old(self).state,
            forall|interned: Seq<char>|
                #![trigger old(self).backed(interned)]
                #![trigger final(self).backed(interned)]
                old(self).backed(interned) ==> final(self).backed(interned),
            final(self).state.entities() == undone(
                old(self).state.entities(),
                undo_models(old(self).undo_stack@),
            ),
    {
        let ghost target = undone(self.state.entities(), undo_models(self.undo_stack@));
        while self.undo_stack.len() > 0
            invariant
                self.state.wf(),
                self.in_txn == old(self).in_txn,
                self.idx == old(self).idx,
                self.saved == old(self).saved,
                self.undo_stack@.len() <= old(self).undo_stack@.len(),
                old(self).undo_stack@.len() == 0 ==> self.state == old(self).state,
                forall|interned: Seq<char>| #[trigger]
                    old(self).backed(interned) ==> self.backed(interned),
                undo_fits(self.state.entities(), undo_models(self.undo_stack@)),
                undone(self.state.entities(), undo_models(self.undo_stack@)) == target,
                forall|i: int|
                    0 <= i < self.undo_stack@.len() ==> (#[trigger] self.undo_stack@[i] matches UndoItem::Delete {
                        content,
                        ..
                    } ==> content.wf()),
            decreases self.undo_stack@.len(),
        {
            let ghost stack = undo_models(self.undo_stack@);
            let ghost items = self.undo_stack@;
            let ghost es = self.state.entities();
            let ghost held = self.state.chunks();
            let item = self.undo_stack.pop().unwrap();
            proof {
                assert(undo_models(self.undo_stack@) =~= stack.drop_last());
                assert(stack.last() == item@);
                assert(items[items.len() - 1] == item);
                self.state.lemma_bounds();
            }
            let ghost rest = undo_models(self.undo_stack@);
            let ghost back = item@;
            match item {
                UndoItem::Insert { index, len } => {
                    let _ = self.state.drain_by_entity_index(index as usize, len as usize);
                },
                UndoItem::Delete { index, content } => {
                    proof {
                        let a = es.subrange(0, index as int);
                        let c = es.subrange(index as int, es.len() as int);
                        assert(es =~= a + c);
                        lemma_metrics_concat(a, c);
                        lemma_metrics_concat(a, content@.entities());
                        lemma_metrics_concat(a + content@.entities(), c);
                        lemma_entities_one(content@);
                    }
                    self.state.insert_elem_at_entity_index(index as usize, content);
                },
            }
            proof {
                let now = self.state.chunks();
                assert forall|interned: Seq<char>| #[trigger]
                    old(self).backed(interned) implies self.backed(interned) by {
                    assert(backed_by(held, interned) && records_backed(stack, interned));
                    assert(backed_by(Seq::<ChunkModel>::empty(), interned));
                    assert(records_backed(rest, interned)) by {
                        assert forall|i: int| 0 <= i < rest.len() implies (#[trigger] rest[i] matches UndoModel::Delete {
                            content,
                            ..
                        } ==> is_backed(content, interned)) by {
                            assert(rest[i] == stack[i]);
                        }
                    }
                    if let UndoModel::Delete { content, .. } = back {
                        assert(stack[stack.len() - 1] == back);
                        assert(is_backed(content, interned));
                        assert(backed_by(seq![content], interned));
                    }
                    assert(backed_by(now, interned));
                }
            }
        }
        proof {
            assert(undo_models(self.undo_stack@) =~= Seq::<UndoModel>::empty());
        }
    }

    pub fn len_utf8(&self) -> (n: usize)
        requires
            self.wf(),
        ensures
            n == utf8_len(self@.text()),
    {
        self.state.len_utf8()
    }

    pub fn len_utf16(&self) -> (n: usize)
        requires
            self.wf(),
        ensures
            n == utf16_len(self@.text()),
    {
        self.state.len_utf16()
    }

    pub fn len_entity(&self) -> (n: usize)
        requires
            self.wf(),
        ensures
            n == self@.entities.len(),
    {
        self.state.len_entity()
    }

    pub fn len_unicode(&self) -> (n: usize)
        requires
            self.wf(),
        ensures
            n == self@.text().len(),
    {
        self.state.len_unicode()
    }

    /// The entity index at which text inserted before character `pos` of the
    /// text lands.
    pub fn get_entity_index_for_text_insert_pos(&self, pos: usize) -> (r: usize)
        requires
            self.wf(),
            pos <= self@.text().len(),
        ensures
            is_insert_slot(self@.entities, pos as int, false, r as int),
    {
        self.state.get_entity_index_for_text_insert_pos(pos)
    }

    /// The entity index at which text inserted before UTF-16 code unit `pos`
    /// of the text lands.
    pub fn get_entity_index_for_utf16_insert_pos(&self, pos: usize) -> (r: usize)
        requires
            self.wf(),
            pos <= utf16_len(self@.text()),
        ensures
            is_insert_slot(self@.entities, pos as int, true, r as int),
    {
        self.state.get_entity_index_for_utf16_insert_pos(pos)
    }

    /// The runs of entities that are the characters `pos..pos + len` of the
    /// text.
    pub fn get_text_entity_ranges_in_unicode_range(&self, pos: usize, len: usize) -> (ranges: Vec<
        Range<usize>,
    >)
        requires
            self.wf(),
            pos + len <= usize::MAX,
        ensures
            is_text_cover(self@.entities, pos as int, pos + len, false, ranges@),
    {
        self.state.get_text_entity_ranges_in_unicode_range(pos, len)
    }

    /// The runs of entities that are the characters that start in the UTF-16
    /// code units `pos..pos + len` of the text.
    pub fn get_text_entity_ranges_in_utf16_range(&self, pos: usize, len: usize) -> (ranges: Vec<
        Range<usize>,
    >)
        requires
            self.wf(),
            pos + len <= usize::MAX,
        ensures
            is_text_cover(self@.entities, pos as int, pos + len, true, ranges@),
    {
        self.state.get_text_entity_ranges_in_utf16_range(pos, len)
    }

    /// The chunks, in document order.
    pub fn iter_chunk(&self) -> (chunks: &Vec<RichtextStateChunk>)
        requires
            self.wf(),
        ensures
            models_of(chunks@) == self.chunks(),
            forall|i: int| 0 <= i < chunks@.len() ==> (#[trigger] chunks@[i]).wf(),
    {
        self.state.iter_chunk()
    }
}

/// Where no entity of a run of chunks is an anchor, every chunk is text.
pub proof fn lemma_only_text_chunks(ms: Seq<ChunkModel>)
    requires
        only_text(entities_of(ms), 0, entities_of(ms).len() as int),
    ensures
        forall|j: int| 0 <= j < ms.len() ==> #[trigger] ms[j] is Text,
{
    assert forall|j: int| 0 <= j < ms.len() implies #[trigger] ms[j] is Text by {
        if ms[j] is Style {
            lemma_inside_chunk(ms, j, 0, false);
            let at = crate::rope::prefix_len(ms, j) as int;
            assert(entities_of(ms)[at] is Char);
        }
    }
}

/// The entities between `a` and `c` of which the chunks from `j` on have
/// been removed and their removal recorded.
pub open spec fn partly_removed(
    a: Seq<Entity>,
    c: Seq<Entity>,
    ms: Seq<ChunkModel>,
    j: int,
) -> Seq<Entity> {
    a + entities_of(ms.subrange(j, ms.len() as int)) + c
}

/// Recording the removal of one more chunk keeps what taking everything back
/// restores.
pub proof fn lemma_undo_delete_step(
    a: Seq<Entity>,
    c: Seq<Entity>,
    ms: Seq<ChunkModel>,
    j: int,
    stack: Seq<UndoModel>,
)
    requires
        0 <= j < ms.len(),
        ms[j] is Text,
        undo_fits(partly_removed(a, c, ms, j), stack),
        fits_rope(partly_removed(a, c, ms, j)),
    ensures
        undo_fits(
            partly_removed(a, c, ms, j + 1),
            stack.push(UndoModel::Delete { index: a.len(), content: ms[j] }),
        ),
        undone(
            partly_removed(a, c, ms, j + 1),
            stack.push(UndoModel::Delete { index: a.len(), content: ms[j] }),
        ) == undone(partly_removed(a, c, ms, j), stack),
        fits_rope(partly_removed(a, c, ms, j + 1)),
{
    let item = UndoModel::Delete { index: a.len(), content: ms[j] };
    let rest = entities_of(ms.subrange(j + 1, ms.len() as int));
    let mine = ms[j].entities();
    let now = partly_removed(a, c, ms, j + 1);
    let was = partly_removed(a, c, ms, j);
    assert(ms.subrange(j, ms.len() as int) =~= seq![ms[j]] + ms.subrange(j + 1, ms.len() as int));
    lemma_entities_concat(seq![ms[j]], ms.subrange(j + 1, ms.len() as int));
    lemma_entities_one(ms[j]);
    assert(undo_one(now, item) =~= was);
    assert(stack.push(item).drop_last() =~= stack);
    assert(stack.push(item).last() == item);
    assert(was =~= (a + mine) + (rest + c));
    assert(now =~= a + (rest + c));
    lemma_metrics_concat(a + mine, rest + c);
    lemma_metrics_concat(a, mine);
    lemma_metrics_concat(a, rest + c);
}

/// Recording an insertion keeps what taking everything back restores.
pub proof fn lemma_undo_insert_step(
    es: Seq<Entity>,
    at: int,
    what: Seq<Entity>,
    stack: Seq<UndoModel>,
)
    requires
        0 <= at <= es.len(),
        undo_fits(es, stack),
    ensures
        undo_fits(
            with_inserted(es, at, what),
            stack.push(UndoModel::Insert { index: at as nat, len: what.len() }),
        ),
        undone(
            with_inserted(es, at, what),
            stack.push(UndoModel::Insert { index: at as nat, len: what.len() }),
        ) == undone(es, stack),
{
    let item = UndoModel::Insert { index: at as nat, len: what.len() };
    assert(undo_one(with_inserted(es, at, what), item) =~= es);
    assert(stack.push(item).drop_last() =~= stack);
    assert(stack.push(item).last() == item);
}

impl RichtextState {
    /// Records, inside a transaction, that `removed` was taken out at
    /// `index`.
    fn record_removed(
        &mut self,
        index: usize,
        removed: &Vec<RichtextStateChunk>,
        Ghost(a): Ghost<Seq<Entity>>,
        Ghost(c): Ghost<Seq<Entity>>,
    )
        requires
            old(self).state.wf(),
            old(self).in_txn,
            a.len() == index,
            index <= ROPE_LIMIT,
            old(self).state.entities() == a + c,
            forall|i: int| 0 <= i < removed@.len() ==> (#[trigger] removed@[i]).wf(),
            only_text(
                entities_of(models_of(removed@)),
                0,
                entities_of(models_of(removed@)).len() as int,
            ),
            undo_fits(partly_removed(a, c, models_of(removed@), 0), undo_models(old(self).undo_stack@)),
            fits_rope(partly_removed(a, c, models_of(removed@), 0)),
            old(self).saved_fit(
                undone(
                    partly_removed(a, c, models_of(removed@), 0),
                    undo_models(old(self).undo_stack@),
                ).len(),
            ),
            forall|i: int|
                0 <= i < old(self).undo_stack@.len() ==> (#[trigger] old(self).undo_stack@[i] matches UndoItem::Delete {
                    content,
                    ..
                } ==> content.wf()),
        ensures
            final(self).wf(),
            final(self).state == old(self).state,
            final(self).in_txn,
            final(self).idx == old(self).idx,
            final(self).saved == old(self).saved,
            forall|interned: Seq<char>| #[trigger]
                old(self).backed(interned) && backed_by(models_of(removed@), interned)
                    ==> final(self).backed(interned),
            undone(final(self).state.entities(), undo_models(final(self).undo_stack@)) == undone(
                partly_removed(a, c, models_of(removed@), 0),
                undo_models(old(self).undo_stack@),
            ),
    {
        let ghost ms = models_of(removed@);
        let ghost target = undone(partly_removed(a, c, ms, 0), undo_models(self.undo_stack@));
        let mut j: usize = 0;
        proof {
            lemma_only_text_chunks(ms);
        }
        while j < removed.len()
            invariant
                self.state == old(self).state,
                self.state.wf(),
                self.in_txn,
                self.idx == old(self).idx,
                self.saved == old(self).saved,
                self.saved_fit(target.len()),
                forall|interned: Seq<char>| #[trigger]
                    old(self).backed(interned) && backed_by(ms, interned) ==> self.backed(
                        interned,
                    ),
                a.len() == index,
                index <= ROPE_LIMIT,
                self.state.entities() == a + c,
                ms == models_of(removed@),
                j <= removed@.len(),
                forall|i: int| 0 <= i < removed@.len() ==> (#[trigger] removed@[i]).wf(),
                forall|i: int| 0 <= i < ms.len() ==> #[trigger] ms[i] is Text,
                undo_fits(partly_removed(a, c, ms, j as int), undo_models(self.undo_stack@)),
                fits_rope(partly_removed(a, c, ms, j as int)),
                undone(partly_removed(a, c, ms, j as int), undo_models(self.undo_stack@))
                    == target,
                forall|i: int|
                    0 <= i < self.undo_stack@.len() ==> (#[trigger] self.undo_stack@[i] matches UndoItem::Delete {
                        content,
                        ..
                    } ==> content.wf()),
            decreases removed@.len() - j,
        {
            let ghost stack = undo_models(self.undo_stack@);
            proof {
                lemma_undo_delete_step(a, c, ms, j as int, stack);
            }
            self.undo_stack.push(
                UndoItem::Delete { index: index as u32, content: removed[j].duplicate() },
            );
            proof {
                let pushed = stack.push(UndoModel::Delete { index: a.len(), content: ms[j as int] });
                assert(undo_models(self.undo_stack@) =~= pushed);
                assert forall|interned: Seq<char>| #[trigger]
                    old(self).backed(interned) && backed_by(ms, interned) implies self.backed(
                    interned,
                ) by {
                    assert(records_backed(stack, interned));
                    assert forall|i: int| 0 <= i < pushed.len() implies (#[trigger] pushed[i] matches UndoModel::Delete {
                        content,
                        ..
                    } ==> is_backed(content, interned)) by {
                        if i < stack.len() {
                            assert(pushed[i] == stack[i]);
                        } else {
                            assert(is_backed(ms[j as int], interned));
                        }
                    }
                }
            }
            j = j + 1;
        }
        proof {
            assert(ms.subrange(j as int, ms.len() as int) =~= Seq::<ChunkModel>::empty());
            assert(partly_removed(a, c, ms, j as int) =~= a + c);
        }
    }

    /// Records, inside a transaction, that `len` entities were put in at
    /// `index`.
    fn record_inserted(
        &mut self,
        index: usize,
        len: usize,
        Ghost(before): Ghost<Seq<Entity>>,
        Ghost(what): Ghost<Seq<Entity>>,
    )
        requires
            old(self).state.wf(),
            old(self).in_txn,
            index <= before.len(),
            what.len() == len,
            old(self).state.entities() == with_inserted(before, index as int, what),
            undo_fits(before, undo_models(old(self).undo_stack@)),
            old(self).saved_fit(undone(before, undo_models(old(self).undo_stack@)).len()),
            forall|i: int|
                0 <= i < old(self).undo_stack@.len() ==> (#[trigger] old(self).undo_stack@[i] matches UndoItem::Delete {
                    content,
                    ..
                } ==> content.wf()),
        ensures
            final(self).wf(),
            final(self).state == old(self).state,
            final(self).in_txn,
            final(self).idx == old(self).idx,
            final(self).saved == old(self).saved,
            forall|interned: Seq<char>|
                #![trigger old(self).backed(interned)]
                #![trigger final(self).backed(interned)]
                old(self).backed(interned) ==> final(self).backed(interned),
            undone(final(self).state.entities(), undo_models(final(self).undo_stack@)) == undone(
                before,
                undo_models(old(self).undo_stack@),
            ),
    {
        let ghost stack = undo_models(self.undo_stack@);
        proof {
            self.state.lemma_bounds();
            lemma_undo_insert_step(before, index as int, what, stack);
        }
        self.undo_stack.push(UndoItem::Insert { index: index as u32, len: len as u32 });
        proof {
            assert(undo_models(self.undo_stack@) =~= stack.push(
                UndoModel::Insert { index: index as nat, len: what.len() },
            ));
        }
    }

    /// Puts in the two anchors of a style inside a transaction, records both,
    /// and records the style on what lies between them and on both.
    fn mark_in_txn(&mut self, from: usize, to: usize, style: StyleOp)
        requires
            old(self).wf(),
            old(self).in_txn,
            from <= to <= old(self).state.entities().len(),
            old(self).state.entities().len() + 2 <= ROPE_LIMIT,
        ensures
            final(self).wf(),
            final(self).in_txn,
            final(self).idx == old(self).idx,
            final(self).saved == old(self).saved,
            final(self).state.entities() == edited(
                old(self).state.entities(),
                (Edit::Mark { start: from as int, end: to as int, style: style@ }),
            ),
            undone(final(self).state.entities(), undo_models(final(self).undo_stack@)) == undone(
                old(self).state.entities(),
                undo_models(old(self).undo_stack@),
            ),
            final(self).state.annotations() == ranges_edited(
                old(self).state.annotations(),
                (Edit::Mark { start: from as int, end: to as int, style: style@ }),
            ),
            forall|interned: Seq<char>|
                #![trigger old(self).backed(interned)]
                #![trigger final(self).backed(interned)]
                old(self).backed(interned) ==> final(self).backed(interned),
    {
        let ghost es = self.state.entities();
        let ghost notes = self.state.annotations();
        let ghost first = seq![Entity::Anchor(style@, AnchorType::End)];
        let ghost second = seq![Entity::Anchor(style@, AnchorType::Start)];
        proof {
            self.state.lemma_bounds();
            lemma_metrics_concat(Seq::<Entity>::empty(), Seq::<Entity>::empty());
            crate::chunk::lemma_text_of_chunk(
                ChunkModel::Style { op: style@, anchor: AnchorType::End },
            );
            crate::chunk::lemma_text_of_chunk(
                ChunkModel::Style { op: style@, anchor: AnchorType::Start },
            );
            lemma_counts_of_encoding(Seq::<char>::empty());
        }
        let ghost begun = *self;
        let end_anchor = RichtextStateChunk::new_style(style.duplicate(), AnchorType::End);
        self.state.insert_elem_at_entity_index(to, end_anchor);
        let ghost one_in = *self;
        self.record_inserted(to, 1, Ghost(es), Ghost(first));
        let ghost one_done = *self;
        let ghost mid = self.state.entities();
        let ghost notes_mid = self.state.annotations();
        proof {
            self.state.lemma_bounds();
            lemma_metrics_concat(es.subrange(0, to as int), first);
            lemma_metrics_concat(
                es.subrange(0, to as int) + first,
                es.subrange(to as int, es.len() as int),
            );
            lemma_metrics_concat(
                es.subrange(0, to as int),
                es.subrange(to as int, es.len() as int),
            );
            assert(es =~= es.subrange(0, to as int) + es.subrange(to as int, es.len() as int));
            assert(notes_mid =~= ranges_after_insert(notes, to as int, 1));
        }
        let start_anchor = RichtextStateChunk::new_style(style.duplicate(), AnchorType::Start);
        self.state.insert_elem_at_entity_index(from, start_anchor);
        let ghost two_in = *self;
        self.record_inserted(from, 1, Ghost(mid), Ghost(second));
        let ghost two_done = *self;
        proof {
            assert forall|interned: Seq<char>| #[trigger]
                begun.backed(interned) implies two_done.backed(interned) by {
                lemma_backing_kept(
                    begun.state.chunks(),
                    ChunkModel::Style { op: style@, anchor: AnchorType::End },
                    one_in.state.chunks(),
                    interned,
                );
                assert(one_in.backed(interned));
                assert(one_done.backed(interned));
                lemma_backing_kept(
                    one_done.state.chunks(),
                    ChunkModel::Style { op: style@, anchor: AnchorType::Start },
                    two_in.state.chunks(),
                    interned,
                );
                assert(two_in.backed(interned));
            }
            assert(self.state.entities() =~= es.subrange(0, from as int) + second + es.subrange(
                from as int,
                to as int,
            ) + first + es.subrange(to as int, es.len() as int));
            assert(self.state.annotations() =~= ranges_after_insert(notes_mid, from as int, 1));
        }
        self.state.annotate_style_range(from..to + 2, &style);
    }

    /// Applies an operation to the state. Text that the operation refers to
    /// by range is read from `arena`; a style takes its identity from `r_op`,
    /// the operation as it arrived. Inside a transaction the change is
    /// recorded, so that it can be taken back; there an operation that
    /// removes an anchor is not accepted.
    pub fn apply_op(&mut self, r_op: &RawOp, op: &Op, arena: &SharedArena)
        requires
            old(self).wf(),
            arena.wf(),
            op_fits(*op, arena.text()),
            edit_fits(old(self)@.entities, edit_of(*op, *r_op, arena.text())),
            old(self)@.in_txn ==> (match edit_of(*op, *r_op, arena.text()) {
                Edit::Delete { start, end } => only_text(old(self)@.entities, start, end),
                _ => true,
            }),
        ensures
            final(self).wf(),
            final(self).container() == old(self).container(),
            final(self)@ == old(self)@.apply(edit_of(*op, *r_op, arena.text())),
            final(self).annotations() == ranges_edited(
                old(self).annotations(),
                edit_of(*op, *r_op, arena.text()),
            ),
            old(self)@.in_txn ==> final(self).rollback_ranges() == old(self).rollback_ranges(),
            old(self).backed(arena.text()) && op_backed(*op, arena.text()) ==> final(self).backed(
                arena.text(),
            ),
            (match edit_of(*op, *r_op, arena.text()) {
                Edit::Nothing => true,
                Edit::Insert { chars, .. } => chars.len() == 0,
                _ => false,
            }) ==> final(self).chunks() == old(self).chunks(),
    {
        let ghost es = self.state.entities();
        let ghost notes = self.state.annotations();
        let ghost stack = undo_models(self.undo_stack@);
        let ghost held = self.state.chunks();
        let ghost t = arena.text();
        let ghost ok = self.backed(t) && op_backed(*op, t);
        proof {
            self.state.lemma_bounds();
        }
        match &op.content {
            InnerContent::List(l) => match l {
                InnerListOp::Insert { slice, pos } => {
                    let ghost chars = arena.text().subrange(slice.start as int, slice.end as int);
                    proof {
                        arena.lemma_text_bounds(slice.start as int, slice.end as int);
                        vstd::utf8::encode_utf8_valid_utf8(chars);
                        vstd::utf8::encode_utf8_decode_utf8(chars);
                        lemma_text_of_chars(chars);
                    }
                    self.state.insert_at_entity_index(
                        *pos,
                        arena.slice_by_unicode(slice.start as usize, slice.end as usize),
                        slice.start,
                    );
                    proof {
                        if ok {
                            lemma_backing_kept(
                                held,
                                ChunkModel::Text { chars, start: slice.start as nat },
                                self.state.chunks(),
                                t,
                            );
                            assert(self.backed(t));
                        }
                    }
                    if self.in_txn {
                        self.record_inserted(
                            *pos,
                            (slice.end - slice.start) as usize,
                            Ghost(es),
                            Ghost(chars_as_entities(chars)),
                        );
                    }
                },
                InnerListOp::InsertText { slice, unicode_start, unicode_len, pos } => {
                    let ghost chars = decode_utf8(slice_bytes(*slice));
                    proof {
                        vstd::utf8::decode_utf8_encode_utf8(slice_bytes(*slice));
                        lemma_text_of_chars(chars);
                    }
                    self.state.insert_at_entity_index(
                        *pos as usize,
                        slice.clone(),
                        *unicode_start,
                    );
                    proof {
                        if ok {
                            lemma_backing_kept(
                                held,
                                ChunkModel::Text { chars, start: *unicode_start as nat },
                                self.state.chunks(),
                                t,
                            );
                            assert(self.backed(t));
                        }
                    }
                    if self.in_txn {
                        self.record_inserted(
                            *pos as usize,
                            *unicode_len as usize,
                            Ghost(es),
                            Ghost(chars_as_entities(chars)),
                        );
                    }
                },
                InnerListOp::Delete(del) => {
                    let start = del.start() as usize;
                    let removed = self.state.drain_by_entity_index(start, del.atom_len());
                    proof {
                        if ok {
                            lemma_backing_stays(held, self.state.chunks(), t);
                            lemma_backing_stays(held, models_of(removed@), t);
                            assert(self.backed(t));
                        }
                    }
                    if self.in_txn {
                        let ghost a = es.subrange(0, start as int);
                        let ghost c = es.subrange(del.spec_end(), es.len() as int);
                        proof {
                            let ms = models_of(removed@);
                            assert(ms.subrange(0, ms.len() as int) =~= ms);
                            assert(partly_removed(a, c, ms, 0) =~= es);
                        }
                        self.record_removed(start, &removed, Ghost(a), Ghost(c));
                    }
                },
                InnerListOp::StyleStart { start, end, key, info } => {
                    let style = StyleOp {
                        lamport: r_op.lamport,
                        peer: r_op.id.peer,
                        cnt: r_op.id.counter,
                        key: key.clone(),
                        info: *info,
                    };
                    if self.in_txn {
                        self.mark_in_txn(*start as usize, *end as usize, style);
                    } else {
                        self.state.mark_with_entity_index(*start as usize..*end as usize, style);
                        proof {
                            if ok {
                                lemma_backing_stays(held, self.state.chunks(), t);
                            }
                        }
                    }
                },
                InnerListOp::StyleEnd => {},
            },
            _ => {},
        }
        proof {
            let e = edit_of(*op, *r_op, arena.text());
            assert(self.state.annotations() =~= ranges_edited(notes, e));
        }
    }

    /// Applies a change that walks through the text. Where the walk puts in
    /// the end anchor of a style, the style is recorded on everything from
    /// its start anchor, which the walk has put in before, up to and
    /// including the end anchor. Inside a transaction the change is recorded,
    /// so that it can be taken back.
    pub fn apply_diff(&mut self, diff: &Diff, arena: &SharedArena)
        requires
            old(self).wf(),
            diff matches Diff::RichtextRaw(delta) && delta_fits(
                old(self)@.entities,
                delta_models(delta.vec@),
                0,
                Set::empty(),
                old(self)@.in_txn,
            ) && forall|i: int|
                0 <= i < delta.vec@.len() ==> (#[trigger] delta.vec@[i] matches DeltaItem::Insert {
                    value,
                } ==> value.wf()),
        ensures
            final(self).wf(),
            final(self).container() == old(self).container(),
            diff matches Diff::RichtextRaw(delta) && final(self)@ == old(self)@.apply(
                Edit::Walk { items: delta_models(delta.vec@) },
            ),
            diff matches Diff::RichtextRaw(delta) && final(self).annotations() == delta_ranges(
                old(self).annotations(),
                delta_models(delta.vec@),
                0,
                Map::empty(),
            ),
            old(self)@.in_txn ==> final(self).rollback_ranges() == old(self).rollback_ranges(),
            diff matches Diff::RichtextRaw(delta) && (old(self).backed(arena.text())
                && delta_backed(delta_models(delta.vec@), arena.text()) ==> final(self).backed(
                arena.text(),
            )),
    {
        let richtext = match diff {
            Diff::RichtextRaw(richtext) => richtext,
            _ => vstd::pervasive::unreached(),
        };
        let ghost items = delta_models(richtext.vec@);
        let ghost goal = delta_applied(self.state.entities(), items, 0);
        let ghost back = undone(self.state.entities(), undo_models(self.undo_stack@));
        let ghost ranges = delta_ranges(self.state.annotations(), items, 0, Map::empty());
        let mut index: usize = 0;
        let mut style_starts = anchors_new();
        let mut k: usize = 0;
        proof {
            assert(items.subrange(0, items.len() as int) =~= items);
            assert(starts_of(anchor_entries(style_starts)) =~= Map::<ID, int>::empty());
            assert(Set::new(
                |id: ID| anchor_entries(style_starts).contains_key((id.peer, id.counter)),
            ) =~= Set::<ID>::empty());
        }
        while k < richtext.vec.len()
            invariant
                self.wf(),
                self.idx == old(self).idx,
                self.in_txn == old(self).in_txn,
                self.saved == old(self).saved,
                old(self).backed(arena.text()) && delta_backed(items, arena.text())
                    ==> self.backed(arena.text()),
                items == delta_models(richtext.vec@),
                k <= richtext.vec@.len(),
                forall|i: int|
                    0 <= i < richtext.vec@.len() ==> (#[trigger] richtext.vec@[i] matches DeltaItem::Insert {
                        value,
                    } ==> value.wf()),
                delta_applied(
                    self.state.entities(),
                    items.subrange(k as int, items.len() as int),
                    index as int,
                ) == goal,
                delta_fits(
                    self.state.entities(),
                    items.subrange(k as int, items.len() as int),
                    index as int,
                    Set::new(|id: ID| anchor_entries(style_starts).contains_key((id.peer, id.counter))),
                    self.in_txn,
                ),
                forall|key: (u64, i32)|
                    anchor_entries(style_starts).contains_key(key) ==> #[trigger] anchor_entries(
                        style_starts,
                    )[key] <= index,
                index <= self.state.entities().len(),
                self.in_txn ==> undone(self.state.entities(), undo_models(self.undo_stack@))
                    == back,
                delta_ranges(
                    self.state.annotations(),
                    items.subrange(k as int, items.len() as int),
                    index as int,
                    starts_of(anchor_entries(style_starts)),
                ) == ranges,
            decreases richtext.vec@.len() - k,
        {
            let ghost es = self.state.entities();
            let ghost notes = self.state.annotations();
            let ghost starts = starts_of(anchor_entries(style_starts));
            let ghost held = self.state.chunks();
            let ghost t = arena.text();
            let ghost ok = old(self).backed(t) && delta_backed(items, t);
            let ghost rest = items.subrange(k as int, items.len() as int);
            let ghost started = Set::new(
                |id: ID| anchor_entries(style_starts).contains_key((id.peer, id.counter)),
            );
            proof {
                assert(rest.drop_first() =~= items.subrange(k + 1, items.len() as int));
                assert(rest[0] == items[k as int]);
                self.state.lemma_bounds();
            }
            match &richtext.vec[k] {
                DeltaItem::Retain { len } => {
                    index = index + *len;
                },
                DeltaItem::Insert { value } => {
                    let n = value.rle_len();
                    proof {
                        let a = es.subrange(0, index as int);
                        let c = es.subrange(index as int, es.len() as int);
                        assert(es =~= a + c);
                        lemma_metrics_concat(a, c);
                        lemma_metrics_concat(a, value@.entities());
                        lemma_metrics_concat(a + value@.entities(), c);
                        lemma_entities_one(value@);
                    }
                    self.state.insert_elem_at_entity_index(index, value.duplicate());
                    proof {
                        assert(self.state.annotations() =~= ranges_after_insert(
                            notes,
                            index as int,
                            n as int,
                        ));
                        if ok {
                            assert(items[k as int] == (DeltaModel::Insert { value: value@ }));
                            lemma_backing_kept(held, value@, self.state.chunks(), t);
                            assert(self.backed(t));
                        }
                    }
                    match value {
                        RichtextStateChunk::Text { .. } => {},
                        RichtextStateChunk::Style { style, anchor_type } => {
                            match anchor_type {
                                AnchorType::Start => {
                                    anchors_insert(
                                        &mut style_starts,
                                        (style.peer, style.cnt),
                                        index,
                                    );
                                    proof {
                                        let next = Set::new(
                                            |id: ID|
                                                anchor_entries(style_starts).contains_key(
                                                    (id.peer, id.counter),
                                                ),
                                        );
                                        assert(next =~= started.insert(style@.id()));
                                        assert(starts_of(anchor_entries(style_starts))
                                            =~= starts.insert(style@.id(), index as int));
                                    }
                                },
                                AnchorType::End => {
                                    proof {
                                        assert(started.contains(style@.id()));
                                    }
                                    match anchors_get(&style_starts, (style.peer, style.cnt)) {
                                        Some(start_pos) => {
                                            self.state.annotate_style_range(
                                                start_pos..index + 1,
                                                style,
                                            );
                                        },
                                        None => vstd::pervasive::unreached(),
                                    }
                                },
                            }
                        },
                    }
                    proof {
                        if ok {
                            assert(self.backed(t));
                        }
                    }
                    if self.in_txn {
                        self.record_inserted(index, n, Ghost(es), Ghost(value@.entities()));
                    }
                    index = index + n;
                },
                DeltaItem::Delete { len } => {
                    let removed = self.state.drain_by_entity_index(index, *len);
                    proof {
                        assert(self.state.annotations() =~= ranges_after_remove(
                            notes,
                            index as int,
                            index + *len,
                        ));
                        if ok {
                            lemma_backing_stays(held, self.state.chunks(), t);
                            lemma_backing_stays(held, models_of(removed@), t);
                            assert(self.backed(t));
                        }
                    }
                    if self.in_txn {
                        let ghost a = es.subrange(0, index as int);
                        let ghost c = es.subrange(index + *len, es.len() as int);
                        proof {
                            let ms = models_of(removed@);
                            assert(ms.subrange(0, ms.len() as int) =~= ms);
                            assert(partly_removed(a, c, ms, 0) =~= es);
                        }
                        self.record_removed(index, &removed, Ghost(a), Ghost(c));
                    }
                },
            }
            k = k + 1;
        }
        proof {
            assert(items.subrange(k as int, items.len() as int) =~= Seq::<DeltaModel>::empty());
        }
    }

    /// The state as a change that builds it from nothing: one insertion for
    /// each chunk.
    pub fn to_diff(&self) -> (diff: Diff)
        requires
            self.wf(),
        ensures
            diff matches Diff::RichtextRaw(delta) && delta.vec@.len() == self.chunks().len()
                && forall|i: int|
                0 <= i < delta.vec@.len() ==> #[trigger] delta.vec@[i]@ == (DeltaModel::Insert {
                    value: self.chunks()[i],
                }),
    {
        let chunks = self.state.iter_chunk();
        let mut vec: Vec<DeltaItem> = Vec::new();
        let mut k: usize = 0;
        while k < chunks.len()
            invariant
                models_of(chunks@) == self.state.chunks(),
                k <= chunks@.len(),
                vec@.len() == k,
                forall|i: int|
                    0 <= i < k ==> #[trigger] vec@[i]@ == (DeltaModel::Insert {
                        value: self.state.chunks()[i],
                    }),
            decreases chunks@.len() - k,
        {
            vec.push(DeltaItem::Insert { value: chunks[k].duplicate() });
            k = k + 1;
        }
        Diff::RichtextRaw(Delta { vec })
    }
}

} // verus!
