//! Operations, as they arrive from outside and as they are kept once their
//! payload has been interned.

use crate::id::{ContainerIdx, Counter, Lamport, PeerID, ID};
use crate::value::{InternalString, LoroValue};
use append_only_bytes::BytesSlice;
use vstd::prelude::*;

verus! {

/// The start of the ranges that stand for text whose content is gone.
pub const UNKNOWN_START: u32 = 0x7fff_ffff;

/// A range `[start, end)` of positions in the arena: characters for text,
/// entries for values.
#[derive(Clone, Copy, Debug, PartialEq, Eq, Structural)]
pub struct SliceRange {
    pub start: u32,
    pub end: u32,
}

impl SliceRange {
    /// A range that is either a placeholder or lies wholly below the
    /// placeholders.
    pub open spec fn wf(&self) -> bool {
        &&& self.start <= self.end
        &&& self.start != UNKNOWN_START ==> self.end < UNKNOWN_START
    }

    pub open spec fn len(&self) -> nat {
        (self.end - self.start) as nat
    }

    pub open spec fn spec_is_unknown(&self) -> bool {
        self.start == UNKNOWN_START
    }

    /// A placeholder of the given length for content that is gone.
    pub fn new_unknown(size: u32) -> (r: SliceRange)
        requires
            size <= u32::MAX - UNKNOWN_START,
        ensures
            r.spec_is_unknown(),
            r.wf(),
            r.len() == size,
    {
        SliceRange { start: UNKNOWN_START, end: UNKNOWN_START + size }
    }

    #[verifier::when_used_as_spec(spec_is_unknown)]
    pub fn is_unknown(&self) -> (r: bool)
        ensures
            r == self.spec_is_unknown(),
    {
        self.start == UNKNOWN_START
    }

    pub fn atom_len(&self) -> (n: usize)
        requires
            self.wf(),
        ensures
            n == self.len(),
    {
        (self.end - self.start) as usize
    }

    /// The part `from..to` of the range. A part of a placeholder is a
    /// placeholder.
    pub fn slice(&self, from: usize, to: usize) -> (r: SliceRange)
        requires
            self.wf(),
            from <= to <= self.len(),
        ensures
            r == (if self.spec_is_unknown() {
                SliceRange { start: UNKNOWN_START, end: (UNKNOWN_START + to - from) as u32 }
            } else {
                SliceRange { start: (self.start + from) as u32, end: (self.start + to) as u32 }
            }),
            r.wf(),
            r.len() == to - from,
            r.spec_is_unknown() == self.spec_is_unknown(),
    {
        if self.is_unknown() {
            SliceRange { start: UNKNOWN_START, end: UNKNOWN_START + (to - from) as u32 }
        } else {
            SliceRange { start: self.start + from as u32, end: self.start + to as u32 }
        }
    }
}

/// A deletion of `|len|` positions. With `len > 0` it covers `pos` and what
/// follows; with `len < 0` it covers `pos` and what precedes.
#[derive(Clone, Copy, Debug, PartialEq, Eq, Structural)]
pub struct DeleteSpan {
    pub pos: isize,
    pub len: isize,
}

impl DeleteSpan {
    /// A span that can be applied: it deletes something, and nothing before
    /// position zero.
    pub open spec fn wf(&self) -> bool {
        &&& self.len != 0
        &&& self.len > isize::MIN
        &&& self.spec_start() >= 0
        &&& self.spec_end() <= isize::MAX
    }

    pub open spec fn spec_start(&self) -> int {
        if self.len > 0 {
            self.pos as int
        } else {
            self.pos + 1 + self.len
        }
    }

    pub open spec fn spec_end(&self) -> int {
        if self.len > 0 {
            self.pos + self.len
        } else {
            self.pos + 1
        }
    }

    pub open spec fn len(&self) -> nat {
        (self.spec_end() - self.spec_start()) as nat
    }

    pub fn new(pos: isize, len: isize) -> (s: DeleteSpan)
        ensures
            s == (DeleteSpan { pos, len }),
    {
        DeleteSpan { pos, len }
    }

    pub fn start(&self) -> (s: isize)
        requires
            self.wf(),
        ensures
            s == self.spec_start(),
    {
        if self.len > 0 {
            self.pos
        } else {
            self.pos + 1 + self.len
        }
    }

    pub fn end(&self) -> (e: isize)
        requires
            self.wf(),
        ensures
            e == self.spec_end(),
    {
        if self.len > 0 {
            self.pos + self.len
        } else {
            self.pos + 1
        }
    }

    pub fn atom_len(&self) -> (n: usize)
        requires
            self.wf(),
        ensures
            n == self.len(),
    {
        (self.end() - self.start()) as usize
    }

    /// The deletions numbered from `from` up to `to` of the span. Those
    /// before them have been made when these are: a span that goes onward
    /// stays where it is, a span that goes backward begins further back.
    pub fn slice(&self, from: usize, to: usize) -> (part: DeleteSpan)
        requires
            self.wf(),
            from < to <= self.len(),
        ensures
            part.wf(),
            part.len() == to - from,
            part == (if self.len > 0 {
                DeleteSpan { pos: self.pos, len: (to - from) as isize }
            } else {
                DeleteSpan { pos: (self.pos - from) as isize, len: (from - to) as isize }
            }),
    {
        if self.len > 0 {
            DeleteSpan { pos: self.pos, len: (to - from) as isize }
        } else {
            DeleteSpan { pos: self.pos - from as isize, len: -((to - from) as isize) }
        }
    }
}

/// How a style behaves at its borders. The flags mean nothing to the state
/// that stores them.
#[derive(Clone, Copy, Debug, PartialEq, Eq, Structural)]
pub struct TextStyleInfoFlag {
    pub data: u8,
}

impl TextStyleInfoFlag {
    pub fn from_u8(data: u8) -> (f: TextStyleInfoFlag)
        ensures
            f.data == data,
    {
        TextStyleInfoFlag { data }
    }

    pub fn to_u8(&self) -> (data: u8)
        ensures
            data == self.data,
    {
        self.data
    }

    pub open spec fn spec_expand_before(&self) -> bool {
        self.data & 2 != 0
    }

    pub open spec fn spec_expand_after(&self) -> bool {
        self.data & 4 != 0
    }

    /// Whether text inserted right before the start of the style belongs to
    /// it.
    #[verifier::when_used_as_spec(spec_expand_before)]
    pub fn expand_before(&self) -> (r: bool)
        ensures
            r == self.spec_expand_before(),
    {
        self.data & 2 != 0
    }

    /// Whether text inserted right after the end of the style belongs to it.
    #[verifier::when_used_as_spec(spec_expand_after)]
    pub fn expand_after(&self) -> (r: bool)
        ensures
            r == self.spec_expand_after(),
    {
        self.data & 4 != 0
    }
}

/// What an insertion carries.
#[derive(Debug)]
pub enum ListSlice {
    /// Values, not yet interned.
    RawData(Vec<LoroValue>),
    /// Text, not yet interned, with its length in characters.
    RawStr { str: String, unicode_len: usize },
    /// Content that is interned already.
    Slice(SliceRange),
    /// Content of a known length that is gone.
    Unknown(usize),
}

impl ListSlice {
    pub open spec fn wf(&self) -> bool {
        match self {
            ListSlice::RawData(values) => true,
            ListSlice::RawStr { str, unicode_len } => *unicode_len == str@.len(),
            ListSlice::Slice(range) => range.wf(),
            ListSlice::Unknown(len) => *len <= u32::MAX - UNKNOWN_START,
        }
    }

    /// The number of positions the content takes.
    pub open spec fn len(&self) -> nat {
        match self {
            ListSlice::RawData(values) => values@.len(),
            ListSlice::RawStr { str, unicode_len } => *unicode_len as nat,
            ListSlice::Slice(range) => range.len(),
            ListSlice::Unknown(len) => *len as nat,
        }
    }

    /// The placeholder range for content of length `len` that is gone.
    pub fn unknown_range(len: usize) -> (r: SliceRange)
        requires
            len <= u32::MAX - UNKNOWN_START,
        ensures
            r.spec_is_unknown(),
            r.wf(),
            r.len() == len,
    {
        SliceRange::new_unknown(len as u32)
    }
}

#[derive(Debug)]
pub enum ListOp {
    Insert { slice: ListSlice, pos: usize },
    Delete(DeleteSpan),
    StyleStart { start: u32, end: u32, key: InternalString, info: TextStyleInfoFlag },
    StyleEnd,
}

impl ListOp {
    pub open spec fn wf(&self) -> bool {
        match self {
            ListOp::Insert { slice, pos } => slice.wf(),
            ListOp::Delete(span) => span.wf(),
            ListOp::StyleStart { start, end, .. } => *start <= *end,
            ListOp::StyleEnd => true,
        }
    }

    /// The number of atoms the operation consists of.
    pub open spec fn len(&self) -> nat {
        match self {
            ListOp::Insert { slice, pos } => slice.len(),
            ListOp::Delete(span) => span.len(),
            ListOp::StyleStart { .. } => 1,
            ListOp::StyleEnd => 1,
        }
    }

    /// The number of atoms the operation consists of.
    pub fn atom_len(&self) -> (n: usize)
        requires
            self.wf(),
        ensures
            n == self.len(),
    {
        match self {
            ListOp::Insert { slice, pos } => match slice {
                ListSlice::RawData(values) => values.len(),
                ListSlice::RawStr { str, unicode_len } => *unicode_len,
                ListSlice::Slice(range) => range.atom_len(),
                ListSlice::Unknown(len) => *len,
            },
            ListOp::Delete(span) => span.atom_len(),
            ListOp::StyleStart { .. } => 1,
            ListOp::StyleEnd => 1,
        }
    }

    /// The atoms numbered from `from` up to `to` of an insertion of known
    /// place in the pool or of unknown content, or of a deletion.
    pub fn slice(&self, from: usize, to: usize) -> (part: ListOp)
        requires
            self.wf(),
            from < to <= self.len(),
            self is Delete || (self matches ListOp::Insert { slice, pos } && (slice is Slice
                || slice is Unknown) && pos + from <= usize::MAX),
        ensures
            part.wf(),
            part.len() == to - from,
            part@ == self@.sliced(from as int, to as int),
    {
        match self {
            ListOp::Insert { slice, pos } => match slice {
                ListSlice::Slice(r) => ListOp::Insert {
                    slice: ListSlice::Slice(r.slice(from, to)),
                    pos: *pos + from,
                },
                ListSlice::Unknown(_) => ListOp::Insert {
                    slice: ListSlice::Unknown(to - from),
                    pos: *pos + from,
                },
                _ => vstd::pervasive::unreached(),
            },
            ListOp::Delete(span) => ListOp::Delete(span.slice(from, to)),
            _ => vstd::pervasive::unreached(),
        }
    }

    /// The deletion of `len` positions from `pos` on.
    pub fn new_del(pos: usize, len: usize) -> (op: ListOp)
        requires
            pos <= isize::MAX,
            len <= isize::MAX,
        ensures
            op == ListOp::Delete(DeleteSpan { pos: pos as isize, len: len as isize }),
    {
        ListOp::Delete(DeleteSpan { pos: pos as isize, len: len as isize })
    }
}

impl ListSlice {
    /// A copy with the same content.
    pub fn duplicate(&self) -> (copy: ListSlice)
        ensures
            copy.wf() == self.wf(),
            copy.len() == self.len(),
            match (*self, copy) {
                (ListSlice::RawData(a), ListSlice::RawData(b)) => a@ == b@,
                (
                    ListSlice::RawStr { str: a, unicode_len: m },
                    ListSlice::RawStr { str: b, unicode_len: n },
                ) => a@ == b@ && m == n,
                (ListSlice::Slice(a), ListSlice::Slice(b)) => a == b,
                (ListSlice::Unknown(a), ListSlice::Unknown(b)) => a == b,
                _ => false,
            },
    {
        match self {
            ListSlice::RawData(values) => {
                let mut copy: Vec<LoroValue> = Vec::new();
                let mut i: usize = 0;
                while i < values.len()
                    invariant
                        i <= values@.len(),
                        copy@ == values@.subrange(0, i as int),
                    decreases values@.len() - i,
                {
                    copy.push(values[i].duplicate());
                    proof {
                        assert(copy@ =~= values@.subrange(0, i + 1));
                    }
                    i = i + 1;
                }
                proof {
                    assert(copy@ =~= values@);
                }
                ListSlice::RawData(copy)
            },
            ListSlice::RawStr { str, unicode_len } => ListSlice::RawStr {
                str: str.clone(),
                unicode_len: *unicode_len,
            },
            ListSlice::Slice(range) => ListSlice::Slice(*range),
            ListSlice::Unknown(len) => ListSlice::Unknown(*len),
        }
    }
}

#[derive(Debug)]
pub struct MapSet {
    pub key: InternalString,
    pub value: Option<LoroValue>,
}

#[derive(Clone, Copy, Debug, PartialEq, Eq, Structural)]
pub struct TreeID {
    pub peer: PeerID,
    pub counter: Counter,
}

impl TreeID {
    pub fn id(&self) -> (id: ID)
        ensures
            id == (ID { peer: self.peer, counter: self.counter }),
    {
        ID { peer: self.peer, counter: self.counter }
    }
}

#[derive(Clone, Copy, Debug, PartialEq, Eq, Structural)]
pub struct TreeOp {
    pub target: TreeID,
    pub parent: Option<TreeID>,
}

/// The content of an operation as it arrives.
#[derive(Debug)]
pub enum RawOpContent {
    Dict(MapSet),
    List(ListOp),
    Tree(TreeOp),
}

/// What an operation's content says, apart from how it is stored.
pub enum ContentModel {
    DictSet { key: Seq<char>, value: Option<LoroValue> },
    InsertData { values: Seq<LoroValue>, pos: usize },
    InsertText { text: Seq<char>, unicode_len: usize, pos: usize },
    InsertSlice { range: SliceRange, pos: usize },
    InsertUnknown { len: usize, pos: usize },
    Delete { span: DeleteSpan },
    StyleStart { start: u32, end: u32, key: Seq<char>, info: TextStyleInfoFlag },
    StyleEnd,
    Tree { op: TreeOp },
}

impl View for ListOp {
    type V = ContentModel;

    open spec fn view(&self) -> ContentModel {
        match self {
            ListOp::Insert { slice: ListSlice::RawData(values), pos } => ContentModel::InsertData {
                values: values@,
                pos: *pos,
            },
            ListOp::Insert {
                slice: ListSlice::RawStr { str, unicode_len },
                pos,
            } => ContentModel::InsertText { text: str@, unicode_len: *unicode_len, pos: *pos },
            ListOp::Insert { slice: ListSlice::Slice(range), pos } => ContentModel::InsertSlice {
                range: *range,
                pos: *pos,
            },
            ListOp::Insert { slice: ListSlice::Unknown(len), pos } => ContentModel::InsertUnknown {
                len: *len,
                pos: *pos,
            },
            ListOp::Delete(span) => ContentModel::Delete { span: *span },
            ListOp::StyleStart { start, end, key, info } => ContentModel::StyleStart {
                start: *start,
                end: *end,
                key: key@,
                info: *info,
            },
            ListOp::StyleEnd => ContentModel::StyleEnd,
        }
    }
}

impl ListOp {
    /// A copy that says the same.
    pub fn duplicate(&self) -> (copy: ListOp)
        ensures
            copy@ == self@,
            copy.wf() == self.wf(),
            copy.len() == self.len(),
    {
        match self {
            ListOp::Insert { slice, pos } => ListOp::Insert { slice: slice.duplicate(), pos: *pos },
            ListOp::Delete(span) => ListOp::Delete(*span),
            ListOp::StyleStart { start, end, key, info } => ListOp::StyleStart {
                start: *start,
                end: *end,
                key: key.clone(),
                info: *info,
            },
            ListOp::StyleEnd => ListOp::StyleEnd,
        }
    }
}

impl View for RawOpContent {
    type V = ContentModel;

    open spec fn view(&self) -> ContentModel {
        match self {
            RawOpContent::Dict(set) => ContentModel::DictSet { key: set.key@, value: set.value },
            RawOpContent::List(list) => list@,
            RawOpContent::Tree(tree) => ContentModel::Tree { op: *tree },
        }
    }
}

impl RawOpContent {
    pub open spec fn wf(&self) -> bool {
        match self {
            RawOpContent::List(list) => list.wf(),
            _ => true,
        }
    }

    /// A copy that says the same.
    pub fn duplicate(&self) -> (copy: RawOpContent)
        ensures
            copy@ == self@,
            copy.wf() == self.wf(),
    {
        match self {
            RawOpContent::Dict(set) => RawOpContent::Dict(
                MapSet {
                    key: set.key.clone(),
                    value: match &set.value {
                        Some(v) => Some(v.duplicate()),
                        None => None,
                    },
                },
            ),
            RawOpContent::List(list) => RawOpContent::List(list.duplicate()),
            RawOpContent::Tree(tree) => RawOpContent::Tree(*tree),
        }
    }
}

impl ContentModel {
    /// The atoms numbered from `from` up to `to` of the content: of an
    /// insertion of a range of the pool, the part of the range, put in as far
    /// on as the atoms before it reach; of an insertion of content that is
    /// gone, a placeholder of that length; of a deletion, the deletions with
    /// those numbers, made once those before them have been made. Other
    /// content has no parts.
    pub open spec fn sliced(&self, from: int, to: int) -> ContentModel {
        match *self {
            ContentModel::InsertSlice { range, pos } => ContentModel::InsertSlice {
                range: SliceRange {
                    start: if range.spec_is_unknown() {
                        UNKNOWN_START
                    } else {
                        (range.start + from) as u32
                    },
                    end: if range.spec_is_unknown() {
                        (UNKNOWN_START + to - from) as u32
                    } else {
                        (range.start + to) as u32
                    },
                },
                pos: (pos + from) as usize,
            },
            ContentModel::InsertUnknown { len, pos } => ContentModel::InsertUnknown {
                len: (to - from) as usize,
                pos: (pos + from) as usize,
            },
            ContentModel::Delete { span } => ContentModel::Delete {
                span: if span.len > 0 {
                    DeleteSpan { pos: span.pos, len: (to - from) as isize }
                } else {
                    DeleteSpan { pos: (span.pos - from) as isize, len: (from - to) as isize }
                },
            },
            other => other,
        }
    }

    /// The text that interning the content adds to the arena.
    pub open spec fn text_payload(&self) -> Seq<char> {
        match self {
            ContentModel::InsertText { text, .. } => *text,
            _ => Seq::empty(),
        }
    }

    /// The values that interning the content adds to the arena.
    pub open spec fn value_payload(&self) -> Seq<LoroValue> {
        match self {
            ContentModel::DictSet { value: Some(v), .. } => seq![*v],
            ContentModel::InsertData { values, .. } => *values,
            _ => Seq::empty(),
        }
    }

    /// Whether the content comes with its payload, as content from outside
    /// does, and not with a reference into some arena.
    pub open spec fn is_raw(&self) -> bool {
        !(self is InsertSlice) && !(self is InsertUnknown)
    }
}

/// An operation as it arrives.
#[derive(Debug)]
pub struct RawOp {
    pub id: ID,
    pub lamport: Lamport,
    pub container: ContainerIdx,
    pub content: RawOpContent,
}

#[derive(Debug)]
pub struct InnerMapSet {
    pub key: InternalString,
    pub value: Option<u32>,
}

#[derive(Debug)]
pub enum InnerListOp {
    Insert { slice: SliceRange, pos: usize },
    InsertText { slice: BytesSlice, unicode_start: u32, unicode_len: u32, pos: u32 },
    Delete(DeleteSpan),
    StyleStart { start: u32, end: u32, key: InternalString, info: TextStyleInfoFlag },
    StyleEnd,
}

/// The content of an operation once its payload is interned.
#[derive(Debug)]
pub enum InnerContent {
    List(InnerListOp),
    Dict(InnerMapSet),
    Tree(TreeOp),
}

/// An operation once its payload is interned.
#[derive(Debug)]
pub struct Op {
    pub counter: Counter,
    pub container: ContainerIdx,
    pub content: InnerContent,
}

impl InnerListOp {
    /// The number of atoms the operation consists of.
    pub open spec fn len(&self) -> nat {
        match self {
            InnerListOp::Insert { slice, .. } => slice.len(),
            InnerListOp::InsertText { unicode_len, .. } => *unicode_len as nat,
            InnerListOp::Delete(span) => span.len(),
            InnerListOp::StyleStart { .. } => 1,
            InnerListOp::StyleEnd => 1,
        }
    }
}

impl Op {
    pub open spec fn wf(&self) -> bool {
        match self.content {
            InnerContent::List(InnerListOp::Insert { slice, .. }) => slice.wf(),
            InnerContent::List(InnerListOp::Delete(span)) => span.wf(),
            _ => true,
        }
    }

    /// The number of atoms the operation consists of.
    pub open spec fn len(&self) -> nat {
        match self.content {
            InnerContent::List(l) => l.len(),
            _ => 1,
        }
    }

    pub fn atom_len(&self) -> (n: usize)
        requires
            self.wf(),
        ensures
            n == self.len(),
    {
        match &self.content {
            InnerContent::List(l) => match l {
                InnerListOp::Insert { slice, .. } => slice.atom_len(),
                InnerListOp::InsertText { unicode_len, .. } => *unicode_len as usize,
                InnerListOp::Delete(span) => span.atom_len(),
                InnerListOp::StyleStart { .. } => 1,
                InnerListOp::StyleEnd => 1,
            },
            _ => 1,
        }
    }

    /// The counter of the last atom of the operation.
    pub fn ctr_last(&self) -> (c: crate::id::Counter)
        requires
            self.wf(),
            self.len() >= 1,
            i32::MIN <= self.counter + self.len() - 1 <= i32::MAX,
        ensures
            c == self.counter + self.len() - 1,
    {
        (self.counter as i64 + self.atom_len() as i64 - 1) as i32
    }
}

} // verus!
