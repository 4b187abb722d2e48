//! The elements of rich text: runs of characters and style anchors, and the
//! sequence of entities that a sequence of them stands for.

use crate::byte_pool::{slice_bytes, slice_part, slice_text, POOL_LIMIT};
use crate::style::{AnchorType, StyleModel, StyleOp};
use crate::text_metrics::{
    lemma_continuations_follow_wide, lemma_counts_of_decoding, lemma_counts_of_encoding,
    lemma_encode_concat, lemma_split_at_boundary, lemma_utf16_len_concat, measure, seek_char,
    seek_utf16, units, utf16_len, utf8_len,
};
use append_only_bytes::BytesSlice;
use vstd::prelude::*;
use vstd::utf8::{decode_utf8, decode_utf8_encode_utf8, encode_utf8, valid_utf8};

verus! {

/// One position of rich text: a character, or a style anchor, which takes a
/// position but no width in the text.
pub enum Entity {
    Char(char),
    Anchor(StyleModel, AnchorType),
}

/// What a chunk stands for.
pub enum ChunkModel {
    /// Characters, and the position in the arena at which they start.
    Text { chars: Seq<char>, start: nat },
    Style { op: StyleModel, anchor: AnchorType },
}

impl ChunkModel {
    /// The entities of the chunk, in order.
    pub open spec fn entities(&self) -> Seq<Entity> {
        match self {
            ChunkModel::Text { chars, .. } => chars_as_entities(*chars),
            ChunkModel::Style { op, anchor } => seq![Entity::Anchor(*op, *anchor)],
        }
    }

    /// The number of entities of the chunk.
    pub open spec fn len(&self) -> nat {
        match self {
            ChunkModel::Text { chars, .. } => chars.len(),
            ChunkModel::Style { .. } => 1,
        }
    }
}

/// The character at position `i` of a run, as an entity.
pub open spec fn char_entity(chars: Seq<char>, i: int) -> Entity {
    Entity::Char(chars[i])
}

/// A run of characters as entities.
pub open spec fn chars_as_entities(chars: Seq<char>) -> Seq<Entity> {
    Seq::new(chars.len(), |i: int| char_entity(chars, i))
}

/// The entities of a sequence of chunks, in order.
pub open spec fn entities_of(chunks: Seq<ChunkModel>) -> Seq<Entity>
    decreases chunks.len(),
{
    if chunks.len() == 0 {
        Seq::empty()
    } else {
        entities_of(chunks.drop_last()) + chunks.last().entities()
    }
}

/// The characters among the entities, in order: the text as a reader sees it.
pub open spec fn text_of(entities: Seq<Entity>) -> Seq<char>
    decreases entities.len(),
{
    if entities.len() == 0 {
        Seq::empty()
    } else {
        text_of(entities.drop_last()) + (match entities.last() {
            Entity::Char(c) => seq![c],
            Entity::Anchor(..) => Seq::empty(),
        })
    }
}

pub proof fn lemma_entities_concat(a: Seq<ChunkModel>, b: Seq<ChunkModel>)
    ensures
        entities_of(a + b) == entities_of(a) + entities_of(b),
    decreases b.len(),
{
    if b.len() == 0 {
        assert(a + b =~= a);
        assert(entities_of(a) + entities_of(b) =~= entities_of(a));
    } else {
        assert((a + b).drop_last() =~= a + b.drop_last());
        lemma_entities_concat(a, b.drop_last());
        assert(entities_of(a + b) =~= entities_of(a) + entities_of(b));
    }
}

pub proof fn lemma_entities_one(c: ChunkModel)
    ensures
        entities_of(seq![c]) == c.entities(),
        c.entities().len() == c.len(),
{
    reveal_with_fuel(entities_of, 2);
    assert(seq![c].drop_last() =~= Seq::<ChunkModel>::empty());
    assert(seq![c].last() == c);
    assert(entities_of(seq![c]) =~= c.entities());
}

pub proof fn lemma_text_concat(a: Seq<Entity>, b: Seq<Entity>)
    ensures
        text_of(a + b) == text_of(a) + text_of(b),
    decreases b.len(),
{
    if b.len() == 0 {
        assert(a + b =~= a);
        assert(text_of(a) + text_of(b) =~= text_of(a));
    } else {
        assert((a + b).drop_last() =~= a + b.drop_last());
        lemma_text_concat(a, b.drop_last());
        assert(text_of(a + b) =~= text_of(a) + text_of(b));
    }
}

/// The text of a run of characters is the run.
pub proof fn lemma_text_of_chars(chars: Seq<char>)
    ensures
        text_of(chars_as_entities(chars)) == chars,
    decreases chars.len(),
{
    let es = chars_as_entities(chars);
    if chars.len() > 0 {
        lemma_text_of_chars(chars.drop_last());
        assert(es.drop_last() =~= chars_as_entities(chars.drop_last()));
        assert(es.last() == Entity::Char(chars.last()));
        assert(text_of(es) =~= chars);
    } else {
        assert(text_of(es) =~= chars);
    }
}

/// The text of a run of characters is the run; an anchor has no text.
pub proof fn lemma_text_of_chunk(c: ChunkModel)
    ensures
        c is Text ==> text_of(c.entities()) == c->chars,
        c is Style ==> text_of(c.entities()) == Seq::<char>::empty(),
{
    if c is Text {
        lemma_text_of_chars(c->chars);
    } else {
        reveal_with_fuel(text_of, 2);
        assert(c.entities().drop_last() =~= Seq::<Entity>::empty());
        assert(text_of(c.entities()) =~= Seq::<char>::empty());
    }
}

pub proof fn lemma_text_len_bound(es: Seq<Entity>)
    ensures
        text_of(es).len() <= es.len(),
    decreases es.len(),
{
    if es.len() > 0 {
        lemma_text_len_bound(es.drop_last());
    }
}

/// A chunk of rich text: a run of characters, held as a view of their bytes
/// in the arena, or a style anchor.
#[derive(Debug)]
pub enum RichtextStateChunk {
    Text { text: BytesSlice, unicode_start: u32, unicode_len: u32, utf16_len: u32 },
    Style { style: StyleOp, anchor_type: AnchorType },
}

impl View for RichtextStateChunk {
    type V = ChunkModel;

    open spec fn view(&self) -> ChunkModel {
        match self {
            RichtextStateChunk::Text { text, unicode_start, .. } => ChunkModel::Text {
                chars: decode_utf8(slice_bytes(*text)),
                start: *unicode_start as nat,
            },
            RichtextStateChunk::Style { style, anchor_type } => ChunkModel::Style {
                op: style@,
                anchor: *anchor_type,
            },
        }
    }
}

impl RichtextStateChunk {
    /// The lengths a run of text keeps are those of its characters.
    pub open spec fn wf(&self) -> bool {
        match self {
            RichtextStateChunk::Text { text, unicode_start, unicode_len, utf16_len: units } => {
                &&& valid_utf8(slice_bytes(*text))
                &&& slice_bytes(*text).len() <= POOL_LIMIT
                &&& *unicode_len == decode_utf8(slice_bytes(*text)).len()
                &&& *units == utf16_len(decode_utf8(slice_bytes(*text)))
                &&& *unicode_start + *unicode_len <= POOL_LIMIT
            },
            RichtextStateChunk::Style { .. } => true,
        }
    }

    /// A run of text from a view of its bytes. `unicode_start` is the
    /// position in the arena of its first character.
    pub fn new_text(text: BytesSlice, unicode_start: u32) -> (chunk: RichtextStateChunk)
        requires
            valid_utf8(slice_bytes(text)),
            slice_bytes(text).len() <= POOL_LIMIT,
            unicode_start + decode_utf8(slice_bytes(text)).len() <= POOL_LIMIT,
        ensures
            chunk.wf(),
            chunk@ == (ChunkModel::Text {
                chars: decode_utf8(slice_bytes(text)),
                start: unicode_start as nat,
            }),
    {
        let (chars, units) = measure(text.as_bytes());
        RichtextStateChunk::Text {
            text,
            unicode_start,
            unicode_len: chars as u32,
            utf16_len: units as u32,
        }
    }

    pub fn new_style(style: StyleOp, anchor_type: AnchorType) -> (chunk: RichtextStateChunk)
        ensures
            chunk.wf(),
            chunk@ == (ChunkModel::Style { op: style@, anchor: anchor_type }),
    {
        RichtextStateChunk::Style { style, anchor_type }
    }

    /// The number of entities of the chunk.
    pub fn rle_len(&self) -> (n: usize)
        requires
            self.wf(),
        ensures
            n == self@.len(),
            n <= POOL_LIMIT,
    {
        match self {
            RichtextStateChunk::Text { unicode_len, .. } => *unicode_len as usize,
            RichtextStateChunk::Style { .. } => 1,
        }
    }

    /// The number of characters of the chunk.
    pub fn unicode_len(&self) -> (n: usize)
        requires
            self.wf(),
        ensures
            n == text_of(self@.entities()).len(),
            n <= self@.len(),
    {
        proof {
            lemma_text_of_chunk(self@);
        }
        match self {
            RichtextStateChunk::Text { unicode_len, .. } => *unicode_len as usize,
            RichtextStateChunk::Style { .. } => 0,
        }
    }

    /// The number of UTF-16 code units of the chunk.
    pub fn utf16_len(&self) -> (n: usize)
        requires
            self.wf(),
        ensures
            n == utf16_len(text_of(self@.entities())),
            n <= POOL_LIMIT,
    {
        proof {
            lemma_text_of_chunk(self@);
            if let RichtextStateChunk::Text { text, .. } = self {
                lemma_counts_of_decoding(slice_bytes(*text));
                lemma_continuations_follow_wide(slice_bytes(*text));
            }
        }
        match self {
            RichtextStateChunk::Text { utf16_len, .. } => *utf16_len as usize,
            RichtextStateChunk::Style { .. } => 0,
        }
    }

    /// The number of UTF-8 bytes of the chunk.
    pub fn utf8_len(&self) -> (n: usize)
        requires
            self.wf(),
        ensures
            n == utf8_len(text_of(self@.entities())),
            n <= POOL_LIMIT,
    {
        proof {
            lemma_text_of_chunk(self@);
            if let RichtextStateChunk::Text { text, .. } = self {
                decode_utf8_encode_utf8(slice_bytes(*text));
            }
        }
        match self {
            RichtextStateChunk::Text { text, .. } => text.len(),
            RichtextStateChunk::Style { .. } => 0,
        }
    }

    pub open spec fn spec_is_text(&self) -> bool {
        self is Text
    }

    #[verifier::when_used_as_spec(spec_is_text)]
    pub fn is_text(&self) -> (r: bool)
        ensures
            r == self.spec_is_text(),
    {
        match self {
            RichtextStateChunk::Text { .. } => true,
            RichtextStateChunk::Style { .. } => false,
        }
    }

    /// A copy that stands for the same.
    pub fn duplicate(&self) -> (copy: RichtextStateChunk)
        ensures
            copy@ == self@,
            copy.wf() == self.wf(),
    {
        match self {
            RichtextStateChunk::Text {
                text,
                unicode_start,
                unicode_len,
                utf16_len,
            } => RichtextStateChunk::Text {
                text: text.clone(),
                unicode_start: *unicode_start,
                unicode_len: *unicode_len,
                utf16_len: *utf16_len,
            },
            RichtextStateChunk::Style { style, anchor_type } => RichtextStateChunk::Style {
                style: style.duplicate(),
                anchor_type: *anchor_type,
            },
        }
    }

    /// The characters of a run of text, as a string slice.
    pub fn as_str(&self) -> (s: &str)
        requires
            self.wf(),
        ensures
            s@ == text_of(self@.entities()),
    {
        proof {
            lemma_text_of_chunk(self@);
        }
        match self {
            RichtextStateChunk::Text { text, .. } => match slice_text(text) {
                Some(s) => {
                    proof {
                        vstd::utf8::encode_utf8_decode_utf8(s@);
                    }
                    s
                },
                None => vstd::pervasive::unreached(),
            },
            RichtextStateChunk::Style { .. } => {
                let s = "";
                proof {
                    reveal_strlit("");
                    assert(s@ =~= Seq::<char>::empty());
                }
                s
            },
        }
    }

    /// The number of characters of the shortest beginning of a run of text
    /// that is at least `target` units long; all its characters, where the
    /// whole run is shorter.
    pub fn seek_units(&self, target: usize, utf16: bool) -> (o: usize)
        requires
            self.wf(),
            self is Text,
        ensures
            o <= self@.len(),
            o < self@.len() ==> units(self@->chars.subrange(0, o as int), utf16) >= target,
            o > 0 ==> units(self@->chars.subrange(0, o - 1), utf16) < target,
    {
        match self {
            RichtextStateChunk::Text { text, unicode_len, .. } => {
                if utf16 {
                    seek_utf16(text.as_bytes(), target)
                } else if target < *unicode_len as usize {
                    target
                } else {
                    *unicode_len as usize
                }
            },
            RichtextStateChunk::Style { .. } => vstd::pervasive::unreached(),
        }
    }

    /// Cuts a run of text in two before its character `at`.
    pub fn split_text(&self, at: usize) -> (parts: (RichtextStateChunk, RichtextStateChunk))
        requires
            self.wf(),
            self is Text,
            at <= self@.len(),
        ensures
            parts.0.wf(),
            parts.1.wf(),
            self@ matches ChunkModel::Text { chars, start } && parts.0@ == (ChunkModel::Text {
                chars: chars.subrange(0, at as int),
                start,
            }) && parts.1@ == (ChunkModel::Text {
                chars: chars.subrange(at as int, chars.len() as int),
                start: (start + at) as nat,
            }),
            self@.entities() == parts.0@.entities() + parts.1@.entities(),
    {
        match self {
            RichtextStateChunk::Text { text, unicode_start, unicode_len, utf16_len: units } => {
                let bytes = text.as_bytes();
                proof {
                    lemma_counts_of_decoding(bytes@);
                    assert(bytes@.subrange(0, 0) =~= Seq::<u8>::empty());
                    if bytes@.len() > 0 {
                        lemma_split_at_boundary(bytes@, 0);
                        vstd::utf8::is_char_boundary_iff_not_is_continuation_byte(bytes@, 0);
                    }
                }
                let cut = seek_char(bytes, 0, 0, at);
                proof {
                    lemma_split_at_boundary(bytes@, cut as int);
                    let chars = decode_utf8(bytes@);
                    let left = chars.subrange(0, at as int);
                    let right = chars.subrange(at as int, chars.len() as int);
                    assert(chars =~= left + right);
                    lemma_utf16_len_concat(left, right);
                    lemma_counts_of_decoding(bytes@.subrange(0, cut as int));
                    lemma_counts_of_decoding(bytes@.subrange(cut as int, bytes@.len() as int));
                    lemma_continuations_follow_wide(bytes@.subrange(0, cut as int));
                    assert(self@.entities() =~= chars_as_entities(left) + chars_as_entities(
                        right,
                    ));
                }
                let left = slice_part(text, 0, cut);
                let right = slice_part(text, cut, text.len());
                let (left_chars, left_units) = measure(left.as_bytes());
                (
                    RichtextStateChunk::Text {
                        text: left,
                        unicode_start: *unicode_start,
                        unicode_len: at as u32,
                        utf16_len: left_units as u32,
                    },
                    RichtextStateChunk::Text {
                        text: right,
                        unicode_start: *unicode_start + at as u32,
                        unicode_len: *unicode_len - at as u32,
                        utf16_len: *units - left_units as u32,
                    },
                )
            },
            RichtextStateChunk::Style { .. } => vstd::pervasive::unreached(),
        }
    }
}

/// Whether the chunk is a view of the arena's text `interned`: a run of
/// characters holds the characters that the arena holds at its place.
pub open spec fn is_backed(c: ChunkModel, interned: Seq<char>) -> bool {
    c matches ChunkModel::Text { chars, start } ==> start + chars.len() <= interned.len() && chars
        == interned.subrange(start as int, (start + chars.len()) as int)
}

/// Whether the chunks are views of the arena's text `interned`.
pub open spec fn backed_by(chunks: Seq<ChunkModel>, interned: Seq<char>) -> bool {
    forall|i: int| 0 <= i < chunks.len() ==> is_backed(#[trigger] chunks[i], interned)
}

/// Whether chunks that stand in place of others are views of every text
/// that the others, and what was added to them, are views of.
pub open spec fn keeps_backing(
    before: Seq<ChunkModel>,
    added: Seq<ChunkModel>,
    after: Seq<ChunkModel>,
) -> bool {
    forall|interned: Seq<char>| #[trigger]
        backed_by(before, interned) && backed_by(added, interned) ==> backed_by(after, interned)
}

/// The two parts of a run of characters that is a view of the arena's text
/// are views of it.
pub proof fn lemma_split_backed(c: ChunkModel, l: ChunkModel, r: ChunkModel, at: int, interned: Seq<char>)
    requires
        is_backed(c, interned),
        c matches ChunkModel::Text { chars, start } && 0 <= at <= chars.len() && l == (ChunkModel::Text {
            chars: chars.subrange(0, at),
            start,
        }) && r == (ChunkModel::Text {
            chars: chars.subrange(at, chars.len() as int),
            start: (start + at) as nat,
        }),
    ensures
        is_backed(l, interned),
        is_backed(r, interned),
{
    if let ChunkModel::Text { chars, start } = c {
        assert(chars.subrange(0, at) =~= interned.subrange(start as int, start + at));
        assert(chars.subrange(at, chars.len() as int) =~= interned.subrange(
            start + at,
            (start + chars.len()) as int,
        ));
    }
}

} // verus!
