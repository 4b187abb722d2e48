//! Lengths of text in characters and in UTF-16 code units, read off its UTF-8
//! bytes without decoding them, and the search for the byte at which a given
//! character starts.

use vstd::prelude::*;
use vstd::utf8::*;

verus! {

/// The number of UTF-16 code units that one character takes.
pub open spec fn utf16_width(c: char) -> nat {
    if c as u32 >= 0x10000 {
        2
    } else {
        1
    }
}

/// The number of UTF-16 code units that a text takes.
pub open spec fn utf16_len(chars: Seq<char>) -> nat
    decreases chars.len(),
{
    if chars.len() == 0 {
        0
    } else {
        utf16_width(chars[0]) + utf16_len(chars.drop_first())
    }
}

/// The number of UTF-8 bytes that a text takes.
pub open spec fn utf8_len(chars: Seq<char>) -> nat {
    encode_utf8(chars).len()
}

/// A byte that begins a character: any byte that does not continue one.
pub open spec fn is_lead(b: u8) -> bool {
    !is_continuation_byte(b)
}

/// A byte that begins a character of four bytes: the characters that take two
/// UTF-16 code units.
pub open spec fn is_wide_lead(b: u8) -> bool {
    b >= 0xf0
}

/// The number of bytes in `bytes` that begin a character.
pub open spec fn lead_count(bytes: Seq<u8>) -> nat
    decreases bytes.len(),
{
    if bytes.len() == 0 {
        0
    } else {
        (if is_lead(bytes[0]) { 1nat } else { 0nat }) + lead_count(bytes.drop_first())
    }
}

/// The number of bytes in `bytes` that begin a character of four bytes.
pub open spec fn wide_count(bytes: Seq<u8>) -> nat
    decreases bytes.len(),
{
    if bytes.len() == 0 {
        0
    } else {
        (if is_wide_lead(bytes[0]) { 1nat } else { 0nat }) + wide_count(bytes.drop_first())
    }
}

pub proof fn lemma_lead_count_concat(a: Seq<u8>, b: Seq<u8>)
    ensures
        lead_count(a + b) == lead_count(a) + lead_count(b),
        wide_count(a + b) == wide_count(a) + wide_count(b),
    decreases a.len(),
{
    if a.len() == 0 {
        assert(a + b =~= b);
    } else {
        assert((a + b).drop_first() =~= a.drop_first() + b);
        lemma_lead_count_concat(a.drop_first(), b);
    }
}

pub proof fn lemma_lead_count_bounds(a: Seq<u8>)
    ensures
        wide_count(a) <= lead_count(a) <= a.len(),
    decreases a.len(),
{
    if a.len() > 0 {
        lemma_lead_count_bounds(a.drop_first());
    }
}

pub proof fn lemma_utf16_len_concat(a: Seq<char>, b: Seq<char>)
    ensures
        utf16_len(a + b) == utf16_len(a) + utf16_len(b),
    decreases a.len(),
{
    if a.len() == 0 {
        assert(a + b =~= b);
    } else {
        assert((a + b).drop_first() =~= a.drop_first() + b);
        lemma_utf16_len_concat(a.drop_first(), b);
    }
}

pub proof fn lemma_utf16_len_bounds(a: Seq<char>)
    ensures
        a.len() <= utf16_len(a) <= 2 * a.len(),
    decreases a.len(),
{
    if a.len() > 0 {
        lemma_utf16_len_bounds(a.drop_first());
    }
}

pub proof fn lemma_encode_concat(a: Seq<char>, b: Seq<char>)
    ensures
        encode_utf8(a + b) == encode_utf8(a) + encode_utf8(b),
    decreases a.len(),
{
    if a.len() == 0 {
        assert(a + b =~= b);
        assert(encode_utf8(a) + encode_utf8(b) =~= encode_utf8(b));
    } else {
        assert((a + b).drop_first() =~= a.drop_first() + b);
        lemma_encode_concat(a.drop_first(), b);
        assert(encode_utf8(a + b) =~= encode_utf8(a) + encode_utf8(b));
    }
}

proof fn lemma_scalar_bytes(s: u32)
    by (bit_vector)
    ensures
        (s & 0x7F) as u8 <= 0x7f,
        0xc0 <= (0xC0u8 | ((s >> 6) & 0x1F) as u8) <= 0xdf,
        0xe0 <= (0xE0u8 | ((s >> 12) & 0x0F) as u8) <= 0xef,
        0xf0 <= (0xF0u8 | ((s >> 18) & 0x7) as u8) <= 0xf7,
        0x80 <= (0x80u8 | (s & 0x3F) as u8) <= 0xbf,
        0x80 <= (0x80u8 | ((s >> 6) & 0x3F) as u8) <= 0xbf,
        0x80 <= (0x80u8 | ((s >> 12) & 0x3F) as u8) <= 0xbf,
{
}

proof fn lemma_counts_of_one(c: char)
    ensures
        lead_count(encode_scalar(c as u32)) == 1,
        wide_count(encode_scalar(c as u32)) + 1 == utf16_width(c),
        1 <= encode_scalar(c as u32).len() <= 4,
{
    let s = c as u32;
    char_is_scalar(c);
    lemma_scalar_bytes(s);
    let e = encode_scalar(s);
    reveal_with_fuel(lead_count, 5);
    reveal_with_fuel(wide_count, 5);
    if has_width_1_encoding(s) {
        assert(e.drop_first() =~= Seq::<u8>::empty());
    } else if has_width_2_encoding(s) {
        assert(e.drop_first() =~= seq![last_continuation_byte(s)]);
        assert(e.drop_first().drop_first() =~= Seq::<u8>::empty());
    } else if has_width_3_encoding(s) {
        let t1 = e.drop_first();
        let t2 = t1.drop_first();
        assert(t1 =~= seq![second_last_continuation_byte(s), last_continuation_byte(s)]);
        assert(t2 =~= seq![last_continuation_byte(s)]);
        assert(t2.drop_first() =~= Seq::<u8>::empty());
    } else {
        let t1 = e.drop_first();
        let t2 = t1.drop_first();
        let t3 = t2.drop_first();
        assert(t1 =~= seq![
            third_last_continuation_byte(s),
            second_last_continuation_byte(s),
            last_continuation_byte(s),
        ]);
        assert(t2 =~= seq![second_last_continuation_byte(s), last_continuation_byte(s)]);
        assert(t3 =~= seq![last_continuation_byte(s)]);
        assert(t3.drop_first() =~= Seq::<u8>::empty());
    }
}

/// What the bytes of an encoded text tell of it: one leading byte for each
/// character, one wide leading byte for each character of two UTF-16 units.
pub proof fn lemma_counts_of_encoding(chars: Seq<char>)
    ensures
        lead_count(encode_utf8(chars)) == chars.len(),
        lead_count(encode_utf8(chars)) + wide_count(encode_utf8(chars)) == utf16_len(chars),
        chars.len() <= encode_utf8(chars).len() <= 4 * chars.len(),
    decreases chars.len(),
{
    if chars.len() > 0 {
        lemma_counts_of_one(chars[0]);
        lemma_counts_of_encoding(chars.drop_first());
        lemma_lead_count_concat(encode_scalar(chars[0] as u32), encode_utf8(chars.drop_first()));
    }
}

/// The same, told from the side of the bytes.
pub proof fn lemma_counts_of_decoding(bytes: Seq<u8>)
    requires
        valid_utf8(bytes),
    ensures
        decode_utf8(bytes).len() == lead_count(bytes),
        utf16_len(decode_utf8(bytes)) == lead_count(bytes) + wide_count(bytes),
{
    decode_utf8_encode_utf8(bytes);
    lemma_counts_of_encoding(decode_utf8(bytes));
}

/// Cutting well-formed bytes at a character boundary cuts the text they
/// encode at the matching character.
pub proof fn lemma_split_at_boundary(bytes: Seq<u8>, at: int)
    requires
        valid_utf8(bytes),
        0 <= at <= bytes.len(),
        at < bytes.len() ==> is_lead(bytes[at]),
    ensures
        is_char_boundary(bytes, at),
        valid_utf8(bytes.subrange(0, at)),
        valid_utf8(bytes.subrange(at, bytes.len() as int)),
        decode_utf8(bytes) == decode_utf8(bytes.subrange(0, at)) + decode_utf8(
            bytes.subrange(at, bytes.len() as int),
        ),
        decode_utf8(bytes.subrange(0, at)).len() == lead_count(bytes.subrange(0, at)),
        decode_utf8(bytes.subrange(0, at)) == decode_utf8(bytes).subrange(
            0,
            lead_count(bytes.subrange(0, at)) as int,
        ),
        decode_utf8(bytes.subrange(at, bytes.len() as int)) == decode_utf8(bytes).subrange(
            lead_count(bytes.subrange(0, at)) as int,
            decode_utf8(bytes).len() as int,
        ),
{
    if at < bytes.len() {
        is_char_boundary_iff_not_is_continuation_byte(bytes, at);
    } else {
        is_char_boundary_start_end_of_seq(bytes);
    }
    valid_utf8_split(bytes, at);
    decode_utf8_split(bytes, at);
    lemma_counts_of_decoding(bytes.subrange(0, at));
    let left = decode_utf8(bytes.subrange(0, at));
    let right = decode_utf8(bytes.subrange(at, bytes.len() as int));
    assert((left + right).subrange(0, left.len() as int) =~= left);
    assert((left + right).subrange(left.len() as int, (left + right).len() as int) =~= right);
}

/// Whether a byte begins a character.
pub fn byte_is_lead(b: u8) -> (r: bool)
    ensures
        r == is_lead(b),
{
    b < 0x80 || b >= 0xc0
}

/// The number of characters and of UTF-16 code units in well-formed bytes.
pub fn measure(bytes: &[u8]) -> (r: (usize, usize))
    requires
        valid_utf8(bytes@),
    ensures
        r.0 == decode_utf8(bytes@).len(),
        r.1 == utf16_len(decode_utf8(bytes@)),
        r.0 <= r.1 <= bytes@.len(),
{
    let mut i: usize = 0;
    let mut chars: usize = 0;
    let mut wide: usize = 0;
    while i < bytes.len()
        invariant
            i <= bytes@.len(),
            chars == lead_count(bytes@.subrange(0, i as int)),
            wide == wide_count(bytes@.subrange(0, i as int)),
            wide <= chars <= i,
        decreases bytes@.len() - i,
    {
        let b = bytes[i];
        proof {
            let head = bytes@.subrange(0, i as int);
            assert(bytes@.subrange(0, i + 1) =~= head + seq![b]);
            lemma_lead_count_concat(head, seq![b]);
            reveal_with_fuel(lead_count, 2);
            reveal_with_fuel(wide_count, 2);
            assert(seq![b].drop_first() =~= Seq::<u8>::empty());
        }
        if byte_is_lead(b) {
            chars = chars + 1;
        }
        if b >= 0xf0 {
            wide = wide + 1;
        }
        i = i + 1;
    }
    proof {
        assert(bytes@.subrange(0, i as int) =~= bytes@);
        lemma_counts_of_decoding(bytes@);
        decode_utf8_encode_utf8(bytes@);
        lemma_counts_of_encoding(decode_utf8(bytes@));
        lemma_continuations_follow_wide(bytes@);
    }
    (chars, chars + wide)
}

/// In well-formed bytes each wide leading byte is followed by three bytes that
/// begin nothing, so the UTF-16 length never exceeds the byte length.
pub proof fn lemma_continuations_follow_wide(bytes: Seq<u8>)
    requires
        valid_utf8(bytes),
    ensures
        lead_count(bytes) + wide_count(bytes) <= bytes.len(),
    decreases bytes.len(),
{
    if bytes.len() > 0 {
        let head = take_first_scalar(bytes);
        let tail = pop_first_scalar(bytes);
        lemma_continuations_follow_wide(tail);
        assert(bytes =~= head + tail);
        lemma_lead_count_concat(head, tail);
        reveal_with_fuel(lead_count, 5);
        reveal_with_fuel(wide_count, 5);
        let t1 = head.drop_first();
        let t2 = t1.drop_first();
        let t3 = t2.drop_first();
        if head.len() == 1 {
            assert(t1 =~= Seq::<u8>::empty());
        } else if head.len() == 2 {
            assert(t2 =~= Seq::<u8>::empty());
        } else if head.len() == 3 {
            assert(t3 =~= Seq::<u8>::empty());
        } else {
            assert(t3.drop_first() =~= Seq::<u8>::empty());
        }
    }
}

/// The byte at which character `target` starts, searching forward from a
/// known character start. `from_byte` is where character `from_char` starts.
pub fn seek_char(bytes: &[u8], from_byte: usize, from_char: usize, target: usize) -> (at: usize)
    requires
        valid_utf8(bytes@),
        from_byte <= bytes@.len(),
        from_byte < bytes@.len() ==> is_lead(bytes@[from_byte as int]),
        from_char == lead_count(bytes@.subrange(0, from_byte as int)),
        from_char <= target <= decode_utf8(bytes@).len(),
    ensures
        from_byte <= at <= bytes@.len(),
        at < bytes@.len() ==> is_lead(bytes@[at as int]),
        lead_count(bytes@.subrange(0, at as int)) == target,
        is_char_boundary(bytes@, at as int),
        decode_utf8(bytes@.subrange(0, at as int)) == decode_utf8(bytes@).subrange(
            0,
            target as int,
        ),
{
    let mut i: usize = from_byte;
    let mut seen: usize = from_char;
    proof {
        lemma_lead_count_bounds(bytes@.subrange(0, from_byte as int));
        lemma_counts_of_decoding(bytes@);
    }
    while i < bytes.len()
        invariant
            valid_utf8(bytes@),
            from_byte <= i <= bytes@.len(),
            seen == lead_count(bytes@.subrange(0, i as int)),
            seen <= target <= lead_count(bytes@),
            seen <= i,
        decreases bytes@.len() - i,
    {
        let b = bytes[i];
        let lead = byte_is_lead(b);
        if lead && seen == target {
            proof {
                lemma_split_at_boundary(bytes@, i as int);
            }
            return i;
        }
        proof {
            let head = bytes@.subrange(0, i as int);
            assert(bytes@.subrange(0, i + 1) =~= head + seq![b]);
            lemma_lead_count_concat(head, seq![b]);
            reveal_with_fuel(lead_count, 2);
            assert(seq![b].drop_first() =~= Seq::<u8>::empty());
            lemma_lead_count_bounds(head);
        }
        if lead {
            seen = seen + 1;
        }
        i = i + 1;
    }
    proof {
        assert(bytes@.subrange(0, i as int) =~= bytes@);
        lemma_counts_of_decoding(bytes@);
        lemma_split_at_boundary(bytes@, i as int);
    }
    i
}

/// The length of a text in the units that positions are counted in:
/// UTF-16 code units, or characters.
pub open spec fn units(chars: Seq<char>, utf16: bool) -> nat {
    if utf16 {
        utf16_len(chars)
    } else {
        chars.len()
    }
}

/// A longer beginning of a text is no shorter in either unit.
pub proof fn lemma_units_monotone(chars: Seq<char>, i: int, j: int, utf16: bool)
    requires
        0 <= i <= j <= chars.len(),
    ensures
        units(chars.subrange(0, i), utf16) <= units(chars.subrange(0, j), utf16),
        units(chars.subrange(0, j), utf16) == units(chars.subrange(0, i), utf16) + units(
            chars.subrange(i, j),
            utf16,
        ),
{
    assert(chars.subrange(0, j) =~= chars.subrange(0, i) + chars.subrange(i, j));
    lemma_utf16_len_concat(chars.subrange(0, i), chars.subrange(i, j));
}

/// The number of characters of the shortest beginning of the text that takes
/// at least `target` UTF-16 code units; all characters, where the whole text
/// takes fewer.
pub fn seek_utf16(bytes: &[u8], target: usize) -> (o: usize)
    requires
        valid_utf8(bytes@),
    ensures
        o <= decode_utf8(bytes@).len(),
        o <= bytes@.len(),
        o < decode_utf8(bytes@).len() ==> utf16_len(decode_utf8(bytes@).subrange(0, o as int))
            >= target,
        o > 0 ==> utf16_len(decode_utf8(bytes@).subrange(0, o - 1)) < target,
{
    let mut i: usize = 0;
    let mut chars: usize = 0;
    let mut wide: usize = 0;
    proof {
        lemma_counts_of_decoding(bytes@);
        assert(bytes@.subrange(0, 0) =~= Seq::<u8>::empty());
    }
    while i < bytes.len()
        invariant
            valid_utf8(bytes@),
            i <= bytes@.len(),
            chars == lead_count(bytes@.subrange(0, i as int)),
            wide == wide_count(bytes@.subrange(0, i as int)),
            wide <= chars <= i,
            chars <= lead_count(bytes@),
            lead_count(bytes@) == decode_utf8(bytes@).len(),
            chars > 0 ==> utf16_len(decode_utf8(bytes@).subrange(0, chars - 1)) < target,
        decreases bytes@.len() - i,
    {
        let b = bytes[i];
        let lead = byte_is_lead(b);
        proof {
            let head = bytes@.subrange(0, i as int);
            assert(bytes@.subrange(0, i + 1) =~= head + seq![b]);
            lemma_lead_count_concat(head, seq![b]);
            reveal_with_fuel(lead_count, 2);
            reveal_with_fuel(wide_count, 2);
            assert(seq![b].drop_first() =~= Seq::<u8>::empty());
            let rest = bytes@.subrange(i + 1, bytes@.len() as int);
            assert(bytes@ =~= bytes@.subrange(0, i + 1) + rest);
            lemma_lead_count_concat(bytes@.subrange(0, i + 1), rest);
            if lead {
                lemma_split_at_boundary(bytes@, i as int);
                lemma_counts_of_decoding(head);
                lemma_continuations_follow_wide(head);
            }
        }
        if lead {
            if chars + wide >= target {
                return chars;
            }
            chars = chars + 1;
        }
        if b >= 0xf0 {
            wide = wide + 1;
        }
        i = i + 1;
    }
    proof {
        assert(bytes@.subrange(0, i as int) =~= bytes@);
    }
    chars
}

} // verus!
