use loro_text::bitmap::BitMap;
use loro_text::id::{ContainerID, ContainerIdx, ContainerType, CounterSpan, IdSpan, ID};
use loro_text::op::{DeleteSpan, ListOp, ListSlice, SliceRange, TextStyleInfoFlag, UNKNOWN_START};
use loro_text::string_pool::{Alive, StringPool};
use loro_text::text_metrics::{byte_is_lead, measure, seek_char, seek_utf16};
use loro_text::text_rope::TextRope;
use loro_text::version::VersionVector;

#[test]
fn container_idx_packs_type_and_index() {
    for (t, tag) in [
        (ContainerType::Dict, 0u32),
        (ContainerType::List, 1),
        (ContainerType::Text, 2),
        (ContainerType::Tree, 3),
    ] {
        let idx = ContainerIdx::from_index_and_type(0x0fff_ffff, t);
        assert_eq!(idx.0, (tag << 28) | 0x0fff_ffff);
        assert_eq!(idx.to_index(), 0x0fff_ffff);
        assert_eq!(idx.get_type(), t);
        assert_eq!(t.to_tag() as u32, tag);
    }
}

#[test]
fn container_id_parts() {
    let r = ContainerID::new_root("n", ContainerType::Text);
    assert!(r.is_root());
    assert_eq!(r.container_type(), ContainerType::Text);
    assert_eq!(r.to_key(), (true, "n".to_string(), 0, 0, 2));
    let n = ContainerID::new_normal(ID::new(5, 6), ContainerType::List);
    assert!(!n.is_root());
    assert_eq!(n.to_key(), (false, String::new(), 5, 6, 1));
    assert_eq!(n.duplicate(), n);
}

#[test]
fn id_arithmetic() {
    let id = ID::new(3, 10);
    assert_eq!(id.inc(4), ID::new(3, 14));
    let span = id.to_span(5);
    assert_eq!(span, IdSpan { peer: 3, counter: CounterSpan { start: 10, end: 15 } });
    assert_eq!(span.atom_len(), 5);
}

#[test]
fn version_vector_basics() {
    let mut vv = VersionVector::new();
    assert!(vv.is_empty());
    assert_eq!(vv.get(&1), None);
    assert!(!vv.includes_id(ID::new(1, 0)));
    vv.set_end(1, 3);
    vv.set_end(2, 1);
    assert!(!vv.is_empty());
    assert_eq!(vv.get(&1), Some(3));
    assert!(vv.includes_id(ID::new(1, 2)));
    assert!(!vv.includes_id(ID::new(1, 3)));
    vv.set_end(1, 5);
    assert_eq!(vv.get(&1), Some(5));
    assert_eq!(vv.get(&2), Some(1));
    vv.set_end(2, 0);
    assert_eq!(vv.get(&2), None);
    let copy = vv.duplicate();
    assert_eq!(copy.get(&1), Some(5));
}

#[test]
fn version_vector_order() {
    let mut a = VersionVector::new();
    let mut b = VersionVector::new();
    assert!(a.includes_vv(&b) && b.includes_vv(&a));
    a.set_end(1, 2);
    assert!(a.includes_vv(&b));
    assert!(!b.includes_vv(&a));
    b.set_end(2, 1);
    assert!(!a.includes_vv(&b));
    assert!(!b.includes_vv(&a));
    a.set_end(2, 1);
    assert!(a.includes_vv(&b));
}

#[test]
fn bitmap_packs_least_significant_bit_first() {
    let mut bits = BitMap::new();
    let pattern = [true, false, false, true, true, false, true, false, true, true];
    for b in pattern {
        bits.push(b);
    }
    assert_eq!(bits.len(), 10);
    for (i, b) in pattern.iter().enumerate() {
        assert_eq!(bits.get(i), *b);
    }
    let bytes = bits.into_vec();
    assert_eq!(bytes, vec![0b0101_1001, 0b0000_0011]);
    let back = BitMap::from_vec(bytes, 16);
    for (i, b) in pattern.iter().enumerate() {
        assert_eq!(back.get(i), *b);
    }
    assert!(!back.get(12));
}

#[test]
fn bitmap_of_nothing() {
    assert_eq!(BitMap::new().into_vec(), Vec::<u8>::new());
}

#[test]
fn measure_counts_chars_and_utf16_units() {
    assert_eq!(measure("".as_bytes()), (0, 0));
    assert_eq!(measure("abc".as_bytes()), (3, 3));
    assert_eq!(measure("héé".as_bytes()), (3, 3));
    assert_eq!(measure("a😀𝄞€".as_bytes()), (4, 6));
}

#[test]
fn seek_finds_character_starts() {
    let s = "a€😀b";
    let bytes = s.as_bytes();
    assert_eq!(seek_char(bytes, 0, 0, 0), 0);
    assert_eq!(seek_char(bytes, 0, 0, 1), 1);
    assert_eq!(seek_char(bytes, 0, 0, 2), 4);
    assert_eq!(seek_char(bytes, 1, 1, 3), 8);
    assert_eq!(seek_char(bytes, 4, 2, 4), 9);
    assert!(byte_is_lead(bytes[1]));
    assert!(!byte_is_lead(bytes[2]));
}

#[test]
fn seek_utf16_counts_units() {
    let bytes = "a😀b".as_bytes();
    assert_eq!(seek_utf16(bytes, 0), 0);
    assert_eq!(seek_utf16(bytes, 1), 1);
    assert_eq!(seek_utf16(bytes, 2), 2);
    assert_eq!(seek_utf16(bytes, 3), 2);
    assert_eq!(seek_utf16(bytes, 4), 3);
    assert_eq!(seek_utf16(bytes, 9), 3);
}

#[test]
fn slice_ranges() {
    let r = SliceRange { start: 4, end: 9 };
    assert_eq!(r.atom_len(), 5);
    assert!(!r.is_unknown());
    assert_eq!(r.slice(1, 3), SliceRange { start: 5, end: 7 });
    let u = SliceRange::new_unknown(6);
    assert!(u.is_unknown());
    assert_eq!(u.atom_len(), 6);
    assert_eq!(u.slice(2, 5), SliceRange { start: UNKNOWN_START, end: UNKNOWN_START + 3 });
    assert_eq!(ListSlice::unknown_range(2), SliceRange::new_unknown(2));
}

#[test]
fn delete_spans() {
    let f = DeleteSpan::new(3, 4);
    assert_eq!((f.start(), f.end(), f.atom_len()), (3, 7, 4));
    let b = DeleteSpan::new(6, -4);
    assert_eq!((b.start(), b.end(), b.atom_len()), (3, 7, 4));
    assert_eq!(f.slice(1, 3), DeleteSpan::new(3, 2));
    assert_eq!(b.slice(1, 3), DeleteSpan::new(5, -2));
}

#[test]
fn list_op_lengths_and_slices() {
    let ins = ListOp::Insert { slice: ListSlice::Slice(SliceRange { start: 2, end: 8 }), pos: 10 };
    assert_eq!(ins.atom_len(), 6);
    match ins.slice(2, 5) {
        ListOp::Insert { slice: ListSlice::Slice(r), pos } => {
            assert_eq!((r, pos), (SliceRange { start: 4, end: 7 }, 12));
        }
        other => panic!("unexpected {:?}", other),
    }
    let unknown = ListOp::Insert { slice: ListSlice::Unknown(5), pos: 1 };
    match unknown.slice(1, 4) {
        ListOp::Insert { slice: ListSlice::Unknown(n), pos } => assert_eq!((n, pos), (3, 2)),
        other => panic!("unexpected {:?}", other),
    }
    match ListOp::new_del(4, 2) {
        ListOp::Delete(span) => assert_eq!(span, DeleteSpan::new(4, 2)),
        other => panic!("unexpected {:?}", other),
    }
    assert_eq!(ListOp::StyleEnd.atom_len(), 1);
    assert_eq!(ListOp::duplicate(&ListOp::new_del(4, 2)).atom_len(), 2);
}

#[test]
fn style_flags() {
    let f = TextStyleInfoFlag::from_u8(0b0000_0110);
    assert!(f.expand_before());
    assert!(f.expand_after());
    let g = TextStyleInfoFlag::from_u8(0b0000_0100);
    assert!(!g.expand_before());
    assert!(g.expand_after());
    assert_eq!(g.to_u8(), 4);
}

#[test]
fn text_rope_inserts_and_deletes() {
    let mut rope = TextRope::new();
    rope.insert(0, SliceRange { start: 0, end: 5 });
    rope.insert(2, SliceRange { start: 10, end: 12 });
    assert_eq!(rope.len(), 7);
    assert_eq!(
        rope.iter().clone(),
        vec![
            SliceRange { start: 0, end: 2 },
            SliceRange { start: 10, end: 12 },
            SliceRange { start: 2, end: 5 },
        ]
    );
    rope.delete_range(Some(1), Some(5));
    assert_eq!(
        rope.iter().clone(),
        vec![SliceRange { start: 0, end: 1 }, SliceRange { start: 3, end: 5 }]
    );
    rope.delete_range(None, Some(1));
    rope.delete_range(Some(1), None);
    assert_eq!(rope.iter().clone(), vec![SliceRange { start: 3, end: 4 }]);
    rope.insert(1, SliceRange { start: 7, end: 7 });
    assert_eq!(rope.len(), 1);
}

#[test]
fn string_pool_aliveness() {
    let mut pool = StringPool::new();
    let a = pool.alloc_str("hello");
    let b = pool.alloc_str(" wörld");
    assert_eq!(a, SliceRange { start: 0, end: 5 });
    assert_eq!(b, SliceRange { start: 5, end: 11 });
    assert_eq!(pool.len(), 11);
    assert_eq!(pool.get_str(&SliceRange { start: 3, end: 8 }), "lo wö");
    assert_eq!(pool.get_aliveness(&SliceRange { start: 0, end: 11 }), vec![Alive::True(11)]);
    assert!(!pool.should_update_aliveness(11));
    assert!(!pool.should_update_aliveness(6));
    assert!(pool.should_update_aliveness(5));
    pool.update_aliveness(&vec![
        SliceRange { start: 0, end: 2 },
        SliceRange::new_unknown(4),
        SliceRange { start: 4, end: 6 },
    ]);
    assert_eq!(
        pool.get_aliveness(&SliceRange { start: 0, end: 11 }),
        vec![Alive::True(2), Alive::False(2), Alive::True(2), Alive::False(5)]
    );
    assert_eq!(pool.get_aliveness(&SliceRange { start: 1, end: 3 }), vec![
        Alive::True(1),
        Alive::False(1)
    ]);
    assert_eq!(pool.get_aliveness(&SliceRange { start: 3, end: 3 }), vec![]);
    assert!(pool.should_update_aliveness(1));
    assert!(!pool.should_update_aliveness(2));
}
