use loro_text::arena::{SharedArena, _alloc_str, _alloc_value, _alloc_values, _slice_str};
use loro_text::id::{ContainerID, ContainerIdx, ContainerType, ID};
use loro_text::op::{
    DeleteSpan, InnerContent, InnerListOp, ListOp, ListSlice, MapSet, RawOp, RawOpContent,
    SliceRange, TextStyleInfoFlag, TreeID, TreeOp,
};
use loro_text::str_arena::StrArena;
use loro_text::value::LoroValue;

fn root(name: &str, t: ContainerType) -> ContainerID {
    ContainerID::new_root(name, t)
}

#[test]
fn register_is_idempotent() {
    let mut arena = SharedArena::new();
    let id = root("text", ContainerType::Text);
    let a = arena.register_container(&id);
    let b = arena.register_container(&id);
    assert_eq!(a, b);
    assert_eq!(a.to_index(), 0);
    assert_eq!(arena.id_to_idx(&id), Some(a));
    assert_eq!(arena.idx_to_id(a), Some(id.clone()));
    assert_eq!(arena.get_container_id(a), Some(id));
    assert_eq!(arena.export_containers().len(), 1);
}

#[test]
fn indices_are_dense_and_carry_the_type() {
    let mut arena = SharedArena::new();
    let a = arena.register_container(&root("a", ContainerType::Text));
    let b = arena.register_container(&root("b", ContainerType::Dict));
    let c = arena.register_container(&ContainerID::new_normal(ID::new(7, 3), ContainerType::List));
    assert_eq!((a.to_index(), b.to_index(), c.to_index()), (0, 1, 2));
    assert_eq!(a.get_type(), ContainerType::Text);
    assert_eq!(b.get_type(), ContainerType::Dict);
    assert_eq!(c.get_type(), ContainerType::List);
    assert_eq!(c, ContainerIdx::from_index_and_type(2, ContainerType::List));
    assert_eq!(c.0, (1u32 << 28) | 2);
    assert_eq!(arena.root_containers(), vec![a, b]);
}

#[test]
fn same_name_of_another_type_is_another_container() {
    let mut arena = SharedArena::new();
    let a = arena.register_container(&root("x", ContainerType::Text));
    let b = arena.register_container(&root("x", ContainerType::List));
    assert_ne!(a, b);
    assert_eq!(arena.id_to_idx(&root("x", ContainerType::Text)), Some(a));
    assert_eq!(arena.id_to_idx(&root("x", ContainerType::List)), Some(b));
    assert_eq!(arena.id_to_idx(&root("y", ContainerType::List)), None);
}

#[test]
fn missing_ids_give_none() {
    let arena = SharedArena::new();
    assert_eq!(arena.id_to_idx(&root("nope", ContainerType::Text)), None);
    assert_eq!(arena.idx_to_id(ContainerIdx::from_index_and_type(0, ContainerType::Text)), None);
    assert_eq!(arena.get_value(0), None);
    assert!(arena.is_empty());
}

#[test]
fn is_empty_sees_every_part() {
    let mut arena = SharedArena::new();
    assert!(arena.is_empty());
    arena.alloc_str("a");
    assert!(!arena.is_empty());
    let mut arena = SharedArena::new();
    arena.alloc_value(LoroValue::Null);
    assert!(!arena.is_empty());
    let mut arena = SharedArena::new();
    arena.register_container(&root("r", ContainerType::Text));
    assert!(!arena.is_empty());
    let mut arena = SharedArena::new();
    arena.register_container(&ContainerID::new_normal(ID::new(1, 1), ContainerType::Text));
    assert!(!arena.is_empty());
}

#[test]
fn alloc_str_reports_ranges() {
    let mut arena = SharedArena::new();
    let r = arena.alloc_str("héllo");
    assert_eq!((r.start, r.end, r.utf16_len), (0, 5, 5));
    let r = arena.alloc_str("a😀b");
    assert_eq!((r.start, r.end, r.utf16_len), (5, 8, 4));
    assert_eq!(arena.utf16_len(), 9);
    assert_eq!(arena.slice_str_by_unicode_range(1..6), "élloa");
    assert_eq!(arena.with_text_slice(6..7), "😀");
    assert_eq!(arena.slice_by_unicode(6, 7).as_bytes(), "😀".as_bytes());
    assert_eq!(arena.slice_by_unicode(6, 7).start(), "hélloa".len());
    assert_eq!(arena.slice_by_utf8(0, 3).as_bytes(), &"héllo".as_bytes()[0..3]);
}

#[test]
fn alloc_empty_str_changes_nothing() {
    let mut arena = SharedArena::new();
    arena.alloc_str("ab");
    let r = arena.alloc_str("");
    assert_eq!((r.start, r.end, r.utf16_len), (2, 2, 0));
    assert_eq!(arena.slice_str_by_unicode_range(0..2), "ab");
}

#[test]
fn alloc_str_with_slice_views_the_new_bytes() {
    let mut arena = SharedArena::new();
    arena.alloc_str("été");
    let (slice, start) = arena.alloc_str_with_slice("wörld");
    assert_eq!(start, 3);
    assert_eq!(slice.as_bytes(), "wörld".as_bytes());
    assert_eq!(slice.start(), "été".len());
}

#[test]
fn alloc_str_fast_appends() {
    let mut arena = SharedArena::new();
    arena.alloc_str_fast("héé".as_bytes());
    arena.alloc_str_fast(b"xy");
    assert_eq!(arena.slice_str_by_unicode_range(0..5), "hééxy");
}

#[test]
fn slices_survive_later_allocations() {
    let mut arena = SharedArena::new();
    let r = arena.alloc_str("first ∑ part");
    let before = arena.slice_by_unicode(r.start, r.end);
    let kept: Vec<u8> = before.as_bytes().to_vec();
    for i in 0..200 {
        arena.alloc_str("more text to make the buffer grow and move ");
        arena.alloc_value(LoroValue::I32(i));
    }
    arena.register_container(&root("late", ContainerType::Text));
    let after = arena.slice_by_unicode(r.start, r.end);
    assert_eq!(after.as_bytes(), &kept[..]);
    assert_eq!(before.as_bytes(), &kept[..]);
    assert_eq!(after.start(), before.start());
    assert_eq!(arena.slice_str_by_unicode_range(r.start..r.end), "first ∑ part");
}

#[test]
fn values_are_interned_in_order() {
    let mut arena = SharedArena::new();
    assert_eq!(arena.alloc_value(LoroValue::Bool(true)), 0);
    let r = arena.alloc_values(&vec![LoroValue::I32(4), LoroValue::Str("s".to_string())]);
    assert_eq!(r, 1..3);
    assert_eq!(arena.get_value(2), Some(LoroValue::Str("s".to_string())));
    assert_eq!(arena.get_value(3), None);
    assert_eq!(arena.get_values(0..2), vec![LoroValue::Bool(true), LoroValue::I32(4)]);
    assert_eq!(arena.get_values(1..1), vec![]);
}

#[test]
fn free_allocation_helpers() {
    let mut values = vec![LoroValue::Null];
    assert_eq!(_alloc_value(&mut values, LoroValue::I32(1)), 1);
    assert_eq!(_alloc_values(&mut values, &vec![LoroValue::I32(2), LoroValue::I32(3)]), 2..4);
    assert_eq!(values.len(), 4);
    let mut text = StrArena::new();
    let r = _alloc_str(&mut text, "a𝄞b");
    assert_eq!((r.start, r.end, r.utf16_len), (0, 3, 4));
    assert_eq!(_slice_str(1..2, &text), "𝄞");
    assert_eq!(text.len_bytes(), 6);
    assert_eq!(text.byte_offset(2), 5);
}

#[test]
fn parents_and_ancestors() {
    let mut arena = SharedArena::new();
    let a = arena.register_container(&root("a", ContainerType::Dict));
    let b = arena.register_container(&ContainerID::new_normal(ID::new(1, 0), ContainerType::List));
    let c = arena.register_container(&ContainerID::new_normal(ID::new(1, 1), ContainerType::Text));
    assert_eq!(arena.get_parent(a), None);
    assert_eq!(arena.get_parent(b), None);
    arena.set_parent(b, Some(a));
    arena.set_parent(c, Some(b));
    assert_eq!(arena.get_parent(c), Some(b));
    assert_eq!(arena.with_ancestors(c), vec![(c, true), (b, false), (a, false)]);
    assert_eq!(arena.with_ancestors(a), vec![(a, true)]);
    assert_eq!(arena.export_parents(), vec![None, Some(a), Some(b)]);
}

#[test]
fn a_parent_that_would_close_a_cycle_cannot_be_set() {
    let mut arena = SharedArena::new();
    let a = arena.register_container(&root("a", ContainerType::Dict));
    let b = arena.register_container(&root("b", ContainerType::Dict));
    assert!(arena.can_set_parent(a, Some(b)));
    arena.set_parent(a, Some(b));
    assert!(!arena.can_set_parent(b, Some(a)));
    assert!(!arena.can_set_parent(b, Some(b)));
    assert!(arena.can_set_parent(b, None));
    // a parent that is recorded stays, whatever is set
    assert!(arena.can_set_parent(a, Some(a)));
    assert_eq!(arena.with_ancestors(a), vec![(a, true), (b, false)]);
    assert_eq!(arena.with_ancestors(b), vec![(b, true)]);
    assert!(arena.is_ancestor(b, a));
    assert!(arena.is_ancestor(a, a));
    assert!(!arena.is_ancestor(a, b));
}

#[test]
fn a_parent_once_set_stays() {
    let mut arena = SharedArena::new();
    let a = arena.register_container(&root("a", ContainerType::Dict));
    let b = arena.register_container(&root("b", ContainerType::Dict));
    let c = arena.register_container(&root("c", ContainerType::Text));
    arena.set_parent(c, Some(a));
    arena.set_parent(c, Some(b));
    assert_eq!(arena.get_parent(c), Some(a));
    arena.set_parent(c, None);
    assert_eq!(arena.get_parent(c), Some(a));
    assert_eq!(arena.get_parent(a), None);
    assert_eq!(arena.with_ancestors(c), vec![(c, true), (a, false)]);
}

#[test]
fn only_registered_containers_take_part_in_the_hierarchy() {
    let mut arena = SharedArena::new();
    let a = arena.register_container(&root("a", ContainerType::Dict));
    let stray = ContainerIdx::from_index_and_type(7, ContainerType::Text);
    let wrong_type = ContainerIdx::from_index_and_type(0, ContainerType::Text);
    assert!(arena.has_handle(a));
    assert!(!arena.has_handle(stray));
    assert!(!arena.has_handle(wrong_type));
    assert!(!arena.can_set_parent(stray, Some(a)));
    assert!(!arena.can_set_parent(a, Some(stray)));
    assert!(!arena.can_set_parent(stray, None));
    assert_eq!(arena.get_parent(stray), None);
    assert_eq!(arena.with_ancestors(stray), vec![(stray, true)]);
}

#[test]
fn a_new_metadata_container_has_the_tree_as_parent() {
    let mut arena = SharedArena::new();
    let tree = root("tree", ContainerType::Tree);
    let t = arena.register_container(&tree);
    let other = arena.register_container(&root("other", ContainerType::Dict));
    arena.set_parent(t, Some(other));
    let content = RawOpContent::Tree(TreeOp { target: TreeID { peer: 3, counter: 4 }, parent: None });
    assert!(arena.can_convert_op(&tree, &content));
    let op = arena.convert_single_op(&tree, 3, 4, 0, content);
    assert_eq!(op.container, t);
    let meta = arena
        .id_to_idx(&ContainerID::new_normal(ID::new(3, 4), ContainerType::Dict))
        .unwrap();
    assert_eq!(meta, ContainerIdx::from_index_and_type(2, ContainerType::Dict));
    assert_eq!(arena.get_parent(meta), Some(t));
    assert_eq!(arena.with_ancestors(meta), vec![(meta, true), (t, false), (other, false)]);
    assert!(!arena.root_containers().contains(&meta));
}

#[test]
fn values_that_are_not_there_give_nothing() {
    let mut arena = SharedArena::new();
    arena.alloc_value(LoroValue::Bool(true));
    assert_eq!(arena.get_values(0..1), vec![LoroValue::Bool(true)]);
    assert_eq!(arena.get_values(0..2), vec![]);
    assert_eq!(arena.get_values(3..4), vec![]);
    assert_eq!(arena.get_value(1), None);
}

#[test]
fn convert_text_insert_interns_the_text() {
    let mut arena = SharedArena::new();
    arena.alloc_str("xx");
    let cid = root("t", ContainerType::Text);
    let op = arena.convert_single_op(
        &cid,
        1,
        5,
        9,
        RawOpContent::List(ListOp::Insert {
            slice: ListSlice::RawStr { str: "héy".to_string(), unicode_len: 3 },
            pos: 4,
        }),
    );
    assert_eq!(op.counter, 5);
    assert_eq!(Some(op.container), arena.id_to_idx(&cid));
    match op.content {
        InnerContent::List(InnerListOp::InsertText { slice, unicode_start, unicode_len, pos }) => {
            assert_eq!(slice.as_bytes(), "héy".as_bytes());
            assert_eq!((unicode_start, unicode_len, pos), (2, 3, 4));
        }
        other => panic!("unexpected {:?}", other),
    }
    assert_eq!(arena.slice_str_by_unicode_range(0..5), "xxhéy");
}

#[test]
fn convert_values_and_map_sets() {
    let mut arena = SharedArena::new();
    let idx = arena.register_container(&root("l", ContainerType::List));
    arena.alloc_value(LoroValue::Null);
    let op = arena.inner_convert_op(
        RawOpContent::List(ListOp::Insert {
            slice: ListSlice::RawData(vec![LoroValue::I32(1), LoroValue::I32(2)]),
            pos: 0,
        }),
        1,
        0,
        0,
        idx,
    );
    match op.content {
        InnerContent::List(InnerListOp::Insert { slice, pos }) => {
            assert_eq!(slice, SliceRange { start: 1, end: 3 });
            assert_eq!(pos, 0);
        }
        other => panic!("unexpected {:?}", other),
    }
    let op = arena.inner_convert_op(
        RawOpContent::Dict(MapSet { key: "k".to_string(), value: Some(LoroValue::Bool(false)) }),
        1,
        1,
        0,
        idx,
    );
    match op.content {
        InnerContent::Dict(set) => {
            assert_eq!(set.key, "k");
            assert_eq!(set.value, Some(3));
        }
        other => panic!("unexpected {:?}", other),
    }
    let op = arena.inner_convert_op(
        RawOpContent::Dict(MapSet { key: "k".to_string(), value: None }),
        1,
        2,
        0,
        idx,
    );
    match op.content {
        InnerContent::Dict(set) => assert_eq!(set.value, None),
        other => panic!("unexpected {:?}", other),
    }
    assert_eq!(arena.get_value(3), Some(LoroValue::Bool(false)));
}

#[test]
fn convert_passes_deletes_and_styles_through() {
    let mut arena = SharedArena::new();
    let idx = arena.register_container(&root("t", ContainerType::Text));
    let raw = RawOp {
        id: ID::new(3, 7),
        lamport: 1,
        container: idx,
        content: RawOpContent::List(ListOp::Delete(DeleteSpan::new(2, 3))),
    };
    let op = arena.convert_raw_op(&raw);
    assert_eq!((op.counter, op.container), (7, idx));
    match op.content {
        InnerContent::List(InnerListOp::Delete(span)) => assert_eq!(span, DeleteSpan::new(2, 3)),
        other => panic!("unexpected {:?}", other),
    }
    let op = arena.inner_convert_op(
        RawOpContent::List(ListOp::StyleStart {
            start: 1,
            end: 4,
            key: "bold".to_string(),
            info: TextStyleInfoFlag::from_u8(6),
        }),
        1,
        0,
        0,
        idx,
    );
    match op.content {
        InnerContent::List(InnerListOp::StyleStart { start, end, key, info }) => {
            assert_eq!((start, end, key.as_str(), info.to_u8()), (1, 4, "bold", 6));
        }
        other => panic!("unexpected {:?}", other),
    }
    let op = arena.inner_convert_op(RawOpContent::List(ListOp::StyleEnd), 1, 0, 0, idx);
    assert!(matches!(op.content, InnerContent::List(InnerListOp::StyleEnd)));
    assert!(arena.get_value(0).is_none());
}

#[test]
fn tree_op_registers_the_meta_container() {
    let mut arena = SharedArena::new();
    let tree = root("tree", ContainerType::Tree);
    let op = arena.convert_single_op(
        &tree,
        1,
        0,
        0,
        RawOpContent::Tree(TreeOp { target: TreeID { peer: 9, counter: 4 }, parent: None }),
    );
    let meta = ContainerID::new_normal(ID::new(9, 4), ContainerType::Dict);
    let meta_idx = arena.id_to_idx(&meta).unwrap();
    assert_eq!(meta_idx.to_index(), 1);
    assert_eq!(meta_idx.get_type(), ContainerType::Dict);
    assert_eq!(arena.get_parent(meta_idx), Some(op.container));
    assert_eq!(arena.root_containers(), vec![op.container]);
    arena.convert_single_op(
        &tree,
        1,
        1,
        0,
        RawOpContent::Tree(TreeOp { target: TreeID { peer: 9, counter: 4 }, parent: None }),
    );
    assert_eq!(arena.export_containers().len(), 2);
}

#[test]
fn op_converter_keeps_text_as_a_range() {
    let mut arena = SharedArena::new();
    arena.alloc_str("abc");
    let cid = root("t", ContainerType::Text);
    let mut converter = arena.with_op_converter();
    let op = converter.convert_single_op(
        &cid,
        1,
        0,
        0,
        RawOpContent::List(ListOp::Insert {
            slice: ListSlice::RawStr { str: "dé".to_string(), unicode_len: 2 },
            pos: 1,
        }),
    );
    match op.content {
        InnerContent::List(InnerListOp::Insert { slice, pos }) => {
            assert_eq!(slice, SliceRange { start: 3, end: 5 });
            assert_eq!(pos, 1);
        }
        other => panic!("unexpected {:?}", other),
    }
    let op = converter.convert_single_op(
        &cid,
        1,
        2,
        0,
        RawOpContent::Tree(TreeOp { target: TreeID { peer: 2, counter: 0 }, parent: None }),
    );
    let container = op.container;
    assert_eq!(arena.id_to_idx(&cid), Some(container));
    assert_eq!(arena.slice_str_by_unicode_range(3..5), "dé");
    let meta = arena
        .id_to_idx(&ContainerID::new_normal(ID::new(2, 0), ContainerType::Dict))
        .unwrap();
    assert_eq!(arena.get_parent(meta), Some(container));
}

#[test]
fn conversions_are_tested_beforehand() {
    let mut arena = SharedArena::new();
    let cid = root("t", ContainerType::Text);
    let good = RawOpContent::List(ListOp::Insert {
        slice: ListSlice::RawStr { str: "héllo".to_string(), unicode_len: 5 },
        pos: 0,
    });
    assert!(arena.can_convert_op(&cid, &good));
    // the length that is given is not the number of characters
    let bad = RawOpContent::List(ListOp::Insert {
        slice: ListSlice::RawStr { str: "héllo".to_string(), unicode_len: 6 },
        pos: 0,
    });
    assert!(!arena.can_convert_op(&cid, &bad));
    // content that is interned already is not content from outside
    let interned = RawOpContent::List(ListOp::Insert {
        slice: ListSlice::Slice(SliceRange { start: 0, end: 1 }),
        pos: 0,
    });
    assert!(!arena.can_convert_op(&cid, &interned));
    assert!(!arena.can_convert_op(&cid, &RawOpContent::List(ListOp::Delete(DeleteSpan::new(0, 0)))));
    assert!(arena.can_convert_op(&cid, &RawOpContent::List(ListOp::Delete(DeleteSpan::new(3, -2)))));
    assert!(!arena.can_convert_op(&cid, &RawOpContent::List(ListOp::Delete(DeleteSpan::new(0, -2)))));
    let tree = RawOpContent::Tree(TreeOp { target: TreeID { peer: 1, counter: 2 }, parent: None });
    assert!(arena.can_convert_op(&cid, &tree));
    let op = arena.convert_single_op(&cid, 1, 0, 0, good);
    assert_eq!(arena.idx_to_id(op.container), Some(cid));
}

