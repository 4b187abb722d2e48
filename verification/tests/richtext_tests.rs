use loro_text::arena::SharedArena;
use loro_text::chunk::RichtextStateChunk;
use loro_text::id::{ContainerIdx, ContainerType, ID};
use loro_text::op::{
    DeleteSpan, InnerContent, InnerListOp, ListOp, Op, RawOp, RawOpContent, SliceRange,
    TextStyleInfoFlag,
};
use loro_text::richtext_state::{Delta, DeltaItem, Diff, RichtextState};
use loro_text::rope::{RichtextRope, StyleRange};
use loro_text::snapshot::{load_elem, CommonArena, TempArena};
use loro_text::style::{AnchorType, StyleOp};
use loro_text::value::LoroValue;

fn idx() -> ContainerIdx {
    ContainerIdx::from_index_and_type(0, ContainerType::Text)
}

fn raw(peer: u64, counter: i32, lamport: u32) -> RawOp {
    RawOp {
        id: ID::new(peer, counter),
        lamport,
        container: idx(),
        content: RawOpContent::List(ListOp::StyleEnd),
    }
}

fn list_op(content: InnerListOp) -> Op {
    Op { counter: 0, container: idx(), content: InnerContent::List(content) }
}

fn insert(state: &mut RichtextState, arena: &mut SharedArena, pos: usize, text: &str) {
    let r = arena.alloc_str(text);
    let op = list_op(InnerListOp::Insert {
        slice: SliceRange { start: r.start as u32, end: r.end as u32 },
        pos,
    });
    state.apply_op(&raw(1, 0, 0), &op, arena);
}

fn delete(state: &mut RichtextState, arena: &SharedArena, pos: isize, len: isize) {
    let op = list_op(InnerListOp::Delete(DeleteSpan::new(pos, len)));
    state.apply_op(&raw(1, 0, 0), &op, arena);
}

fn mark(
    state: &mut RichtextState,
    arena: &SharedArena,
    start: u32,
    end: u32,
    key: &str,
    info: u8,
    id: (u64, i32),
) {
    let op = list_op(InnerListOp::StyleStart {
        start,
        end,
        key: key.to_string(),
        info: TextStyleInfoFlag::from_u8(info),
    });
    state.apply_op(&raw(id.0, id.1, 3), &op, arena);
}

fn shape(state: &RichtextState) -> Vec<String> {
    state
        .iter_chunk()
        .iter()
        .map(|c| match c {
            RichtextStateChunk::Text { .. } => format!("T:{}", c.as_str()),
            RichtextStateChunk::Style { style, anchor_type } => format!(
                "{}:{}@{}.{}",
                match anchor_type {
                    AnchorType::Start => "S",
                    AnchorType::End => "E",
                },
                style.key,
                style.peer,
                style.cnt
            ),
        })
        .collect()
}

fn lens(state: &RichtextState) -> (usize, usize, usize, usize) {
    (state.len_utf8(), state.len_utf16(), state.len_unicode(), state.len_entity())
}

#[test]
fn new_state_is_empty() {
    let state = RichtextState::new(idx());
    assert!(state.is_empty());
    assert_eq!(state.to_string(), "");
    assert_eq!(lens(&state), (0, 0, 0, 0));
    assert!(!state.in_txn());
    assert!(matches!(state.get_value(), LoroValue::Str(s) if s.is_empty()));
}

#[test]
fn insert_is_seen_at_once() {
    let mut arena = SharedArena::new();
    let mut state = RichtextState::new(idx());
    insert(&mut state, &mut arena, 0, "héllo");
    insert(&mut state, &mut arena, 2, "😀€");
    assert_eq!(state.to_string(), "hé😀€llo");
    let value = state.to_string();
    let part: String = value.chars().skip(2).take(2).collect();
    assert_eq!(part, "😀€");
    insert(&mut state, &mut arena, 7, "!");
    assert_eq!(state.to_string(), "hé😀€llo!");
    insert(&mut state, &mut arena, 0, "");
    assert_eq!(state.to_string(), "hé😀€llo!");
}

#[test]
fn lengths_follow_the_text_and_the_anchors() {
    let mut arena = SharedArena::new();
    let mut state = RichtextState::new(idx());
    insert(&mut state, &mut arena, 0, "a€😀");
    assert_eq!(lens(&state), (8, 4, 3, 3));
    mark(&mut state, &arena, 1, 2, "bold", 0, (2, 0));
    assert_eq!(lens(&state), (8, 4, 3, 5));
    assert_eq!(state.to_string(), "a€😀");
    delete(&mut state, &arena, 1, 3);
    assert_eq!(state.to_string(), "a😀");
    assert_eq!(lens(&state), (5, 3, 2, 2));
    let s = state.to_string();
    assert_eq!(
        lens(&state),
        (s.len(), s.encode_utf16().count(), s.chars().count(), s.chars().count())
    );
}

#[test]
fn insert_text_op_carries_its_bytes() {
    let mut arena = SharedArena::new();
    let mut state = RichtextState::new(idx());
    let (slice, start) = arena.alloc_str_with_slice("xyz");
    let op = list_op(InnerListOp::InsertText {
        slice,
        unicode_start: start as u32,
        unicode_len: 3,
        pos: 0,
    });
    state.apply_op(&raw(1, 0, 0), &op, &arena);
    assert_eq!(state.to_string(), "xyz");
    state.apply_op(&raw(1, 0, 0), &list_op(InnerListOp::StyleEnd), &arena);
    assert_eq!(state.to_string(), "xyz");
}

#[test]
fn delete_splits_chunks() {
    let mut arena = SharedArena::new();
    let mut state = RichtextState::new(idx());
    insert(&mut state, &mut arena, 0, "abcdef");
    delete(&mut state, &arena, 2, 2);
    assert_eq!(shape(&state), vec!["T:ab", "T:ef"]);
    delete(&mut state, &arena, 2, -2);
    assert_eq!(state.to_string(), "af");
    delete(&mut state, &arena, 0, 2);
    assert!(state.is_empty());
}

#[test]
fn mark_puts_both_anchors_and_records_the_style() {
    let mut arena = SharedArena::new();
    let mut state = RichtextState::new(idx());
    insert(&mut state, &mut arena, 0, "abc");
    mark(&mut state, &arena, 1, 3, "bold", 0, (7, 4));
    assert_eq!(shape(&state), vec!["T:a", "S:bold@7.4", "T:bc", "E:bold@7.4"]);
    assert_eq!(state.style_ranges(), vec![StyleRange { start: 1, end: 5, style: ID::new(7, 4) }]);
    let chunk = &state.iter_chunk()[1];
    match chunk {
        RichtextStateChunk::Style { style, .. } => assert_eq!(style.lamport, 3),
        _ => panic!("expected an anchor"),
    }
}

#[test]
fn style_pair_survives_concurrent_insert() {
    let mut arena = SharedArena::new();
    let mut state = RichtextState::new(idx());
    insert(&mut state, &mut arena, 0, "abc");
    mark(&mut state, &arena, 0, 3, "bold", 0b110, (2, 0));
    assert_eq!(state.style_ranges(), vec![StyleRange { start: 0, end: 5, style: ID::new(2, 0) }]);
    let at = state.get_entity_index_for_text_insert_pos(1);
    assert_eq!(at, 2);
    insert(&mut state, &mut arena, at, "X");
    assert_eq!(state.to_string(), "aXbc");
    assert_eq!(shape(&state), vec!["S:bold@2.0", "T:a", "T:X", "T:bc", "E:bold@2.0"]);
    assert_eq!(state.style_ranges(), vec![StyleRange { start: 0, end: 6, style: ID::new(2, 0) }]);
    assert_eq!(state.get_text_entity_ranges_in_unicode_range(0, 4), vec![1..5]);
}

#[test]
fn insert_position_stays_outside_plain_anchors() {
    let mut arena = SharedArena::new();
    let mut state = RichtextState::new(idx());
    insert(&mut state, &mut arena, 0, "abcd");
    mark(&mut state, &arena, 1, 3, "link", 0, (2, 0));
    // a S b c E d
    assert_eq!(state.get_entity_index_for_text_insert_pos(0), 0);
    assert_eq!(state.get_entity_index_for_text_insert_pos(1), 1);
    assert_eq!(state.get_entity_index_for_text_insert_pos(2), 3);
    assert_eq!(state.get_entity_index_for_text_insert_pos(3), 5);
    assert_eq!(state.get_entity_index_for_text_insert_pos(4), 6);
}

#[test]
fn insert_position_goes_inside_expanding_anchors() {
    let mut arena = SharedArena::new();
    let mut state = RichtextState::new(idx());
    insert(&mut state, &mut arena, 0, "abcd");
    mark(&mut state, &arena, 1, 3, "bold", 0b110, (2, 0));
    // a S b c E d, both anchors take text in
    assert_eq!(state.get_entity_index_for_text_insert_pos(1), 2);
    assert_eq!(state.get_entity_index_for_text_insert_pos(3), 4);
    assert_eq!(state.get_entity_index_for_text_insert_pos(4), 6);
}

#[test]
fn utf16_positions() {
    let mut arena = SharedArena::new();
    let mut state = RichtextState::new(idx());
    insert(&mut state, &mut arena, 0, "a😀b");
    mark(&mut state, &arena, 1, 2, "k", 0, (2, 0));
    // a S 😀 E b
    assert_eq!(state.get_entity_index_for_utf16_insert_pos(0), 0);
    assert_eq!(state.get_entity_index_for_utf16_insert_pos(1), 1);
    assert_eq!(state.get_entity_index_for_utf16_insert_pos(3), 4);
    assert_eq!(state.get_entity_index_for_utf16_insert_pos(2), 4);
    assert_eq!(state.get_entity_index_for_utf16_insert_pos(4), 5);
    assert_eq!(state.get_text_entity_ranges_in_utf16_range(0, 4), vec![0..1, 2..3, 4..5]);
    assert_eq!(state.get_text_entity_ranges_in_utf16_range(1, 2), vec![2..3]);
    assert_eq!(state.get_text_entity_ranges_in_utf16_range(3, 1), vec![4..5]);
}

#[test]
fn text_ranges_skip_anchors_and_join_chunks() {
    let mut arena = SharedArena::new();
    let mut state = RichtextState::new(idx());
    insert(&mut state, &mut arena, 0, "ab");
    insert(&mut state, &mut arena, 2, "cd");
    insert(&mut state, &mut arena, 4, "ef");
    assert_eq!(state.get_text_entity_ranges_in_unicode_range(1, 4), vec![1..5]);
    mark(&mut state, &arena, 3, 4, "k", 0, (2, 0));
    // a b c S d E e f
    assert_eq!(state.get_text_entity_ranges_in_unicode_range(0, 6), vec![0..3, 4..5, 6..8]);
    assert_eq!(state.get_text_entity_ranges_in_unicode_range(3, 1), vec![4..5]);
    assert_eq!(state.get_text_entity_ranges_in_unicode_range(2, 0), Vec::<std::ops::Range<usize>>::new());
    assert_eq!(state.get_text_entity_ranges_in_unicode_range(5, 10), vec![7..8]);
}

#[test]
fn abort_txn() {
    let mut arena = SharedArena::new();
    let mut state = RichtextState::new(idx());
    insert(&mut state, &mut arena, 0, "héllo wörld");
    let before = (state.to_string(), lens(&state));
    state.start_txn();
    assert!(state.in_txn());
    insert(&mut state, &mut arena, 0, "foo");
    delete(&mut state, &arena, 0, 3);
    insert(&mut state, &mut arena, 0, "bar");
    assert_eq!(state.to_string(), "barhéllo wörld");
    state.abort_txn();
    assert!(!state.in_txn());
    assert_eq!((state.to_string(), lens(&state)), before);
}

#[test]
fn abort_takes_back_a_style() {
    let mut arena = SharedArena::new();
    let mut state = RichtextState::new(idx());
    insert(&mut state, &mut arena, 0, "abcd");
    mark(&mut state, &arena, 0, 2, "bold", 0, (5, 0));
    let before = (state.to_string(), lens(&state), state.style_ranges());
    state.start_txn();
    mark(&mut state, &arena, 1, 5, "italic", 0, (6, 0));
    insert(&mut state, &mut arena, 0, "xy");
    assert_eq!(state.len_entity(), 10);
    assert_eq!(state.style_ranges().len(), 2);
    state.abort_txn();
    assert_eq!((state.to_string(), lens(&state), state.style_ranges()), before);
    // the anchors of the style that was there stand where they stood
    assert_eq!(shape(&state)[0], "S:bold@5.0");
    assert_eq!(shape(&state)[2], "E:bold@5.0");
}

#[test]
fn commit_keeps_a_style() {
    let mut arena = SharedArena::new();
    let mut state = RichtextState::new(idx());
    insert(&mut state, &mut arena, 0, "abcd");
    state.start_txn();
    mark(&mut state, &arena, 1, 3, "bold", 0, (5, 0));
    state.commit_txn();
    assert_eq!(state.len_entity(), 6);
    assert_eq!(state.style_ranges(), vec![StyleRange { start: 1, end: 5, style: ID::new(5, 0) }]);
    state.abort_txn();
    assert_eq!(state.len_entity(), 6);
    assert_eq!(state.style_ranges(), vec![StyleRange { start: 1, end: 5, style: ID::new(5, 0) }]);
}

#[test]
fn abort_restores_deleted_text_in_order() {
    let mut arena = SharedArena::new();
    let mut state = RichtextState::new(idx());
    insert(&mut state, &mut arena, 0, "ab");
    insert(&mut state, &mut arena, 2, "cd");
    insert(&mut state, &mut arena, 4, "ef");
    state.start_txn();
    delete(&mut state, &arena, 1, 4);
    assert_eq!(state.to_string(), "af");
    insert(&mut state, &mut arena, 1, "ZZ");
    delete(&mut state, &arena, 0, 2);
    assert_eq!(state.to_string(), "Zf");
    state.abort_txn();
    assert_eq!(state.to_string(), "abcdef");
    assert_eq!(lens(&state), (6, 6, 6, 6));
}

#[test]
fn commit_keeps_the_changes() {
    let mut arena = SharedArena::new();
    let mut state = RichtextState::new(idx());
    insert(&mut state, &mut arena, 0, "abc");
    state.start_txn();
    insert(&mut state, &mut arena, 3, "def");
    state.commit_txn();
    state.start_txn();
    state.abort_txn();
    assert_eq!(state.to_string(), "abcdef");
}

fn text_chunk(arena: &mut SharedArena, text: &str) -> RichtextStateChunk {
    let r = arena.alloc_str(text);
    RichtextStateChunk::new_text(arena.slice_by_unicode(r.start, r.end), r.start as u32)
}

fn style(key: &str, peer: u64, cnt: i32) -> StyleOp {
    StyleOp { lamport: 5, peer, cnt, key: key.to_string(), info: TextStyleInfoFlag::from_u8(2) }
}

#[test]
fn apply_diff_walks_the_text() {
    let mut arena = SharedArena::new();
    let mut state = RichtextState::new(idx());
    insert(&mut state, &mut arena, 0, "abcdef");
    let diff = Diff::RichtextRaw(Delta {
        vec: vec![
            DeltaItem::Retain { len: 1 },
            DeltaItem::Insert {
                value: RichtextStateChunk::new_style(style("b", 3, 0), AnchorType::Start),
            },
            DeltaItem::Retain { len: 2 },
            DeltaItem::Delete { len: 2 },
            DeltaItem::Insert { value: text_chunk(&mut arena, "XY") },
            DeltaItem::Insert {
                value: RichtextStateChunk::new_style(style("b", 3, 0), AnchorType::End),
            },
        ],
    });
    state.apply_diff(&diff, &arena);
    assert_eq!(state.to_string(), "abcXYf");
    assert_eq!(shape(&state), vec!["T:a", "S:b@3.0", "T:bc", "T:XY", "E:b@3.0", "T:f"]);
    assert_eq!(state.style_ranges(), vec![StyleRange { start: 1, end: 7, style: ID::new(3, 0) }]);
    assert_eq!(state.len_entity(), 8);
}

#[test]
fn apply_diff_in_txn_can_be_taken_back() {
    let mut arena = SharedArena::new();
    let mut state = RichtextState::new(idx());
    insert(&mut state, &mut arena, 0, "abcdef");
    state.start_txn();
    let diff = Diff::RichtextRaw(Delta {
        vec: vec![
            DeltaItem::Retain { len: 2 },
            DeltaItem::Delete { len: 3 },
            DeltaItem::Insert { value: text_chunk(&mut arena, "héé") },
        ],
    });
    state.apply_diff(&diff, &arena);
    assert_eq!(state.to_string(), "abhééf");
    state.abort_txn();
    assert_eq!(state.to_string(), "abcdef");
    assert_eq!(lens(&state), (6, 6, 6, 6));
}

#[test]
fn to_diff_rebuilds_the_state() {
    let mut arena = SharedArena::new();
    let mut state = RichtextState::new(idx());
    insert(&mut state, &mut arena, 0, "abc");
    mark(&mut state, &arena, 1, 2, "i", 0, (4, 1));
    let diff = state.to_diff();
    match &diff {
        Diff::RichtextRaw(delta) => assert_eq!(delta.vec.len(), 5),
        _ => panic!("expected a rich-text diff"),
    }
    let mut other = RichtextState::new(idx());
    other.apply_diff(&diff, &arena);
    assert_eq!(shape(&other), shape(&state));
    assert_eq!(other.style_ranges(), vec![StyleRange { start: 1, end: 4, style: ID::new(4, 1) }]);
    let copy = state.duplicate();
    assert_eq!(shape(&copy), shape(&state));
    assert!(!copy.in_txn());
}

#[test]
fn snapshot_round_trip() {
    let mut arena = SharedArena::new();
    arena.alloc_str("padding ");
    let mut state = RichtextState::new(idx());
    insert(&mut state, &mut arena, 0, "abcd");
    // "ab" bold, "cd" italic, overlapping on "bc": bold over a..c, italic over b..d
    mark(&mut state, &arena, 0, 3, "bold", 0b100, (1, 10));
    mark(&mut state, &arena, 2, 6, "italic", 0, (2, 20));
    assert_eq!(
        shape(&state),
        vec!["S:bold@1.10", "T:a", "S:italic@2.20", "T:bc", "E:bold@1.10", "T:d", "E:italic@2.20"]
    );
    let mut common = CommonArena::new();
    let mut temp = TempArena::new();
    let enc = state.encode_snapshot(&mut common, &mut temp);
    assert_eq!(enc.len, vec![0, 1, 1, 1, 1, 1, 1, 1]);
    assert_eq!(enc.text, vec![(8, 9), (9, 11), (11, 12)]);
    assert_eq!(enc.is_style_start, vec![0b0000_0011]);
    assert_eq!(enc.styles.len(), 4);
    assert_eq!((enc.styles[0].peer_idx, enc.styles[0].key_idx, enc.styles[0].counter), (0, 0, 10));
    assert_eq!((enc.styles[1].peer_idx, enc.styles[1].key_idx, enc.styles[1].counter), (1, 1, 20));
    assert_eq!((enc.styles[2].peer_idx, enc.styles[2].key_idx), (0, 0));
    assert_eq!((enc.styles[0].lamport, enc.styles[0].style_info), (3, 0b100));
    assert_eq!(common.peer_ids, vec![1, 2]);
    assert_eq!(temp.keywords, vec!["bold".to_string(), "italic".to_string()]);

    let mut loaded = RichtextState::new(idx());
    loaded.decode_snapshot(enc, &temp, &common, &arena);
    assert_eq!(shape(&loaded), shape(&state));
    assert_eq!(loaded.to_string(), "abcd");
    assert_eq!(lens(&loaded), lens(&state));
    let mut ranges = loaded.style_ranges();
    ranges.sort_by_key(|r| r.start);
    assert_eq!(
        ranges,
        vec![
            StyleRange { start: 0, end: 6, style: ID::new(1, 10) },
            StyleRange { start: 2, end: 8, style: ID::new(2, 20) },
        ]
    );
    assert_eq!(ranges, state.style_ranges());
}

#[test]
fn snapshot_of_text_only_and_of_nothing() {
    let mut arena = SharedArena::new();
    let mut state = RichtextState::new(idx());
    let mut common = CommonArena::new();
    let mut temp = TempArena::new();
    let enc = state.encode_snapshot(&mut common, &mut temp);
    assert!(enc.len.is_empty() && enc.text.is_empty() && enc.styles.is_empty());
    assert!(enc.is_style_start.is_empty());
    insert(&mut state, &mut arena, 0, "ab");
    insert(&mut state, &mut arena, 1, "é");
    let enc = state.encode_snapshot(&mut common, &mut temp);
    assert_eq!(enc.len, vec![3]);
    assert_eq!(enc.text, vec![(0, 1), (2, 3), (1, 2)]);
    let mut loaded = RichtextState::new(idx());
    loaded.decode_snapshot(enc, &temp, &common, &arena);
    assert_eq!(loaded.to_string(), "aéb");
}

#[test]
fn tables_are_reused() {
    let mut common = CommonArena::new();
    let mut temp = TempArena::new();
    assert_eq!(common.record_peer(9), 0);
    assert_eq!(common.record_peer(4), 1);
    assert_eq!(common.record_peer(9), 0);
    assert_eq!(temp.record_key(&"a".to_string()), 0);
    assert_eq!(temp.record_key(&"b".to_string()), 1);
    assert_eq!(temp.record_key(&"a".to_string()), 0);
}

#[test]
fn loader_records_styles_when_they_close() {
    let mut arena = SharedArena::new();
    let mut state = RichtextState::new(idx());
    {
        let mut loader = state.get_loader();
        loader.push(RichtextStateChunk::new_style(style("b", 1, 0), AnchorType::Start));
        loader.push(text_chunk(&mut arena, "xy"));
        loader.push(RichtextStateChunk::new_style(style("b", 1, 0), AnchorType::End));
        loader.push(RichtextStateChunk::new_style(style("c", 1, 1), AnchorType::End));
    }
    assert_eq!(shape(&state), vec!["S:b@1.0", "T:xy", "E:b@1.0", "E:c@1.1"]);
    assert_eq!(state.style_ranges(), vec![StyleRange { start: 0, end: 4, style: ID::new(1, 0) }]);
    let mut anchors = Default::default();
    load_elem(&mut state, &mut anchors, text_chunk(&mut arena, "z"));
    assert_eq!(state.to_string(), "xyz");
}

#[test]
fn rope_drain_returns_what_it_removed() {
    let mut arena = SharedArena::new();
    let mut rope = RichtextRope::new();
    rope.push(text_chunk(&mut arena, "héllo"));
    rope.insert_elem_at_entity_index(
        2,
        RichtextStateChunk::new_style(style("k", 1, 0), AnchorType::Start),
    );
    let removed = rope.drain_by_entity_index(1, 3);
    let parts: Vec<String> = removed
        .iter()
        .map(|c| if c.is_text() { c.as_str().to_string() } else { "|".to_string() })
        .collect();
    assert_eq!(parts, vec!["é", "|", "l"]);
    assert_eq!(rope.to_string(), "hlo");
    assert_eq!(rope.len_entity(), 3);
    assert!(!rope.is_empty());
    let chunk = text_chunk(&mut arena, "a😀b");
    assert_eq!((chunk.rle_len(), chunk.unicode_len(), chunk.utf16_len(), chunk.utf8_len()), (3, 3, 4, 6));
    let (l, r) = chunk.split_text(2);
    assert_eq!((l.as_str(), r.as_str()), ("a😀", "b"));
    assert_eq!(chunk.seek_units(3, true), 2);
    assert_eq!(chunk.seek_units(2, false), 2);
    assert_eq!(chunk.duplicate().as_str(), "a😀b");
}

#[test]
fn rich_value_gives_each_run_its_styles() {
    let mut arena = SharedArena::new();
    let mut state = RichtextState::new(idx());
    assert!(state.get_richtext_value().is_empty());
    insert(&mut state, &mut arena, 0, "abcd");
    mark(&mut state, &arena, 0, 2, "bold", 0, (5, 0));
    mark(&mut state, &arena, 2, 5, "italic", 0, (6, 0));
    // entities: S(bold) a S(italic) b E(bold) c E(italic) d
    let spans = state.get_richtext_value();
    let seen: Vec<(String, Vec<ID>)> =
        spans.into_iter().map(|s| (s.text, s.styles)).collect();
    assert_eq!(
        seen,
        vec![
            ("a".to_string(), vec![ID::new(5, 0)]),
            ("b".to_string(), vec![ID::new(5, 0), ID::new(6, 0)]),
            ("c".to_string(), vec![ID::new(6, 0)]),
            ("d".to_string(), vec![]),
        ]
    );
}

