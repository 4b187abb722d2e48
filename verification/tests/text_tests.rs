use loro_text::id::{ContainerID, ContainerType, CounterSpan, IdSpan, ID};
use loro_text::log_store::LogStore;
use loro_text::op::{
    DeleteSpan, InnerContent, InnerListOp, ListOp, ListSlice, RawOpContent, SliceRange,
};
use loro_text::text::Text;
use loro_text::text_container::{RemoteOp, RichOp, TextContainer};
use loro_text::tracker::Tracker;
use loro_text::tracker_model::Effect;
use loro_text::value::LoroValue;
use loro_text::version::VersionVector;

fn cid() -> ContainerID {
    ContainerID::new_root("text", ContainerType::Text)
}

fn value(c: &TextContainer) -> String {
    match c.get_value() {
        LoroValue::Str(s) => s,
        other => panic!("unexpected {:?}", other),
    }
}

fn vv(entries: &[(u64, i32)]) -> VersionVector {
    let mut v = VersionVector::new();
    for (p, c) in entries {
        v.set_end(*p, *c);
    }
    v
}

fn span(peer: u64, start: i32, end: i32) -> IdSpan {
    IdSpan { peer, counter: CounterSpan { start, end } }
}

fn import_insert(c: &mut TextContainer, text: &str, pos: usize) -> ListOp {
    let mut op = RemoteOp {
        id: ID::new(0, 0),
        contents: vec![RawOpContent::List(ListOp::Insert {
            slice: ListSlice::RawStr { str: text.to_string(), unicode_len: text.chars().count() },
            pos,
        })],
    };
    c.to_import(&mut op);
    match op.contents.pop().unwrap() {
        RawOpContent::List(l) => l,
        other => panic!("unexpected {:?}", other),
    }
}

#[test]
fn local_insert_is_seen_at_once() {
    let mut store = LogStore::new(7);
    let mut text = Text::from(TextContainer::new(cid()));
    assert_eq!(text.id(), cid());
    assert_eq!(text.insert(&mut store, 0, "héllo"), Some(ID::new(7, 0)));
    assert_eq!(text.insert(&mut store, 2, "😀€"), Some(ID::new(7, 5)));
    assert_eq!(text.insert(&mut store, 7, ""), None);
    assert_eq!(text.text_len(), 7);
    match text.get_value() {
        LoroValue::Str(s) => {
            assert_eq!(s, "hé😀€llo");
            let part: String = s.chars().skip(2).take(2).collect();
            assert_eq!(part, "😀€");
        }
        other => panic!("unexpected {:?}", other),
    }
    assert_eq!(store.next_id(), ID::new(7, 7));
    assert_eq!(store.this_client_id(), 7);
}

#[test]
fn local_ops_reach_the_log() {
    let mut store = LogStore::new(3);
    let mut c = TextContainer::new(cid());
    c.insert(&mut store, 0, "abc");
    assert_eq!(c.head_ids(), vec![ID::new(3, 2)]);
    assert_eq!(c.delete(&mut store, 1, 2), Some(ID::new(3, 3)));
    assert_eq!(c.head_ids(), vec![ID::new(3, 4)]);
    assert_eq!(value(&c), "a");
    assert_eq!(store.next_id(), ID::new(3, 5));
    assert_eq!(c.type_(), ContainerType::Text);
    assert_eq!(c.id(), &cid());
    c.check();
}

#[test]
fn empty_delete_is_no_operation() {
    let mut store = LogStore::new(2);
    let mut text = Text::from(TextContainer::new(cid()));
    text.insert(&mut store, 0, "hello");
    assert_eq!(text.delete(&mut store, 0, 0), None);
    assert_eq!(store.next_id(), ID::new(2, 5));
    assert!(matches!(text.get_value(), LoroValue::Str(s) if s == "hello"));
    let c = text.into_container();
    assert_eq!(c.text_len(), 5);
}

#[test]
fn remote_delete_of_nothing_changes_nothing() {
    let mut store_a = LogStore::new(1);
    let mut a = TextContainer::new(cid());
    a.insert(&mut store_a, 0, "hello");
    // the other peer has not seen the insertion: its deletion covers nothing
    let mut store_b = LogStore::new(2);
    let mut b = TextContainer::new(cid());
    assert_eq!(b.delete(&mut store_b, 0, 0), None);
    assert_eq!(store_b.next_id(), ID::new(2, 0));
    let content = import_insert(&mut b, "hello", 0);
    b.tracker_checkout(&vv(&[]));
    b.track_apply(&RichOp { id: ID::new(1, 0), lamport: 0, content });
    b.apply_tracked_effects_from(&vv(&[]), &vec![span(1, 0, 5)]);
    assert_eq!(value(&a), "hello");
    assert_eq!(value(&b), "hello");
}

#[test]
fn import_interns_text() {
    let mut c = TextContainer::new(cid());
    let mut op = RemoteOp {
        id: ID::new(1, 0),
        contents: vec![
            RawOpContent::List(ListOp::Insert {
                slice: ListSlice::RawStr { str: "hé".to_string(), unicode_len: 2 },
                pos: 0,
            }),
            RawOpContent::List(ListOp::Delete(DeleteSpan::new(0, 1))),
            RawOpContent::List(ListOp::Insert { slice: ListSlice::Unknown(3), pos: 1 }),
            RawOpContent::List(ListOp::Insert {
                slice: ListSlice::RawStr { str: "y".to_string(), unicode_len: 1 },
                pos: 4,
            }),
        ],
    };
    c.to_import(&mut op);
    assert_eq!(op.contents.len(), 4);
    let slices: Vec<String> = op.contents.iter().map(|c| format!("{:?}", c)).collect();
    assert!(slices[0].contains("Slice(SliceRange { start: 0, end: 2 })"));
    assert!(slices[1].contains("Delete"));
    assert!(slices[2].contains("Unknown(3)"));
    assert!(slices[3].contains("Slice(SliceRange { start: 2, end: 3 })"));
}

#[test]
fn update_state_directly_inserts_and_deletes() {
    let mut c = TextContainer::new(cid());
    let op = import_insert(&mut c, "hello", 0);
    c.update_state_directly(&RichOp { id: ID::new(1, 0), lamport: 0, content: op });
    c.update_state_directly(&RichOp {
        id: ID::new(1, 5),
        lamport: 5,
        content: ListOp::Insert { slice: ListSlice::Unknown(2), pos: 5 },
    });
    assert_eq!(c.text_len(), 7);
    c.update_state_directly(&RichOp {
        id: ID::new(1, 7),
        lamport: 7,
        content: ListOp::Delete(DeleteSpan::new(4, 3)),
    });
    assert_eq!(value(&c), "hell");
}

#[test]
fn gc_export() {
    let mut store = LogStore::new(1);
    let mut c = TextContainer::new(cid());
    c.insert(&mut store, 0, "hello world");
    c.delete(&mut store, 5, 6);
    let mut op = RemoteOp {
        id: ID::new(1, 0),
        contents: vec![
            RawOpContent::List(ListOp::Insert {
                slice: ListSlice::Slice(SliceRange { start: 0, end: 11 }),
                pos: 0,
            }),
            RawOpContent::List(ListOp::Delete(DeleteSpan::new(5, 6))),
        ],
    };
    c.to_export(&mut op, true);
    assert_eq!(op.contents.len(), 3);
    match &op.contents[0] {
        RawOpContent::List(ListOp::Insert { slice: ListSlice::RawStr { str, unicode_len }, pos }) => {
            assert_eq!((str.as_str(), *unicode_len, *pos), ("hello", 5, 0));
        }
        other => panic!("unexpected {:?}", other),
    }
    match &op.contents[1] {
        RawOpContent::List(ListOp::Insert { slice: ListSlice::Unknown(n), pos }) => {
            assert_eq!((*n, *pos), (6, 5));
        }
        other => panic!("unexpected {:?}", other),
    }
    assert!(matches!(&op.contents[2], RawOpContent::List(ListOp::Delete(_))));

    // a fresh peer takes the export in
    let mut fresh = TextContainer::new(cid());
    fresh.to_import(&mut op);
    let mut counter = 0;
    for content in op.contents {
        if let RawOpContent::List(list) = content {
            let len = list.atom_len() as i32;
            fresh.update_state_directly(&RichOp {
                id: ID::new(1, counter),
                lamport: counter as u32,
                content: list,
            });
            counter += len;
        }
    }
    assert_eq!(value(&fresh), "hello");
}

#[test]
fn export_without_gc_sends_all_text() {
    let mut store = LogStore::new(1);
    let mut c = TextContainer::new(cid());
    c.insert(&mut store, 0, "hello wörld");
    c.delete(&mut store, 5, 6);
    let mut op = RemoteOp {
        id: ID::new(1, 0),
        contents: vec![RawOpContent::List(ListOp::Insert {
            slice: ListSlice::Slice(SliceRange { start: 3, end: 11 }),
            pos: 3,
        })],
    };
    c.to_export(&mut op, false);
    match &op.contents[0] {
        RawOpContent::List(ListOp::Insert { slice: ListSlice::RawStr { str, unicode_len }, pos }) => {
            assert_eq!((str.as_str(), *unicode_len, *pos), ("lo wörld", 8, 3));
        }
        other => panic!("unexpected {:?}", other),
    }
    assert_eq!(op.contents.len(), 1);
}

struct Remote {
    id: ID,
    lamport: u32,
    deps: Vec<(u64, i32)>,
    text: Option<&'static str>,
    pos: usize,
    del: usize,
}

fn ins(id: (u64, i32), lamport: u32, deps: &[(u64, i32)], pos: usize, text: &'static str) -> Remote {
    Remote { id: ID::new(id.0, id.1), lamport, deps: deps.to_vec(), text: Some(text), pos, del: 0 }
}

fn del(id: (u64, i32), lamport: u32, deps: &[(u64, i32)], pos: usize, len: usize) -> Remote {
    Remote { id: ID::new(id.0, id.1), lamport, deps: deps.to_vec(), text: None, pos, del: len }
}

/// Hands the operations to a new container in the given order, then brings
/// the text from nothing forward over all of them.
fn replay(ops: &[&Remote]) -> String {
    let mut c = TextContainer::new(cid());
    let mut spans = Vec::new();
    for op in ops {
        let content = match op.text {
            Some(text) => import_insert(&mut c, text, op.pos),
            None => ListOp::new_del(op.pos, op.del),
        };
        let len = content.atom_len() as i32;
        c.tracker_checkout(&vv(&op.deps));
        c.track_apply(&RichOp { id: op.id, lamport: op.lamport, content });
        spans.push(span(op.id.peer, op.id.counter, op.id.counter + len));
    }
    spans.sort_by_key(|s| (s.peer, s.counter.start));
    c.apply_tracked_effects_from(&vv(&[]), &spans);
    value(&c)
}

#[test]
fn concurrent_insert() {
    let base = ins((9, 0), 0, &[], 0, "ac");
    let b = ins((1, 0), 2, &[(9, 2)], 1, "b");
    let x = ins((2, 0), 2, &[(9, 2)], 1, "X");
    assert_eq!(replay(&[&base, &b, &x]), "aXbc");
    assert_eq!(replay(&[&base, &x, &b]), "aXbc");
}

#[test]
fn later_insert_goes_first_among_siblings() {
    let base = ins((9, 0), 0, &[], 0, "ac");
    let x = ins((3, 0), 2, &[(9, 2)], 1, "X");
    let y = ins((1, 0), 3, &[(9, 2), (3, 1)], 1, "Y");
    let w = ins((2, 0), 2, &[(9, 2)], 1, "W");
    let expect = "aYXWc";
    assert_eq!(replay(&[&base, &x, &y, &w]), expect);
    assert_eq!(replay(&[&base, &w, &x, &y]), expect);
    assert_eq!(replay(&[&base, &x, &w, &y]), expect);
}

#[test]
fn runs_of_typing_stay_together() {
    let base = ins((9, 0), 0, &[], 0, "[]");
    let a = ins((1, 0), 2, &[(9, 2)], 1, "abc");
    let b = ins((2, 0), 2, &[(9, 2)], 1, "xyz");
    let a2 = ins((1, 3), 5, &[(9, 2), (1, 3)], 2, "-");
    for order in [[&base, &a, &b, &a2], [&base, &b, &a, &a2], [&base, &a, &a2, &b]] {
        assert_eq!(replay(&order), "[xyza-bc]");
    }
}

#[test]
fn three_concurrent_inserts_in_every_order() {
    let base = ins((9, 0), 0, &[], 0, "<>");
    let a = ins((1, 0), 2, &[(9, 2)], 1, "aa");
    let b = ins((2, 0), 3, &[(9, 2)], 1, "b");
    let c = ins((3, 0), 2, &[(9, 2)], 1, "ccc");
    let expect = "<bcccaa>";
    for order in [
        [&base, &a, &b, &c],
        [&base, &a, &c, &b],
        [&base, &b, &a, &c],
        [&base, &b, &c, &a],
        [&base, &c, &a, &b],
        [&base, &c, &b, &a],
    ] {
        assert_eq!(replay(&order), expect);
    }
}

#[test]
fn concurrent_deletes_commute() {
    let base = ins((9, 0), 0, &[], 0, "abcdef");
    let d1 = del((1, 0), 6, &[(9, 6)], 1, 3);
    let d2 = del((2, 0), 6, &[(9, 6)], 2, 3);
    let i3 = ins((3, 0), 6, &[(9, 6)], 3, "!");
    for order in [
        [&base, &d1, &d2, &i3],
        [&base, &d2, &d1, &i3],
        [&base, &i3, &d2, &d1],
        [&base, &d1, &i3, &d2],
    ] {
        assert_eq!(replay(&order), "a!f");
    }
}

#[test]
fn delete_after_insert_of_same_peer() {
    let base = ins((9, 0), 0, &[], 0, "hello");
    let d = del((9, 5), 5, &[(9, 5)], 1, 3);
    let i = ins((1, 0), 5, &[(9, 5)], 5, "!");
    assert_eq!(replay(&[&base, &d, &i]), "ho!");
    assert_eq!(replay(&[&base, &i, &d]), "ho!");
}

#[test]
fn effects_are_made_where_they_fit() {
    let mut store = LogStore::new(1);
    let mut c = TextContainer::new(cid());
    c.insert(&mut store, 0, "abcdef");
    let fitting = vec![
        Effect::Del { pos: 1, len: 2 },
        Effect::Ins { pos: 4, content: ListSlice::Slice(SliceRange { start: 0, end: 2 }) },
    ];
    assert!(c.effects_fit_text(&fitting));
    c.apply_effects(&fitting);
    assert_eq!(value(&c), "adefab");
    // a deletion that reaches beyond the text does not fit
    assert!(!c.effects_fit_text(&vec![Effect::Del { pos: 5, len: 2 }]));
    // and neither does what follows an insertion at a place that is not there
    assert!(!c.effects_fit_text(&vec![
        Effect::Del { pos: 0, len: 6 },
        Effect::Ins { pos: 1, content: ListSlice::Unknown(1) },
    ]));
    assert!(c.effects_fit_text(&vec![
        Effect::Del { pos: 0, len: 6 },
        Effect::Ins { pos: 0, content: ListSlice::Unknown(1) },
    ]));
    assert!(c.effects_fit_text(&vec![]));
}

#[test]
fn track_apply_of_known_and_partly_known_ops() {
    let mut c = TextContainer::new(cid());
    let whole = import_insert(&mut c, "abcd", 0);
    let head = whole.slice(0, 2);
    c.tracker_checkout(&vv(&[]));
    c.track_apply(&RichOp { id: ID::new(1, 0), lamport: 0, content: head });
    // the first two atoms are known: only the rest is taken in
    c.track_apply(&RichOp { id: ID::new(1, 0), lamport: 0, content: whole.duplicate() });
    // all atoms are known: nothing is taken in
    c.tracker_checkout(&vv(&[]));
    c.track_apply(&RichOp { id: ID::new(1, 0), lamport: 0, content: whole });
    c.tracker_checkout(&vv(&[]));
    c.apply_tracked_effects_from(&vv(&[]), &vec![span(1, 0, 4)]);
    assert_eq!(value(&c), "abcd");
}

#[test]
fn effects_are_applied_from_a_later_version() {
    let mut c = TextContainer::new(cid());
    let a = import_insert(&mut c, "ab", 0);
    let b = import_insert(&mut c, "XY", 1);
    c.tracker_checkout(&vv(&[]));
    c.track_apply(&RichOp { id: ID::new(1, 0), lamport: 0, content: a });
    c.apply_tracked_effects_from(&vv(&[]), &vec![span(1, 0, 2)]);
    assert_eq!(value(&c), "ab");
    c.tracker_checkout(&vv(&[(1, 2)]));
    c.track_apply(&RichOp { id: ID::new(2, 0), lamport: 2, content: b });
    c.track_retreat(&vec![span(2, 0, 2)]);
    c.track_forward(&vec![span(2, 0, 1)]);
    c.apply_tracked_effects_from(&vv(&[(1, 2)]), &vec![span(2, 0, 2)]);
    assert_eq!(value(&c), "aXYb");
}

#[test]
fn checkout_outside_the_known_range_builds_a_new_tracker() {
    let mut c = TextContainer::new(cid());
    let a = import_insert(&mut c, "ab", 0);
    c.tracker_checkout(&vv(&[]));
    c.track_apply(&RichOp { id: ID::new(1, 0), lamport: 0, content: a });
    // the tracker knows nothing of peer 5
    c.tracker_checkout(&vv(&[(1, 2), (5, 3)]));
    let x = import_insert(&mut c, "X", 1);
    c.track_apply(&RichOp { id: ID::new(6, 0), lamport: 9, content: x });
    c.update_state_directly(&RichOp {
        id: ID::new(0, 0),
        lamport: 0,
        content: ListOp::Insert { slice: ListSlice::Slice(SliceRange { start: 0, end: 2 }), pos: 0 },
    });
    assert_eq!(value(&c), "ab");
}

fn shown(t: &mut Tracker, at: &VersionVector, spans: &Vec<IdSpan>) -> Vec<Effect> {
    t.checkout(at);
    t.iter_effects(spans)
}

#[test]
fn tracker_effects() {
    let mut t = Tracker::new(VersionVector::new(), 0);
    assert!(t.check());
    t.apply(
        ID::new(1, 0),
        0,
        &ListOp::Insert { slice: ListSlice::Slice(SliceRange { start: 0, end: 5 }), pos: 0 },
    );
    t.apply(ID::new(1, 5), 5, &ListOp::Delete(DeleteSpan::new(1, 3)));
    assert_eq!(t.all_vv().get(&1), Some(8));
    assert!(t.start_vv().is_empty());
    let effects = shown(&mut t, &vv(&[]), &vec![span(1, 0, 8)]);
    let told: Vec<String> = effects.iter().map(|e| format!("{:?}", e)).collect();
    assert_eq!(
        told,
        vec![
            "Ins { pos: 0, content: Slice(SliceRange { start: 0, end: 1 }) }",
            "Ins { pos: 1, content: Slice(SliceRange { start: 1, end: 4 }) }",
            "Ins { pos: 4, content: Slice(SliceRange { start: 4, end: 5 }) }",
            "Del { pos: 1, len: 3 }",
        ]
    );
    // going back over the deletion shows the text again
    let mut back = vec![];
    t.retreat(&vec![span(1, 5, 8)]);
    t.forward(&vec![span(1, 5, 6)]);
    back.extend(t.iter_effects(&vec![span(1, 6, 8)]));
    let told: Vec<String> = back.iter().map(|e| format!("{:?}", e)).collect();
    assert_eq!(told, vec!["Del { pos: 1, len: 2 }"]);
    assert!(t.check());
}

/// The changes, place by place: what goes in and where, or where a
/// character goes.
fn place_by_place(effects: &Vec<Effect>) -> Vec<(bool, usize, Option<u32>)> {
    let mut list = vec![];
    for e in effects {
        match e {
            Effect::Ins { pos, content } => match content {
                ListSlice::Slice(r) => {
                    for i in 0..(r.end - r.start) {
                        list.push((true, pos + i as usize, Some(r.start + i)));
                    }
                }
                ListSlice::Unknown(n) => {
                    for i in 0..*n {
                        list.push((true, pos + i, None));
                    }
                }
                other => panic!("unexpected {:?}", other),
            },
            Effect::Del { pos, len } => {
                for _ in 0..*len {
                    list.push((false, *pos, None));
                }
            }
        }
    }
    list
}

#[test]
fn the_changes_are_the_same_however_the_runs_are_cut() {
    let text = ListOp::Insert { slice: ListSlice::Slice(SliceRange { start: 0, end: 4 }), pos: 0 };
    let other = ListOp::Insert { slice: ListSlice::Slice(SliceRange { start: 4, end: 5 }), pos: 2 };
    let gone = ListOp::Delete(DeleteSpan::new(1, 2));
    // the one tracker takes the first operation in as a whole
    let mut whole = Tracker::new(VersionVector::new(), 0);
    whole.apply(ID::new(1, 0), 0, &text);
    whole.apply(ID::new(2, 0), 4, &other);
    whole.apply(ID::new(1, 4), 5, &gone);
    // the other moves about in between, which cuts its runs otherwise
    let mut cut = Tracker::new(VersionVector::new(), 0);
    cut.apply(ID::new(1, 0), 0, &text);
    cut.checkout(&vv(&[(1, 2)]));
    cut.checkout(&vv(&[(1, 3)]));
    cut.checkout(&vv(&[(1, 4)]));
    cut.apply(ID::new(2, 0), 4, &other);
    cut.apply(ID::new(1, 4), 5, &gone);
    let spans = vec![span(1, 0, 6), span(2, 0, 1)];
    let a = shown(&mut whole, &vv(&[]), &spans);
    let b = shown(&mut cut, &vv(&[]), &spans);
    assert_eq!(place_by_place(&a), place_by_place(&b));
    assert_eq!(
        place_by_place(&a),
        vec![
            (true, 0, Some(0)),
            (true, 1, Some(1)),
            (true, 2, Some(2)),
            (true, 3, Some(3)),
            (false, 1, None),
        ]
    );
    // the character of the other peer was deleted before it came to be held
    let spans = vec![span(2, 0, 1), span(1, 0, 6)];
    let a = shown(&mut whole, &vv(&[]), &spans);
    let b = shown(&mut cut, &vv(&[]), &spans);
    assert_eq!(place_by_place(&a), place_by_place(&b));
    assert_eq!(
        place_by_place(&a),
        vec![
            (true, 0, Some(4)),
            (true, 0, Some(0)),
            (true, 1, Some(1)),
            (true, 3, Some(2)),
            (true, 4, Some(3)),
            (false, 1, None),
            (false, 1, None),
        ]
    );
}

#[test]
fn tracker_starts_with_unknown_text() {
    let mut t = Tracker::new(vv(&[(1, 4)]), 10);
    t.apply(
        ID::new(2, 0),
        7,
        &ListOp::Insert { slice: ListSlice::Slice(SliceRange { start: 0, end: 2 }), pos: 3 },
    );
    t.apply(ID::new(2, 2), 9, &ListOp::Delete(DeleteSpan::new(2, 4)));
    let effects = shown(&mut t, &vv(&[(1, 4)]), &vec![span(2, 0, 6)]);
    let told: Vec<String> = effects.iter().map(|e| format!("{:?}", e)).collect();
    assert_eq!(
        told,
        vec![
            "Ins { pos: 3, content: Slice(SliceRange { start: 0, end: 2 }) }",
            "Del { pos: 2, len: 1 }",
            "Del { pos: 2, len: 2 }",
            "Del { pos: 2, len: 1 }",
        ]
    );
    assert_eq!(t.all_vv().get(&2), Some(6));
    assert_eq!(t.start_vv().get(&1), Some(4));
}

#[test]
fn inner_op_lengths() {
    let mut store = LogStore::new(1);
    let mut c = TextContainer::new(cid());
    c.insert(&mut store, 0, "abc");
    let idx = store.get_or_create_container_idx(&cid());
    assert_eq!(idx.to_index(), 0);
    let op = loro_text::op::Op {
        counter: 4,
        container: idx,
        content: InnerContent::List(InnerListOp::Delete(DeleteSpan::new(0, 3))),
    };
    assert_eq!((op.atom_len(), op.ctr_last()), (3, 6));
    store.append_local_ops(vec![op]);
    assert_eq!(store.next_id(), ID::new(1, 6));
}
