use filter::frame::FrameDecoder;
use filter::route::{encode_id, route_events, Event};
use filter::tree::{Customer, TreeNode};

fn frame(payload: &[u8]) -> Vec<u8> {
    let mut out = (payload.len() as u32).to_be_bytes().to_vec();
    out.extend_from_slice(payload);
    out
}

fn decode(payload: &[u8]) -> Option<Event> {
    let v: serde_json::Value = serde_json::from_slice(payload).ok()?;
    Some(Event {
        id: i32::try_from(v.get("id")?.as_i64()?).ok()?,
        date: i32::try_from(v.get("date")?.as_i64()?).ok()?,
        event_type: v.get("type")?.as_str()?.to_string(),
    })
}

fn sample_tree() -> TreeNode {
    let mut tree = TreeNode::with_threshold(1, 100, 2);
    tree.insert(Customer { id: 1, start: 1, end: 50 });
    tree.insert(Customer { id: 2, start: 51, end: 100 });
    tree.insert(Customer { id: 3, start: 1, end: 100 });
    tree
}

#[test]
fn malformed_payload_between_two_valid_ones() {
    let mut s = Vec::new();
    s.extend(frame(b"{\"id\":10,\"date\":25,\"type\":\"x\"}"));
    s.extend(frame(b"{not json"));
    s.extend(frame(b"{\"id\":11,\"date\":75,\"type\":\"y\"}"));
    let mut d = FrameDecoder::new();
    let payloads = d.feed(&s);
    assert_eq!(payloads.len(), 3);
    let events: Vec<Option<Event>> = payloads.iter().map(|p| decode(p)).collect();
    assert!(events[1].is_none());
    assert_eq!(events[0].as_ref().map(|e| e.id), Some(10));
    assert_eq!(events[2].as_ref().map(|e| e.id), Some(11));
    let routed = route_events(&sample_tree(), &events);
    assert_eq!(routed.ids, vec![3, 1, 3, 2]);
    assert_eq!(routed.handled, 2);
    assert_eq!(routed.malformed, 1);
}

#[test]
fn dropping_the_malformed_payload_changes_nothing_else() {
    let tree = sample_tree();
    let ev = |date: i32| Some(Event { id: 0, date, event_type: String::from("t") });
    let with_bad = vec![ev(25), None, ev(75)];
    let without = vec![ev(25), ev(75)];
    let a = route_events(&tree, &with_bad);
    let b = route_events(&tree, &without);
    assert_eq!(a.ids, b.ids);
    assert_eq!(a.handled, b.handled);
    assert_eq!(a.malformed, b.malformed + 1);
}

#[test]
fn no_events_route_nothing() {
    let routed = route_events(&sample_tree(), &Vec::new());
    assert!(routed.ids.is_empty());
    assert_eq!(routed.handled, 0);
    assert_eq!(routed.malformed, 0);
}

#[test]
fn ids_are_sent_big_endian() {
    assert_eq!(encode_id(1), [0, 0, 0, 1]);
    assert_eq!(encode_id(0x0102_0304), [1, 2, 3, 4]);
    assert_eq!(encode_id(-1), [255, 255, 255, 255]);
    assert_eq!(encode_id(i32::MIN), [128, 0, 0, 0]);
    for id in [0, 7, 65_535, 1_000_000, i32::MAX] {
        assert_eq!(encode_id(id), (id as u32).to_be_bytes());
    }
}

#[test]
fn encoded_ids_concatenate_into_whole_words() {
    let ids = [5, 300, 70_000];
    let mut wire = Vec::new();
    for id in ids {
        wire.extend_from_slice(&encode_id(id));
    }
    assert_eq!(wire.len(), 12);
    let back: Vec<i32> = wire
        .chunks(4)
        .map(|w| u32::from_be_bytes([w[0], w[1], w[2], w[3]]) as i32)
        .collect();
    assert_eq!(back, ids.to_vec());
}
