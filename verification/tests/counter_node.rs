use maelstrom_gossip_glommers::error::ProtocolError;
use maelstrom_gossip_glommers::gcounter::{GCounter, Node};
use maelstrom_gossip_glommers::json::Json;
use maelstrom_gossip_glommers::message::create_node;

fn word(s: &str) -> Json {
    Json::Str(s.to_string())
}

fn record(members: Vec<(&str, Json)>) -> Json {
    Json::Object(members.into_iter().map(|(k, v)| (k.to_string(), v)).collect())
}

fn envelope(src: &str, dest: &str, body: Vec<(&str, Json)>) -> Json {
    record(vec![("src", word(src)), ("dest", word(dest)), ("body", record(body))])
}

fn counter_node(id: &str, cluster: Vec<&str>) -> Node {
    let init = envelope(
        "c0",
        id,
        vec![
            ("type", word("init")),
            ("msg_id", Json::Int(1)),
            ("node_id", word(id)),
            ("node_ids", Json::Array(cluster.into_iter().map(word).collect())),
        ],
    );
    let (inner, _) = create_node(&init).unwrap();
    Node::new(inner)
}

fn add(delta: i128, msg_id: i128) -> Json {
    envelope(
        "c1",
        "n1",
        vec![("type", word("add")), ("msg_id", Json::Int(msg_id)), ("delta", Json::Int(delta))],
    )
}

fn read(msg_id: i128) -> Json {
    envelope("c1", "n1", vec![("type", word("read")), ("msg_id", Json::Int(msg_id))])
}

fn replicate(from: &str, counts: Vec<(&str, i128)>) -> Json {
    let value = record(counts.into_iter().map(|(k, n)| (k, Json::Int(n))).collect());
    envelope(from, "n1", vec![("type", word("replicate")), ("msg_id", Json::Int(9)), ("value", value)])
}

fn read_value(node: &mut Node) -> Json {
    let out = node.handle(&read(50)).unwrap();
    assert_eq!(out.len(), 1);
    let body = out[0].get("body").unwrap();
    assert_eq!(body.get("type"), Some(&word("read_ok")));
    body.get("value").unwrap().duplicate()
}

#[test]
fn new_counter_node_counts_zero_for_itself() {
    let mut node = counter_node("n1", vec!["n1", "n2"]);
    assert_eq!(node.count("n1"), Some(0));
    assert_eq!(node.count("n2"), None);
    assert_eq!(read_value(&mut node), Json::Int(0));
}

#[test]
fn adds_are_summed_locally_before_any_gossip() {
    let mut node = counter_node("n1", vec!["n1", "n2"]);
    let out = node.handle(&add(3, 10)).unwrap();
    assert_eq!(
        out,
        vec![envelope(
            "n1",
            "c1",
            vec![("msg_id", Json::Int(1)), ("type", word("add_ok")), ("in_reply_to", Json::Int(10))]
        )]
    );
    node.handle(&add(4, 11)).unwrap();
    assert_eq!(read_value(&mut node), Json::Int(7));
    assert_eq!(node.value(), 7);
    assert_eq!(node.count("n1"), Some(7));
}

#[test]
fn read_reports_the_sum_over_all_nodes() {
    let mut node = counter_node("n1", vec!["n1", "n2", "n3"]);
    node.handle(&add(5, 10)).unwrap();
    node.handle(&replicate("n2", vec![("n2", 10), ("n3", 2)])).unwrap();
    assert_eq!(read_value(&mut node), Json::Int(17));
}

#[test]
fn merge_takes_the_larger_count_per_node() {
    let mut node = counter_node("n1", vec!["n1", "n2", "n3"]);
    node.handle(&replicate("n2", vec![("n2", 10), ("n3", 2)])).unwrap();
    let out = node.handle(&replicate("n3", vec![("n2", 4), ("n3", 6)])).unwrap();
    assert!(out.is_empty());
    assert_eq!(node.count("n2"), Some(10));
    assert_eq!(node.count("n3"), Some(6));
    assert_eq!(node.value(), 16);
}

#[test]
fn merge_never_lowers_a_count() {
    let mut node = counter_node("n1", vec!["n1", "n2"]);
    node.handle(&add(8, 10)).unwrap();
    node.handle(&replicate("n2", vec![("n1", 3), ("n2", 1)])).unwrap();
    assert_eq!(node.count("n1"), Some(8));
    node.handle(&replicate("n2", vec![("n2", 0)])).unwrap();
    assert_eq!(node.count("n2"), Some(1));
}

#[test]
fn repeated_snapshot_changes_nothing() {
    let mut node = counter_node("n1", vec!["n1", "n2"]);
    node.handle(&replicate("n2", vec![("n2", 5)])).unwrap();
    let before = node.value();
    node.handle(&replicate("n2", vec![("n2", 5)])).unwrap();
    node.handle(&replicate("n2", vec![("n2", 5)])).unwrap();
    assert_eq!(node.value(), before);
}

#[test]
fn replicas_converge_whatever_the_order() {
    let snapshots = vec![
        vec![("n2", 5), ("n3", 1)],
        vec![("n3", 7)],
        vec![("n2", 2), ("n4", 9)],
    ];
    let mut first = counter_node("n1", vec!["n1", "n2"]);
    for s in snapshots.iter() {
        first.handle(&replicate("n2", s.clone())).unwrap();
    }
    let mut second = counter_node("n1", vec!["n1", "n2"]);
    for s in snapshots.iter().rev() {
        second.handle(&replicate("n2", s.clone())).unwrap();
        second.handle(&replicate("n2", s.clone())).unwrap();
    }
    assert_eq!(first.value(), 21);
    assert_eq!(second.value(), 21);
    for id in ["n1", "n2", "n3", "n4"] {
        assert_eq!(first.count(id), second.count(id));
    }
}

#[test]
fn gossip_sends_all_counts_to_every_other_node() {
    let mut node = counter_node("n1", vec!["n1", "n2", "n3"]);
    node.handle(&add(3, 10)).unwrap();
    let out = node.send_replication().unwrap();
    let gossip = |dest: &str, id: i128| {
        envelope(
            "n1",
            dest,
            vec![
                ("msg_id", Json::Int(id)),
                ("type", word("replicate")),
                ("value", record(vec![("n1", Json::Int(3))])),
            ],
        )
    };
    assert_eq!(out, vec![gossip("n2", 2), gossip("n3", 3)]);
    assert_eq!(node.inner().peek_id(), 4);
}

#[test]
fn gossip_is_understood_by_a_peer() {
    let mut sender = counter_node("n1", vec!["n1", "n2"]);
    sender.handle(&add(6, 10)).unwrap();
    let out = sender.send_replication().unwrap();
    let mut receiver = counter_node("n2", vec!["n1", "n2"]);
    receiver.handle(&out[0]).unwrap();
    assert_eq!(receiver.count("n1"), Some(6));
    assert_eq!(receiver.value(), 6);
}

#[test]
fn negative_delta_is_refused_and_changes_nothing() {
    let mut node = counter_node("n1", vec!["n1"]);
    node.handle(&add(5, 10)).unwrap();
    assert_eq!(node.handle(&add(-2, 11)), Err(ProtocolError::Malformed));
    assert_eq!(node.handle(&add(-1, 12)), Err(ProtocolError::Malformed));
    assert_eq!(node.value(), 5);
    assert_eq!(node.count("n1"), Some(5));
    assert_eq!(node.inner().peek_id(), 2);
    node.handle(&add(0, 13)).unwrap();
    assert_eq!(node.value(), 5);
}

#[test]
fn own_count_never_falls_whatever_arrives() {
    let mut node = counter_node("n1", vec!["n1", "n2"]);
    let mut last = 0;
    let steps = vec![
        add(3, 10),
        replicate("n2", vec![("n1", 1), ("n2", 4)]),
        add(-7, 11),
        add(2, 12),
        replicate("n2", vec![("n1", 0)]),
        replicate("n2", vec![("n1", -9)]),
    ];
    for step in steps.iter() {
        let _ = node.handle(step);
        let now = node.count("n1").unwrap();
        assert!(now >= last);
        assert!(now >= 0);
        last = now;
    }
    assert_eq!(last, 5);
    assert_eq!(node.count("n2"), Some(4));
}

#[test]
fn snapshot_with_a_count_below_zero_is_refused() {
    let mut node = counter_node("n1", vec!["n1", "n2"]);
    node.handle(&replicate("n2", vec![("n2", 4)])).unwrap();
    let bad = replicate("n2", vec![("n2", 9), ("n3", -1)]);
    assert_eq!(node.handle(&bad), Err(ProtocolError::Malformed));
    assert_eq!(node.count("n2"), Some(4));
    assert_eq!(node.count("n3"), None);
    assert!(GCounter::from_json(&record(vec![("n1", Json::Int(-1))])).is_none());
}

#[test]
fn add_beyond_sixty_four_bits_is_refused() {
    let mut node = counter_node("n1", vec!["n1"]);
    node.handle(&add(i64::MAX as i128, 10)).unwrap();
    assert_eq!(node.handle(&add(1, 11)), Err(ProtocolError::CounterOverflow));
    assert_eq!(node.count("n1"), Some(i64::MAX));
    assert_eq!(node.inner().peek_id(), 2);
}

#[test]
fn sum_may_exceed_sixty_four_bits() {
    let mut node = counter_node("n1", vec!["n1", "n2"]);
    node.handle(&add(i64::MAX as i128, 10)).unwrap();
    node.handle(&replicate("n2", vec![("n2", i64::MAX as i128)])).unwrap();
    assert_eq!(node.value(), 2 * (i64::MAX as i128));
}

#[test]
fn malformed_counter_messages_are_refused() {
    let mut node = counter_node("n1", vec!["n1", "n2"]);
    let no_delta = envelope("c1", "n1", vec![("type", word("add")), ("msg_id", Json::Int(1))]);
    assert_eq!(node.handle(&no_delta), Err(ProtocolError::Malformed));
    let too_large = add(i64::MAX as i128 + 1, 2);
    assert_eq!(node.handle(&too_large), Err(ProtocolError::Malformed));
    let fraction = envelope(
        "c1",
        "n1",
        vec![("type", word("add")), ("msg_id", Json::Int(1)), ("delta", Json::Real("2.0".to_string()))],
    );
    assert_eq!(node.handle(&fraction), Err(ProtocolError::Malformed));
    let bad_snapshot = envelope(
        "n2",
        "n1",
        vec![
            ("type", word("replicate")),
            ("msg_id", Json::Int(1)),
            ("value", record(vec![("n2", word("many"))])),
        ],
    );
    assert_eq!(node.handle(&bad_snapshot), Err(ProtocolError::Malformed));
    let list_snapshot = envelope(
        "n2",
        "n1",
        vec![("type", word("replicate")), ("msg_id", Json::Int(1)), ("value", Json::Array(vec![]))],
    );
    assert_eq!(node.handle(&list_snapshot), Err(ProtocolError::Malformed));
    assert_eq!(node.value(), 0);
    let init = envelope("c1", "n1", vec![("type", word("init")), ("msg_id", Json::Int(1))]);
    assert_eq!(node.handle(&init), Err(ProtocolError::AlreadyInitialized));
    let odd = envelope("c1", "n1", vec![("type", word("broadcast")), ("msg_id", Json::Int(1))]);
    assert_eq!(node.handle(&odd), Err(ProtocolError::UnknownType));
}

#[test]
fn counter_merge_laws_on_values() {
    let mut a = GCounter::new();
    assert!(a.add("x", 3));
    assert!(a.add("y", 9));
    let mut b = GCounter::new();
    assert!(b.add("y", 4));
    assert!(b.add("z", 1));
    let mut ab = GCounter::new();
    ab.merge(&a);
    ab.merge(&b);
    let mut ba = GCounter::new();
    ba.merge(&b);
    ba.merge(&a);
    ba.merge(&a);
    for id in ["x", "y", "z", "w"] {
        assert_eq!(ab.get(id), ba.get(id));
    }
    assert_eq!(ab.get("x"), Some(3));
    assert_eq!(ab.get("y"), Some(9));
    assert_eq!(ab.get("z"), Some(1));
    assert_eq!(ab.value(), 13);
}

#[test]
fn counter_add_and_json_round_trip() {
    let mut c = GCounter::new();
    assert!(c.add("n1", 5));
    assert!(c.add("n1", 6));
    assert!(!c.add("n1", i64::MAX));
    assert_eq!(c.get("n1"), Some(11));
    assert!(!c.add("n2", -1));
    assert_eq!(c.get("n2"), None);
    assert!(c.add("n2", 1));
    let j = c.to_json();
    assert_eq!(j, record(vec![("n1", Json::Int(11)), ("n2", Json::Int(1))]));
    let back = GCounter::from_json(&j).unwrap();
    assert_eq!(back.get("n1"), Some(11));
    assert_eq!(back.get("n2"), Some(1));
    assert_eq!(back.value(), 12);
    assert!(GCounter::from_json(&Json::Null).is_none());
}

#[test]
fn counter_from_json_takes_the_last_of_repeated_members() {
    let j = record(vec![("n1", Json::Int(4)), ("n2", word("x")), ("n2", Json::Int(2)), ("n1", Json::Int(1))]);
    let c = GCounter::from_json(&j).unwrap();
    assert_eq!(c.get("n1"), Some(1));
    assert_eq!(c.get("n2"), Some(2));
}
