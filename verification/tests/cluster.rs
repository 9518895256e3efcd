use maelstrom_gossip_glommers::flood::{create_node, Node};
use maelstrom_gossip_glommers::gcounter::GCounter;
use maelstrom_gossip_glommers::json::Json;

fn name(s: &str) -> Json {
    Json::Str(s.to_string())
}

fn fields(list: Vec<(&str, Json)>) -> Json {
    Json::Object(list.into_iter().map(|(k, v)| (k.to_string(), v)).collect())
}

fn wire(src: &str, dest: &str, body: Vec<(&str, Json)>) -> Json {
    fields(vec![("src", name(src)), ("dest", name(dest)), ("body", fields(body))])
}

fn member(id: &str, neighbors: &[&str]) -> Node {
    let init = wire(
        "c0",
        id,
        vec![("type", name("init")), ("msg_id", Json::Int(1)), ("node_id", name(id))],
    );
    let (mut node, _) = create_node(&init).unwrap();
    let list = Json::Array(neighbors.iter().map(|n| name(n)).collect());
    let topology = wire(
        "c0",
        id,
        vec![("type", name("topology")), ("msg_id", Json::Int(2)), ("topology", fields(vec![(id, list)]))],
    );
    node.handle(&topology).unwrap();
    node
}

fn dest_of(message: &Json) -> String {
    message.get("dest").unwrap().as_str().unwrap().to_string()
}

fn place(ids: &[&str], id: &str) -> Option<usize> {
    ids.iter().position(|n| *n == id)
}

/// Hands every message in `mail` that is for a node to that node, and
/// whatever the nodes answer after it, until nothing is left. Every third
/// message is lost on the way.
fn run(ids: &[&str], nodes: &mut Vec<Node>, mut mail: Vec<Json>, lossy: bool) {
    let mut count = 0;
    while let Some(message) = mail.pop() {
        count += 1;
        if lossy && count % 3 == 0 {
            continue;
        }
        if let Some(i) = place(ids, &dest_of(&message)) {
            let out = nodes[i].handle(&message).unwrap();
            mail.extend(out);
        }
    }
}

#[test]
fn cluster_converges_once_every_forward_is_acknowledged() {
    let ids = ["A", "B", "C", "D"];
    let mut nodes = vec![
        member("A", &["B"]),
        member("B", &["A", "C"]),
        member("C", &["B", "D"]),
        member("D", &["C"]),
    ];
    let requests = vec![
        wire("c1", "A", vec![("type", name("broadcast")), ("msg_id", Json::Int(10)), ("message", Json::Int(5))]),
        wire("c2", "D", vec![("type", name("broadcast")), ("msg_id", Json::Int(11)), ("message", Json::Int(6))]),
        wire("c3", "B", vec![("type", name("broadcast")), ("msg_id", Json::Int(12)), ("message", Json::Int(5))]),
    ];
    run(&ids, &mut nodes, requests, true);
    let mut rounds = 0;
    while nodes.iter().any(|n| n.awaiting_count() > 0) {
        rounds += 1;
        assert!(rounds < 100);
        let retries: Vec<Json> = nodes.iter().flat_map(|n| n.retry_messages()).collect();
        run(&ids, &mut nodes, retries, rounds % 2 == 0);
    }
    for node in nodes.iter() {
        assert!(node.has_seen(5));
        assert!(node.has_seen(6));
        assert_eq!(node.seen_count(), 2);
    }
}

#[test]
fn lost_forward_stays_pending_until_acknowledged() {
    let mut a = member("A", &["B"]);
    let mut b = member("B", &["A"]);
    let request =
        wire("c1", "A", vec![("type", name("broadcast")), ("msg_id", Json::Int(10)), ("message", Json::Int(9))]);
    let out = a.handle(&request).unwrap();
    assert_eq!(out.len(), 2);
    assert_eq!(a.awaiting_count(), 1);
    assert!(!b.has_seen(9));
    let again = a.retry_messages();
    assert_eq!(again, vec![out[1].duplicate()]);
    let answer = b.handle(&again[0]).unwrap();
    assert_eq!(answer.len(), 1);
    assert!(b.has_seen(9));
    assert_eq!(b.awaiting_count(), 0);
    a.handle(&answer[0]).unwrap();
    assert_eq!(a.awaiting_count(), 0);
    assert!(a.retry_messages().is_empty());
}

#[test]
fn addition_and_merge_commute_for_honest_snapshots() {
    let mut theirs = GCounter::new();
    assert!(theirs.add("n1", 2));
    assert!(theirs.add("n2", 7));
    let mut first = GCounter::new();
    assert!(first.add("n1", 3));
    let mut second = GCounter::new();
    assert!(second.add("n1", 3));
    assert!(first.add("n1", 4));
    first.merge(&theirs);
    second.merge(&theirs);
    assert!(second.add("n1", 4));
    assert_eq!(first.get("n1"), Some(7));
    assert_eq!(second.get("n1"), Some(7));
    assert_eq!(first.value(), second.value());
    assert_eq!(first.value(), 14);
}

#[test]
fn snapshot_that_claims_more_than_the_node_counted_breaks_the_order() {
    let mut theirs = GCounter::new();
    assert!(theirs.add("n1", 5));
    let mut first = GCounter::new();
    assert!(first.add("n1", 0));
    let mut second = GCounter::new();
    assert!(second.add("n1", 0));
    assert!(first.add("n1", 1));
    first.merge(&theirs);
    second.merge(&theirs);
    assert!(second.add("n1", 1));
    assert_eq!(first.get("n1"), Some(5));
    assert_eq!(second.get("n1"), Some(6));
}
