use maelstrom_gossip_glommers::flood::{create_node, Node};
use maelstrom_gossip_glommers::error::ProtocolError;
use maelstrom_gossip_glommers::json::Json;

fn text(s: &str) -> Json {
    Json::Str(s.to_string())
}

fn object(members: Vec<(&str, Json)>) -> Json {
    Json::Object(members.into_iter().map(|(k, v)| (k.to_string(), v)).collect())
}

fn request(src: &str, dest: &str, body: Vec<(&str, Json)>) -> Json {
    object(vec![("src", text(src)), ("dest", text(dest)), ("body", object(body))])
}

fn init(node: &str) -> Json {
    request(
        "c0",
        node,
        vec![
            ("type", text("init")),
            ("msg_id", Json::Int(1)),
            ("node_id", text(node)),
            ("node_ids", Json::Array(vec![text("A"), text("B"), text("C")])),
        ],
    )
}

fn topology(node: &str, neighbors: Vec<&str>) -> Json {
    let list = Json::Array(neighbors.into_iter().map(text).collect());
    request(
        "c0",
        node,
        vec![
            ("type", text("topology")),
            ("msg_id", Json::Int(2)),
            ("topology", object(vec![("Z", Json::Array(vec![])), (node, list)])),
        ],
    )
}

fn broadcast(src: &str, dest: &str, msg_id: i128, value: i128) -> Json {
    request(
        src,
        dest,
        vec![("type", text("broadcast")), ("msg_id", Json::Int(msg_id)), ("message", Json::Int(value))],
    )
}

fn ack(src: &str, dest: &str, in_reply_to: i128) -> Json {
    request(
        src,
        dest,
        vec![
            ("type", text("broadcast_ok")),
            ("msg_id", Json::Int(77)),
            ("in_reply_to", Json::Int(in_reply_to)),
        ],
    )
}

fn node_with_neighbors(id: &str, neighbors: Vec<&str>) -> Node {
    let (mut node, _) = create_node(&init(id)).unwrap();
    node.handle(&topology(id, neighbors)).unwrap();
    node
}

#[test]
fn init_is_answered_with_init_ok() {
    let (node, reply) = create_node(&init("A")).unwrap();
    assert_eq!(node.node_id(), "A");
    assert_eq!(node.next_id(), 1);
    assert_eq!(
        reply,
        request(
            "A",
            "c0",
            vec![("msg_id", Json::Int(0)), ("type", text("init_ok")), ("in_reply_to", Json::Int(1))]
        )
    );
}

#[test]
fn topology_assigns_own_neighbors() {
    let (mut node, _) = create_node(&init("A")).unwrap();
    let out = node.handle(&topology("A", vec!["B", "C"])).unwrap();
    assert_eq!(node.neighbors(), &vec!["B".to_string(), "C".to_string()]);
    assert_eq!(
        out,
        vec![request(
            "A",
            "c0",
            vec![
                ("msg_id", Json::Int(1)),
                ("type", text("topology_ok")),
                ("in_reply_to", Json::Int(2))
            ]
        )]
    );
}

#[test]
fn second_topology_overwrites_the_first() {
    let mut node = node_with_neighbors("A", vec!["B", "C"]);
    node.handle(&topology("A", vec!["D"])).unwrap();
    assert_eq!(node.neighbors(), &vec!["D".to_string()]);
}

#[test]
fn broadcast_from_client_is_acknowledged_and_forwarded() {
    let mut node = node_with_neighbors("A", vec!["B"]);
    let out = node.handle(&broadcast("c1", "A", 10, 5)).unwrap();
    let forward = request(
        "A",
        "B",
        vec![("msg_id", Json::Int(3)), ("type", text("broadcast")), ("message", Json::Int(5))],
    );
    assert_eq!(
        out,
        vec![
            request(
                "A",
                "c1",
                vec![
                    ("msg_id", Json::Int(2)),
                    ("type", text("broadcast_ok")),
                    ("in_reply_to", Json::Int(10))
                ]
            ),
            forward,
        ]
    );
    assert!(node.has_seen(5));
    assert_eq!(node.awaiting_count(), 1);
    assert_eq!(node.awaiting(3), Some(&out[1]));
}

#[test]
fn broadcast_is_not_forwarded_to_its_sender() {
    let mut node = node_with_neighbors("A", vec!["B", "C", "D"]);
    let out = node.handle(&broadcast("C", "A", 4, 9)).unwrap();
    assert_eq!(out.len(), 3);
    assert_eq!(out[1].get("dest"), Some(&text("B")));
    assert_eq!(out[2].get("dest"), Some(&text("D")));
    assert_eq!(node.awaiting_count(), 2);
}

#[test]
fn redelivered_value_is_acknowledged_only() {
    let mut node = node_with_neighbors("A", vec!["B", "C"]);
    node.handle(&broadcast("c1", "A", 10, 5)).unwrap();
    let waiting = node.awaiting_count();
    let out = node.handle(&broadcast("c2", "A", 11, 5)).unwrap();
    assert_eq!(out.len(), 1);
    assert_eq!(node.awaiting_count(), waiting);
    assert_eq!(node.seen_count(), 1);
    let out = node.handle(&broadcast("B", "A", 12, 5)).unwrap();
    assert_eq!(out.len(), 1);
    assert_eq!(node.seen_count(), 1);
}

#[test]
fn acknowledgement_removes_exactly_its_forward() {
    let mut node = node_with_neighbors("A", vec!["B", "C"]);
    node.handle(&broadcast("c1", "A", 10, 5)).unwrap();
    assert!(node.awaiting(3).is_some());
    assert!(node.awaiting(4).is_some());
    let out = node.handle(&ack("B", "A", 3)).unwrap();
    assert!(out.is_empty());
    assert!(node.awaiting(3).is_none());
    assert!(node.awaiting(4).is_some());
}

#[test]
fn duplicate_acknowledgement_is_harmless() {
    let mut node = node_with_neighbors("A", vec!["B"]);
    node.handle(&broadcast("c1", "A", 10, 5)).unwrap();
    node.handle(&ack("B", "A", 3)).unwrap();
    let out = node.handle(&ack("B", "A", 3)).unwrap();
    assert!(out.is_empty());
    assert_eq!(node.awaiting_count(), 0);
    assert!(node.handle(&ack("B", "A", 999)).unwrap().is_empty());
}

#[test]
fn retry_resends_unacknowledged_forwards_unchanged() {
    let mut node = node_with_neighbors("A", vec!["B", "C"]);
    let out = node.handle(&broadcast("c1", "A", 10, 5)).unwrap();
    let mut resent = node.retry_messages();
    assert_eq!(resent.len(), 2);
    resent.sort_by_key(|m| m.get("body").unwrap().get("msg_id").unwrap().as_u64());
    assert_eq!(resent[0], out[1]);
    assert_eq!(resent[1], out[2]);
    node.handle(&ack("B", "A", 3)).unwrap();
    let resent = node.retry_messages();
    assert_eq!(resent, vec![request(
        "A",
        "C",
        vec![("msg_id", Json::Int(4)), ("type", text("broadcast")), ("message", Json::Int(5))],
    )]);
    assert_eq!(node.next_id(), 5);
}

#[test]
fn read_lists_every_seen_value_once() {
    let mut node = node_with_neighbors("A", vec![]);
    node.handle(&broadcast("c1", "A", 10, 5)).unwrap();
    node.handle(&broadcast("c1", "A", 11, 7)).unwrap();
    node.handle(&broadcast("c1", "A", 12, 5)).unwrap();
    let read = request("c1", "A", vec![("type", text("read")), ("msg_id", Json::Int(13))]);
    let out = node.handle(&read).unwrap();
    assert_eq!(out.len(), 1);
    let body = out[0].get("body").unwrap();
    assert_eq!(body.get("type"), Some(&text("read_ok")));
    assert_eq!(body.get("in_reply_to"), Some(&Json::Int(13)));
    let mut values: Vec<u64> =
        body.get("messages").unwrap().as_array().unwrap().iter().map(|v| v.as_u64().unwrap()).collect();
    values.sort();
    assert_eq!(values, vec![5, 7]);
}

#[test]
fn init_in_steady_state_is_refused() {
    let mut node = node_with_neighbors("A", vec!["B"]);
    assert_eq!(node.handle(&init("A")), Err(ProtocolError::AlreadyInitialized));
}

#[test]
fn unknown_type_is_refused() {
    let mut node = node_with_neighbors("A", vec!["B"]);
    let odd = request("c1", "A", vec![("type", text("gossip")), ("msg_id", Json::Int(1))]);
    assert_eq!(node.handle(&odd), Err(ProtocolError::UnknownType));
}

#[test]
fn malformed_broadcast_is_refused_and_changes_nothing() {
    let mut node = node_with_neighbors("A", vec!["B"]);
    let no_value = request("c1", "A", vec![("type", text("broadcast")), ("msg_id", Json::Int(1))]);
    assert_eq!(node.handle(&no_value), Err(ProtocolError::Malformed));
    let negative = broadcast("c1", "A", 1, -4);
    assert_eq!(node.handle(&negative), Err(ProtocolError::Malformed));
    let text_value = request(
        "c1",
        "A",
        vec![("type", text("broadcast")), ("msg_id", Json::Int(1)), ("message", text("5"))],
    );
    assert_eq!(node.handle(&text_value), Err(ProtocolError::Malformed));
    assert_eq!(node.next_id(), 2);
    assert_eq!(node.seen_count(), 0);
    assert_eq!(node.awaiting_count(), 0);
}

#[test]
fn message_without_type_is_malformed() {
    let mut node = node_with_neighbors("A", vec!["B"]);
    let bare = request("c1", "A", vec![("msg_id", Json::Int(1))]);
    assert_eq!(node.handle(&bare), Err(ProtocolError::Malformed));
    assert_eq!(node.handle(&Json::Null), Err(ProtocolError::Malformed));
}

#[test]
fn first_message_must_be_init() {
    let first = broadcast("c1", "A", 1, 5);
    assert!(matches!(create_node(&first), Err(ProtocolError::Uninitialized)));
}

#[test]
fn node_without_id_cannot_respond() {
    let mut node = Node::new(&text("")).unwrap();
    let read = request("c1", "A", vec![("type", text("read")), ("msg_id", Json::Int(13))]);
    assert_eq!(node.handle(&read), Err(ProtocolError::Uninitialized));
    assert!(matches!(Node::new(&Json::Int(3)), Err(ProtocolError::Malformed)));
}
