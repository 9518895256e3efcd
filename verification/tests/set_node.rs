use maelstrom_gossip_glommers::error::ProtocolError;
use maelstrom_gossip_glommers::gset::Node;
use maelstrom_gossip_glommers::json::Json;
use maelstrom_gossip_glommers::message::create_node;

fn s(text: &str) -> Json {
    Json::Str(text.to_string())
}

fn obj(members: Vec<(&str, Json)>) -> Json {
    Json::Object(members.into_iter().map(|(k, v)| (k.to_string(), v)).collect())
}

fn msg(src: &str, dest: &str, body: Vec<(&str, Json)>) -> Json {
    obj(vec![("src", s(src)), ("dest", s(dest)), ("body", obj(body))])
}

fn numbers(values: Vec<i128>) -> Json {
    Json::Array(values.into_iter().map(Json::Int).collect())
}

fn set_node(id: &str, cluster: Vec<&str>) -> Node {
    let init = msg(
        "c0",
        id,
        vec![
            ("type", s("init")),
            ("msg_id", Json::Int(1)),
            ("node_id", s(id)),
            ("node_ids", Json::Array(cluster.into_iter().map(s).collect())),
        ],
    );
    let (inner, _) = create_node(&init).unwrap();
    Node::new(inner)
}

fn add_element(element: i128) -> Json {
    msg("c1", "n1", vec![("type", s("add")), ("msg_id", Json::Int(20)), ("element", Json::Int(element))])
}

fn replicate_elements(values: Vec<i128>) -> Json {
    msg("n2", "n1", vec![("type", s("replicate")), ("msg_id", Json::Int(3)), ("value", numbers(values))])
}

fn read_elements(node: &mut Node) -> Vec<u64> {
    let read = msg("c1", "n1", vec![("type", s("read")), ("msg_id", Json::Int(30))]);
    let out = node.handle(&read).unwrap();
    assert_eq!(out.len(), 1);
    let body = out[0].get("body").unwrap();
    assert_eq!(body.get("type"), Some(&s("read_ok")));
    assert_eq!(body.get("in_reply_to"), Some(&Json::Int(30)));
    let mut values: Vec<u64> =
        body.get("value").unwrap().as_array().unwrap().iter().map(|v| v.as_u64().unwrap()).collect();
    values.sort();
    values
}

#[test]
fn set_add_is_acknowledged_and_kept() {
    let mut node = set_node("n1", vec!["n1", "n2"]);
    let out = node.handle(&add_element(4)).unwrap();
    assert_eq!(
        out,
        vec![msg(
            "n1",
            "c1",
            vec![("msg_id", Json::Int(1)), ("type", s("add_ok")), ("in_reply_to", Json::Int(20))]
        )]
    );
    assert!(node.contains(4));
    assert_eq!(node.len(), 1);
}

#[test]
fn replicate_merges_by_union() {
    let mut node = set_node("n1", vec!["n1", "n2"]);
    node.handle(&add_element(2)).unwrap();
    node.handle(&add_element(4)).unwrap();
    let out = node.handle(&replicate_elements(vec![1, 2, 3])).unwrap();
    assert!(out.is_empty());
    assert_eq!(read_elements(&mut node), vec![1, 2, 3, 4]);
}

#[test]
fn repeated_set_snapshot_changes_nothing() {
    let mut node = set_node("n1", vec!["n1", "n2"]);
    node.handle(&replicate_elements(vec![1, 2, 3, 3])).unwrap();
    node.handle(&replicate_elements(vec![1, 2, 3])).unwrap();
    node.handle(&replicate_elements(vec![])).unwrap();
    assert_eq!(read_elements(&mut node), vec![1, 2, 3]);
}

#[test]
fn set_replicas_converge_whatever_the_order() {
    let snapshots = vec![vec![1, 5], vec![2], vec![5, 9, 1]];
    let mut first = set_node("n1", vec!["n1", "n2"]);
    for v in snapshots.iter() {
        first.handle(&replicate_elements(v.clone())).unwrap();
    }
    let mut second = set_node("n1", vec!["n1", "n2"]);
    for v in snapshots.iter().rev() {
        second.handle(&replicate_elements(v.clone())).unwrap();
        second.handle(&replicate_elements(v.clone())).unwrap();
    }
    assert_eq!(read_elements(&mut first), vec![1, 2, 5, 9]);
    assert_eq!(read_elements(&mut second), vec![1, 2, 5, 9]);
}

#[test]
fn set_gossip_goes_to_every_other_node() {
    let mut node = set_node("n1", vec!["n1", "n2", "n3", "n2"]);
    node.handle(&add_element(8)).unwrap();
    let out = node.send_replication().unwrap();
    let gossip = |dest: &str, id: i128| {
        msg(
            "n1",
            dest,
            vec![("msg_id", Json::Int(id)), ("type", s("replicate")), ("value", numbers(vec![8]))],
        )
    };
    assert_eq!(out, vec![gossip("n2", 2), gossip("n3", 3)]);
    let mut peer = set_node("n2", vec!["n1", "n2"]);
    peer.handle(&out[0]).unwrap();
    assert!(peer.contains(8));
}

#[test]
fn malformed_set_messages_are_refused() {
    let mut node = set_node("n1", vec!["n1", "n2"]);
    assert_eq!(node.handle(&add_element(-1)), Err(ProtocolError::Malformed));
    let bad = msg(
        "n2",
        "n1",
        vec![("type", s("replicate")), ("msg_id", Json::Int(3)), ("value", Json::Array(vec![s("a")]))],
    );
    assert_eq!(node.handle(&bad), Err(ProtocolError::Malformed));
    let no_value = msg("n2", "n1", vec![("type", s("replicate")), ("msg_id", Json::Int(3))]);
    assert_eq!(node.handle(&no_value), Err(ProtocolError::Malformed));
    assert_eq!(node.len(), 0);
    let odd = msg("c1", "n1", vec![("type", s("topology")), ("msg_id", Json::Int(1))]);
    assert_eq!(node.handle(&odd), Err(ProtocolError::UnknownType));
    let again = msg("c1", "n1", vec![("type", s("init")), ("msg_id", Json::Int(1))]);
    assert_eq!(node.handle(&again), Err(ProtocolError::AlreadyInitialized));
}
