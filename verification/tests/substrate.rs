use maelstrom_gossip_glommers::error::ProtocolError;
use maelstrom_gossip_glommers::json::Json;
use maelstrom_gossip_glommers::message::{
    create_node, set_body_field, take_field, MessageBuilder, Node,
};

fn t(text: &str) -> Json {
    Json::Str(text.to_string())
}

fn o(members: Vec<(&str, Json)>) -> Json {
    Json::Object(members.into_iter().map(|(k, v)| (k.to_string(), v)).collect())
}

fn ids(list: Vec<&str>) -> Json {
    Json::Array(list.into_iter().map(t).collect())
}

fn echo_request() -> Json {
    o(vec![
        ("src", t("c3")),
        ("dest", t("n1")),
        ("body", o(vec![("type", t("echo")), ("msg_id", Json::Int(41)), ("echo", t("hi"))])),
    ])
}

#[test]
fn builder_starts_at_zero() {
    let builder = MessageBuilder::new();
    assert_eq!(builder.peek(), 0);
    assert_eq!(builder.room(), u64::MAX);
}

#[test]
fn message_has_fresh_id_and_type_only() {
    let mut builder = MessageBuilder::new();
    let m = builder.build_message("a", "b", "ping");
    assert_eq!(
        m,
        o(vec![
            ("src", t("a")),
            ("dest", t("b")),
            ("body", o(vec![("msg_id", Json::Int(0)), ("type", t("ping"))]))
        ])
    );
    assert_eq!(builder.peek(), 1);
}

#[test]
fn ids_grow_strictly() {
    let mut node = Node::new(&t("n1"), &ids(vec!["n1", "n2"])).unwrap();
    let mut last: Option<u64> = None;
    for round in 0..20 {
        let m = if round % 2 == 0 {
            node.build_message("n1", "n2", "x")
        } else {
            node.build_response(&echo_request(), "y").unwrap()
        };
        let id = m.get("body").unwrap().get("msg_id").unwrap().as_u64().unwrap();
        if let Some(previous) = last {
            assert!(id > previous);
        }
        last = Some(id);
    }
    assert_eq!(node.peek_id(), 20);
    let mut builder = MessageBuilder::new();
    assert_eq!(builder.allocate_id(), 0);
    assert_eq!(builder.allocate_id(), 1);
    assert_eq!(builder.allocate_id(), 2);
}

#[test]
fn response_swaps_sender_and_receiver() {
    let mut node = Node::new(&t("n1"), &ids(vec!["n1"])).unwrap();
    let r = node.build_response(&echo_request(), "echo_ok").unwrap();
    assert_eq!(
        r,
        o(vec![
            ("src", t("n1")),
            ("dest", t("c3")),
            (
                "body",
                o(vec![
                    ("msg_id", Json::Int(0)),
                    ("type", t("echo_ok")),
                    ("in_reply_to", Json::Int(41))
                ])
            )
        ])
    );
}

#[test]
fn response_before_initialization_is_refused() {
    let mut node = Node::new(&t(""), &ids(vec![])).unwrap();
    assert_eq!(node.build_response(&echo_request(), "echo_ok"), Err(ProtocolError::Uninitialized));
    assert_eq!(node.peek_id(), 0);
}

#[test]
fn response_to_malformed_request_is_refused() {
    let mut node = Node::new(&t("n1"), &ids(vec!["n1"])).unwrap();
    let no_src = o(vec![("dest", t("n1")), ("body", o(vec![("msg_id", Json::Int(1))]))]);
    assert_eq!(node.build_response(&no_src, "x"), Err(ProtocolError::Malformed));
    let no_body = o(vec![("src", t("c")), ("dest", t("n1"))]);
    assert_eq!(node.build_response(&no_body, "x"), Err(ProtocolError::Malformed));
    let no_id = o(vec![("src", t("c")), ("dest", t("n1")), ("body", o(vec![]))]);
    assert_eq!(node.build_response(&no_id, "x"), Err(ProtocolError::Malformed));
    let text_id = o(vec![("src", t("c")), ("dest", t("n1")), ("body", o(vec![("msg_id", t("1"))]))]);
    assert_eq!(node.build_response(&text_id, "x"), Err(ProtocolError::Malformed));
    let number_src =
        o(vec![("src", Json::Int(1)), ("dest", t("n1")), ("body", o(vec![("msg_id", Json::Int(1))]))]);
    assert_eq!(node.build_response(&number_src, "x"), Err(ProtocolError::Malformed));
    assert_eq!(node.peek_id(), 0);
}

#[test]
fn node_keeps_each_peer_once() {
    let node = Node::new(&t("n1"), &ids(vec!["n1", "n2", "n1", "n3", "n2"])).unwrap();
    assert_eq!(node.node_id, "n1");
    assert_eq!(node.node_ids, vec!["n1".to_string(), "n2".to_string(), "n3".to_string()]);
}

#[test]
fn node_from_wrong_shapes_is_refused() {
    assert!(matches!(Node::new(&Json::Int(1), &ids(vec![])), Err(ProtocolError::Malformed)));
    assert!(matches!(Node::new(&t("n1"), &t("n2")), Err(ProtocolError::Malformed)));
    let mixed = Json::Array(vec![t("n1"), Json::Null]);
    assert!(matches!(Node::new(&t("n1"), &mixed), Err(ProtocolError::Malformed)));
}

#[test]
fn handshake_makes_node_and_init_ok() {
    let init = o(vec![
        ("src", t("c0")),
        ("dest", t("n2")),
        (
            "body",
            o(vec![
                ("type", t("init")),
                ("msg_id", Json::Int(1)),
                ("node_id", t("n2")),
                ("node_ids", ids(vec!["n1", "n2"])),
            ]),
        ),
    ]);
    let (node, reply) = create_node(&init).unwrap();
    assert_eq!(node.node_id, "n2");
    assert_eq!(node.node_ids, vec!["n1".to_string(), "n2".to_string()]);
    assert_eq!(node.peek_id(), 1);
    assert_eq!(reply.get("src"), Some(&t("n2")));
    assert_eq!(reply.get("dest"), Some(&t("c0")));
    let body = reply.get("body").unwrap();
    assert_eq!(body.get("type"), Some(&t("init_ok")));
    assert_eq!(body.get("in_reply_to"), Some(&Json::Int(1)));
    assert_eq!(body.get("msg_id"), Some(&Json::Int(0)));
}

#[test]
fn handshake_refuses_other_first_messages() {
    assert!(matches!(create_node(&echo_request()), Err(ProtocolError::Uninitialized)));
    assert!(matches!(create_node(&Json::Array(vec![])), Err(ProtocolError::Malformed)));
    let no_ids = o(vec![
        ("src", t("c0")),
        ("dest", t("n2")),
        ("body", o(vec![("type", t("init")), ("msg_id", Json::Int(1)), ("node_id", t("n2"))])),
    ]);
    assert!(matches!(create_node(&no_ids), Err(ProtocolError::Malformed)));
}

#[test]
fn take_field_moves_the_member_out() {
    let mut request = echo_request();
    let mut body = take_field(&mut request, "body").unwrap();
    assert_eq!(request, o(vec![("src", t("c3")), ("dest", t("n1"))]));
    assert_eq!(take_field(&mut body, "echo"), Ok(t("hi")));
    assert_eq!(body.get("echo"), None);
    assert_eq!(take_field(&mut body, "echo"), Err(ProtocolError::Malformed));
    assert_eq!(body, o(vec![("type", t("echo")), ("msg_id", Json::Int(41))]));
    let mut not_object = Json::Int(3);
    assert_eq!(take_field(&mut not_object, "x"), Err(ProtocolError::Malformed));
    assert_eq!(not_object, Json::Int(3));
}

#[test]
fn take_field_removes_every_repeat_and_hands_out_the_last() {
    let mut j = o(vec![("a", Json::Int(1)), ("b", Json::Int(2)), ("a", Json::Int(3))]);
    assert_eq!(j.get("a"), Some(&Json::Int(3)));
    assert_eq!(take_field(&mut j, "a"), Ok(Json::Int(3)));
    assert_eq!(j, o(vec![("b", Json::Int(2))]));
}

#[test]
fn body_field_is_attached_after_building() {
    let mut builder = MessageBuilder::new();
    let mut m = builder.build_message("a", "b", "broadcast");
    assert!(set_body_field(&mut m, "message", Json::Int(5)));
    assert_eq!(
        m,
        o(vec![
            ("src", t("a")),
            ("dest", t("b")),
            (
                "body",
                o(vec![("msg_id", Json::Int(0)), ("type", t("broadcast")), ("message", Json::Int(5))])
            )
        ])
    );
    let mut bare = o(vec![("src", t("a"))]);
    assert!(!set_body_field(&mut bare, "x", Json::Null));
    assert_eq!(bare, o(vec![("src", t("a"))]));
    let mut odd = o(vec![("body", Json::Int(1))]);
    assert!(!set_body_field(&mut odd, "x", Json::Null));
    assert_eq!(odd.get("body"), Some(&Json::Int(1)));
}

#[test]
fn json_accessors_check_the_shape() {
    assert_eq!(Json::Int(5).as_u64(), Some(5));
    assert_eq!(Json::Int(-5).as_u64(), None);
    assert_eq!(Json::Int(u64::MAX as i128).as_u64(), Some(u64::MAX));
    assert_eq!(Json::Int(u64::MAX as i128 + 1).as_u64(), None);
    assert_eq!(Json::Int(-5).as_i64(), Some(-5));
    assert_eq!(Json::Int(i64::MIN as i128).as_i64(), Some(i64::MIN));
    assert_eq!(Json::Int(i64::MAX as i128 + 1).as_i64(), None);
    assert_eq!(Json::Str("5".to_string()).as_u64(), None);
    assert_eq!(Json::Str("x".to_string()).as_str(), Some("x"));
    assert_eq!(Json::Null.as_str(), None);
    assert_eq!(Json::Bool(true).as_array(), None);
    assert_eq!(Json::from_u64(7), Json::Int(7));
    assert_eq!(Json::from_i64(-7), Json::Int(-7));
    assert_eq!(Json::text("a"), t("a"));
    assert_eq!(Json::object(), Json::Object(vec![]));
    assert_eq!(Json::Array(vec![]).get("a"), None);
}

#[test]
fn json_duplicate_is_deep() {
    let j = o(vec![
        ("list", Json::Array(vec![Json::Int(1), o(vec![("k", Json::Bool(false))]), Json::Null])),
        ("name", t("n")),
    ]);
    assert_eq!(j.duplicate(), j);
    let mut copy = j.duplicate();
    assert!(copy.insert("more", Json::Int(2)));
    assert_eq!(copy.get("more"), Some(&Json::Int(2)));
    assert_eq!(j.get("more"), None);
    let mut number = Json::Int(1);
    assert!(!number.insert("a", Json::Null));
    assert_eq!(number, Json::Int(1));
}

#[test]
fn error_descriptions_differ() {
    let all = [
        ProtocolError::Uninitialized,
        ProtocolError::Malformed,
        ProtocolError::AlreadyInitialized,
        ProtocolError::UnknownType,
        ProtocolError::IdsExhausted,
        ProtocolError::CounterOverflow,
    ];
    for (i, a) in all.iter().enumerate() {
        for (j, b) in all.iter().enumerate() {
            assert_eq!(i == j, a.describe() == b.describe());
        }
    }
}
