use maelstrom_gossip_glommers::datomic::{decode_op, decode_ops, Node, Op};
use maelstrom_gossip_glommers::error::ProtocolError;
use maelstrom_gossip_glommers::json::Json;
use maelstrom_gossip_glommers::message::create_node;

fn st(s: &str) -> Json {
    Json::Str(s.to_string())
}

fn ob(list: Vec<(&str, Json)>) -> Json {
    Json::Object(list.into_iter().map(|(k, v)| (k.to_string(), v)).collect())
}

fn op(function: &str, key: i128, value: Json) -> Json {
    Json::Array(vec![st(function), Json::Int(key), value])
}

fn txn(msg_id: i128, ops: Vec<Json>) -> Json {
    ob(vec![
        ("src", st("c1")),
        ("dest", st("n1")),
        ("body", ob(vec![("type", st("txn")), ("msg_id", Json::Int(msg_id)), ("txn", Json::Array(ops))])),
    ])
}

fn txn_node() -> Node {
    let init = ob(vec![
        ("src", st("c0")),
        ("dest", st("n1")),
        (
            "body",
            ob(vec![
                ("type", st("init")),
                ("msg_id", Json::Int(1)),
                ("node_id", st("n1")),
                ("node_ids", Json::Array(vec![st("n1")])),
            ]),
        ),
    ]);
    Node::new(create_node(&init).unwrap().0)
}

#[test]
fn transaction_reads_and_appends_in_order() {
    let mut node = txn_node();
    let request = txn(
        5,
        vec![
            op("r", 9, Json::Null),
            op("append", 9, Json::Int(1)),
            op("append", 9, Json::Int(2)),
            op("r", 9, Json::Null),
            op("r", 8, Json::Null),
        ],
    );
    let answer = node.handle(&request).unwrap();
    assert_eq!(
        answer,
        ob(vec![
            ("src", st("n1")),
            ("dest", st("c1")),
            (
                "body",
                ob(vec![
                    ("msg_id", Json::Int(1)),
                    ("type", st("txn_ok")),
                    ("in_reply_to", Json::Int(5)),
                    (
                        "txn",
                        Json::Array(vec![
                            op("r", 9, Json::Null),
                            op("append", 9, Json::Int(1)),
                            op("append", 9, Json::Int(2)),
                            op("r", 9, Json::Array(vec![Json::Int(1), Json::Int(2)])),
                            op("r", 8, Json::Null),
                        ])
                    ),
                ])
            ),
        ])
    );
    assert_eq!(node.list(9), Some(&vec![1, 2]));
    assert_eq!(node.list(8), None);
}

#[test]
fn lists_last_across_transactions() {
    let mut node = txn_node();
    node.handle(&txn(5, vec![op("append", -3, Json::Int(7))])).unwrap();
    let answer = node.handle(&txn(6, vec![op("append", -3, Json::Int(8)), op("r", -3, st("any"))])).unwrap();
    let reports = answer.get("body").unwrap().get("txn").unwrap().as_array().unwrap();
    assert_eq!(reports[1], op("r", -3, Json::Array(vec![Json::Int(7), Json::Int(8)])));
}

#[test]
fn malformed_transaction_changes_nothing() {
    let mut node = txn_node();
    node.handle(&txn(5, vec![op("append", 1, Json::Int(7))])).unwrap();
    let bad = txn(6, vec![op("append", 1, Json::Int(8)), op("delete", 1, Json::Null)]);
    assert_eq!(node.handle(&bad), Err(ProtocolError::Malformed));
    assert_eq!(node.list(1), Some(&vec![7]));
    let text_value = txn(6, vec![op("append", 1, st("8"))]);
    assert_eq!(node.handle(&text_value), Err(ProtocolError::Malformed));
    let short = txn(6, vec![Json::Array(vec![st("r"), Json::Int(1)])]);
    assert_eq!(node.handle(&short), Err(ProtocolError::Malformed));
    let not_list = ob(vec![
        ("src", st("c1")),
        ("dest", st("n1")),
        ("body", ob(vec![("type", st("txn")), ("msg_id", Json::Int(1)), ("txn", Json::Int(3))])),
    ]);
    assert_eq!(node.handle(&not_list), Err(ProtocolError::Malformed));
    assert_eq!(node.list(1), Some(&vec![7]));
}

#[test]
fn transaction_node_refuses_other_types() {
    let mut node = txn_node();
    let init = ob(vec![("body", ob(vec![("type", st("init"))]))]);
    assert_eq!(node.handle(&init), Err(ProtocolError::AlreadyInitialized));
    let read = ob(vec![("body", ob(vec![("type", st("read"))]))]);
    assert_eq!(node.handle(&read), Err(ProtocolError::UnknownType));
}

#[test]
fn operations_are_decoded_by_shape() {
    assert_eq!(decode_op(&op("r", 4, Json::Null)), Some(Op::Read(4)));
    assert_eq!(decode_op(&op("r", 4, st("ignored"))), Some(Op::Read(4)));
    assert_eq!(decode_op(&op("append", 4, Json::Int(-1))), Some(Op::Append(4, -1)));
    assert_eq!(decode_op(&op("append", 4, Json::Null)), None);
    assert_eq!(decode_op(&Json::Array(vec![st("r"), st("4"), Json::Null])), None);
    assert_eq!(decode_op(&Json::Array(vec![Json::Int(1), Json::Int(4), Json::Null])), None);
    assert_eq!(decode_op(&Json::Array(vec![st("r"), Json::Int(4), Json::Null, Json::Null])), None);
    assert_eq!(decode_op(&Json::Null), None);
    assert_eq!(decode_ops(&Json::Array(vec![])), Some(vec![]));
    assert_eq!(decode_ops(&Json::Null), None);
}
