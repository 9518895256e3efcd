use maelstrom_gossip_glommers::echo::MessageBuilder;
use maelstrom_gossip_glommers::json::Json;

fn txt(s: &str) -> Json {
    Json::Str(s.to_string())
}

fn doc(list: Vec<(&str, Json)>) -> Json {
    Json::Object(list.into_iter().map(|(k, v)| (k.to_string(), v)).collect())
}

fn echo(payload: Json) -> Json {
    doc(vec![
        ("src", txt("c1")),
        ("dest", txt("n1")),
        ("body", doc(vec![("type", txt("echo")), ("msg_id", Json::Int(7)), ("echo", payload)])),
    ])
}

#[test]
fn echo_builder_starts_at_zero() {
    assert_eq!(MessageBuilder::new().peek(), 0);
}

#[test]
fn echo_is_answered_with_its_payload() {
    let mut builder = MessageBuilder::new();
    let payload = doc(vec![("deep", Json::Array(vec![Json::Int(1), Json::Null]))]);
    let answer = builder.answer(&echo(payload.duplicate())).unwrap();
    assert_eq!(
        answer,
        doc(vec![
            ("src", txt("n1")),
            ("dest", txt("c1")),
            (
                "body",
                doc(vec![
                    ("msg_id", Json::Int(0)),
                    ("in_reply_to", Json::Int(7)),
                    ("type", txt("echo_ok")),
                    ("echo", payload),
                ])
            ),
        ])
    );
    assert_eq!(builder.peek(), 1);
}

#[test]
fn echo_init_is_answered_with_init_ok() {
    let mut builder = MessageBuilder::new();
    let init = doc(vec![
        ("src", txt("c0")),
        ("dest", txt("n1")),
        ("body", doc(vec![("type", txt("init")), ("msg_id", Json::Int(1)), ("node_id", txt("n1"))])),
    ]);
    let answer = builder.answer(&init).unwrap();
    let body = answer.get("body").unwrap();
    assert_eq!(body.get("type"), Some(&txt("init_ok")));
    assert_eq!(body.get("in_reply_to"), Some(&Json::Int(1)));
    assert_eq!(body.get("echo"), None);
    let second = builder.answer(&echo(txt("x"))).unwrap();
    assert_eq!(second.get("body").unwrap().get("msg_id"), Some(&Json::Int(1)));
}

#[test]
fn echo_hands_back_numbers_that_are_no_integers() {
    let mut builder = MessageBuilder::new();
    let payload = Json::Array(vec![Json::Real("1.5".to_string()), Json::Int(2)]);
    let answer = builder.answer(&echo(payload.duplicate())).unwrap();
    assert_eq!(answer.get("body").unwrap().get("echo"), Some(&payload));
}

#[test]
fn echo_ignores_other_types() {
    let mut builder = MessageBuilder::new();
    let other = doc(vec![("src", txt("c1")), ("body", doc(vec![("type", txt("read"))]))]);
    assert_eq!(builder.answer(&other), None);
    assert_eq!(builder.answer(&Json::Null), None);
    assert_eq!(builder.peek(), 0);
}

#[test]
fn echo_answers_with_null_for_what_is_missing() {
    let mut builder = MessageBuilder::new();
    let bare = doc(vec![("body", doc(vec![("type", txt("echo"))]))]);
    let answer = builder.answer(&bare).unwrap();
    assert_eq!(answer.get("src"), Some(&Json::Null));
    assert_eq!(answer.get("dest"), Some(&Json::Null));
    let body = answer.get("body").unwrap();
    assert_eq!(body.get("in_reply_to"), Some(&Json::Null));
    assert_eq!(body.get("echo"), Some(&Json::Null));
    let untyped = builder.build_response(&bare);
    assert_eq!(untyped.get("body").unwrap().get("type"), None);
    assert_eq!(untyped.get("body").unwrap().get("msg_id"), Some(&Json::Int(1)));
}
