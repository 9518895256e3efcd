use maelstrom_gossip_glommers::flood;
use maelstrom_gossip_glommers::error::ProtocolError;
use maelstrom_gossip_glommers::json::Json;
use maelstrom_gossip_glommers::text::{await_request, parse, render};

fn string(s: &str) -> Json {
    Json::Str(s.to_string())
}

fn members(list: Vec<(&str, Json)>) -> Json {
    Json::Object(list.into_iter().map(|(k, v)| (k.to_string(), v)).collect())
}

#[test]
fn parse_reads_every_kind_of_document() {
    assert_eq!(parse("null"), Ok(Json::Null));
    assert_eq!(parse("true"), Ok(Json::Bool(true)));
    assert_eq!(parse("false"), Ok(Json::Bool(false)));
    assert_eq!(parse("17"), Ok(Json::Int(17)));
    assert_eq!(parse("-17"), Ok(Json::Int(-17)));
    assert_eq!(parse("18446744073709551615"), Ok(Json::Int(u64::MAX as i128)));
    assert_eq!(parse("-9223372036854775808"), Ok(Json::Int(i64::MIN as i128)));
    assert_eq!(parse("\"a\\nb\""), Ok(string("a\nb")));
    assert_eq!(parse("[1, [2, []], \"x\"]"), Ok(Json::Array(vec![
        Json::Int(1),
        Json::Array(vec![Json::Int(2), Json::Array(vec![])]),
        string("x"),
    ])));
    assert_eq!(
        parse(" {\"b\": {\"c\": null}, \"a\": 1} \n"),
        Ok(members(vec![("a", Json::Int(1)), ("b", members(vec![("c", Json::Null)]))]))
    );
}

#[test]
fn parse_takes_the_last_of_repeated_names() {
    assert_eq!(parse("{\"a\": 1, \"a\": 2}"), Ok(members(vec![("a", Json::Int(2))])));
}

#[test]
fn parse_refuses_what_is_not_json() {
    assert_eq!(parse(""), Err(ProtocolError::Malformed));
    assert_eq!(parse("{"), Err(ProtocolError::Malformed));
    assert_eq!(parse("{\"a\": }"), Err(ProtocolError::Malformed));
    assert_eq!(parse("[1, 2"), Err(ProtocolError::Malformed));
    assert_eq!(parse("nul"), Err(ProtocolError::Malformed));
    assert_eq!(parse("1 2"), Err(ProtocolError::Malformed));
}

#[test]
fn parse_holds_other_numbers_as_their_text() {
    assert_eq!(parse("1.5"), Ok(Json::Real("1.5".to_string())));
    assert_eq!(parse("-0.25"), Ok(Json::Real("-0.25".to_string())));
    assert_eq!(parse("1e3"), Ok(Json::Real("1000.0".to_string())));
    assert_eq!(parse("18446744073709551616"), Ok(Json::Real("1.8446744073709552e+19".to_string())));
    assert_eq!(
        parse("{\"body\": {\"delta\": 2.0}}"),
        Ok(members(vec![("body", members(vec![("delta", Json::Real("2.0".to_string()))]))]))
    );
    assert_eq!(Json::Real("2.0".to_string()).as_i64(), None);
    assert_eq!(Json::Real("2.0".to_string()).as_u64(), None);
}

#[test]
fn other_numbers_are_written_as_they_were_read() {
    let doc = parse("{\"echo\": [1.5, -2.5e-3, 3], \"x\": 1e300}").unwrap();
    let text = render(&doc).unwrap();
    assert_eq!(text, "{\"echo\":[1.5,-0.0025,3],\"x\":1e+300}");
    assert_eq!(parse(&text), Ok(doc));
}

#[test]
fn a_number_text_that_is_none_has_no_rendering() {
    assert_eq!(render(&Json::Real("1.5".to_string())), Some("1.5".to_string()));
    assert_eq!(render(&Json::Real("abc".to_string())), None);
    assert_eq!(render(&Json::Real("".to_string())), None);
    assert_eq!(render(&Json::Real("1.50".to_string())), None);
    assert_eq!(render(&Json::Real("7".to_string())), None);
    assert_eq!(render(&Json::Real("\"1.5\"".to_string())), None);
    assert_eq!(render(&Json::Array(vec![Json::Int(1), Json::Real("x".to_string())])), None);
}

#[test]
fn render_writes_every_kind_of_document() {
    assert_eq!(render(&Json::Null), Some("null".to_string()));
    assert_eq!(render(&Json::Bool(true)), Some("true".to_string()));
    assert_eq!(render(&Json::Int(-3)), Some("-3".to_string()));
    assert_eq!(render(&Json::Int(u64::MAX as i128)), Some("18446744073709551615".to_string()));
    assert_eq!(render(&string("a\"b")), Some("\"a\\\"b\"".to_string()));
    assert_eq!(
        render(&Json::Array(vec![Json::Int(1), string("x"), Json::Array(vec![])])),
        Some("[1,\"x\",[]]".to_string())
    );
    assert_eq!(
        render(&members(vec![("src", string("n1")), ("body", members(vec![("msg_id", Json::Int(0))]))])),
        Some("{\"body\":{\"msg_id\":0},\"src\":\"n1\"}".to_string())
    );
}

#[test]
fn render_writes_the_last_of_repeated_names() {
    let doc = members(vec![("a", Json::Int(1)), ("b", Json::Int(5)), ("a", Json::Int(2))]);
    assert_eq!(render(&doc), Some("{\"a\":2,\"b\":5}".to_string()));
}

#[test]
fn render_has_no_text_for_numbers_beyond_64_bits() {
    assert_eq!(render(&Json::Int(u64::MAX as i128 + 1)), None);
    assert_eq!(render(&Json::Int(i64::MIN as i128 - 1)), None);
    assert_eq!(render(&Json::Array(vec![Json::Int(1), Json::Int(i128::MAX)])), None);
    assert_eq!(render(&members(vec![("a", members(vec![("b", Json::Int(i128::MIN))]))])), None);
}

#[test]
fn render_then_parse_gives_the_document_back() {
    let doc = members(vec![
        ("body", members(vec![
            ("in_reply_to", Json::Int(4)),
            ("messages", Json::Array(vec![Json::Int(1), Json::Int(2)])),
            ("type", string("read_ok")),
        ])),
        ("dest", string("c1")),
        ("src", string("n1")),
    ]);
    let text = render(&doc).unwrap();
    assert_eq!(parse(&text), Ok(doc));
}

#[test]
fn deep_nesting_is_refused() {
    let shallow = format!("{}{}", "[".repeat(100), "]".repeat(100));
    assert!(parse(&shallow).is_ok());
    let deep = format!("{}{}", "[".repeat(200), "]".repeat(200));
    assert_eq!(parse(&deep), Err(ProtocolError::Malformed));
}

#[test]
fn request_must_be_an_object() {
    assert!(await_request("{\"src\":\"c1\",\"dest\":\"n1\",\"body\":{}}\n").is_ok());
    assert_eq!(await_request("[1,2]\n"), Err(ProtocolError::Malformed));
    assert_eq!(await_request("7"), Err(ProtocolError::Malformed));
    assert_eq!(await_request("not json"), Err(ProtocolError::Malformed));
}

#[test]
fn lines_in_lines_out() {
    let init = await_request(
        "{\"src\":\"c0\",\"dest\":\"A\",\"body\":{\"type\":\"init\",\"msg_id\":1,\"node_id\":\"A\",\"node_ids\":[\"A\",\"B\"]}}\n",
    )
    .unwrap();
    let (mut node, reply) = flood::create_node(&init).unwrap();
    assert_eq!(
        render(&reply).unwrap(),
        "{\"body\":{\"in_reply_to\":1,\"msg_id\":0,\"type\":\"init_ok\"},\"dest\":\"c0\",\"src\":\"A\"}"
    );
    let topology = await_request(
        "{\"src\":\"c0\",\"dest\":\"A\",\"body\":{\"type\":\"topology\",\"msg_id\":2,\"topology\":{\"A\":[\"B\"],\"B\":[\"A\"]}}}\n",
    )
    .unwrap();
    node.handle(&topology).unwrap();
    let request = await_request(
        "{\"src\":\"c1\",\"dest\":\"A\",\"body\":{\"type\":\"broadcast\",\"msg_id\":3,\"message\":5}}\n",
    )
    .unwrap();
    let out: Vec<String> = node.handle(&request).unwrap().iter().map(|m| render(m).unwrap()).collect();
    assert_eq!(
        out,
        vec![
            "{\"body\":{\"in_reply_to\":3,\"msg_id\":2,\"type\":\"broadcast_ok\"},\"dest\":\"c1\",\"src\":\"A\"}"
                .to_string(),
            "{\"body\":{\"message\":5,\"msg_id\":3,\"type\":\"broadcast\"},\"dest\":\"B\",\"src\":\"A\"}"
                .to_string(),
        ]
    );
    let resent: Vec<String> = node.retry_messages().iter().map(|m| render(m).unwrap()).collect();
    assert_eq!(resent, vec![out[1].clone()]);
}
