use crate::json::{as_str_spec, field, Json, JsonView};
use crate::message::{body_field, get_body_field, push_member};
use vstd::prelude::*;

verus! {

/// Member `name` of `v`, or `null` where there is none.
pub open spec fn field_or_null(v: JsonView, name: Seq<char>) -> JsonView {
    match field(v, name) {
        Some(inner) => inner,
        None => JsonView::Null,
    }
}

/// Member `name` of the body of `msg`, or `null` where there is none.
pub open spec fn body_field_or_null(msg: JsonView, name: Seq<char>) -> JsonView {
    match body_field(msg, name) {
        Some(inner) => inner,
        None => JsonView::Null,
    }
}

/// The body of an answer of the echo node: its id and the id it answers.
pub open spec fn answer_body(request: JsonView, msg_id: i32) -> Map<Seq<char>, JsonView> {
    map![
        "msg_id"@ => JsonView::Int(msg_id as int),
        "in_reply_to"@ => body_field_or_null(request, "msg_id"@),
    ]
}

/// An answer of the echo node: sender and receiver are taken from the
/// request and swapped, whatever they are.
pub open spec fn answer_view(request: JsonView, body: Map<Seq<char>, JsonView>) -> JsonView {
    JsonView::Object(
        map![
            "src"@ => field_or_null(request, "dest"@),
            "dest"@ => field_or_null(request, "src"@),
            "body"@ => JsonView::Object(body),
        ],
    )
}

/// The answer to `init`.
pub open spec fn init_ok_view(request: JsonView, msg_id: i32) -> JsonView {
    answer_view(request, answer_body(request, msg_id).insert("type"@, JsonView::Str("init_ok"@)))
}

/// The answer to `echo`: it carries what the request asked to echo.
pub open spec fn echo_ok_view(request: JsonView, msg_id: i32) -> JsonView {
    answer_view(
        request,
        answer_body(request, msg_id).insert("type"@, JsonView::Str("echo_ok"@)).insert(
            "echo"@,
            body_field_or_null(request, "echo"@),
        ),
    )
}

/// Whether the type of `msg` is the text `tag`.
pub open spec fn has_type(msg: JsonView, tag: Seq<char>) -> bool {
    match body_field(msg, "type"@) {
        Some(found) => as_str_spec(found) == Some(tag),
        None => false,
    }
}

/// What the echo node answers to `request` with the id `msg_id`: `init_ok`
/// to `init`, `echo_ok` to `echo`, and nothing to anything else.
pub open spec fn answer_to(request: JsonView, msg_id: i32) -> Option<JsonView> {
    if has_type(request, "init"@) {
        Some(init_ok_view(request, msg_id))
    } else if has_type(request, "echo"@) {
        Some(echo_ok_view(request, msg_id))
    } else {
        None
    }
}

/// A copy of member `name` of `v`, or `null` where there is none.
pub fn copy_field(v: &Json, name: &str) -> (copy: Json)
    ensures
        copy@ == field_or_null(v@, name@),
{
    match v.get(name) {
        Some(inner) => inner.duplicate(),
        None => Json::Null,
    }
}

/// A copy of member `name` of the body of `msg`, or `null` where there is none.
pub fn copy_body_field(msg: &Json, name: &str) -> (copy: Json)
    ensures
        copy@ == body_field_or_null(msg@, name@),
{
    match get_body_field(msg, name) {
        Some(inner) => inner.duplicate(),
        None => Json::Null,
    }
}

/// Whether the type of `msg` is the text `tag`.
pub fn is_type(msg: &Json, tag: &str) -> (r: bool)
    ensures
        r == has_type(msg@, tag@),
{
    match get_body_field(msg, "type") {
        Some(found) => match found.as_str() {
            Some(s) => s.to_owned() == tag.to_owned(),
            None => false,
        },
        None => false,
    }
}

/// Builds the answers of the echo node and counts them.
pub struct MessageBuilder {
    msg_id: i32,
}

impl MessageBuilder {
    /// The id the next answer will carry.
    pub closed spec fn next_id(&self) -> i32 {
        self.msg_id
    }

    /// A builder that has answered nothing yet.
    pub fn new() -> (builder: MessageBuilder)
        ensures
            builder.next_id() == 0,
    {
        MessageBuilder { msg_id: 0 }
    }

    /// The id the next answer will carry.
    pub fn peek(&self) -> (id: i32)
        ensures
            id == self.next_id(),
    {
        self.msg_id
    }

    fn build_members(&mut self, request: &Json) -> (body: Vec<(String, Json)>)
        requires
            old(self).next_id() < i32::MAX,
        ensures
            crate::json::members_view(body@) == answer_body(request@, old(self).next_id()),
            final(self).next_id() == old(self).next_id() + 1,
    {
        let msg_id = self.msg_id;
        self.msg_id = msg_id + 1;
        let mut body: Vec<(String, Json)> = Vec::new();
        push_member(&mut body, "msg_id", Json::Int(msg_id as i128));
        push_member(&mut body, "in_reply_to", copy_body_field(request, "msg_id"));
        body
    }

    fn seal(request: &Json, body: Vec<(String, Json)>) -> (answer: Json)
        ensures
            answer@ == answer_view(request@, crate::json::members_view(body@)),
    {
        let mut members: Vec<(String, Json)> = Vec::new();
        push_member(&mut members, "src", copy_field(request, "dest"));
        push_member(&mut members, "dest", copy_field(request, "src"));
        push_member(&mut members, "body", Json::Object(body));
        Json::Object(members)
    }

    /// Builds an answer without a type: sender and receiver swapped, a fresh
    /// id, and the id of the request.
    pub fn build_response(&mut self, request: &Json) -> (answer: Json)
        requires
            old(self).next_id() < i32::MAX,
        ensures
            answer@ == answer_view(request@, answer_body(request@, old(self).next_id())),
            final(self).next_id() == old(self).next_id() + 1,
    {
        let body = self.build_members(request);
        Self::seal(request, body)
    }

    /// Builds the answer to `init`.
    pub fn build_init_ok(&mut self, request: &Json) -> (answer: Json)
        requires
            old(self).next_id() < i32::MAX,
        ensures
            answer@ == init_ok_view(request@, old(self).next_id()),
            final(self).next_id() == old(self).next_id() + 1,
    {
        let mut body = self.build_members(request);
        push_member(&mut body, "type", Json::text("init_ok"));
        Self::seal(request, body)
    }

    /// Builds the answer to `echo`.
    pub fn build_echo_ok(&mut self, request: &Json) -> (answer: Json)
        requires
            old(self).next_id() < i32::MAX,
        ensures
            answer@ == echo_ok_view(request@, old(self).next_id()),
            final(self).next_id() == old(self).next_id() + 1,
    {
        let mut body = self.build_members(request);
        push_member(&mut body, "type", Json::text("echo_ok"));
        push_member(&mut body, "echo", copy_body_field(request, "echo"));
        Self::seal(request, body)
    }

    /// Answers one message: `init` and `echo` get their answer, anything
    /// else gets none and uses up no id.
    pub fn answer(&mut self, request: &Json) -> (r: Option<Json>)
        requires
            old(self).next_id() < i32::MAX,
        ensures
            match r {
                Some(answer) => Some(answer@) == answer_to(request@, old(self).next_id())
                    && final(self).next_id() == old(self).next_id() + 1,
                None => answer_to(request@, old(self).next_id()) is None && final(self).next_id()
                    == old(self).next_id(),
            },
    {
        if is_type(request, "init") {
            Some(self.build_init_ok(request))
        } else if is_type(request, "echo") {
            Some(self.build_echo_ok(request))
        } else {
            None
        }
    }
}

} // verus!
