use crate::error::ProtocolError;
use crate::json::{
    as_str_spec, as_u64_spec, field, items_view, lemma_items_view_index,
    lemma_members_view_push, members_view, without_field, Json, JsonView,
};
use std::collections::HashSet;
use vstd::prelude::*;
use vstd::std_specs::iter::IteratorSpec;

verus! {

/// The body every fresh message starts with: its id and its type.
pub open spec fn body_view(msg_id: int, msg_type: Seq<char>) -> Map<Seq<char>, JsonView> {
    map!["msg_id"@ => JsonView::Int(msg_id), "type"@ => JsonView::Str(msg_type)]
}

/// The body of a response: a fresh body that also names the request it answers.
pub open spec fn reply_body_view(msg_id: int, msg_type: Seq<char>, in_reply_to: int) -> Map<
    Seq<char>,
    JsonView,
> {
    body_view(msg_id, msg_type).insert("in_reply_to"@, JsonView::Int(in_reply_to))
}

/// A message on the wire: sender, receiver and body.
pub open spec fn envelope_view(
    src: Seq<char>,
    dest: Seq<char>,
    body: Map<Seq<char>, JsonView>,
) -> JsonView {
    JsonView::Object(
        map![
            "src"@ => JsonView::Str(src),
            "dest"@ => JsonView::Str(dest),
            "body"@ => JsonView::Object(body),
        ],
    )
}

/// A message whose body holds nothing but its id and its type.
pub open spec fn message_view(
    src: Seq<char>,
    dest: Seq<char>,
    msg_id: int,
    msg_type: Seq<char>,
) -> JsonView {
    envelope_view(src, dest, body_view(msg_id, msg_type))
}

/// A response whose body holds its id, its type and the id it answers.
pub open spec fn response_view(
    src: Seq<char>,
    dest: Seq<char>,
    msg_id: int,
    msg_type: Seq<char>,
    in_reply_to: int,
) -> JsonView {
    envelope_view(src, dest, reply_body_view(msg_id, msg_type, in_reply_to))
}

/// The message `msg` with `name` set to `value` in its body. A document
/// without a body object is left alone.
pub open spec fn with_body_field(msg: JsonView, name: Seq<char>, value: JsonView) -> JsonView {
    match (msg, field(msg, "body"@)) {
        (JsonView::Object(outer), Some(JsonView::Object(body))) => JsonView::Object(
            outer.insert("body"@, JsonView::Object(body.insert(name, value))),
        ),
        _ => msg,
    }
}

/// Member `name` of `v` as text.
pub open spec fn text_field(v: JsonView, name: Seq<char>) -> Option<Seq<char>> {
    match field(v, name) {
        Some(inner) => as_str_spec(inner),
        None => None,
    }
}

/// Member `name` of `v` as an unsigned 64-bit integer.
pub open spec fn uint_field(v: JsonView, name: Seq<char>) -> Option<u64> {
    match field(v, name) {
        Some(inner) => as_u64_spec(inner),
        None => None,
    }
}

/// Member `name` of the body of `msg`.
pub open spec fn body_field(msg: JsonView, name: Seq<char>) -> Option<JsonView> {
    match field(msg, "body"@) {
        Some(body) => field(body, name),
        None => None,
    }
}

/// The type tag of a message.
pub open spec fn type_of(msg: JsonView) -> Option<Seq<char>> {
    match body_field(msg, "type"@) {
        Some(tag) => as_str_spec(tag),
        None => None,
    }
}

/// What a response copies from the request it answers.
pub struct Envelope {
    pub src: Seq<char>,
    pub dest: Seq<char>,
    pub msg_id: u64,
}

/// The envelope of a request: `src` and `dest` are text and the body carries
/// an unsigned `msg_id`. `None` for every other document.
pub open spec fn envelope_of(request: JsonView) -> Option<Envelope> {
    match (text_field(request, "src"@), text_field(request, "dest"@), body_field(request, "msg_id"@)) {
        (Some(src), Some(dest), Some(id)) => match as_u64_spec(id) {
            Some(msg_id) => Some(Envelope { src, dest, msg_id }),
            None => None,
        },
        _ => None,
    }
}

/// The texts of a list of strings.
pub open spec fn names(v: Seq<String>) -> Seq<Seq<char>> {
    v.map_values(|s: String| s@)
}

/// The texts of a JSON array of strings; `None` if an element is no string.
pub open spec fn texts_of(items: Seq<JsonView>) -> Option<Seq<Seq<char>>> {
    if forall|i: int| 0 <= i < items.len() ==> #[trigger] items[i] is Str {
        Some(Seq::new(items.len(), |i: int| items[i]->Str_0))
    } else {
        None
    }
}

/// The texts of `v` if it is an array of strings.
pub open spec fn text_list_of(v: JsonView) -> Option<Seq<Seq<char>>> {
    match v {
        JsonView::Array(items) => texts_of(items),
        _ => None,
    }
}

/// `s` with every repeated element dropped; the first occurrence stays.
pub open spec fn dedup(s: Seq<Seq<char>>) -> Seq<Seq<char>>
    decreases s.len(),
{
    if s.len() == 0 {
        s
    } else if dedup(s.drop_last()).contains(s.last()) {
        dedup(s.drop_last())
    } else {
        dedup(s.drop_last()).push(s.last())
    }
}

/// Dropping repeats keeps exactly the elements of the list, each once.
pub proof fn lemma_dedup(s: Seq<Seq<char>>)
    ensures
        dedup(s).no_duplicates(),
        dedup(s).to_set() == s.to_set(),
    decreases s.len(),
{
    if s.len() > 0 {
        let rest = s.drop_last();
        lemma_dedup(rest);
        let d = dedup(rest);
        assert(s =~= rest.push(s.last()));
        assert forall|x: Seq<char>| s.to_set().contains(x) <==> dedup(s).to_set().contains(x) by {
            if s.contains(x) {
                let i = choose|i: int| 0 <= i < s.len() && s[i] == x;
                if i < rest.len() {
                    assert(rest[i] == x);
                    assert(rest.to_set().contains(x));
                    assert(d.contains(x));
                    let j = choose|j: int| 0 <= j < d.len() && d[j] == x;
                    assert(dedup(s)[j] == x);
                } else {
                    if d.contains(s.last()) {
                    } else {
                        assert(dedup(s)[d.len() as int] == x);
                    }
                }
            }
            if dedup(s).contains(x) {
                let j = choose|j: int| 0 <= j < dedup(s).len() && dedup(s)[j] == x;
                if j < d.len() {
                    assert(d[j] == x);
                    assert(d.to_set().contains(x));
                    assert(rest.contains(x));
                    let i = choose|i: int| 0 <= i < rest.len() && rest[i] == x;
                    assert(s[i] == x);
                } else {
                    assert(s[s.len() - 1] == x);
                }
            }
        }
        assert(dedup(s).to_set() =~= s.to_set());
    } else {
        assert(dedup(s).to_set() =~= s.to_set());
    }
}

/// Appends a member to a member list.
pub fn push_member(members: &mut Vec<(String, Json)>, name: &str, value: Json)
    ensures
        members_view(final(members)@) == members_view(old(members)@).insert(name@, value@),
{
    let key = name.to_owned();
    proof {
        lemma_members_view_push(members@, key, value);
    }
    members.push((key, value));
}

/// Puts a body into an envelope.
pub fn seal(src: &str, dest: &str, body: Vec<(String, Json)>) -> (msg: Json)
    ensures
        msg@ == envelope_view(src@, dest@, members_view(body@)),
{
    let mut members: Vec<(String, Json)> = Vec::new();
    push_member(&mut members, "src", Json::text(src));
    push_member(&mut members, "dest", Json::text(dest));
    push_member(&mut members, "body", Json::Object(body));
    Json::Object(members)
}

/// Hands out message ids, each one larger than every id before it.
pub struct MessageBuilder {
    msg_id: u64,
}

impl MessageBuilder {
    /// The id the next message will carry.
    pub closed spec fn next_id(&self) -> u64 {
        self.msg_id
    }

    /// Whether `id` was handed out already.
    pub open spec fn issued(&self, id: u64) -> bool {
        id < self.next_id()
    }

    /// A builder that has handed out no id yet.
    pub fn new() -> (builder: Self)
        ensures
            builder.next_id() == 0,
    {
        Self { msg_id: 0 }
    }

    /// The id the next message will carry.
    pub fn peek(&self) -> (id: u64)
        ensures
            id == self.next_id(),
    {
        self.msg_id
    }

    /// How many ids can still be handed out.
    pub fn room(&self) -> (count: u64)
        ensures
            count == u64::MAX - self.next_id(),
    {
        0xffff_ffff_ffff_ffff - self.msg_id
    }

    /// Takes the next id.
    pub fn allocate_id(&mut self) -> (id: u64)
        requires
            old(self).next_id() < u64::MAX,
        ensures
            id == old(self).next_id(),
            final(self).next_id() == id + 1,
            !old(self).issued(id),
            final(self).issued(id),
            forall|earlier: u64| old(self).issued(earlier) ==> earlier < id && final(self).issued(earlier),
    {
        let id = self.msg_id;
        self.msg_id = id + 1;
        id
    }

    /// Builds a message with a fresh id and an otherwise empty body.
    pub fn build_message(&mut self, src: &str, dest: &str, msg_type: &str) -> (msg: Json)
        requires
            old(self).next_id() < u64::MAX,
        ensures
            msg@ == message_view(src@, dest@, old(self).next_id() as int, msg_type@),
            final(self).next_id() == old(self).next_id() + 1,
    {
        let id = self.allocate_id();
        let mut body: Vec<(String, Json)> = Vec::new();
        push_member(&mut body, "msg_id", Json::from_u64(id));
        push_member(&mut body, "type", Json::text(msg_type));
        seal(src, dest, body)
    }

    /// Builds a response to the request described by `src` and `in_reply_to`.
    pub fn build_reply(
        &mut self,
        src: &str,
        dest: &str,
        msg_type: &str,
        in_reply_to: u64,
    ) -> (msg: Json)
        requires
            old(self).next_id() < u64::MAX,
        ensures
            msg@ == response_view(
                src@,
                dest@,
                old(self).next_id() as int,
                msg_type@,
                in_reply_to as int,
            ),
            final(self).next_id() == old(self).next_id() + 1,
    {
        let id = self.allocate_id();
        let mut body: Vec<(String, Json)> = Vec::new();
        push_member(&mut body, "msg_id", Json::from_u64(id));
        push_member(&mut body, "type", Json::text(msg_type));
        push_member(&mut body, "in_reply_to", Json::from_u64(in_reply_to));
        seal(src, dest, body)
    }
}

/// What a response copies from the request it answers, as held in memory.
pub struct Header {
    pub src: String,
    pub dest: String,
    pub msg_id: u64,
}

impl View for Header {
    type V = Envelope;

    open spec fn view(&self) -> Envelope {
        Envelope { src: self.src@, dest: self.dest@, msg_id: self.msg_id }
    }
}

/// Member `name` of `v` as text.
pub fn get_text(v: &Json, name: &str) -> (r: Option<String>)
    ensures
        match r {
            Some(s) => text_field(v@, name@) == Some(s@),
            None => text_field(v@, name@) is None,
        },
{
    match v.get(name) {
        Some(inner) => match inner.as_str() {
            Some(s) => Some(s.to_owned()),
            None => None,
        },
        None => None,
    }
}

/// Member `name` of the body of `msg`.
pub fn get_body_field<'a>(msg: &'a Json, name: &str) -> (r: Option<&'a Json>)
    ensures
        match r {
            Some(v) => body_field(msg@, name@) == Some(v@),
            None => body_field(msg@, name@) is None,
        },
{
    match msg.get("body") {
        Some(body) => body.get(name),
        None => None,
    }
}

/// The type tag of a message.
pub fn message_type(msg: &Json) -> (r: Option<String>)
    ensures
        match r {
            Some(tag) => type_of(msg@) == Some(tag@),
            None => type_of(msg@) is None,
        },
{
    match get_body_field(msg, "type") {
        Some(tag) => match tag.as_str() {
            Some(s) => Some(s.to_owned()),
            None => None,
        },
        None => None,
    }
}

/// Reads the envelope of a request.
pub fn read_envelope(request: &Json) -> (r: Result<Header, ProtocolError>)
    ensures
        match r {
            Ok(header) => envelope_of(request@) == Some(header@),
            Err(e) => e == ProtocolError::Malformed && envelope_of(request@) is None,
        },
{
    let src = match get_text(request, "src") {
        Some(s) => s,
        None => {
            return Err(ProtocolError::Malformed);
        },
    };
    let dest = match get_text(request, "dest") {
        Some(s) => s,
        None => {
            return Err(ProtocolError::Malformed);
        },
    };
    let msg_id = match get_body_field(request, "msg_id") {
        Some(id) => match id.as_u64() {
            Some(n) => n,
            None => {
                return Err(ProtocolError::Malformed);
            },
        },
        None => {
            return Err(ProtocolError::Malformed);
        },
    };
    Ok(Header { src, dest, msg_id })
}

/// The texts of an array of strings.
pub fn text_list(v: &Json) -> (r: Option<Vec<String>>)
    ensures
        match r {
            Some(list) => text_list_of(v@) == Some(names(list@)),
            None => text_list_of(v@) is None,
        },
{
    let items = match v.as_array() {
        Some(items) => items,
        None => {
            return None;
        },
    };
    proof {
        lemma_items_view_index(items@);
    }
    let ghost views = v@->Array_0;
    let mut out: Vec<String> = Vec::new();
    let mut i: usize = 0;
    while i < items.len()
        invariant
            i <= items.len(),
            out.len() == i,
            v@ == JsonView::Array(views),
            views.len() == items.len(),
            forall|j: int| 0 <= j < items.len() ==> #[trigger] views[j] == items@[j]@,
            forall|j: int| 0 <= j < i ==> #[trigger] views[j] == JsonView::Str(out@[j]@),
        decreases items.len() - i,
    {
        match items[i].as_str() {
            Some(s) => {
                out.push(s.to_owned());
            },
            None => {
                assert(!(views[i as int] is Str));
                return None;
            },
        }
        i = i + 1;
    }
    assert(names(out@) =~= texts_of(views).unwrap());
    Some(out)
}

/// Whether `list` holds the text of `name`.
pub fn holds_name(list: &Vec<String>, name: &String) -> (r: bool)
    ensures
        r == names(list@).contains(name@),
{
    let mut i: usize = 0;
    while i < list.len()
        invariant
            i <= list.len(),
            forall|j: int| 0 <= j < i ==> names(list@)[j] != name@,
        decreases list.len() - i,
    {
        if list[i] == *name {
            assert(names(list@)[i as int] == name@);
            return true;
        }
        i = i + 1;
    }
    false
}

/// Drops every repeated name; the first occurrence stays.
pub fn dedup_names(list: Vec<String>) -> (r: Vec<String>)
    ensures
        names(r@) == dedup(names(list@)),
{
    let ghost all = names(list@);
    let mut out: Vec<String> = Vec::new();
    for name in it: list
        invariant
            names(it.seq()) == all,
            names(out@) == dedup(all.take(it.index() as int)),
    {
        proof {
            let i = it.index() as int;
            assert(all.take(i + 1).drop_last() =~= all.take(i));
            assert(all.take(i + 1).last() == name@);
        }
        if !holds_name(&out, &name) {
            assert(names(out@.push(name)) =~= names(out@).push(name@));
            out.push(name);
        }
    }
    assert(all.take(all.len() as int) =~= all);
    out
}

/// The identity of a node and its source of message ids.
pub struct Node {
    /// This node's id; empty until the node is initialized.
    pub node_id: String,
    /// Every node of the cluster, each once.
    pub node_ids: Vec<String>,
    /// Where this node's message ids come from.
    pub msg_id: MessageBuilder,
}

/// Why a node cannot tell whom to answer, if it cannot. The node needs an id
/// of its own first; then the request needs an envelope.
pub open spec fn sender_refusal(node_id: Seq<char>, request: JsonView) -> Option<ProtocolError> {
    if node_id.len() == 0 {
        Some(ProtocolError::Uninitialized)
    } else if envelope_of(request) is None {
        Some(ProtocolError::Malformed)
    } else {
        None
    }
}

/// Why a node refuses to answer a request, if it does. The checks are made in
/// this order: the node has an id, the request has an envelope, an id is left.
pub open spec fn response_refusal(node_id: Seq<char>, next_id: u64, request: JsonView) -> Option<
    ProtocolError,
> {
    match sender_refusal(node_id, request) {
        Some(e) => Some(e),
        None => if next_id == u64::MAX {
            Some(ProtocolError::IdsExhausted)
        } else {
            None
        },
    }
}

/// Setting a body field of a well-formed message changes nothing but its body.
pub proof fn lemma_with_body_field(
    src: Seq<char>,
    dest: Seq<char>,
    body: Map<Seq<char>, JsonView>,
    name: Seq<char>,
    value: JsonView,
)
    ensures
        with_body_field(envelope_view(src, dest, body), name, value) == envelope_view(
            src,
            dest,
            body.insert(name, value),
        ),
{
    let outer = envelope_view(src, dest, body)->Object_0;
    assert(outer.insert("body"@, JsonView::Object(body.insert(name, value)))
        =~= envelope_view(src, dest, body.insert(name, value))->Object_0);
}

/// Checks that a node with id `node_id` can tell whom to answer.
pub fn check_sender(node_id: &str, request: &Json) -> (r: Result<Header, ProtocolError>)
    ensures
        match r {
            Ok(header) => {
                &&& sender_refusal(node_id@, request@) is None
                &&& envelope_of(request@) == Some(header@)
            },
            Err(e) => sender_refusal(node_id@, request@) == Some(e),
        },
{
    if node_id.is_empty() {
        return Err(ProtocolError::Uninitialized);
    }
    read_envelope(request)
}

/// Builds the response to the request with envelope `header`.
pub fn respond(builder: &mut MessageBuilder, header: &Header, msg_type: &str) -> (msg: Json)
    requires
        old(builder).next_id() < u64::MAX,
    ensures
        msg@ == response_view(
            header.dest@,
            header.src@,
            old(builder).next_id() as int,
            msg_type@,
            header.msg_id as int,
        ),
        final(builder).next_id() == old(builder).next_id() + 1,
{
    builder.build_reply(header.dest.as_str(), header.src.as_str(), msg_type, header.msg_id)
}

/// The response a node gives to `request`: sender and receiver swapped, a
/// fresh id, and the id of the request in `in_reply_to`.
pub open spec fn reply_to(request: JsonView, msg_id: u64, msg_type: Seq<char>) -> JsonView {
    let envelope = envelope_of(request).unwrap();
    response_view(
        envelope.dest,
        envelope.src,
        msg_id as int,
        msg_type,
        envelope.msg_id as int,
    )
}

impl Node {
    /// The id the next message of this node will carry.
    pub open spec fn next_id(&self) -> u64 {
        self.msg_id.next_id()
    }

    /// A node with the given id and peers. Both come from the `init`
    /// message: the id must be a string, the peers an array of strings.
    /// Peers named more than once are kept once.
    pub fn new(node_id: &Json, node_ids: &Json) -> (r: Result<Node, ProtocolError>)
        ensures
            match r {
                Ok(node) => {
                    &&& as_str_spec(node_id@) == Some(node.node_id@)
                    &&& text_list_of(node_ids@) is Some
                    &&& names(node.node_ids@) == dedup(text_list_of(node_ids@).unwrap())
                    &&& node.next_id() == 0
                },
                Err(e) => {
                    &&& e == ProtocolError::Malformed
                    &&& (as_str_spec(node_id@) is None || text_list_of(node_ids@) is None)
                },
            },
    {
        let id = match node_id.as_str() {
            Some(s) => s.to_owned(),
            None => {
                return Err(ProtocolError::Malformed);
            },
        };
        let peers = match text_list(node_ids) {
            Some(list) => list,
            None => {
                return Err(ProtocolError::Malformed);
            },
        };
        Ok(Node { node_id: id, node_ids: dedup_names(peers), msg_id: MessageBuilder::new() })
    }

    /// The id the next message of this node will carry.
    pub fn peek_id(&self) -> (id: u64)
        ensures
            id == self.next_id(),
    {
        self.msg_id.peek()
    }

    /// How many ids can still be handed out.
    pub fn room(&self) -> (count: u64)
        ensures
            count == u64::MAX - self.next_id(),
    {
        self.msg_id.room()
    }

    /// Builds a message with a fresh id and an otherwise empty body.
    pub fn build_message(&mut self, src: &str, dest: &str, msg_type: &str) -> (msg: Json)
        requires
            old(self).next_id() < u64::MAX,
        ensures
            msg@ == message_view(src@, dest@, old(self).next_id() as int, msg_type@),
            final(self).next_id() == old(self).next_id() + 1,
            final(self).node_id == old(self).node_id,
            final(self).node_ids == old(self).node_ids,
    {
        self.msg_id.build_message(src, dest, msg_type)
    }

    /// Builds the response to `request`.
    pub fn build_response(&mut self, request: &Json, msg_type: &str) -> (r: Result<
        Json,
        ProtocolError,
    >)
        ensures
            match r {
                Ok(response) => {
                    &&& response_refusal(old(self).node_id@, old(self).next_id(), request@) is None
                    &&& response@ == reply_to(request@, old(self).next_id(), msg_type@)
                    &&& final(self).next_id() == old(self).next_id() + 1
                    &&& final(self).node_id == old(self).node_id
                    &&& final(self).node_ids == old(self).node_ids
                },
                Err(e) => {
                    &&& response_refusal(old(self).node_id@, old(self).next_id(), request@) == Some(e)
                    &&& *final(self) == *old(self)
                },
            },
    {
        let header = match check_sender(self.node_id.as_str(), request) {
            Ok(header) => header,
            Err(e) => {
                return Err(e);
            },
        };
        if self.msg_id.room() == 0 {
            return Err(ProtocolError::IdsExhausted);
        }
        Ok(respond(&mut self.msg_id, &header, msg_type))
    }
}

/// Moves member `name` out of the object `input`, so that its value need
/// not be copied. A missing member is an error and changes nothing.
pub fn take_field(input: &mut Json, name: &str) -> (r: Result<Json, ProtocolError>)
    ensures
        match r {
            Ok(value) => {
                &&& field(old(input)@, name@) == Some(value@)
                &&& final(input)@ == without_field(old(input)@, name@)
            },
            Err(e) => {
                &&& e == ProtocolError::Malformed
                &&& field(old(input)@, name@) is None
                &&& final(input)@ == old(input)@
            },
        },
{
    match input.take(name) {
        Some(value) => Ok(value),
        None => {
            proof {
                match old(input)@ {
                    JsonView::Object(m) => {
                        assert(m.remove(name@) =~= m);
                    },
                    _ => {},
                }
            }
            Err(ProtocolError::Malformed)
        },
    }
}

/// Sets `name` to `value` in the body of `msg`. The answer is `false`, and
/// `msg` keeps its value, where `msg` has no body object.
pub fn set_body_field(msg: &mut Json, name: &str, value: Json) -> (done: bool)
    ensures
        done == (old(msg)@ is Object && field(old(msg)@, "body"@) is Some && field(
            old(msg)@,
            "body"@,
        ).unwrap() is Object),
        final(msg)@ == with_body_field(old(msg)@, name@, value@),
{
    match msg.take("body") {
        Some(mut body) => {
            let ghost outer = old(msg)@->Object_0;
            let done = body.insert(name, value);
            let ghost inner = body@;
            msg.insert("body", body);
            assert(outer.remove("body"@).insert("body"@, inner) =~= outer.insert("body"@, inner));
            assert(!done ==> outer.insert("body"@, inner) =~= outer);
            done
        },
        None => {
            proof {
                match old(msg)@ {
                    JsonView::Object(m) => {
                        assert(m.remove("body"@) =~= m);
                    },
                    _ => {},
                }
            }
            false
        },
    }
}

/// The id and the peers that an `init` message names.
pub open spec fn init_fields(request: JsonView) -> Option<(Seq<char>, Seq<Seq<char>>)> {
    match (body_field(request, "node_id"@), body_field(request, "node_ids"@)) {
        (Some(id), Some(ids)) => match (as_str_spec(id), text_list_of(ids)) {
            (Some(node_id), Some(node_ids)) => Some((node_id, node_ids)),
            _ => None,
        },
        _ => None,
    }
}

/// Why the first message does not make a node, if it does not. The checks
/// are made in this order: the message has a type, the type is `init`, it
/// names an id and peers, and the new node can answer it.
pub open spec fn handshake_refusal(request: JsonView) -> Option<ProtocolError> {
    match type_of(request) {
        None => Some(ProtocolError::Malformed),
        Some(tag) => if tag != "init"@ {
            Some(ProtocolError::Uninitialized)
        } else {
            match init_fields(request) {
                None => Some(ProtocolError::Malformed),
                Some((node_id, _)) => response_refusal(node_id, 0, request),
            }
        },
    }
}

/// Makes a node from the `init` message and answers it with `init_ok`.
pub fn create_node(request: &Json) -> (r: Result<(Node, Json), ProtocolError>)
    ensures
        match r {
            Ok((node, reply)) => {
                &&& handshake_refusal(request@) is None
                &&& node.node_id@ == init_fields(request@).unwrap().0
                &&& names(node.node_ids@) == dedup(init_fields(request@).unwrap().1)
                &&& node.next_id() == 1
                &&& reply@ == reply_to(request@, 0, "init_ok"@)
            },
            Err(e) => handshake_refusal(request@) == Some(e),
        },
{
    let tag = match message_type(request) {
        Some(tag) => tag,
        None => {
            return Err(ProtocolError::Malformed);
        },
    };
    if tag != "init".to_owned() {
        return Err(ProtocolError::Uninitialized);
    }
    let node_id = match get_body_field(request, "node_id") {
        Some(v) => v,
        None => {
            return Err(ProtocolError::Malformed);
        },
    };
    let node_ids = match get_body_field(request, "node_ids") {
        Some(v) => v,
        None => {
            return Err(ProtocolError::Malformed);
        },
    };
    let mut node = match Node::new(node_id, node_ids) {
        Ok(node) => node,
        Err(e) => {
            return Err(e);
        },
    };
    match node.build_response(request, "init_ok") {
        Ok(reply) => Ok((node, reply)),
        Err(e) => Err(e),
    }
}

/// The test that every name but `excluded` passes.
pub open spec fn is_other(excluded: Seq<char>) -> spec_fn(Seq<char>) -> bool {
    |n: Seq<char>| n != excluded
}

/// Everyone in `list` but `excluded`, in the order of `list`.
pub open spec fn targets(list: Seq<Seq<char>>, excluded: Seq<char>) -> Seq<Seq<char>> {
    list.filter(is_other(excluded))
}

/// The targets are exactly the members of the list other than the excluded one.
pub proof fn lemma_targets_contain(list: Seq<Seq<char>>, excluded: Seq<char>, name: Seq<char>)
    ensures
        targets(list, excluded).contains(name) <==> list.contains(name) && name != excluded,
{
    let keep = is_other(excluded);
    if list.contains(name) && name != excluded {
        let k = choose|k: int| 0 <= k < list.len() && list[k] == name;
        list.lemma_filter_contains(keep, k);
    }
    if targets(list, excluded).contains(name) {
        let i = choose|i: int|
            0 <= i < targets(list, excluded).len() && targets(list, excluded)[i] == name;
        list.lemma_filter_pred(keep, i);
        list.lemma_filter_contains_rev(keep, name);
    }
}

/// Everyone in `list` but `excluded`, in the order of `list`.
pub fn select_targets(list: &Vec<String>, excluded: &String) -> (dests: Vec<String>)
    ensures
        names(dests@) == targets(names(list@), excluded@),
{
    let ghost keep = is_other(excluded@);
    let mut dests: Vec<String> = Vec::new();
    let mut i: usize = 0;
    assert(names(list@).take(0) =~= Seq::<Seq<char>>::empty());
    assert(Seq::<Seq<char>>::empty().filter(keep) =~= Seq::<Seq<char>>::empty()) by {
        reveal(Seq::filter);
    }
    while i < list.len()
        invariant
            i <= list.len(),
            keep == is_other(excluded@),
            names(dests@) == names(list@).take(i as int).filter(keep),
        decreases list.len() - i,
    {
        proof {
            let all = names(list@);
            assert(all.take(i + 1) =~= all.take(i as int).push(all[i as int]));
            all.take(i as int).lemma_filter_push(all[i as int], keep);
        }
        if list[i] != *excluded {
            let dest = list[i].clone();
            assert(names(dests@.push(dest)) =~= names(dests@).push(dest@));
            dests.push(dest);
        }
        i = i + 1;
    }
    assert(names(list@).take(list.len() as int) =~= names(list@));
    dests
}

/// The numbers `values` as JSON.
pub open spec fn numbers_view(values: Seq<u64>) -> Seq<JsonView> {
    Seq::new(values.len(), |i: int| JsonView::Int(values[i] as int))
}

/// `values` lists the set `elements`: every element once, in some order.
pub open spec fn lists(values: Seq<u64>, elements: Set<u64>) -> bool {
    values.no_duplicates() && values.to_set() == elements
}

/// The numbers of a JSON array of unsigned 64-bit integers; `None` for
/// every other document.
pub open spec fn numbers_of(v: JsonView) -> Option<Seq<u64>> {
    match v {
        JsonView::Array(items) => if forall|i: int|
            0 <= i < items.len() ==> as_u64_spec(#[trigger] items[i]) is Some {
            Some(Seq::new(items.len(), |i: int| as_u64_spec(items[i]).unwrap()))
        } else {
            None
        },
        _ => None,
    }
}

/// The numbers of an array of unsigned 64-bit integers.
pub fn number_list(v: &Json) -> (r: Option<Vec<u64>>)
    ensures
        r matches Some(list) ==> numbers_of(v@) == Some(list@),
        r is None ==> numbers_of(v@) is None,
{
    let items = match v.as_array() {
        Some(items) => items,
        None => {
            return None;
        },
    };
    proof {
        lemma_items_view_index(items@);
    }
    let ghost views = v@->Array_0;
    let mut out: Vec<u64> = Vec::new();
    let mut i: usize = 0;
    while i < items.len()
        invariant
            i <= items.len(),
            out.len() == i,
            v@ == JsonView::Array(views),
            views.len() == items.len(),
            forall|j: int| 0 <= j < items.len() ==> #[trigger] views[j] == items@[j]@,
            forall|j: int| 0 <= j < i ==> as_u64_spec(#[trigger] views[j]) == Some(out@[j]),
        decreases items.len() - i,
    {
        match items[i].as_u64() {
            Some(n) => {
                out.push(n);
            },
            None => {
                assert(as_u64_spec(views[i as int]) is None);
                return None;
            },
        }
        i = i + 1;
    }
    assert(out@ =~= numbers_of(v@).unwrap());
    Some(out)
}

/// The elements of `set` as a JSON array: every element once, in the order
/// in which the set hands them out.
pub fn list_numbers(set: &HashSet<u64>) -> (j: Json)
    ensures
        exists|values: Seq<u64>| lists(values, set@) && j@ == JsonView::Array(#[trigger] numbers_view(values)),
{
    let mut items: Vec<Json> = Vec::new();
    let ghost mut values: Seq<u64> = Seq::empty();
    let ghost keys = vstd::std_specs::hash::spec_hash_keys_iter(set).remaining();
    for value in it: set.iter()
        invariant
            it.seq() == keys,
            values.len() == it.index(),
            items@.len() == it.index(),
            forall|i: int| 0 <= i < it.index() ==> values[i] == *#[trigger] keys[i],
            forall|i: int|
                0 <= i < it.index() ==> (#[trigger] items@[i])@ == JsonView::Int(values[i] as int),
    {
        proof {
            values = values.push(*value);
        }
        items.push(Json::from_u64(*value));
    }
    proof {
        assert(values =~= keys.unref());
        assert forall|a: int, b: int|
            0 <= a < values.len() && 0 <= b < values.len() && a != b implies values[a]
            != values[b] by {
            assert(keys[a] != keys[b]);
        }
        assert(lists(values, set@));
        lemma_items_view_index(items@);
        assert(items_view(items@) =~= numbers_view(values));
    }
    Json::Array(items)
}

/// The id that a message carries.
pub open spec fn msg_id_of(msg: JsonView) -> Option<u64> {
    match body_field(msg, "msg_id"@) {
        Some(id) => as_u64_spec(id),
        None => None,
    }
}

/// The names of the envelope are three different texts, and so are the
/// names that every body starts with.
pub proof fn lemma_names_differ()
    ensures
        "src"@ != "dest"@,
        "src"@ != "body"@,
        "dest"@ != "body"@,
        "msg_id"@ != "type"@,
        "msg_id"@ != "in_reply_to"@,
        "type"@ != "in_reply_to"@,
        "msg_id"@.len() == 6,
        "type"@.len() == 4,
        "in_reply_to"@.len() == 11,
{
    reveal_strlit("src");
    reveal_strlit("dest");
    reveal_strlit("body");
    reveal_strlit("msg_id");
    reveal_strlit("type");
    reveal_strlit("in_reply_to");
    assert("src"@.len() == 3 && "dest"@.len() == 4 && "body"@.len() == 4);
    assert("msg_id"@.len() == 6 && "type"@.len() == 4 && "in_reply_to"@.len() == 11);
    assert("dest"@[0] != "body"@[0]);
}

/// What is put into an envelope is read back from it: sender, receiver and
/// every field of the body.
pub proof fn lemma_envelope_read_back(
    src: Seq<char>,
    dest: Seq<char>,
    body: Map<Seq<char>, JsonView>,
    name: Seq<char>,
)
    ensures
        text_field(envelope_view(src, dest, body), "src"@) == Some(src),
        text_field(envelope_view(src, dest, body), "dest"@) == Some(dest),
        field(envelope_view(src, dest, body), "body"@) == Some(JsonView::Object(body)),
        body_field(envelope_view(src, dest, body), name) == field(JsonView::Object(body), name),
{
    lemma_names_differ();
}

/// A fresh message is read back as it was built: its id, its type, and no
/// other field; a field set afterwards under another name changes neither.
pub proof fn lemma_message_read_back(
    src: Seq<char>,
    dest: Seq<char>,
    msg_id: u64,
    msg_type: Seq<char>,
    name: Seq<char>,
    value: JsonView,
)
    requires
        name != "msg_id"@,
        name != "type"@,
    ensures
        msg_id_of(message_view(src, dest, msg_id as int, msg_type)) == Some(msg_id),
        type_of(message_view(src, dest, msg_id as int, msg_type)) == Some(msg_type),
        envelope_of(message_view(src, dest, msg_id as int, msg_type)) == Some(
            Envelope { src, dest, msg_id },
        ),
        ({
            let changed = envelope_view(
                src,
                dest,
                body_view(msg_id as int, msg_type).insert(name, value),
            );
            &&& msg_id_of(changed) == Some(msg_id)
            &&& type_of(changed) == Some(msg_type)
            &&& envelope_of(changed) == Some(Envelope { src, dest, msg_id })
            &&& body_field(changed, name) == Some(value)
        }),
{
    lemma_names_differ();
    let body = body_view(msg_id as int, msg_type);
    lemma_envelope_read_back(src, dest, body, "msg_id"@);
    lemma_envelope_read_back(src, dest, body, "type"@);
    let more = body.insert(name, value);
    lemma_envelope_read_back(src, dest, more, "msg_id"@);
    lemma_envelope_read_back(src, dest, more, "type"@);
    lemma_envelope_read_back(src, dest, more, name);
}

/// A response is read back as it was built: its id, its type and the id it
/// answers; a field set afterwards under another name changes none of them.
pub proof fn lemma_response_read_back(
    src: Seq<char>,
    dest: Seq<char>,
    msg_id: u64,
    msg_type: Seq<char>,
    in_reply_to: u64,
    name: Seq<char>,
    value: JsonView,
)
    requires
        name != "msg_id"@,
        name != "type"@,
        name != "in_reply_to"@,
    ensures
        msg_id_of(response_view(src, dest, msg_id as int, msg_type, in_reply_to as int)) == Some(
            msg_id,
        ),
        type_of(response_view(src, dest, msg_id as int, msg_type, in_reply_to as int)) == Some(
            msg_type,
        ),
        uint_field(
            JsonView::Object(reply_body_view(msg_id as int, msg_type, in_reply_to as int)),
            "in_reply_to"@,
        ) == Some(in_reply_to),
        ({
            let changed = envelope_view(
                src,
                dest,
                reply_body_view(msg_id as int, msg_type, in_reply_to as int).insert(name, value),
            );
            &&& msg_id_of(changed) == Some(msg_id)
            &&& type_of(changed) == Some(msg_type)
            &&& body_field(changed, "in_reply_to"@) == Some(JsonView::Int(in_reply_to as int))
            &&& body_field(changed, name) == Some(value)
        }),
{
    lemma_names_differ();
    let body = reply_body_view(msg_id as int, msg_type, in_reply_to as int);
    lemma_envelope_read_back(src, dest, body, "msg_id"@);
    lemma_envelope_read_back(src, dest, body, "type"@);
    lemma_envelope_read_back(src, dest, body, "in_reply_to"@);
    let more = body.insert(name, value);
    lemma_envelope_read_back(src, dest, more, "msg_id"@);
    lemma_envelope_read_back(src, dest, more, "type"@);
    lemma_envelope_read_back(src, dest, more, "in_reply_to"@);
    lemma_envelope_read_back(src, dest, more, name);
}

} // verus!
