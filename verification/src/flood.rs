use crate::error::ProtocolError;
use crate::json::{as_u64_spec, items_view, lemma_items_view_index, Json, JsonView};
use crate::message::{
    body_field, body_view, check_sender, envelope_of, envelope_view, get_body_field,
    lemma_message_read_back, lemma_names_differ, lemma_response_read_back,
    lemma_with_body_field, list_numbers, lists, message_type, msg_id_of, names,
    numbers_view, reply_body_view, reply_to, respond, response_refusal, select_targets,
    sender_refusal, set_body_field, targets, text_list, text_list_of, type_of,
    MessageBuilder,
};
use std::collections::{HashMap, HashSet};
use vstd::prelude::*;
use vstd::std_specs::iter::IteratorSpec;

verus! {

/// What a broadcast node knows.
pub struct State {
    /// This node's id.
    pub node_id: Seq<char>,
    /// The peers this node forwards to, in the order the topology gave them.
    pub neighbors: Seq<Seq<char>>,
    /// Every value this node has been told.
    pub seen: Set<u64>,
    /// The forwards that no peer has acknowledged yet, by message id.
    pub awaiting_ack: Map<u64, JsonView>,
    /// The id the next message will carry.
    pub next_id: u64,
}

/// What handling a message gives: the messages to send, in order, or the
/// reason to stop.
pub open spec fn outcome(r: Result<Vec<Json>, ProtocolError>) -> Result<
    Seq<JsonView>,
    ProtocolError,
> {
    match r {
        Ok(out) => Ok(items_view(out@)),
        Err(e) => Err(e),
    }
}

/// The node went from `pre` to `post` and answered `result` as `effect`
/// prescribes; a refused message leaves the node as it was.
pub open spec fn stepped(
    pre: State,
    post: State,
    result: Result<Seq<JsonView>, ProtocolError>,
    effect: Result<(State, Seq<JsonView>), ProtocolError>,
) -> bool {
    match effect {
        Ok((state, out)) => post == state && result == Ok::<Seq<JsonView>, ProtocolError>(out),
        Err(e) => post == pre && result == Err::<Seq<JsonView>, ProtocolError>(e),
    }
}

/// The neighbor list that a `topology` message assigns to `node_id`.
pub open spec fn topology_neighbors(request: JsonView, node_id: Seq<char>) -> Option<
    Seq<Seq<char>>,
> {
    match body_field(request, "topology"@) {
        Some(JsonView::Object(topology)) => if topology.contains_key(node_id) {
            text_list_of(topology[node_id])
        } else {
            None
        },
        _ => None,
    }
}

/// `topology`: the node takes the neighbor list the message gives it,
/// whatever it had before, and answers `topology_ok`.
pub open spec fn topology_effect(pre: State, request: JsonView) -> Result<
    (State, Seq<JsonView>),
    ProtocolError,
> {
    match sender_refusal(pre.node_id, request) {
        Some(e) => Err(e),
        None => match topology_neighbors(request, pre.node_id) {
            None => Err(ProtocolError::Malformed),
            Some(neighbors) => if pre.next_id == u64::MAX {
                Err(ProtocolError::IdsExhausted)
            } else {
                Ok(
                    (
                        State { neighbors, next_id: (pre.next_id + 1) as u64, ..pre },
                        seq![reply_to(request, pre.next_id, "topology_ok"@)],
                    ),
                )
            },
        },
    }
}

/// The value a `broadcast` message carries.
pub open spec fn broadcast_value(request: JsonView) -> Option<u64> {
    match body_field(request, "message"@) {
        Some(value) => as_u64_spec(value),
        None => None,
    }
}

/// The `broadcast` message that carries `value` from `node_id` to `dest`.
pub open spec fn forward_view(node_id: Seq<char>, dest: Seq<char>, msg_id: u64, value: u64) -> JsonView {
    envelope_view(
        node_id,
        dest,
        body_view(msg_id as int, "broadcast"@).insert("message"@, JsonView::Int(value as int)),
    )
}

/// One forward of `value` to each of `dests`, with consecutive ids from `first_id`.
pub open spec fn forwards(
    node_id: Seq<char>,
    dests: Seq<Seq<char>>,
    first_id: u64,
    value: u64,
) -> Seq<JsonView> {
    Seq::new(dests.len(), |i: int| forward_view(node_id, dests[i], (first_id + i) as u64, value))
}

/// `awaiting` with `messages` added under consecutive ids from `first_id`.
pub open spec fn record(awaiting: Map<u64, JsonView>, first_id: u64, messages: Seq<JsonView>) -> Map<
    u64,
    JsonView,
> {
    Map::new(
        |id: u64| awaiting.contains_key(id) || first_id <= id < first_id + messages.len(),
        |id: u64|
            if first_id <= id < first_id + messages.len() {
                messages[id - first_id]
            } else {
                awaiting[id]
            },
    )
}

/// `broadcast`: the node notes the value and answers `broadcast_ok`. A value
/// it had not seen is also forwarded to every neighbor but the sender, and
/// each forward is recorded as unacknowledged under its own fresh id. A value
/// it had seen causes nothing more.
pub open spec fn broadcast_effect(pre: State, request: JsonView) -> Result<
    (State, Seq<JsonView>),
    ProtocolError,
> {
    match sender_refusal(pre.node_id, request) {
        Some(e) => Err(e),
        None => match broadcast_value(request) {
            None => Err(ProtocolError::Malformed),
            Some(value) => {
                let ack = reply_to(request, pre.next_id, "broadcast_ok"@);
                let dests = if pre.seen.contains(value) {
                    Seq::empty()
                } else {
                    targets(pre.neighbors, envelope_of(request).unwrap().src)
                };
                if pre.next_id + 1 + dests.len() > u64::MAX {
                    Err(ProtocolError::IdsExhausted)
                } else {
                    let first_id = (pre.next_id + 1) as u64;
                    let sent = forwards(pre.node_id, dests, first_id, value);
                    Ok(
                        (
                            State {
                                seen: pre.seen.insert(value),
                                awaiting_ack: record(pre.awaiting_ack, first_id, sent),
                                next_id: (first_id + dests.len()) as u64,
                                ..pre
                            },
                            seq![ack] + sent,
                        ),
                    )
                }
            },
        },
    }
}

/// The id that a `broadcast_ok` message acknowledges.
pub open spec fn acknowledged_id(request: JsonView) -> Option<u64> {
    match body_field(request, "in_reply_to"@) {
        Some(id) => as_u64_spec(id),
        None => None,
    }
}

/// `broadcast_ok`: the acknowledged forward is forgotten. An id that is not
/// outstanding changes nothing. Nothing is sent.
pub open spec fn broadcast_ok_effect(pre: State, request: JsonView) -> Result<
    (State, Seq<JsonView>),
    ProtocolError,
> {
    match acknowledged_id(request) {
        None => Err(ProtocolError::Malformed),
        Some(id) => Ok((State { awaiting_ack: pre.awaiting_ack.remove(id), ..pre }, Seq::empty())),
    }
}

/// The `read_ok` response that lists `values`.
pub open spec fn read_ok_view(request: JsonView, msg_id: u64, values: Seq<u64>) -> JsonView {
    let envelope = envelope_of(request).unwrap();
    envelope_view(
        envelope.dest,
        envelope.src,
        reply_body_view(msg_id as int, "read_ok"@, envelope.msg_id as int).insert(
            "messages"@,
            JsonView::Array(numbers_view(values)),
        ),
    )
}

/// `read`: the node answers `read_ok` with every value it has seen, each
/// once, in no particular order. Only the id counter moves.
pub open spec fn read_outcome(
    pre: State,
    request: JsonView,
    post: State,
    result: Result<Seq<JsonView>, ProtocolError>,
) -> bool {
    match sender_refusal(pre.node_id, request) {
        Some(e) => post == pre && result == Err::<Seq<JsonView>, ProtocolError>(e),
        None => if pre.next_id == u64::MAX {
            post == pre && result == Err::<Seq<JsonView>, ProtocolError>(
                ProtocolError::IdsExhausted,
            )
        } else {
            &&& post == State { next_id: (pre.next_id + 1) as u64, ..pre }
            &&& result is Ok
            &&& exists|values: Seq<u64>|
                lists(values, pre.seen) && #[trigger] read_ok_view(request, pre.next_id, values)
                    == result->Ok_0[0] && result->Ok_0.len() == 1
        },
    }
}

/// `messages` holds every unacknowledged forward once, in some order.
pub open spec fn resends(messages: Seq<JsonView>, awaiting: Map<u64, JsonView>) -> bool {
    exists|ids: Seq<u64>|
        {
            &&& ids.no_duplicates()
            &&& ids.to_set() == awaiting.dom()
            &&& #[trigger] ids.len() == messages.len()
            &&& forall|i: int| 0 <= i < ids.len() ==> messages[i] == awaiting[#[trigger] ids[i]]
        }
}

/// What a node in steady state does with a message, by the message's type.
/// `init` was dealt with before; a type without a handler is refused.
pub open spec fn handled(
    pre: State,
    request: JsonView,
    post: State,
    result: Result<Seq<JsonView>, ProtocolError>,
) -> bool {
    match type_of(request) {
        None => post == pre && result == Err::<Seq<JsonView>, ProtocolError>(
            ProtocolError::Malformed,
        ),
        Some(tag) => if tag == "init"@ {
            post == pre && result == Err::<Seq<JsonView>, ProtocolError>(
                ProtocolError::AlreadyInitialized,
            )
        } else if tag == "topology"@ {
            stepped(pre, post, result, topology_effect(pre, request))
        } else if tag == "broadcast"@ {
            stepped(pre, post, result, broadcast_effect(pre, request))
        } else if tag == "broadcast_ok"@ {
            stepped(pre, post, result, broadcast_ok_effect(pre, request))
        } else if tag == "read"@ {
            read_outcome(pre, request, post, result)
        } else {
            post == pre && result == Err::<Seq<JsonView>, ProtocolError>(
                ProtocolError::UnknownType,
            )
        },
    }
}

/// The values of the documents held in a map.
pub open spec fn views_of(held: Map<u64, Json>) -> Map<u64, JsonView> {
    held.map_values(|j: Json| j@)
}

/// A node of the reliable broadcast protocol.
pub struct Node {
    node_id: String,
    neighbors: Vec<String>,
    messages: HashSet<u64>,
    msg_builder: MessageBuilder,
    awaiting_reply: HashMap<u64, Json>,
}

impl View for Node {
    type V = State;

    closed spec fn view(&self) -> State {
        State {
            node_id: self.node_id@,
            neighbors: names(self.neighbors@),
            seen: self.messages@,
            awaiting_ack: views_of(self.awaiting_reply@),
            next_id: self.msg_builder.next_id(),
        }
    }
}

impl Node {
    /// A node with the given id that has no neighbors and has seen nothing.
    /// The id comes from the `init` message and must be a string.
    pub fn new(node_id: &Json) -> (r: Result<Node, ProtocolError>)
        ensures
            match r {
                Ok(node) => {
                    &&& crate::json::as_str_spec(node_id@) is Some
                    &&& node@ == State {
                        node_id: crate::json::as_str_spec(node_id@).unwrap(),
                        neighbors: Seq::empty(),
                        seen: Set::empty(),
                        awaiting_ack: Map::empty(),
                        next_id: 0,
                    }
                },
                Err(e) => e == ProtocolError::Malformed && crate::json::as_str_spec(node_id@) is None,
            },
            r matches Ok(node) ==> well_formed(node@),
    {
        let id = match node_id.as_str() {
            Some(s) => s.to_owned(),
            None => {
                return Err(ProtocolError::Malformed);
            },
        };
        let node = Node {
            node_id: id,
            neighbors: Vec::new(),
            messages: HashSet::new(),
            msg_builder: MessageBuilder::new(),
            awaiting_reply: HashMap::new(),
        };
        assert(node@.neighbors =~= Seq::empty());
        assert(node@.awaiting_ack =~= Map::empty());
        Ok(node)
    }

    /// This node's id.
    pub fn node_id(&self) -> (id: &str)
        ensures
            id@ == self@.node_id,
    {
        self.node_id.as_str()
    }

    /// The peers this node forwards to.
    pub fn neighbors(&self) -> (list: &Vec<String>)
        ensures
            names(list@) == self@.neighbors,
    {
        &self.neighbors
    }

    /// Whether this node has been told `value`.
    pub fn has_seen(&self, value: u64) -> (seen: bool)
        ensures
            seen == self@.seen.contains(value),
    {
        self.messages.contains(&value)
    }

    /// How many values this node has been told.
    pub fn seen_count(&self) -> (count: usize)
        ensures
            count == self@.seen.len(),
    {
        self.messages.len()
    }

    /// The forward that is unacknowledged under `id`, if there is one.
    pub fn awaiting(&self, id: u64) -> (r: Option<&Json>)
        ensures
            match r {
                Some(message) => self@.awaiting_ack.contains_key(id) && self@.awaiting_ack[id]
                    == message@,
                None => !self@.awaiting_ack.contains_key(id),
            },
    {
        self.awaiting_reply.get(&id)
    }

    /// How many forwards are unacknowledged.
    pub fn awaiting_count(&self) -> (count: usize)
        ensures
            count == self@.awaiting_ack.dom().len(),
    {
        assert(self@.awaiting_ack.dom() =~= self.awaiting_reply@.dom());
        self.awaiting_reply.len()
    }

    /// The id the next message of this node will carry.
    pub fn next_id(&self) -> (id: u64)
        ensures
            id == self@.next_id,
    {
        self.msg_builder.peek()
    }

    /// `topology`: takes the neighbors that the message assigns to this node.
    pub fn handle_topology(&mut self, request: &Json) -> (r: Result<Vec<Json>, ProtocolError>)
        ensures
            stepped(old(self)@, final(self)@, outcome(r), topology_effect(old(self)@, request@)),
            well_formed(old(self)@) ==> well_formed(final(self)@),
    {
        let header = match check_sender(self.node_id.as_str(), request) {
            Ok(header) => header,
            Err(e) => {
                return Err(e);
            },
        };
        let neighbors = match get_body_field(request, "topology") {
            Some(topology) => match topology.get(self.node_id.as_str()) {
                Some(list) => match text_list(list) {
                    Some(neighbors) => neighbors,
                    None => {
                        return Err(ProtocolError::Malformed);
                    },
                },
                None => {
                    return Err(ProtocolError::Malformed);
                },
            },
            None => {
                return Err(ProtocolError::Malformed);
            },
        };
        if self.msg_builder.room() == 0 {
            return Err(ProtocolError::IdsExhausted);
        }
        let response = respond(&mut self.msg_builder, &header, "topology_ok");
        self.neighbors = neighbors;
        let mut out: Vec<Json> = Vec::new();
        out.push(response);
        proof {
            lemma_items_view_index(out@);
            assert(items_view(out@) =~= seq![response@]);
        }
        Ok(out)
    }

    /// `broadcast`: notes the value, acknowledges it, and forwards a value
    /// that is new to every neighbor but the sender. Each forward is
    /// recorded as unacknowledged before it is handed out for sending.
    pub fn handle_broadcast(&mut self, request: &Json) -> (r: Result<Vec<Json>, ProtocolError>)
        ensures
            stepped(old(self)@, final(self)@, outcome(r), broadcast_effect(old(self)@, request@)),
            well_formed(old(self)@) ==> well_formed(final(self)@),
    {
        let header = match check_sender(self.node_id.as_str(), request) {
            Ok(header) => header,
            Err(e) => {
                return Err(e);
            },
        };
        let value = match get_body_field(request, "message") {
            Some(v) => match v.as_u64() {
                Some(value) => value,
                None => {
                    return Err(ProtocolError::Malformed);
                },
            },
            None => {
                return Err(ProtocolError::Malformed);
            },
        };
        let dests = if self.messages.contains(&value) {
            Vec::new()
        } else {
            select_targets(&self.neighbors, &header.src)
        };
        let ghost pre = self@;
        let ghost wanted = if pre.seen.contains(value) {
            Seq::<Seq<char>>::empty()
        } else {
            targets(pre.neighbors, header.src@)
        };
        assert(names(dests@) =~= wanted);
        if dests.len() as u64 >= self.msg_builder.room() {
            return Err(ProtocolError::IdsExhausted);
        }
        self.messages.insert(value);
        let ack = respond(&mut self.msg_builder, &header, "broadcast_ok");
        let mut out: Vec<Json> = Vec::new();
        out.push(ack);
        let ghost first_id = (pre.next_id + 1) as u64;
        let ghost sent = forwards(pre.node_id, wanted, first_id, value);
        let mut i: usize = 0;
        assert(views_of(self.awaiting_reply@) =~= record(pre.awaiting_ack, first_id, sent.take(0)));
        while i < dests.len()
            invariant
                i <= dests.len(),
                names(dests@) == wanted,
                first_id == pre.next_id + 1,
                first_id + dests.len() <= u64::MAX,
                sent == forwards(pre.node_id, wanted, first_id, value),
                self.node_id@ == pre.node_id,
                names(self.neighbors@) == pre.neighbors,
                self.messages@ == pre.seen.insert(value),
                self.msg_builder.next_id() == first_id + i,
                views_of(self.awaiting_reply@) == record(pre.awaiting_ack, first_id, sent.take(i as int)),
                out@.len() == 1 + i,
                out@[0] == ack,
                forall|j: int| 0 <= j < i ==> (#[trigger] out@[1 + j])@ == sent[j],
            decreases dests.len() - i,
        {
            let id = self.msg_builder.peek();
            let mut message = self.msg_builder.build_message(
                self.node_id.as_str(),
                dests[i].as_str(),
                "broadcast",
            );
            set_body_field(&mut message, "message", Json::from_u64(value));
            proof {
                lemma_with_body_field(
                    pre.node_id,
                    wanted[i as int],
                    body_view(id as int, "broadcast"@),
                    "message"@,
                    JsonView::Int(value as int),
                );
                assert(message@ == sent[i as int]);
            }
            let copy = message.duplicate();
            let ghost before = views_of(self.awaiting_reply@);
            self.awaiting_reply.insert(id, copy);
            out.push(message);
            proof {
                assert(views_of(self.awaiting_reply@) =~= before.insert(id, sent[i as int]));
                let grown = before.insert(id, sent[i as int]);
                let wanted_map = record(pre.awaiting_ack, first_id, sent.take(i + 1));
                assert forall|k: u64| #[trigger]
                    grown.contains_key(k) == wanted_map.contains_key(k) by {}
                assert forall|k: u64| #[trigger] grown.contains_key(k) implies grown[k]
                    == wanted_map[k] by {
                    if k == id {
                        assert(sent.take(i + 1)[k - first_id] == sent[i as int]);
                    } else if first_id <= k < first_id + i {
                        assert(sent.take(i + 1)[k - first_id] == sent.take(i as int)[k - first_id]);
                    }
                }
                assert(grown =~= wanted_map);
            }
            i = i + 1;
        }
        proof {
            assert(wanted.len() == dests.len());
            assert(sent.take(dests.len() as int) =~= sent);
            lemma_items_view_index(out@);
            assert forall|j: int| 0 <= j < out@.len() implies #[trigger] items_view(out@)[j] == (
            seq![ack@] + sent)[j] by {
                if j > 0 {
                    assert(out@[1 + (j - 1)]@ == sent[j - 1]);
                }
            }
            assert(items_view(out@) =~= seq![ack@] + sent);
        }
        Ok(out)
    }

    /// `read`: answers with every value seen so far.
    pub fn handle_read(&mut self, request: &Json) -> (r: Result<Vec<Json>, ProtocolError>)
        ensures
            read_outcome(old(self)@, request@, final(self)@, outcome(r)),
            well_formed(old(self)@) ==> well_formed(final(self)@),
    {
        let header = match check_sender(self.node_id.as_str(), request) {
            Ok(header) => header,
            Err(e) => {
                return Err(e);
            },
        };
        if self.msg_builder.room() == 0 {
            return Err(ProtocolError::IdsExhausted);
        }
        let ghost pre = self@;
        let mut response = respond(&mut self.msg_builder, &header, "read_ok");
        let listing = list_numbers(&self.messages);
        let ghost values = choose|values: Seq<u64>|
            lists(values, pre.seen) && listing@ == JsonView::Array(#[trigger] numbers_view(values));
        proof {
            lemma_with_body_field(
                header.dest@,
                header.src@,
                reply_body_view(pre.next_id as int, "read_ok"@, header.msg_id as int),
                "messages"@,
                JsonView::Array(numbers_view(values)),
            );
        }
        set_body_field(&mut response, "messages", listing);
        let mut out: Vec<Json> = Vec::new();
        out.push(response);
        proof {
            lemma_items_view_index(out@);
            assert(read_ok_view(request@, pre.next_id, values) == items_view(out@)[0]);
        }
        Ok(out)
    }

    /// The retry tick: every forward that is still unacknowledged, unchanged,
    /// to be sent again.
    pub fn retry_messages(&self) -> (out: Vec<Json>)
        ensures
            resends(items_view(out@), self@.awaiting_ack),
    {
        let mut out: Vec<Json> = Vec::new();
        let ghost mut ids: Seq<u64> = Seq::empty();
        let ghost keys = vstd::std_specs::hash::spec_keys_iter(&self.awaiting_reply).remaining();
        for id in it: self.awaiting_reply.keys()
            invariant
                it.seq() == keys,
                ids.len() == it.index(),
                out@.len() == it.index(),
                forall|j: int| 0 <= j < it.index() ==> ids[j] == *#[trigger] keys[j],
                forall|j: int|
                    0 <= j < it.index() ==> (#[trigger] out@[j])@ == self@.awaiting_ack[ids[j]],
        {
            proof {
                assert(keys.unref().to_set().contains(*id)) by {
                    assert(keys.unref()[it.index()] == *id);
                }
                ids = ids.push(*id);
            }
            let held = self.awaiting_reply.get(id);
            assert(held is Some);
            if let Some(message) = held {
                out.push(message.duplicate());
            }
        }
        proof {
            assert(ids =~= keys.unref());
            assert forall|a: int, b: int|
                0 <= a < ids.len() && 0 <= b < ids.len() && a != b implies ids[a] != ids[b] by {
                assert(keys[a] != keys[b]);
            }
            lemma_items_view_index(out@);
            assert(ids.to_set() =~= self@.awaiting_ack.dom());
            assert(ids.len() == items_view(out@).len());
        }
        out
    }

    /// Handles one message of the steady state by its type.
    pub fn handle(&mut self, request: &Json) -> (r: Result<Vec<Json>, ProtocolError>)
        ensures
            handled(old(self)@, request@, final(self)@, outcome(r)),
            well_formed(old(self)@) ==> well_formed(final(self)@),
    {
        let tag = match message_type(request) {
            Some(tag) => tag,
            None => {
                return Err(ProtocolError::Malformed);
            },
        };
        if tag == "init".to_owned() {
            Err(ProtocolError::AlreadyInitialized)
        } else if tag == "topology".to_owned() {
            self.handle_topology(request)
        } else if tag == "broadcast".to_owned() {
            self.handle_broadcast(request)
        } else if tag == "broadcast_ok".to_owned() {
            self.handle_broadcast_ok(request)
        } else if tag == "read".to_owned() {
            self.handle_read(request)
        } else {
            Err(ProtocolError::UnknownType)
        }
    }

    /// `init`: answers `init_ok`.
    pub fn handle_init(&mut self, request: &Json) -> (r: Result<Json, ProtocolError>)
        ensures
            match r {
                Ok(response) => {
                    &&& response_refusal(old(self)@.node_id, old(self)@.next_id, request@) is None
                    &&& response@ == reply_to(request@, old(self)@.next_id, "init_ok"@)
                    &&& final(self)@ == State {
                        next_id: (old(self)@.next_id + 1) as u64,
                        ..old(self)@
                    }
                },
                Err(e) => {
                    &&& response_refusal(old(self)@.node_id, old(self)@.next_id, request@) == Some(e)
                    &&& final(self)@ == old(self)@
                },
            },
            well_formed(old(self)@) ==> well_formed(final(self)@),
    {
        self.build_response(request, "init_ok")
    }

    /// Builds the response to `request`.
    pub fn build_response(&mut self, request: &Json, msg_type: &str) -> (r: Result<
        Json,
        ProtocolError,
    >)
        ensures
            match r {
                Ok(response) => {
                    &&& response_refusal(old(self)@.node_id, old(self)@.next_id, request@) is None
                    &&& response@ == reply_to(request@, old(self)@.next_id, msg_type@)
                    &&& final(self)@ == State {
                        next_id: (old(self)@.next_id + 1) as u64,
                        ..old(self)@
                    }
                },
                Err(e) => {
                    &&& response_refusal(old(self)@.node_id, old(self)@.next_id, request@) == Some(e)
                    &&& final(self)@ == old(self)@
                },
            },
            well_formed(old(self)@) ==> well_formed(final(self)@),
    {
        let header = match check_sender(self.node_id.as_str(), request) {
            Ok(header) => header,
            Err(e) => {
                return Err(e);
            },
        };
        if self.msg_builder.room() == 0 {
            return Err(ProtocolError::IdsExhausted);
        }
        Ok(respond(&mut self.msg_builder, &header, msg_type))
    }

    /// `broadcast_ok`: forgets the acknowledged forward.
    pub fn handle_broadcast_ok(&mut self, request: &Json) -> (r: Result<Vec<Json>, ProtocolError>)
        ensures
            stepped(
                old(self)@,
                final(self)@,
                outcome(r),
                broadcast_ok_effect(old(self)@, request@),
            ),
            well_formed(old(self)@) ==> well_formed(final(self)@),
    {
        let id = match get_body_field(request, "in_reply_to") {
            Some(v) => match v.as_u64() {
                Some(id) => id,
                None => {
                    return Err(ProtocolError::Malformed);
                },
            },
            None => {
                return Err(ProtocolError::Malformed);
            },
        };
        self.awaiting_reply.remove(&id);
        assert(final(self)@.awaiting_ack =~= old(self)@.awaiting_ack.remove(id));
        let out: Vec<Json> = Vec::new();
        assert(items_view(out@) =~= Seq::empty());
        Ok(out)
    }
}

/// The id that an `init` message gives the node.
pub open spec fn init_node_id(request: JsonView) -> Option<Seq<char>> {
    match body_field(request, "node_id"@) {
        Some(id) => crate::json::as_str_spec(id),
        None => None,
    }
}

/// Why the first message does not make a node, if it does not. The checks
/// are made in this order: the message has a type, the type is `init`, it
/// names the node, and the new node can answer it.
pub open spec fn handshake_refusal(request: JsonView) -> Option<ProtocolError> {
    match type_of(request) {
        None => Some(ProtocolError::Malformed),
        Some(tag) => if tag != "init"@ {
            Some(ProtocolError::Uninitialized)
        } else {
            match init_node_id(request) {
                None => Some(ProtocolError::Malformed),
                Some(node_id) => response_refusal(node_id, 0, request),
            }
        },
    }
}

/// Makes a node from the `init` message and answers it with `init_ok`.
pub fn create_node(request: &Json) -> (r: Result<(Node, Json), ProtocolError>)
    ensures
        match r {
            Ok((node, reply)) => {
                &&& handshake_refusal(request@) is None
                &&& node@ == State {
                    node_id: init_node_id(request@).unwrap(),
                    neighbors: Seq::empty(),
                    seen: Set::empty(),
                    awaiting_ack: Map::empty(),
                    next_id: 1,
                }
                &&& reply@ == reply_to(request@, 0, "init_ok"@)
            },
            Err(e) => handshake_refusal(request@) == Some(e),
        },
        r matches Ok((node, _)) ==> well_formed(node@),
{
    let tag = match message_type(request) {
        Some(tag) => tag,
        None => {
            return Err(ProtocolError::Malformed);
        },
    };
    if tag != "init".to_owned() {
        return Err(ProtocolError::Uninitialized);
    }
    let node_id = match get_body_field(request, "node_id") {
        Some(v) => v,
        None => {
            return Err(ProtocolError::Malformed);
        },
    };
    let mut node = match Node::new(node_id) {
        Ok(node) => node,
        Err(e) => {
            return Err(e);
        },
    };
    match node.handle_init(request) {
        Ok(reply) => Ok((node, reply)),
        Err(e) => Err(e),
    }
}

/// The message types of the broadcast protocol are five different texts.
pub proof fn lemma_tags_differ()
    ensures
        "init"@.len() == 4,
        "topology"@.len() == 8,
        "broadcast"@.len() == 9,
        "broadcast_ok"@.len() == 12,
        "read"@.len() == 4,
        "init"@ != "read"@,
{
    reveal_strlit("init");
    reveal_strlit("topology");
    reveal_strlit("broadcast");
    reveal_strlit("broadcast_ok");
    reveal_strlit("read");
    assert("init"@[0] != "read"@[0]);
}

/// Every unacknowledged forward carries an id that was handed out already.
pub open spec fn well_formed(s: State) -> bool {
    forall|id: u64| s.awaiting_ack.contains_key(id) ==> id < s.next_id
}

/// Handling a message keeps the state well formed.
pub proof fn lemma_handled_keeps_well_formed(
    pre: State,
    request: JsonView,
    post: State,
    result: Result<Seq<JsonView>, ProtocolError>,
)
    requires
        well_formed(pre),
        handled(pre, request, post, result),
    ensures
        well_formed(post),
{
}

/// Re-delivery is idle: a value that the node has seen is acknowledged, and
/// nothing is forwarded or recorded for it.
pub proof fn lemma_seen_value_is_not_forwarded(pre: State, request: JsonView)
    requires
        broadcast_effect(pre, request) is Ok,
        pre.seen.contains(broadcast_value(request).unwrap()),
    ensures
        ({
            let (post, out) = broadcast_effect(pre, request)->Ok_0;
            &&& out == seq![reply_to(request, pre.next_id, "broadcast_ok"@)]
            &&& post.seen == pre.seen
            &&& post.awaiting_ack == pre.awaiting_ack
            &&& post.neighbors == pre.neighbors
        }),
{
    let (post, out) = broadcast_effect(pre, request)->Ok_0;
    let value = broadcast_value(request).unwrap();
    let first_id = (pre.next_id + 1) as u64;
    let sent = forwards(pre.node_id, Seq::empty(), first_id, value);
    assert(sent =~= Seq::empty());
    assert(out =~= seq![reply_to(request, pre.next_id, "broadcast_ok"@)]);
    assert(pre.seen.insert(value) =~= pre.seen);
    assert(record(pre.awaiting_ack, first_id, sent) =~= pre.awaiting_ack);
}

/// The set of seen values only grows, whatever message is handled, and an
/// accepted `broadcast` puts its value into it.
pub proof fn lemma_seen_only_grows(
    pre: State,
    request: JsonView,
    post: State,
    result: Result<Seq<JsonView>, ProtocolError>,
)
    requires
        handled(pre, request, post, result),
    ensures
        pre.seen.subset_of(post.seen),
        type_of(request) == Some("broadcast"@) && result is Ok ==> post.seen == pre.seen.insert(
            broadcast_value(request).unwrap(),
        ),
{
    lemma_tags_differ();
}

/// The state after a run of `broadcast` deliveries; a refused delivery
/// changes nothing.
pub open spec fn after_broadcasts(pre: State, requests: Seq<JsonView>) -> State
    decreases requests.len(),
{
    if requests.len() == 0 {
        pre
    } else {
        let mid = after_broadcasts(pre, requests.drop_last());
        match broadcast_effect(mid, requests.last()) {
            Ok((post, _)) => post,
            Err(_) => mid,
        }
    }
}

/// However often, and from whomever, one value is delivered to a node: the
/// node holds the value once the first delivery is accepted, holds nothing
/// else new, and forwards only on that first accepted delivery. Here
/// `requests` are the deliveries so far, all of `value`, and `again` is one
/// more.
pub proof fn lemma_repeated_broadcast(
    pre: State,
    requests: Seq<JsonView>,
    value: u64,
    again: JsonView,
)
    requires
        forall|i: int| 0 <= i < requests.len() ==> broadcast_value(#[trigger] requests[i]) == Some(value),
        broadcast_value(again) == Some(value),
    ensures
        ({
            let now = after_broadcasts(pre, requests);
            &&& now.seen == pre.seen || now.seen == pre.seen.insert(value)
            &&& now.neighbors == pre.neighbors
            &&& now.seen.contains(value) ==> match broadcast_effect(now, again) {
                Ok((post, out)) => {
                    &&& out == seq![reply_to(again, now.next_id, "broadcast_ok"@)]
                    &&& post.seen == now.seen
                    &&& post.awaiting_ack == now.awaiting_ack
                },
                Err(_) => true,
            }
        }),
    decreases requests.len(),
{
    let now = after_broadcasts(pre, requests);
    if requests.len() > 0 {
        let earlier = requests.drop_last();
        assert forall|i: int| 0 <= i < earlier.len() implies broadcast_value(
            #[trigger] earlier[i],
        ) == Some(value) by {
            assert(earlier[i] == requests[i]);
        }
        lemma_repeated_broadcast(pre, earlier, value, requests.last());
        let mid = after_broadcasts(pre, earlier);
        assert(mid.seen.insert(value).insert(value) =~= mid.seen.insert(value));
        assert(pre.seen.insert(value).insert(value) =~= pre.seen.insert(value));
    }
    if now.seen.contains(value) && broadcast_effect(now, again) is Ok {
        lemma_seen_value_is_not_forwarded(now, again);
    }
}

/// Only an acknowledgement removes a forward from the unacknowledged ones:
/// whatever else is handled, each of them stays as it is.
pub proof fn lemma_unacknowledged_stays(
    pre: State,
    request: JsonView,
    post: State,
    result: Result<Seq<JsonView>, ProtocolError>,
    id: u64,
)
    requires
        well_formed(pre),
        handled(pre, request, post, result),
        pre.awaiting_ack.contains_key(id),
        !(type_of(request) == Some("broadcast_ok"@) && acknowledged_id(request) == Some(id)),
    ensures
        post.awaiting_ack.contains_key(id),
        post.awaiting_ack[id] == pre.awaiting_ack[id],
{
}

/// Once an acknowledgement for an id has been handled, no forward is
/// outstanding under that id.
pub proof fn lemma_acknowledged_is_forgotten(
    pre: State,
    request: JsonView,
    post: State,
    result: Result<Seq<JsonView>, ProtocolError>,
)
    requires
        handled(pre, request, post, result),
        type_of(request) == Some("broadcast_ok"@),
        result is Ok,
    ensures
        acknowledged_id(request) is Some,
        !post.awaiting_ack.contains_key(acknowledged_id(request).unwrap()),
        post.awaiting_ack == pre.awaiting_ack.remove(acknowledged_id(request).unwrap()),
{
    lemma_tags_differ();
}

/// Message ids grow strictly: the messages that one step hands out carry
/// the ids from the node's counter on, one after another, and the counter
/// ends behind the last of them. So every id is larger than all ids handed
/// out before, in this step and in every earlier one.
pub proof fn lemma_ids_grow(pre: State, request: JsonView, post: State, out: Seq<JsonView>)
    requires
        handled(pre, request, post, Ok(out)),
    ensures
        post.next_id == pre.next_id + out.len(),
        forall|i: int|
            0 <= i < out.len() ==> msg_id_of(#[trigger] out[i]) == Some((pre.next_id + i) as u64),
{
    reveal_strlit("message");
    reveal_strlit("messages");
    lemma_names_differ();
    let tag = type_of(request).unwrap();
    let envelope = envelope_of(request).unwrap();
    if tag == "init"@ {
    } else if tag == "topology"@ {
        lemma_response_read_back(
            envelope.dest,
            envelope.src,
            pre.next_id,
            "topology_ok"@,
            envelope.msg_id,
            "message"@,
            JsonView::Null,
        );
    } else if tag == "broadcast"@ {
        lemma_response_read_back(
            envelope.dest,
            envelope.src,
            pre.next_id,
            "broadcast_ok"@,
            envelope.msg_id,
            "message"@,
            JsonView::Null,
        );
        let value = broadcast_value(request).unwrap();
        assert forall|i: int| 1 <= i < out.len() implies msg_id_of(#[trigger] out[i]) == Some(
            (pre.next_id + i) as u64,
        ) by {
            let dests = targets(pre.neighbors, envelope.src);
            lemma_message_read_back(
                pre.node_id,
                dests[i - 1],
                (pre.next_id + i) as u64,
                "broadcast"@,
                "message"@,
                JsonView::Int(value as int),
            );
        }
    } else if tag == "broadcast_ok"@ {
    } else if tag == "read"@ {
        let values = choose|values: Seq<u64>|
            lists(values, pre.seen) && #[trigger] read_ok_view(request, pre.next_id, values)
                == out[0] && out.len() == 1;
        lemma_response_read_back(
            envelope.dest,
            envelope.src,
            pre.next_id,
            "read_ok"@,
            envelope.msg_id,
            "messages"@,
            JsonView::Array(numbers_view(values)),
        );
    }
}

} // verus!
