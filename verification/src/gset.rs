use crate::error::ProtocolError;
use crate::json::{as_u64_spec, items_view, lemma_items_view_index, Json, JsonView};
use crate::message::{
    body_field, body_view, check_sender, envelope_of, envelope_view, get_body_field,
    lemma_message_read_back, lemma_names_differ, lemma_response_read_back,
    lemma_with_body_field, list_numbers, lists, message_type, msg_id_of, names, number_list,
    numbers_of, numbers_view, reply_body_view, reply_to, respond, select_targets,
    sender_refusal, set_body_field, targets, type_of,
};
use std::collections::HashSet;
use vstd::prelude::*;

verus! {

/// What a set node knows.
pub struct State {
    /// This node's id.
    pub node_id: Seq<char>,
    /// Every node of the cluster.
    pub node_ids: Seq<Seq<char>>,
    /// Every element this node has been given, by a client or by a peer.
    pub elements: Set<u64>,
    /// The id the next message will carry.
    pub next_id: u64,
}

/// What handling a message gives: the messages to send, in order, or the
/// reason to stop.
pub open spec fn outcome(r: Result<Vec<Json>, ProtocolError>) -> Result<
    Seq<JsonView>,
    ProtocolError,
> {
    match r {
        Ok(out) => Ok(items_view(out@)),
        Err(e) => Err(e),
    }
}

/// The node went from `pre` to `post` and answered `result` as `effect`
/// prescribes; a refused message leaves the node as it was.
pub open spec fn stepped(
    pre: State,
    post: State,
    result: Result<Seq<JsonView>, ProtocolError>,
    effect: Result<(State, Seq<JsonView>), ProtocolError>,
) -> bool {
    match effect {
        Ok((state, out)) => post == state && result == Ok::<Seq<JsonView>, ProtocolError>(out),
        Err(e) => post == pre && result == Err::<Seq<JsonView>, ProtocolError>(e),
    }
}

/// The element an `add` message asks to insert.
pub open spec fn add_element(request: JsonView) -> Option<u64> {
    match body_field(request, "element"@) {
        Some(element) => as_u64_spec(element),
        None => None,
    }
}

/// `add`: the node inserts the element and answers `add_ok`. No peer is asked.
pub open spec fn add_effect(pre: State, request: JsonView) -> Result<
    (State, Seq<JsonView>),
    ProtocolError,
> {
    match sender_refusal(pre.node_id, request) {
        Some(e) => Err(e),
        None => match add_element(request) {
            None => Err(ProtocolError::Malformed),
            Some(element) => if pre.next_id == u64::MAX {
                Err(ProtocolError::IdsExhausted)
            } else {
                Ok(
                    (
                        State {
                            elements: pre.elements.insert(element),
                            next_id: (pre.next_id + 1) as u64,
                            ..pre
                        },
                        seq![reply_to(request, pre.next_id, "add_ok"@)],
                    ),
                )
            },
        },
    }
}

/// The `read_ok` response that lists `values`.
pub open spec fn read_ok_view(request: JsonView, msg_id: u64, values: Seq<u64>) -> JsonView {
    let envelope = envelope_of(request).unwrap();
    envelope_view(
        envelope.dest,
        envelope.src,
        reply_body_view(msg_id as int, "read_ok"@, envelope.msg_id as int).insert(
            "value"@,
            JsonView::Array(numbers_view(values)),
        ),
    )
}

/// `read`: the node answers `read_ok` with every element it holds, each
/// once, in no particular order. No peer is asked; only the id counter moves.
pub open spec fn read_outcome(
    pre: State,
    request: JsonView,
    post: State,
    result: Result<Seq<JsonView>, ProtocolError>,
) -> bool {
    match sender_refusal(pre.node_id, request) {
        Some(e) => post == pre && result == Err::<Seq<JsonView>, ProtocolError>(e),
        None => if pre.next_id == u64::MAX {
            post == pre && result == Err::<Seq<JsonView>, ProtocolError>(
                ProtocolError::IdsExhausted,
            )
        } else {
            &&& post == State { next_id: (pre.next_id + 1) as u64, ..pre }
            &&& result is Ok
            &&& exists|values: Seq<u64>|
                lists(values, pre.elements) && #[trigger] read_ok_view(
                    request,
                    pre.next_id,
                    values,
                ) == result->Ok_0[0] && result->Ok_0.len() == 1
        },
    }
}

/// The elements that a `replicate` message carries.
pub open spec fn replicated_elements(request: JsonView) -> Option<Set<u64>> {
    match body_field(request, "value"@) {
        Some(value) => match numbers_of(value) {
            Some(values) => Some(values.to_set()),
            None => None,
        },
        None => None,
    }
}

/// `replicate`: the node takes over every element of the peer. Nothing is sent.
pub open spec fn replicate_effect(pre: State, request: JsonView) -> Result<
    (State, Seq<JsonView>),
    ProtocolError,
> {
    match replicated_elements(request) {
        None => Err(ProtocolError::Malformed),
        Some(theirs) => Ok((State { elements: pre.elements.union(theirs), ..pre }, Seq::empty())),
    }
}

/// The `replicate` message that carries `values` from `node_id` to `dest`.
pub open spec fn gossip_view(
    node_id: Seq<char>,
    dest: Seq<char>,
    msg_id: u64,
    values: Seq<u64>,
) -> JsonView {
    envelope_view(
        node_id,
        dest,
        body_view(msg_id as int, "replicate"@).insert(
            "value"@,
            JsonView::Array(numbers_view(values)),
        ),
    )
}

/// The gossip messages that carry `values` to each of `peers`, with
/// consecutive ids from `first_id`.
pub open spec fn gossip_round(
    node_id: Seq<char>,
    peers: Seq<Seq<char>>,
    first_id: u64,
    values: Seq<u64>,
) -> Seq<JsonView> {
    Seq::new(peers.len(), |i: int| gossip_view(node_id, peers[i], (first_id + i) as u64, values))
}

/// The gossip tick: the node sends all its elements, each once and in no
/// particular order, to every other node of the cluster, each message under
/// its own fresh id. No answer is expected.
pub open spec fn gossip_outcome(
    pre: State,
    post: State,
    result: Result<Seq<JsonView>, ProtocolError>,
) -> bool {
    let peers = targets(pre.node_ids, pre.node_id);
    if pre.next_id + peers.len() > u64::MAX {
        post == pre && result == Err::<Seq<JsonView>, ProtocolError>(ProtocolError::IdsExhausted)
    } else {
        &&& post == State { next_id: (pre.next_id + peers.len()) as u64, ..pre }
        &&& result is Ok
        &&& exists|values: Seq<u64>|
            lists(values, pre.elements) && #[trigger] gossip_round(
                pre.node_id,
                peers,
                pre.next_id,
                values,
            ) == result->Ok_0
    }
}

/// What a node in steady state does with a message, by the message's type.
/// `init` was dealt with before; a type without a handler is refused.
pub open spec fn handled(
    pre: State,
    request: JsonView,
    post: State,
    result: Result<Seq<JsonView>, ProtocolError>,
) -> bool {
    match type_of(request) {
        None => post == pre && result == Err::<Seq<JsonView>, ProtocolError>(
            ProtocolError::Malformed,
        ),
        Some(tag) => if tag == "init"@ {
            post == pre && result == Err::<Seq<JsonView>, ProtocolError>(
                ProtocolError::AlreadyInitialized,
            )
        } else if tag == "add"@ {
            stepped(pre, post, result, add_effect(pre, request))
        } else if tag == "read"@ {
            read_outcome(pre, request, post, result)
        } else if tag == "replicate"@ {
            stepped(pre, post, result, replicate_effect(pre, request))
        } else {
            post == pre && result == Err::<Seq<JsonView>, ProtocolError>(
                ProtocolError::UnknownType,
            )
        },
    }
}

/// A node that replicates a grow-only set.
pub struct Node {
    inner: crate::message::Node,
    messages: HashSet<u64>,
}

impl View for Node {
    type V = State;

    closed spec fn view(&self) -> State {
        State {
            node_id: self.inner.node_id@,
            node_ids: names(self.inner.node_ids@),
            elements: self.messages@,
            next_id: self.inner.next_id(),
        }
    }
}

impl Node {
    /// A set node on top of an initialized node. It holds no element.
    pub fn new(inner: crate::message::Node) -> (node: Node)
        ensures
            node@ == (State {
                node_id: inner.node_id@,
                node_ids: names(inner.node_ids@),
                elements: Set::empty(),
                next_id: inner.next_id(),
            }),
    {
        Node { inner, messages: HashSet::new() }
    }

    /// The node underneath: its id, the cluster and the id counter.
    pub fn inner(&self) -> (inner: &crate::message::Node)
        ensures
            inner.node_id@ == self@.node_id,
            names(inner.node_ids@) == self@.node_ids,
            inner.next_id() == self@.next_id,
    {
        &self.inner
    }

    /// Whether this node holds `element`.
    pub fn contains(&self, element: u64) -> (held: bool)
        ensures
            held == self@.elements.contains(element),
    {
        self.messages.contains(&element)
    }

    /// How many elements this node holds.
    pub fn len(&self) -> (count: usize)
        ensures
            count == self@.elements.len(),
    {
        self.messages.len()
    }

    /// `add`: inserts the element.
    pub fn handle_add(&mut self, request: &Json) -> (r: Result<Vec<Json>, ProtocolError>)
        ensures
            stepped(old(self)@, final(self)@, outcome(r), add_effect(old(self)@, request@)),
    {
        let header = match check_sender(self.inner.node_id.as_str(), request) {
            Ok(header) => header,
            Err(e) => {
                return Err(e);
            },
        };
        let element = match get_body_field(request, "element") {
            Some(v) => match v.as_u64() {
                Some(element) => element,
                None => {
                    return Err(ProtocolError::Malformed);
                },
            },
            None => {
                return Err(ProtocolError::Malformed);
            },
        };
        if self.inner.room() == 0 {
            return Err(ProtocolError::IdsExhausted);
        }
        let response = respond(&mut self.inner.msg_id, &header, "add_ok");
        self.messages.insert(element);
        let mut out: Vec<Json> = Vec::new();
        out.push(response);
        proof {
            lemma_items_view_index(out@);
            assert(items_view(out@) =~= seq![response@]);
        }
        Ok(out)
    }

    /// `read`: answers with every element this node holds.
    pub fn handle_read(&mut self, request: &Json) -> (r: Result<Vec<Json>, ProtocolError>)
        ensures
            read_outcome(old(self)@, request@, final(self)@, outcome(r)),
    {
        let header = match check_sender(self.inner.node_id.as_str(), request) {
            Ok(header) => header,
            Err(e) => {
                return Err(e);
            },
        };
        if self.inner.room() == 0 {
            return Err(ProtocolError::IdsExhausted);
        }
        let ghost pre = self@;
        let mut response = respond(&mut self.inner.msg_id, &header, "read_ok");
        let listing = list_numbers(&self.messages);
        let ghost values = choose|values: Seq<u64>|
            lists(values, pre.elements) && listing@ == JsonView::Array(
                #[trigger] numbers_view(values),
            );
        proof {
            lemma_with_body_field(
                header.dest@,
                header.src@,
                reply_body_view(pre.next_id as int, "read_ok"@, header.msg_id as int),
                "value"@,
                JsonView::Array(numbers_view(values)),
            );
        }
        set_body_field(&mut response, "value", listing);
        let mut out: Vec<Json> = Vec::new();
        out.push(response);
        proof {
            lemma_items_view_index(out@);
            assert(read_ok_view(request@, pre.next_id, values) == items_view(out@)[0]);
        }
        Ok(out)
    }

    /// `replicate`: takes over every element of a peer.
    pub fn handle_replicate(&mut self, request: &Json) -> (r: Result<Vec<Json>, ProtocolError>)
        ensures
            stepped(old(self)@, final(self)@, outcome(r), replicate_effect(old(self)@, request@)),
    {
        let theirs = match get_body_field(request, "value") {
            Some(value) => match number_list(value) {
                Some(theirs) => theirs,
                None => {
                    return Err(ProtocolError::Malformed);
                },
            },
            None => {
                return Err(ProtocolError::Malformed);
            },
        };
        let ghost pre = self@;
        let mut i: usize = 0;
        assert(self.messages@ =~= pre.elements.union(theirs@.take(0).to_set()));
        while i < theirs.len()
            invariant
                i <= theirs.len(),
                self.inner == old(self).inner,
                self.messages@ == pre.elements.union(theirs@.take(i as int).to_set()),
            decreases theirs.len() - i,
        {
            self.messages.insert(theirs[i]);
            proof {
                assert(theirs@.take(i + 1) =~= theirs@.take(i as int).push(theirs@[i as int]));
                theirs@.take(i as int).lemma_push_to_set_commute(theirs@[i as int]);
                assert(self.messages@ =~= pre.elements.union(theirs@.take(i + 1).to_set()));
            }
            i = i + 1;
        }
        assert(theirs@.take(theirs.len() as int) =~= theirs@);
        let out: Vec<Json> = Vec::new();
        assert(items_view(out@) =~= Seq::empty());
        Ok(out)
    }

    /// The gossip tick: one `replicate` message with all elements for every
    /// other node of the cluster.
    pub fn send_replication(&mut self) -> (r: Result<Vec<Json>, ProtocolError>)
        ensures
            gossip_outcome(old(self)@, final(self)@, outcome(r)),
    {
        let peers = select_targets(&self.inner.node_ids, &self.inner.node_id);
        let ghost pre = self@;
        let ghost wanted = targets(pre.node_ids, pre.node_id);
        if peers.len() as u64 > self.inner.room() {
            return Err(ProtocolError::IdsExhausted);
        }
        let listing = list_numbers(&self.messages);
        let ghost values = choose|values: Seq<u64>|
            lists(values, pre.elements) && listing@ == JsonView::Array(
                #[trigger] numbers_view(values),
            );
        let mut out: Vec<Json> = Vec::new();
        let mut i: usize = 0;
        while i < peers.len()
            invariant
                i <= peers.len(),
                names(peers@) == wanted,
                pre.next_id + peers.len() <= u64::MAX,
                self.inner.node_id@ == pre.node_id,
                names(self.inner.node_ids@) == pre.node_ids,
                self.messages@ == pre.elements,
                self.inner.next_id() == pre.next_id + i,
                listing@ == JsonView::Array(numbers_view(values)),
                out@.len() == i,
                forall|j: int|
                    0 <= j < i ==> (#[trigger] out@[j])@ == gossip_view(
                        pre.node_id,
                        wanted[j],
                        (pre.next_id + j) as u64,
                        values,
                    ),
            decreases peers.len() - i,
        {
            let ghost id = self.inner.next_id();
            let mut message = self.inner.msg_id.build_message(
                self.inner.node_id.as_str(),
                peers[i].as_str(),
                "replicate",
            );
            proof {
                lemma_with_body_field(
                    pre.node_id,
                    wanted[i as int],
                    body_view(id as int, "replicate"@),
                    "value"@,
                    listing@,
                );
            }
            set_body_field(&mut message, "value", listing.duplicate());
            out.push(message);
            i = i + 1;
        }
        proof {
            assert(wanted.len() == peers.len());
            lemma_items_view_index(out@);
            assert(items_view(out@) =~= gossip_round(pre.node_id, wanted, pre.next_id, values));
        }
        Ok(out)
    }

    /// Handles one message of the steady state by its type.
    pub fn handle(&mut self, request: &Json) -> (r: Result<Vec<Json>, ProtocolError>)
        ensures
            handled(old(self)@, request@, final(self)@, outcome(r)),
    {
        let tag = match message_type(request) {
            Some(tag) => tag,
            None => {
                return Err(ProtocolError::Malformed);
            },
        };
        if tag == "init".to_owned() {
            Err(ProtocolError::AlreadyInitialized)
        } else if tag == "add".to_owned() {
            self.handle_add(request)
        } else if tag == "read".to_owned() {
            self.handle_read(request)
        } else if tag == "replicate".to_owned() {
            self.handle_replicate(request)
        } else {
            Err(ProtocolError::UnknownType)
        }
    }
}

/// The elements after taking over `snapshots`, one after another.
pub open spec fn union_all(start: Set<u64>, snapshots: Seq<Set<u64>>) -> Set<u64>
    decreases snapshots.len(),
{
    if snapshots.len() == 0 {
        start
    } else {
        union_all(start, snapshots.drop_last()).union(snapshots.last())
    }
}

/// Merging two sets is commutative, associative and idempotent.
pub proof fn lemma_union_laws(a: Set<u64>, b: Set<u64>, c: Set<u64>)
    ensures
        a.union(b) == b.union(a),
        a.union(b).union(c) == a.union(b.union(c)),
        a.union(a) == a,
        a.union(b).union(b) == a.union(b),
{
    assert(a.union(b) =~= b.union(a));
    assert(a.union(b).union(c) =~= a.union(b.union(c)));
    assert(a.union(a) =~= a);
    assert(a.union(b).union(b) =~= a.union(b));
}

/// After a run of merges a node holds exactly what it held before and what
/// any of the snapshots held.
pub proof fn lemma_union_all_contains(start: Set<u64>, snapshots: Seq<Set<u64>>, x: u64)
    ensures
        union_all(start, snapshots).contains(x) <==> start.contains(x) || exists|i: int|
            0 <= i < snapshots.len() && (#[trigger] snapshots[i]).contains(x),
    decreases snapshots.len(),
{
    if snapshots.len() > 0 {
        let rest = snapshots.drop_last();
        lemma_union_all_contains(start, rest, x);
        if exists|i: int| 0 <= i < rest.len() && (#[trigger] rest[i]).contains(x) {
            let i = choose|i: int| 0 <= i < rest.len() && (#[trigger] rest[i]).contains(x);
            assert(snapshots[i].contains(x));
        }
        if exists|i: int| 0 <= i < snapshots.len() && (#[trigger] snapshots[i]).contains(x) {
            let i = choose|i: int| 0 <= i < snapshots.len() && (#[trigger] snapshots[i]).contains(x);
            if i < rest.len() {
                assert(rest[i].contains(x));
            }
        }
    }
}

/// Convergence: two replicas that start from the same elements and have
/// taken over the same snapshots hold the same elements, in whatever order,
/// and however often, each of them took over each snapshot.
pub proof fn lemma_union_all_converges(
    start: Set<u64>,
    first: Seq<Set<u64>>,
    second: Seq<Set<u64>>,
)
    requires
        first.to_set() == second.to_set(),
    ensures
        union_all(start, first) == union_all(start, second),
{
    assert forall|x: u64| union_all(start, first).contains(x) == union_all(
        start,
        second,
    ).contains(x) by {
        lemma_union_all_contains(start, first, x);
        lemma_union_all_contains(start, second, x);
        if exists|i: int| 0 <= i < first.len() && (#[trigger] first[i]).contains(x) {
            let i = choose|i: int| 0 <= i < first.len() && (#[trigger] first[i]).contains(x);
            assert(first.to_set().contains(first[i]));
            assert(second.contains(first[i]));
            let j = choose|j: int| 0 <= j < second.len() && second[j] == first[i];
            assert(second[j].contains(x));
        }
        if exists|i: int| 0 <= i < second.len() && (#[trigger] second[i]).contains(x) {
            let i = choose|i: int| 0 <= i < second.len() && (#[trigger] second[i]).contains(x);
            assert(second.to_set().contains(second[i]));
            assert(first.contains(second[i]));
            let j = choose|j: int| 0 <= j < first.len() && first[j] == second[i];
            assert(first[j].contains(x));
        }
    }
    assert(union_all(start, first) =~= union_all(start, second));
}

/// After `replicate` a node holds everything it held before and everything
/// the snapshot held, and nothing else; the same snapshot once more changes
/// nothing.
pub proof fn lemma_replicate_is_union(pre: State, request: JsonView)
    requires
        replicate_effect(pre, request) is Ok,
    ensures
        ({
            let post = replicate_effect(pre, request)->Ok_0.0;
            let theirs = replicated_elements(request).unwrap();
            &&& pre.elements.subset_of(post.elements)
            &&& theirs.subset_of(post.elements)
            &&& post.elements == pre.elements.union(theirs)
            &&& replicate_effect(post, request) == Ok::<(State, Seq<JsonView>), ProtocolError>(
                (post, Seq::empty()),
            )
        }),
{
    let post = replicate_effect(pre, request)->Ok_0.0;
    let theirs = replicated_elements(request).unwrap();
    assert(post.elements.union(theirs) =~= post.elements);
}

/// A local insertion and a merge may come in either order.
pub proof fn lemma_add_commutes_with_union(elements: Set<u64>, element: u64, theirs: Set<u64>)
    ensures
        elements.insert(element).union(theirs) == elements.union(theirs).insert(element),
{
    assert(elements.insert(element).union(theirs) =~= elements.union(theirs).insert(element));
}

/// Message ids grow strictly: the messages that one step or one gossip
/// tick hands out carry the ids from the node's counter on, one after
/// another, and the counter ends behind the last of them.
pub proof fn lemma_ids_grow(pre: State, post: State, out: Seq<JsonView>, request: Option<JsonView>)
    requires
        match request {
            Some(request) => handled(pre, request, post, Ok(out)),
            None => gossip_outcome(pre, post, Ok(out)),
        },
    ensures
        post.next_id == pre.next_id + out.len(),
        forall|i: int|
            0 <= i < out.len() ==> msg_id_of(#[trigger] out[i]) == Some((pre.next_id + i) as u64),
{
    reveal_strlit("value");
    lemma_names_differ();
    match request {
        Some(request) => {
            let tag = type_of(request).unwrap();
            let envelope = envelope_of(request).unwrap();
            if tag == "init"@ {
            } else if tag == "add"@ {
                lemma_response_read_back(
                    envelope.dest,
                    envelope.src,
                    pre.next_id,
                    "add_ok"@,
                    envelope.msg_id,
                    "value"@,
                    JsonView::Null,
                );
            } else if tag == "read"@ {
                let values = choose|values: Seq<u64>|
                    lists(values, pre.elements) && #[trigger] read_ok_view(
                        request,
                        pre.next_id,
                        values,
                    ) == out[0] && out.len() == 1;
                lemma_response_read_back(
                    envelope.dest,
                    envelope.src,
                    pre.next_id,
                    "read_ok"@,
                    envelope.msg_id,
                    "value"@,
                    JsonView::Array(numbers_view(values)),
                );
            }
        },
        None => {
            let peers = targets(pre.node_ids, pre.node_id);
            let values = choose|values: Seq<u64>|
                lists(values, pre.elements) && #[trigger] gossip_round(
                    pre.node_id,
                    peers,
                    pre.next_id,
                    values,
                ) == out;
            assert forall|i: int| 0 <= i < out.len() implies msg_id_of(#[trigger] out[i]) == Some(
                (pre.next_id + i) as u64,
            ) by {
                lemma_message_read_back(
                    pre.node_id,
                    peers[i],
                    (pre.next_id + i) as u64,
                    "replicate"@,
                    "value"@,
                    JsonView::Array(numbers_view(values)),
                );
            }
        },
    }
}

} // verus!
