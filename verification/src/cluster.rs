use crate::flood::{
    acknowledged_id, broadcast_effect, broadcast_ok_effect, broadcast_value, forward_view,
    forwards, handled, lemma_tags_differ, record, stepped, well_formed, State,
};
use crate::error::ProtocolError;
use crate::json::JsonView;
use crate::message::{
    envelope_of, lemma_message_read_back, lemma_names_differ, lemma_response_read_back,
    lemma_targets_contain, response_view, targets, type_of, Envelope,
};
use vstd::prelude::*;

verus! {

/// What one broadcast node sends to another.
pub enum Packet {
    /// A value on its way to a neighbor.
    Forward { from: Seq<char>, to: Seq<char>, id: u64, value: u64 },
    /// The acknowledgement of a forward. `value` is the value that the
    /// forward carried; the message itself does not repeat it.
    Ack { from: Seq<char>, to: Seq<char>, id: u64, in_reply_to: u64, value: u64 },
}

/// The message that stands for a packet on the wire.
pub open spec fn packet_view(p: Packet) -> JsonView {
    match p {
        Packet::Forward { from, to, id, value } => forward_view(from, to, id, value),
        Packet::Ack { from, to, id, in_reply_to, .. } => response_view(
            from,
            to,
            id as int,
            "broadcast_ok"@,
            in_reply_to as int,
        ),
    }
}

/// The node that a packet is for.
pub open spec fn receiver(p: Packet) -> Seq<char> {
    match p {
        Packet::Forward { to, .. } => to,
        Packet::Ack { to, .. } => to,
    }
}

/// A forward is read as a `broadcast` request with the sender, the id and
/// the value it was built from, and two forwards that are the same message
/// go to the same node with the same value.
pub proof fn lemma_forward_read_back(from: Seq<char>, to: Seq<char>, id: u64, value: u64)
    ensures
        type_of(forward_view(from, to, id, value)) == Some("broadcast"@),
        envelope_of(forward_view(from, to, id, value)) == Some(
            Envelope { src: from, dest: to, msg_id: id },
        ),
        broadcast_value(forward_view(from, to, id, value)) == Some(value),
        forall|to2: Seq<char>, value2: u64|
            forward_view(from, to, id, value) == #[trigger] forward_view(from, to2, id, value2)
                ==> to2 == to && value2 == value,
{
    reveal_strlit("message");
    lemma_names_differ();
    lemma_message_read_back(from, to, id, "broadcast"@, "message"@, JsonView::Int(value as int));
    assert forall|to2: Seq<char>, value2: u64|
        forward_view(from, to, id, value) == #[trigger] forward_view(
            from,
            to2,
            id,
            value2,
        ) implies to2 == to && value2 == value by {
        lemma_message_read_back(
            from,
            to2,
            id,
            "broadcast"@,
            "message"@,
            JsonView::Int(value2 as int),
        );
    }
}

/// An acknowledgement is read as a `broadcast_ok` message that names the id
/// it answers.
pub proof fn lemma_ack_read_back(from: Seq<char>, to: Seq<char>, id: u64, in_reply_to: u64)
    ensures
        type_of(response_view(from, to, id as int, "broadcast_ok"@, in_reply_to as int)) == Some(
            "broadcast_ok"@,
        ),
        acknowledged_id(response_view(from, to, id as int, "broadcast_ok"@, in_reply_to as int))
            == Some(in_reply_to),
{
    reveal_strlit("message");
    lemma_names_differ();
    lemma_response_read_back(
        from,
        to,
        id,
        "broadcast_ok"@,
        in_reply_to,
        "message"@,
        JsonView::Null,
    );
    crate::message::lemma_envelope_read_back(
        from,
        to,
        crate::message::reply_body_view(id as int, "broadcast_ok"@, in_reply_to as int),
        "in_reply_to"@,
    );
}

/// A node handles a packet as the model says: a forward by the rule for
/// `broadcast`, an acknowledgement by the rule for `broadcast_ok`.
pub proof fn lemma_packet_is_handled_by_its_rule(
    pre: State,
    p: Packet,
    post: State,
    result: Result<Seq<JsonView>, ProtocolError>,
)
    ensures
        handled(pre, packet_view(p), post, result) == stepped(
            pre,
            post,
            result,
            match p {
                Packet::Forward { .. } => broadcast_effect(pre, packet_view(p)),
                Packet::Ack { .. } => broadcast_ok_effect(pre, packet_view(p)),
            },
        ),
{
    lemma_tags_differ();
    match p {
        Packet::Forward { from, to, id, value } => {
            lemma_forward_read_back(from, to, id, value);
        },
        Packet::Ack { from, to, id, in_reply_to, .. } => {
            lemma_ack_read_back(from, to, id, in_reply_to);
        },
    }
}

/// Node `s` still waits for `to` to acknowledge `value`.
pub open spec fn pending(s: State, to: Seq<char>, value: u64) -> bool {
    exists|id: u64| #[trigger]
        s.awaiting_ack.contains_key(id) && s.awaiting_ack[id] == forward_view(
            s.node_id,
            to,
            id,
            value,
        )
}

/// The neighbors that a node forwards `value` to when it comes from `src`:
/// none if the node has seen the value.
pub open spec fn forward_dests(pre: State, src: Seq<char>, value: u64) -> Seq<Seq<char>> {
    if pre.seen.contains(value) {
        Seq::empty()
    } else {
        targets(pre.neighbors, src)
    }
}

/// The `i`-th forward that a node sends for `value` from `src`.
pub open spec fn forward_to(pre: State, src: Seq<char>, value: u64, i: int) -> Packet {
    Packet::Forward {
        from: pre.node_id,
        to: forward_dests(pre, src, value)[i],
        id: (pre.next_id + 1 + i) as u64,
        value,
    }
}

/// The forwards that a node sends for `value` from `src`.
pub open spec fn new_forwards(pre: State, src: Seq<char>, value: u64) -> Set<Packet> {
    Set::new(
        |p: Packet|
            exists|i: int|
                0 <= i < forward_dests(pre, src, value).len() && p == #[trigger] forward_to(
                    pre,
                    src,
                    value,
                    i,
                ),
    )
}

/// What an accepted `broadcast` does to a node, said without the wire
/// format: the value is seen, the id counter moves past the acknowledgement
/// and the forwards, every forward is recorded as what was sent under an id
/// that was not outstanding, nothing recorded before is touched, and a new
/// value is pending for every neighbor but the sender.
pub proof fn lemma_broadcast_summary(pre: State, request: JsonView)
    requires
        well_formed(pre),
        broadcast_effect(pre, request) is Ok,
    ensures
        ({
            let (post, out) = broadcast_effect(pre, request)->Ok_0;
            let src = envelope_of(request).unwrap().src;
            let value = broadcast_value(request).unwrap();
            let dests = forward_dests(pre, src, value);
            let first = pre.next_id + 1;
            &&& post.node_id == pre.node_id
            &&& post.neighbors == pre.neighbors
            &&& post.seen == pre.seen.insert(value)
            &&& post.next_id == first + dests.len()
            &&& well_formed(post)
            &&& out.len() == 1 + dests.len()
            &&& forall|i: int|
                0 <= i < dests.len() ==> out[1 + i] == packet_view(
                    #[trigger] forward_to(pre, src, value, i),
                )
            &&& forall|id: u64|
                first <= id < first + dests.len() ==> !(#[trigger] pre.awaiting_ack.contains_key(
                    id,
                ))
            &&& forall|id: u64| #[trigger]
                pre.awaiting_ack.contains_key(id) ==> post.awaiting_ack.contains_key(id)
                    && post.awaiting_ack[id] == pre.awaiting_ack[id]
            &&& forall|id: u64| #[trigger]
                post.awaiting_ack.contains_key(id) ==> pre.awaiting_ack.contains_key(id) || (first
                    <= id < first + dests.len() && post.awaiting_ack[id] == packet_view(
                    forward_to(pre, src, value, id - first),
                ))
            &&& forall|i: int|
                0 <= i < dests.len() ==> post.awaiting_ack.contains_key((first + i) as u64)
                    && post.awaiting_ack[(first + i) as u64] == packet_view(
                    #[trigger] forward_to(pre, src, value, i),
                )
            &&& forall|to: Seq<char>|
                !pre.seen.contains(value) && pre.neighbors.contains(to) && to != src
                    ==> #[trigger] pending(post, to, value)
        }),
{
    let (post, out) = broadcast_effect(pre, request)->Ok_0;
    let src = envelope_of(request).unwrap().src;
    let value = broadcast_value(request).unwrap();
    let dests = forward_dests(pre, src, value);
    let first = (pre.next_id + 1) as u64;
    let sent = forwards(pre.node_id, dests, first, value);
    assert(post.awaiting_ack == record(pre.awaiting_ack, first, sent));
    assert forall|i: int| 0 <= i < dests.len() implies post.awaiting_ack.contains_key(
        (first + i) as u64,
    ) && post.awaiting_ack[(first + i) as u64] == packet_view(
        #[trigger] forward_to(pre, src, value, i),
    ) by {
        assert(sent[(first + i) as u64 - first] == sent[i]);
    }
    assert forall|to: Seq<char>|
        !pre.seen.contains(value) && pre.neighbors.contains(to) && to != src implies #[trigger] pending(
        post,
        to,
        value,
    ) by {
        lemma_targets_contain(pre.neighbors, src, to);
        assert(dests.contains(to));
        let i = choose|i: int| 0 <= i < dests.len() && dests[i] == to;
        assert(forward_to(pre, src, value, i) == Packet::Forward {
            from: pre.node_id,
            to,
            id: (first + i) as u64,
            value,
        });
        assert(post.awaiting_ack.contains_key((first + i) as u64));
    }
}

/// A cluster of broadcast nodes and everything they have sent to each
/// other. A packet that was sent may arrive any number of times, in any
/// order, or never; so nothing is ever taken out of `sent`.
pub struct Cluster {
    /// The nodes by their ids.
    pub nodes: Map<Seq<char>, State>,
    /// Every packet that a node has handed out for sending.
    pub sent: Set<Packet>,
}

/// A client, who is no node of the cluster, asks node `at` to broadcast a value.
pub open spec fn client_broadcast(c: Cluster, at: Seq<char>, request: JsonView, next: Cluster) -> bool {
    &&& c.nodes.contains_key(at)
    &&& envelope_of(request) is Some
    &&& !c.nodes.contains_key(envelope_of(request).unwrap().src)
    &&& match broadcast_effect(c.nodes[at], request) {
        Ok((post, _)) => {
            &&& next.nodes == c.nodes.insert(at, post)
            &&& next.sent == c.sent.union(
                new_forwards(
                    c.nodes[at],
                    envelope_of(request).unwrap().src,
                    broadcast_value(request).unwrap(),
                ),
            )
        },
        Err(_) => next == c,
    }
}

/// A packet that was sent arrives at the node it is for. A forward is
/// acknowledged and, where its value is new, forwarded on; an
/// acknowledgement lets the node forget the forward it answers.
pub open spec fn deliver(c: Cluster, p: Packet, next: Cluster) -> bool {
    &&& c.sent.contains(p)
    &&& c.nodes.contains_key(receiver(p))
    &&& match p {
        Packet::Forward { from, to, id, value } => match broadcast_effect(
            c.nodes[to],
            packet_view(p),
        ) {
            Ok((post, _)) => {
                &&& next.nodes == c.nodes.insert(to, post)
                &&& next.sent == c.sent.union(new_forwards(c.nodes[to], from, value)).insert(
                    Packet::Ack {
                        from: to,
                        to: from,
                        id: c.nodes[to].next_id,
                        in_reply_to: id,
                        value,
                    },
                )
            },
            Err(_) => next == c,
        },
        Packet::Ack { to, .. } => match broadcast_ok_effect(c.nodes[to], packet_view(p)) {
            Ok((post, _)) => next.nodes == c.nodes.insert(to, post) && next.sent == c.sent,
            Err(_) => next == c,
        },
    }
}

/// The node `s` after it has used up the ids below `next_id`.
pub open spec fn with_next_id(s: State, next_id: u64) -> State {
    State { next_id, ..s }
}

/// Node `at` does something that uses up ids and changes nothing else: it
/// answers a read, or it is told the topology it has.
pub open spec fn local_step(c: Cluster, at: Seq<char>, next: Cluster) -> bool {
    &&& c.nodes.contains_key(at)
    &&& next.sent == c.sent
    &&& exists|next_id: u64|
        next_id >= c.nodes[at].next_id && next.nodes == c.nodes.insert(
            at,
            #[trigger] with_next_id(c.nodes[at], next_id),
        )
}

/// One step of the cluster.
pub open spec fn cluster_step(c: Cluster, next: Cluster) -> bool {
    ||| exists|at: Seq<char>, request: JsonView| #[trigger] client_broadcast(c, at, request, next)
    ||| exists|p: Packet| #[trigger] deliver(c, p, next)
    ||| exists|at: Seq<char>| #[trigger] local_step(c, at, next)
}

/// Every node is filed under its own id, and what it awaits carries ids it
/// has handed out.
pub open spec fn nodes_are_sound(c: Cluster) -> bool {
    forall|n: Seq<char>| #[trigger]
        c.nodes.contains_key(n) ==> c.nodes[n].node_id == n && well_formed(c.nodes[n])
}

/// Every forward that was sent came from a node that has seen its value,
/// under an id that the node has handed out; and where the node still
/// awaits an acknowledgement under that id, it is for this forward.
pub open spec fn forwards_are_sound(c: Cluster) -> bool {
    forall|p: Packet| #[trigger]
        c.sent.contains(p) ==> (p matches Packet::Forward { from, to, id, value } ==> {
            &&& c.nodes.contains_key(from)
            &&& c.nodes[from].seen.contains(value)
            &&& id < c.nodes[from].next_id
            &&& c.nodes[from].awaiting_ack.contains_key(id) ==> c.nodes[from].awaiting_ack[id]
                == packet_view(p)
        })
}

/// Every acknowledgement that was sent came from a node that has seen the
/// value of the forward it answers; and where the receiver still awaits an
/// acknowledgement under that id, it is for that forward.
pub open spec fn acks_are_sound(c: Cluster) -> bool {
    forall|p: Packet| #[trigger]
        c.sent.contains(p) ==> (p matches Packet::Ack { from, to, id, in_reply_to, value } ==> {
            &&& c.nodes.contains_key(from)
            &&& c.nodes[from].seen.contains(value)
            &&& c.nodes.contains_key(to)
            &&& in_reply_to < c.nodes[to].next_id
            &&& c.nodes[to].awaiting_ack.contains_key(in_reply_to)
                ==> c.nodes[to].awaiting_ack[in_reply_to] == forward_view(
                to,
                from,
                in_reply_to,
                value,
            )
        })
}

/// Whatever a node has seen, each of its neighbors has seen too, or the
/// node still awaits that neighbor's acknowledgement for it.
pub open spec fn values_are_on_their_way(c: Cluster) -> bool {
    forall|a: Seq<char>, b: Seq<char>, value: u64|
        #![trigger c.nodes[a].seen.contains(value), c.nodes[b]]
        c.nodes.contains_key(a) && c.nodes.contains_key(b) && c.nodes[a].neighbors.contains(b)
            && c.nodes[a].seen.contains(value) ==> c.nodes[b].seen.contains(value) || pending(
            c.nodes[a],
            b,
            value,
        )
}

/// What holds of a cluster at every moment.
pub open spec fn cluster_inv(c: Cluster) -> bool {
    &&& nodes_are_sound(c)
    &&& forwards_are_sound(c)
    &&& acks_are_sound(c)
    &&& values_are_on_their_way(c)
}

/// A cluster in which no node has seen or sent anything, each node filed
/// under its id.
pub open spec fn cluster_start(c: Cluster) -> bool {
    &&& c.sent == Set::<Packet>::empty()
    &&& forall|n: Seq<char>| #[trigger]
        c.nodes.contains_key(n) ==> c.nodes[n].node_id == n && c.nodes[n].seen == Set::<
            u64,
        >::empty() && c.nodes[n].awaiting_ack == Map::<u64, JsonView>::empty()
}

/// No node awaits an acknowledgement: every forward has arrived and its
/// acknowledgement has come back.
pub open spec fn quiet(c: Cluster) -> bool {
    forall|n: Seq<char>, id: u64|
        c.nodes.contains_key(n) ==> !(#[trigger] c.nodes[n].awaiting_ack.contains_key(id))
}

/// A walk through the cluster along the neighbor lists.
pub open spec fn is_path(c: Cluster, path: Seq<Seq<char>>) -> bool {
    &&& path.len() > 0
    &&& forall|i: int| 0 <= i < path.len() ==> c.nodes.contains_key(#[trigger] path[i])
    &&& forall|i: int|
        0 <= i < path.len() - 1 ==> c.nodes[#[trigger] path[i]].neighbors.contains(path[i + 1])
}

/// Every node can be reached from every other along the neighbor lists.
pub open spec fn connected(c: Cluster) -> bool {
    forall|a: Seq<char>, b: Seq<char>|
        c.nodes.contains_key(a) && c.nodes.contains_key(b) ==> exists|path: Seq<Seq<char>>|
            #[trigger] is_path(c, path) && path[0] == a && path.last() == b
}

/// The invariant holds at the start.
pub proof fn lemma_start_is_sound(c: Cluster)
    requires
        cluster_start(c),
    ensures
        cluster_inv(c),
{
}

/// In a quiet cluster, what a node has seen, everyone it can reach has seen.
pub proof fn lemma_quiet_path(c: Cluster, path: Seq<Seq<char>>, value: u64)
    requires
        cluster_inv(c),
        quiet(c),
        is_path(c, path),
        c.nodes[path[0]].seen.contains(value),
    ensures
        c.nodes[path.last()].seen.contains(value),
    decreases path.len(),
{
    if path.len() > 1 {
        let shorter = path.drop_last();
        assert forall|i: int| 0 <= i < shorter.len() implies c.nodes.contains_key(
            #[trigger] shorter[i],
        ) by {
            assert(shorter[i] == path[i]);
        }
        assert forall|i: int| 0 <= i < shorter.len() - 1 implies c.nodes[#[trigger] shorter[i]].neighbors.contains(
        shorter[i + 1]) by {
            assert(shorter[i] == path[i]);
            assert(shorter[i + 1] == path[i + 1]);
        }
        assert(shorter[0] == path[0]);
        lemma_quiet_path(c, shorter, value);
        let a = path[path.len() - 2];
        let b = path.last();
        assert(shorter.last() == a);
        assert(c.nodes[a].neighbors.contains(path[path.len() - 2 + 1]));
        assert(c.nodes[a].seen.contains(value));
        assert(c.nodes[b].seen.contains(value) || pending(c.nodes[a], b, value));
    }
}

/// Convergence: once a connected cluster is quiet, all its nodes have seen
/// the same values, namely every value that any of them has seen.
pub proof fn lemma_quiet_cluster_has_converged(c: Cluster, a: Seq<char>, b: Seq<char>)
    requires
        cluster_inv(c),
        quiet(c),
        connected(c),
        c.nodes.contains_key(a),
        c.nodes.contains_key(b),
    ensures
        c.nodes[a].seen == c.nodes[b].seen,
{
    assert forall|value: u64| c.nodes[a].seen.contains(value) == c.nodes[b].seen.contains(
        value,
    ) by {
        if c.nodes[a].seen.contains(value) {
            let path = choose|path: Seq<Seq<char>>|
                #[trigger] is_path(c, path) && path[0] == a && path.last() == b;
            lemma_quiet_path(c, path, value);
        }
        if c.nodes[b].seen.contains(value) {
            let path = choose|path: Seq<Seq<char>>|
                #[trigger] is_path(c, path) && path[0] == b && path.last() == a;
            lemma_quiet_path(c, path, value);
        }
    }
    assert(c.nodes[a].seen =~= c.nodes[b].seen);
}

/// A node that takes in a `broadcast` keeps the cluster sound, whoever the
/// request came from, as long as the sender, if it is a node, has seen the
/// value itself, and the acknowledgement that goes back, if it goes to a
/// node, answers a forward of that node.
proof fn lemma_broadcast_keeps_inv(
    c: Cluster,
    at: Seq<char>,
    request: JsonView,
    ack: Option<Packet>,
    next: Cluster,
)
    requires
        cluster_inv(c),
        c.nodes.contains_key(at),
        broadcast_effect(c.nodes[at], request) is Ok,
        next.nodes == c.nodes.insert(at, broadcast_effect(c.nodes[at], request)->Ok_0.0),
        ({
            let src = envelope_of(request).unwrap().src;
            let value = broadcast_value(request).unwrap();
            let grown = c.sent.union(new_forwards(c.nodes[at], src, value));
            &&& c.nodes.contains_key(src) ==> c.nodes[src].seen.contains(value)
            &&& match ack {
                None => next.sent == grown,
                Some(p) => {
                    &&& next.sent == grown.insert(p)
                    &&& p matches Packet::Ack { from, to, in_reply_to, value: carried, .. }
                    &&& from == at
                    &&& carried == value
                    &&& c.nodes.contains_key(to)
                    &&& in_reply_to < c.nodes[to].next_id
                    &&& c.nodes[to].awaiting_ack.contains_key(in_reply_to)
                        ==> c.nodes[to].awaiting_ack[in_reply_to] == forward_view(
                        to,
                        at,
                        in_reply_to,
                        value,
                    )
                },
            }
        }),
    ensures
        cluster_inv(next),
{
    let pre = c.nodes[at];
    let post = broadcast_effect(pre, request)->Ok_0.0;
    let src = envelope_of(request).unwrap().src;
    let value = broadcast_value(request).unwrap();
    let dests = forward_dests(pre, src, value);
    let first = pre.next_id + 1;
    lemma_broadcast_summary(pre, request);
    assert(next.nodes[at] == post);
    assert(forall|n: Seq<char>| n != at && c.nodes.contains_key(n) ==> #[trigger] next.nodes[n] == c.nodes[n]);
    assert(forall|n: Seq<char>| #[trigger] next.nodes.contains_key(n) <==> c.nodes.contains_key(n));

    assert(nodes_are_sound(next)) by {
        assert forall|n: Seq<char>| #[trigger] next.nodes.contains_key(n) implies next.nodes[n].node_id
            == n && well_formed(next.nodes[n]) by {
            if n != at {
                assert(next.nodes[n] == c.nodes[n]);
            }
        }
    }

    assert(forwards_are_sound(next)) by {
        assert forall|p: Packet| #[trigger] next.sent.contains(p) implies (p matches Packet::Forward {
            from,
            to,
            id,
            value: v,
        } ==> {
            &&& next.nodes.contains_key(from)
            &&& next.nodes[from].seen.contains(v)
            &&& id < next.nodes[from].next_id
            &&& next.nodes[from].awaiting_ack.contains_key(id) ==> next.nodes[from].awaiting_ack[id]
                == packet_view(p)
        }) by {
            if let Packet::Forward { from, to, id, value: v } = p {
                if c.sent.contains(p) {
                    if from == at {
                        assert(id < pre.next_id);
                        if post.awaiting_ack.contains_key(id) {
                            assert(pre.awaiting_ack.contains_key(id));
                        }
                    } else {
                        assert(next.nodes[from] == c.nodes[from]);
                    }
                } else {
                    assert(new_forwards(pre, src, value).contains(p));
                    let i = choose|i: int|
                        0 <= i < dests.len() && p == #[trigger] forward_to(pre, src, value, i);
                    assert(id == first + i);
                    assert(post.awaiting_ack.contains_key((first + i) as u64));
                }
            }
        }
    }

    assert(acks_are_sound(next)) by {
        assert forall|p: Packet| #[trigger] next.sent.contains(p) implies (p matches Packet::Ack {
            from,
            to,
            id,
            in_reply_to,
            value: v,
        } ==> {
            &&& next.nodes.contains_key(from)
            &&& next.nodes[from].seen.contains(v)
            &&& next.nodes.contains_key(to)
            &&& in_reply_to < next.nodes[to].next_id
            &&& next.nodes[to].awaiting_ack.contains_key(in_reply_to)
                ==> next.nodes[to].awaiting_ack[in_reply_to] == forward_view(
                to,
                from,
                in_reply_to,
                v,
            )
        }) by {
            if let Packet::Ack { from, to, id, in_reply_to, value: v } = p {
                assert(!new_forwards(pre, src, value).contains(p));
                if from != at {
                    assert(next.nodes[from] == c.nodes[from]);
                }
                if to != at {
                    assert(next.nodes[to] == c.nodes[to]);
                } else {
                    assert(in_reply_to < pre.next_id);
                    if post.awaiting_ack.contains_key(in_reply_to) {
                        assert(pre.awaiting_ack.contains_key(in_reply_to));
                    }
                }
            }
        }
    }

    assert(values_are_on_their_way(next)) by {
        assert forall|a: Seq<char>, b: Seq<char>, v: u64|
            #![trigger next.nodes[a].seen.contains(v), next.nodes[b]]
            next.nodes.contains_key(a) && next.nodes.contains_key(b)
                && next.nodes[a].neighbors.contains(b) && next.nodes[a].seen.contains(
                v,
            ) implies next.nodes[b].seen.contains(v) || pending(next.nodes[a], b, v) by {
            if a != at {
                assert(next.nodes[a] == c.nodes[a]);
                assert(c.nodes[a].seen.contains(v));
                assert(c.nodes[b].seen.contains(v) || pending(c.nodes[a], b, v));
                if b != at {
                    assert(next.nodes[b] == c.nodes[b]);
                }
            } else if pre.seen.contains(v) {
                assert(c.nodes[a].seen.contains(v));
                assert(c.nodes[b].seen.contains(v) || pending(pre, b, v));
                if pending(pre, b, v) {
                    let id = choose|id: u64| #[trigger]
                        pre.awaiting_ack.contains_key(id) && pre.awaiting_ack[id] == forward_view(
                            pre.node_id,
                            b,
                            id,
                            v,
                        );
                    assert(post.awaiting_ack.contains_key(id));
                    assert(pending(post, b, v));
                } else if b != at {
                    assert(next.nodes[b] == c.nodes[b]);
                }
            } else {
                assert(v == value);
                if b == src {
                    assert(c.nodes[b].seen.contains(v));
                    if b != at {
                        assert(next.nodes[b] == c.nodes[b]);
                    }
                } else {
                    assert(pending(post, b, value));
                }
            }
        }
    }
}

/// Every step keeps the cluster sound.
pub proof fn lemma_step_keeps_inv(c: Cluster, next: Cluster)
    requires
        cluster_inv(c),
        cluster_step(c, next),
    ensures
        cluster_inv(next),
{
    if exists|at: Seq<char>, request: JsonView| #[trigger] client_broadcast(c, at, request, next) {
        let (at, request) = choose|at: Seq<char>, request: JsonView| #[trigger]
            client_broadcast(c, at, request, next);
        if broadcast_effect(c.nodes[at], request) is Ok {
            lemma_broadcast_keeps_inv(c, at, request, None, next);
        }
    } else if exists|p: Packet| #[trigger] deliver(c, p, next) {
        let p = choose|p: Packet| #[trigger] deliver(c, p, next);
        match p {
            Packet::Forward { from, to, id, value } => {
                lemma_forward_read_back(from, to, id, value);
                if broadcast_effect(c.nodes[to], packet_view(p)) is Ok {
                    let ack = Packet::Ack {
                        from: to,
                        to: from,
                        id: c.nodes[to].next_id,
                        in_reply_to: id,
                        value,
                    };
                    lemma_broadcast_keeps_inv(c, to, packet_view(p), Some(ack), next);
                }
            },
            Packet::Ack { from, to, id, in_reply_to, value } => {
                lemma_ack_read_back(from, to, id, in_reply_to);
                if broadcast_ok_effect(c.nodes[to], packet_view(p)) is Ok {
                    lemma_ack_keeps_inv(c, p, next);
                }
            },
        }
    } else {
        let at = choose|at: Seq<char>| #[trigger] local_step(c, at, next);
        let next_id = choose|next_id: u64|
            next_id >= c.nodes[at].next_id && next.nodes == c.nodes.insert(
                at,
                #[trigger] with_next_id(c.nodes[at], next_id),
            );
        lemma_local_keeps_inv(c, at, next_id, next);
    }
}

/// An acknowledgement that arrives keeps the cluster sound: the forward it
/// removes had arrived.
proof fn lemma_ack_keeps_inv(c: Cluster, p: Packet, next: Cluster)
    requires
        cluster_inv(c),
        c.sent.contains(p),
        p is Ack,
        c.nodes.contains_key(receiver(p)),
        next.sent == c.sent,
        next.nodes == c.nodes.insert(
            receiver(p),
            State {
                awaiting_ack: c.nodes[receiver(p)].awaiting_ack.remove(p->in_reply_to),
                ..c.nodes[receiver(p)]
            },
        ),
    ensures
        cluster_inv(next),
{
    let at = receiver(p);
    let acked = p->in_reply_to;
    let sender = p->Ack_from;
    let carried = p->Ack_value;
    let pre = c.nodes[at];
    let post = next.nodes[at];
    assert(forall|n: Seq<char>| n != at && c.nodes.contains_key(n) ==> #[trigger] next.nodes[n] == c.nodes[n]);
    assert(forall|n: Seq<char>| #[trigger] next.nodes.contains_key(n) <==> c.nodes.contains_key(n));
    assert(nodes_are_sound(next)) by {
        assert forall|n: Seq<char>| #[trigger] next.nodes.contains_key(n) implies next.nodes[n].node_id
            == n && well_formed(next.nodes[n]) by {
            if n != at {
                assert(next.nodes[n] == c.nodes[n]);
            }
        }
    }
    assert(forwards_are_sound(next)) by {
        assert forall|q: Packet| #[trigger] next.sent.contains(q) implies (q matches Packet::Forward {
            from,
            to,
            id,
            value: v,
        } ==> {
            &&& next.nodes.contains_key(from)
            &&& next.nodes[from].seen.contains(v)
            &&& id < next.nodes[from].next_id
            &&& next.nodes[from].awaiting_ack.contains_key(id) ==> next.nodes[from].awaiting_ack[id]
                == packet_view(q)
        }) by {
            if let Packet::Forward { from, to, id, value: v } = q {
                if from != at {
                    assert(next.nodes[from] == c.nodes[from]);
                }
            }
        }
    }
    assert(acks_are_sound(next)) by {
        assert forall|q: Packet| #[trigger] next.sent.contains(q) implies (q matches Packet::Ack {
            from,
            to,
            id,
            in_reply_to,
            value: v,
        } ==> {
            &&& next.nodes.contains_key(from)
            &&& next.nodes[from].seen.contains(v)
            &&& next.nodes.contains_key(to)
            &&& in_reply_to < next.nodes[to].next_id
            &&& next.nodes[to].awaiting_ack.contains_key(in_reply_to)
                ==> next.nodes[to].awaiting_ack[in_reply_to] == forward_view(
                to,
                from,
                in_reply_to,
                v,
            )
        }) by {
            if let Packet::Ack { from, to, id, in_reply_to, value: v } = q {
                if from != at {
                    assert(next.nodes[from] == c.nodes[from]);
                }
                if to != at {
                    assert(next.nodes[to] == c.nodes[to]);
                }
            }
        }
    }
    assert(values_are_on_their_way(next)) by {
        assert forall|a: Seq<char>, b: Seq<char>, v: u64|
            #![trigger next.nodes[a].seen.contains(v), next.nodes[b]]
            next.nodes.contains_key(a) && next.nodes.contains_key(b)
                && next.nodes[a].neighbors.contains(b) && next.nodes[a].seen.contains(
                v,
            ) implies next.nodes[b].seen.contains(v) || pending(next.nodes[a], b, v) by {
            assert(c.nodes[a].seen.contains(v));
            assert(c.nodes[b].seen.contains(v) || pending(c.nodes[a], b, v));
            assert(next.nodes[b].seen == c.nodes[b].seen);
            if a != at {
                assert(next.nodes[a] == c.nodes[a]);
            } else if !c.nodes[b].seen.contains(v) {
                let id = choose|id: u64| #[trigger]
                    pre.awaiting_ack.contains_key(id) && pre.awaiting_ack[id] == forward_view(
                        pre.node_id,
                        b,
                        id,
                        v,
                    );
                if id == acked {
                    assert(pre.awaiting_ack[acked] == forward_view(at, sender, acked, carried));
                    lemma_forward_read_back(at, sender, acked, carried);
                    assert(b == sender && v == carried);
                } else {
                    assert(post.awaiting_ack.contains_key(id));
                    assert(pending(post, b, v));
                }
            }
        }
    }
}

/// A step that only uses up ids keeps the cluster sound.
proof fn lemma_local_keeps_inv(c: Cluster, at: Seq<char>, next_id: u64, next: Cluster)
    requires
        cluster_inv(c),
        c.nodes.contains_key(at),
        next_id >= c.nodes[at].next_id,
        next.sent == c.sent,
        next.nodes == c.nodes.insert(at, with_next_id(c.nodes[at], next_id)),
    ensures
        cluster_inv(next),
{
    let pre = c.nodes[at];
    let post = next.nodes[at];
    assert(forall|n: Seq<char>| n != at && c.nodes.contains_key(n) ==> #[trigger] next.nodes[n] == c.nodes[n]);
    assert(forall|n: Seq<char>| #[trigger] next.nodes.contains_key(n) <==> c.nodes.contains_key(n));
    assert(nodes_are_sound(next)) by {
        assert forall|n: Seq<char>| #[trigger] next.nodes.contains_key(n) implies next.nodes[n].node_id
            == n && well_formed(next.nodes[n]) by {
            if n != at {
                assert(next.nodes[n] == c.nodes[n]);
            }
        }
    }
    assert(forwards_are_sound(next)) by {
        assert forall|q: Packet| #[trigger] next.sent.contains(q) implies (q matches Packet::Forward {
            from,
            to,
            id,
            value: v,
        } ==> {
            &&& next.nodes.contains_key(from)
            &&& next.nodes[from].seen.contains(v)
            &&& id < next.nodes[from].next_id
            &&& next.nodes[from].awaiting_ack.contains_key(id) ==> next.nodes[from].awaiting_ack[id]
                == packet_view(q)
        }) by {
            if let Packet::Forward { from, to, id, value: v } = q {
                if from != at {
                    assert(next.nodes[from] == c.nodes[from]);
                }
            }
        }
    }
    assert(acks_are_sound(next)) by {
        assert forall|q: Packet| #[trigger] next.sent.contains(q) implies (q matches Packet::Ack {
            from,
            to,
            id,
            in_reply_to,
            value: v,
        } ==> {
            &&& next.nodes.contains_key(from)
            &&& next.nodes[from].seen.contains(v)
            &&& next.nodes.contains_key(to)
            &&& in_reply_to < next.nodes[to].next_id
            &&& next.nodes[to].awaiting_ack.contains_key(in_reply_to)
                ==> next.nodes[to].awaiting_ack[in_reply_to] == forward_view(
                to,
                from,
                in_reply_to,
                v,
            )
        }) by {
            if let Packet::Ack { from, to, id, in_reply_to, value: v } = q {
                if from != at {
                    assert(next.nodes[from] == c.nodes[from]);
                }
                if to != at {
                    assert(next.nodes[to] == c.nodes[to]);
                }
            }
        }
    }
    assert(values_are_on_their_way(next)) by {
        assert forall|a: Seq<char>, b: Seq<char>, v: u64|
            #![trigger next.nodes[a].seen.contains(v), next.nodes[b]]
            next.nodes.contains_key(a) && next.nodes.contains_key(b)
                && next.nodes[a].neighbors.contains(b) && next.nodes[a].seen.contains(
                v,
            ) implies next.nodes[b].seen.contains(v) || pending(next.nodes[a], b, v) by {
            assert(c.nodes[a].seen.contains(v));
            assert(c.nodes[b].seen.contains(v) || pending(c.nodes[a], b, v));
            assert(next.nodes[b].seen == c.nodes[b].seen);
            if a != at {
                assert(next.nodes[a] == c.nodes[a]);
            } else if pending(pre, b, v) {
                let id = choose|id: u64| #[trigger]
                    pre.awaiting_ack.contains_key(id) && pre.awaiting_ack[id] == forward_view(
                        pre.node_id,
                        b,
                        id,
                        v,
                    );
                assert(post.awaiting_ack.contains_key(id));
            }
        }
    }
}

/// The cluster after the forward `p` has arrived at a node that could take it.
pub open spec fn after_forward(c: Cluster, p: Packet) -> Cluster {
    let to = receiver(p);
    Cluster {
        nodes: c.nodes.insert(to, broadcast_effect(c.nodes[to], packet_view(p))->Ok_0.0),
        sent: c.sent.union(new_forwards(c.nodes[to], p->Forward_from, p->Forward_value)).insert(
            ack_of(c, p),
        ),
    }
}

/// The acknowledgement that the receiver of the forward `p` sends back.
pub open spec fn ack_of(c: Cluster, p: Packet) -> Packet {
    Packet::Ack {
        from: receiver(p),
        to: p->Forward_from,
        id: c.nodes[receiver(p)].next_id,
        in_reply_to: p->Forward_id,
        value: p->Forward_value,
    }
}

/// The cluster after node `at` has been told that its forward `id` arrived.
pub open spec fn after_ack(c: Cluster, at: Seq<char>, id: u64) -> Cluster {
    Cluster {
        nodes: c.nodes.insert(
            at,
            State { awaiting_ack: c.nodes[at].awaiting_ack.remove(id), ..c.nodes[at] },
        ),
        sent: c.sent,
    }
}

/// A resend settles what it resends: where a forward that a node still
/// awaits an acknowledgement for arrives at a neighbor that has ids left,
/// and the acknowledgement arrives back, the neighbor has seen the value and
/// the node awaits nothing under that id any more. Both arrivals are steps of
/// the cluster, and the cluster stays sound.
pub proof fn lemma_resend_settles(c: Cluster, p: Packet)
    requires
        cluster_inv(c),
        c.sent.contains(p),
        p is Forward,
        c.nodes.contains_key(receiver(p)),
        receiver(p).len() > 0,
        c.nodes[receiver(p)].next_id + 1 + c.nodes[receiver(p)].neighbors.len() <= u64::MAX,
    ensures
        ({
            let arrived = after_forward(c, p);
            let settled = after_ack(arrived, p->Forward_from, p->Forward_id);
            &&& deliver(c, p, arrived)
            &&& deliver(arrived, ack_of(c, p), settled)
            &&& cluster_step(c, arrived)
            &&& cluster_step(arrived, settled)
            &&& cluster_inv(settled)
            &&& settled.nodes[receiver(p)].seen.contains(p->Forward_value)
            &&& !settled.nodes[p->Forward_from].awaiting_ack.contains_key(p->Forward_id)
        }),
{
    let from = p->Forward_from;
    let to = receiver(p);
    let id = p->Forward_id;
    let value = p->Forward_value;
    let pre = c.nodes[to];
    lemma_forward_read_back(from, to, id, value);
    lemma_names_differ();
    let dests = forward_dests(pre, from, value);
    assert(dests.len() <= pre.neighbors.len()) by {
        pre.neighbors.lemma_filter_len(crate::message::is_other(from));
    }
    assert(pre.node_id == to);
    assert(broadcast_effect(pre, packet_view(p)) is Ok);
    let arrived = after_forward(c, p);
    assert(deliver(c, p, arrived));
    lemma_step_keeps_inv(c, arrived);
    let ack = ack_of(c, p);
    lemma_ack_read_back(to, from, pre.next_id, id);
    assert(arrived.sent.contains(ack));
    assert(arrived.nodes.contains_key(from));
    let settled = after_ack(arrived, from, id);
    assert(broadcast_ok_effect(arrived.nodes[from], packet_view(ack)) is Ok);
    assert(deliver(arrived, ack, settled));
    lemma_step_keeps_inv(arrived, settled);
    lemma_broadcast_summary(pre, packet_view(p));
    assert(arrived.nodes[to].seen.contains(value));
    if from != to {
        assert(settled.nodes[to] == arrived.nodes[to]);
    }
}

} // verus!
