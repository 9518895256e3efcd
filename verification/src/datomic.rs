use crate::error::ProtocolError;
use crate::json::{
    as_i64_spec, as_str_spec, items_view, lemma_items_view_index, lemma_items_view_push, Json,
    JsonView,
};
use crate::message::{
    body_field, check_sender, envelope_of, envelope_view, get_body_field,
    lemma_with_body_field, message_type, names, reply_body_view, respond, sender_refusal,
    set_body_field, type_of,
};
use std::collections::HashMap;
use vstd::prelude::*;

verus! {

/// One operation of a transaction.
#[derive(Clone, Copy, Debug, PartialEq, Eq, Structural)]
pub enum Op {
    /// Read the list under a key.
    Read(i64),
    /// Append a value to the list under a key.
    Append(i64, i64),
}

/// The lists of the store, by key.
pub type Store = Map<i64, Seq<i64>>;

/// What a transaction node knows.
pub struct State {
    /// This node's id.
    pub node_id: Seq<char>,
    /// Every node of the cluster.
    pub node_ids: Seq<Seq<char>>,
    /// The lists appended so far.
    pub store: Store,
    /// The id the next message will carry.
    pub next_id: u64,
}

/// The operation that a JSON document stands for: an array of a function
/// name, a key and a value, where the function is `r` or `append`, the key is
/// an integer of 64 bits, and so is the value of `append`.
pub open spec fn op_of(v: JsonView) -> Option<Op> {
    match v {
        JsonView::Array(items) => if items.len() == 3 {
            match (as_str_spec(items[0]), as_i64_spec(items[1])) {
                (Some(function), Some(key)) => if function == "r"@ {
                    Some(Op::Read(key))
                } else if function == "append"@ {
                    match as_i64_spec(items[2]) {
                        Some(value) => Some(Op::Append(key, value)),
                        None => None,
                    }
                } else {
                    None
                },
                _ => None,
            }
        } else {
            None
        },
        _ => None,
    }
}

/// The operations that a JSON array stands for; `None` if one of its
/// elements is no operation.
pub open spec fn ops_of(v: JsonView) -> Option<Seq<Op>> {
    match v {
        JsonView::Array(items) => if forall|i: int|
            0 <= i < items.len() ==> op_of(#[trigger] items[i]) is Some {
            Some(Seq::new(items.len(), |i: int| op_of(items[i]).unwrap()))
        } else {
            None
        },
        _ => None,
    }
}

/// The integers `values` as JSON.
pub open spec fn integers_view(values: Seq<i64>) -> Seq<JsonView> {
    Seq::new(values.len(), |i: int| JsonView::Int(values[i] as int))
}

/// What the store holds under `key`; nothing where the key is unknown.
pub open spec fn list_of(store: Store, key: i64) -> Seq<i64> {
    if store.contains_key(key) {
        store[key]
    } else {
        Seq::empty()
    }
}

/// The store after one operation.
pub open spec fn store_after(store: Store, op: Op) -> Store {
    match op {
        Op::Read(_) => store,
        Op::Append(key, value) => store.insert(key, list_of(store, key).push(value)),
    }
}

/// What one operation reports: a read reports the list under its key, or
/// `null` for a key that was never appended to; an append repeats itself.
pub open spec fn report_of(store: Store, op: Op) -> JsonView {
    match op {
        Op::Read(key) => JsonView::Array(
            seq![
                JsonView::Str("r"@),
                JsonView::Int(key as int),
                if store.contains_key(key) {
                    JsonView::Array(integers_view(store[key]))
                } else {
                    JsonView::Null
                },
            ],
        ),
        Op::Append(key, value) => JsonView::Array(
            seq![JsonView::Str("append"@), JsonView::Int(key as int), JsonView::Int(value as int)],
        ),
    }
}

/// The store after a run of operations.
pub open spec fn store_after_all(store: Store, ops: Seq<Op>) -> Store
    decreases ops.len(),
{
    if ops.len() == 0 {
        store
    } else {
        store_after(store_after_all(store, ops.drop_last()), ops.last())
    }
}

/// What a run of operations reports: each operation reports on the store as
/// the operations before it left it.
pub open spec fn reports_of(store: Store, ops: Seq<Op>) -> Seq<JsonView>
    decreases ops.len(),
{
    if ops.len() == 0 {
        Seq::empty()
    } else {
        reports_of(store, ops.drop_last()).push(
            report_of(store_after_all(store, ops.drop_last()), ops.last()),
        )
    }
}

/// The operations that a `txn` message asks for.
pub open spec fn txn_ops(request: JsonView) -> Option<Seq<Op>> {
    match body_field(request, "txn"@) {
        Some(list) => ops_of(list),
        None => None,
    }
}

/// The `txn_ok` response that carries `reports`.
pub open spec fn txn_ok_view(request: JsonView, msg_id: u64, reports: Seq<JsonView>) -> JsonView {
    let envelope = envelope_of(request).unwrap();
    envelope_view(
        envelope.dest,
        envelope.src,
        reply_body_view(msg_id as int, "txn_ok"@, envelope.msg_id as int).insert(
            "txn"@,
            JsonView::Array(reports),
        ),
    )
}

/// `txn`: the node carries out the operations one after another and answers
/// `txn_ok` with what each of them reports. A transaction with an operation
/// that is none is refused as a whole.
pub open spec fn txn_effect(pre: State, request: JsonView) -> Result<(State, JsonView), ProtocolError> {
    match sender_refusal(pre.node_id, request) {
        Some(e) => Err(e),
        None => match txn_ops(request) {
            None => Err(ProtocolError::Malformed),
            Some(ops) => if pre.next_id == u64::MAX {
                Err(ProtocolError::IdsExhausted)
            } else {
                Ok(
                    (
                        State {
                            store: store_after_all(pre.store, ops),
                            next_id: (pre.next_id + 1) as u64,
                            ..pre
                        },
                        txn_ok_view(request, pre.next_id, reports_of(pre.store, ops)),
                    ),
                )
            },
        },
    }
}

/// What a node in steady state does with a message, by the message's type.
pub open spec fn handled(pre: State, request: JsonView) -> Result<(State, JsonView), ProtocolError> {
    match type_of(request) {
        None => Err(ProtocolError::Malformed),
        Some(tag) => if tag == "init"@ {
            Err(ProtocolError::AlreadyInitialized)
        } else if tag == "txn"@ {
            txn_effect(pre, request)
        } else {
            Err(ProtocolError::UnknownType)
        },
    }
}

/// The node went from `pre` to `post` and answered `result` as `effect`
/// prescribes; a refused message leaves the node as it was.
pub open spec fn stepped(
    pre: State,
    post: State,
    result: Result<Json, ProtocolError>,
    effect: Result<(State, JsonView), ProtocolError>,
) -> bool {
    match effect {
        Ok((state, answer)) => post == state && result is Ok && result->Ok_0@ == answer,
        Err(e) => post == pre && result == Err::<Json, ProtocolError>(e),
    }
}

/// The operation that a JSON document stands for.
pub fn decode_op(v: &Json) -> (r: Option<Op>)
    ensures
        r == op_of(v@),
{
    let items = match v.as_array() {
        Some(items) => items,
        None => {
            return None;
        },
    };
    proof {
        lemma_items_view_index(items@);
    }
    if items.len() != 3 {
        return None;
    }
    let function = match items[0].as_str() {
        Some(s) => s.to_owned(),
        None => {
            return None;
        },
    };
    let key = match items[1].as_i64() {
        Some(key) => key,
        None => {
            return None;
        },
    };
    if function == "r".to_owned() {
        Some(Op::Read(key))
    } else if function == "append".to_owned() {
        match items[2].as_i64() {
            Some(value) => Some(Op::Append(key, value)),
            None => None,
        }
    } else {
        None
    }
}

/// The operations that a JSON array stands for.
pub fn decode_ops(v: &Json) -> (r: Option<Vec<Op>>)
    ensures
        r matches Some(ops) ==> ops_of(v@) == Some(ops@),
        r is None ==> ops_of(v@) is None,
{
    let items = match v.as_array() {
        Some(items) => items,
        None => {
            return None;
        },
    };
    proof {
        lemma_items_view_index(items@);
    }
    let ghost views = v@->Array_0;
    let mut ops: Vec<Op> = Vec::new();
    let mut i: usize = 0;
    while i < items.len()
        invariant
            i <= items.len(),
            ops.len() == i,
            v@ == JsonView::Array(views),
            views.len() == items.len(),
            forall|j: int| 0 <= j < items.len() ==> #[trigger] views[j] == items@[j]@,
            forall|j: int| 0 <= j < i ==> op_of(#[trigger] views[j]) == Some(ops@[j]),
        decreases items.len() - i,
    {
        match decode_op(&items[i]) {
            Some(op) => {
                ops.push(op);
            },
            None => {
                assert(op_of(views[i as int]) is None);
                return None;
            },
        }
        i = i + 1;
    }
    assert(ops@ =~= ops_of(v@).unwrap());
    Some(ops)
}

/// The lists held in a map.
pub open spec fn lists_of(held: Map<i64, Vec<i64>>) -> Store {
    held.map_values(|list: Vec<i64>| list@)
}

/// A node that keeps lists of integers and changes them by transactions.
pub struct Node {
    inner: crate::message::Node,
    data: HashMap<i64, Vec<i64>>,
}

impl View for Node {
    type V = State;

    closed spec fn view(&self) -> State {
        State {
            node_id: self.inner.node_id@,
            node_ids: names(self.inner.node_ids@),
            store: lists_of(self.data@),
            next_id: self.inner.next_id(),
        }
    }
}

impl Node {
    /// A transaction node on top of an initialized node. Its store is empty.
    pub fn new(inner: crate::message::Node) -> (node: Node)
        ensures
            node@ == (State {
                node_id: inner.node_id@,
                node_ids: names(inner.node_ids@),
                store: Map::empty(),
                next_id: inner.next_id(),
            }),
    {
        let node = Node { inner, data: HashMap::new() };
        assert(node@.store =~= Map::empty());
        node
    }

    /// Carries out a read: appends what it reports to `txn`.
    pub fn read(&self, key: i64, txn: &mut Vec<Json>)
        ensures
            items_view(final(txn)@) == items_view(old(txn)@).push(
                report_of(self@.store, Op::Read(key)),
            ),
    {
        let found = match self.data.get(&key) {
            None => Json::Null,
            Some(list) => {
                let mut items: Vec<Json> = Vec::new();
                let mut i: usize = 0;
                while i < list.len()
                    invariant
                        i <= list.len(),
                        items@.len() == i,
                        forall|j: int|
                            0 <= j < i ==> (#[trigger] items@[j])@ == JsonView::Int(list@[j] as int),
                    decreases list.len() - i,
                {
                    items.push(Json::from_i64(list[i]));
                    i = i + 1;
                }
                proof {
                    lemma_items_view_index(items@);
                    assert(items_view(items@) =~= integers_view(list@));
                }
                Json::Array(items)
            },
        };
        let mut report: Vec<Json> = Vec::new();
        report.push(Json::text("r"));
        report.push(Json::from_i64(key));
        report.push(found);
        proof {
            lemma_items_view_index(report@);
            assert(items_view(report@) =~= seq![
                JsonView::Str("r"@),
                JsonView::Int(key as int),
                found@,
            ]);
            lemma_items_view_push(txn@, Json::Array(report));
        }
        txn.push(Json::Array(report));
    }

    /// Carries out an append: appends the value to the list under the key
    /// and what it reports to `txn`.
    pub fn append(&mut self, key: i64, value: i64, txn: &mut Vec<Json>)
        ensures
            final(self)@ == (State {
                store: store_after(old(self)@.store, Op::Append(key, value)),
                ..old(self)@
            }),
            items_view(final(txn)@) == items_view(old(txn)@).push(
                report_of(old(self)@.store, Op::Append(key, value)),
            ),
    {
        let mut report: Vec<Json> = Vec::new();
        report.push(Json::text("append"));
        report.push(Json::from_i64(key));
        report.push(Json::from_i64(value));
        proof {
            lemma_items_view_index(report@);
            assert(items_view(report@) =~= seq![
                JsonView::Str("append"@),
                JsonView::Int(key as int),
                JsonView::Int(value as int),
            ]);
            lemma_items_view_push(txn@, Json::Array(report));
        }
        txn.push(Json::Array(report));
        let mut list = match self.data.remove(&key) {
            Some(list) => list,
            None => Vec::new(),
        };
        list.push(value);
        self.data.insert(key, list);
        assert(final(self)@.store =~= store_after(old(self)@.store, Op::Append(key, value)));
    }

    /// `txn`: carries out the operations and answers with their reports.
    pub fn handle_txn(&mut self, request: &Json) -> (r: Result<Json, ProtocolError>)
        ensures
            stepped(old(self)@, final(self)@, r, txn_effect(old(self)@, request@)),
    {
        let header = match check_sender(self.inner.node_id.as_str(), request) {
            Ok(header) => header,
            Err(e) => {
                return Err(e);
            },
        };
        let ops = match get_body_field(request, "txn") {
            Some(list) => match decode_ops(list) {
                Some(ops) => ops,
                None => {
                    return Err(ProtocolError::Malformed);
                },
            },
            None => {
                return Err(ProtocolError::Malformed);
            },
        };
        if self.inner.room() == 0 {
            return Err(ProtocolError::IdsExhausted);
        }
        let ghost pre = self@;
        let mut response = respond(&mut self.inner.msg_id, &header, "txn_ok");
        let mut reports: Vec<Json> = Vec::new();
        let mut i: usize = 0;
        assert(ops@.take(0) =~= Seq::<Op>::empty());
        assert(items_view(reports@) =~= Seq::<JsonView>::empty());
        assert(self@.store =~= pre.store);
        while i < ops.len()
            invariant
                i <= ops.len(),
                self@ == (State {
                    store: store_after_all(pre.store, ops@.take(i as int)),
                    next_id: (pre.next_id + 1) as u64,
                    ..pre
                }),
                items_view(reports@) == reports_of(pre.store, ops@.take(i as int)),
            decreases ops.len() - i,
        {
            proof {
                assert(ops@.take(i + 1).drop_last() =~= ops@.take(i as int));
            }
            match ops[i] {
                Op::Read(key) => {
                    self.read(key, &mut reports);
                },
                Op::Append(key, value) => {
                    self.append(key, value, &mut reports);
                },
            }
            i = i + 1;
        }
        proof {
            assert(ops@.take(ops.len() as int) =~= ops@);
            lemma_with_body_field(
                header.dest@,
                header.src@,
                reply_body_view(pre.next_id as int, "txn_ok"@, header.msg_id as int),
                "txn"@,
                JsonView::Array(reports_of(pre.store, ops@)),
            );
        }
        set_body_field(&mut response, "txn", Json::Array(reports));
        Ok(response)
    }

    /// Handles one message of the steady state by its type.
    pub fn handle(&mut self, request: &Json) -> (r: Result<Json, ProtocolError>)
        ensures
            stepped(old(self)@, final(self)@, r, handled(old(self)@, request@)),
    {
        let tag = match message_type(request) {
            Some(tag) => tag,
            None => {
                return Err(ProtocolError::Malformed);
            },
        };
        if tag == "init".to_owned() {
            Err(ProtocolError::AlreadyInitialized)
        } else if tag == "txn".to_owned() {
            self.handle_txn(request)
        } else {
            Err(ProtocolError::UnknownType)
        }
    }

    /// The list under `key`, if the store has one.
    pub fn list(&self, key: i64) -> (r: Option<&Vec<i64>>)
        ensures
            match r {
                Some(list) => self@.store.contains_key(key) && self@.store[key] == list@,
                None => !self@.store.contains_key(key),
            },
    {
        self.data.get(&key)
    }
}

} // verus!
