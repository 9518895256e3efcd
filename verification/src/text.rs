use crate::error::ProtocolError;
use crate::json::{items_view, lemma_members_view_push, members_view, Json, JsonView};
use vstd::prelude::*;

verus! {

#[verifier::external_type_specification]
#[verifier::external_body]
pub struct ExValue(serde_json::Value);

/// The document that a `serde_json::Value` holds.
pub uninterp spec fn value_view(v: serde_json::Value) -> JsonView;

/// The document that `serde_json::from_str` reads from a text; `None` where
/// it reports an error.
pub uninterp spec fn parsed(text: Seq<char>) -> Option<JsonView>;

/// The text that `serde_json::to_string` writes for a document; `None`
/// where it reports an error.
pub uninterp spec fn rendered(doc: JsonView) -> Option<Seq<char>>;

/// The documents that a list of values holds.
pub open spec fn values_view(items: Seq<serde_json::Value>) -> Seq<JsonView> {
    Seq::new(items.len(), |i: int| value_view(items[i]))
}

/// The map that a list of named values denotes: later ones override earlier ones.
pub open spec fn pairs_view(pairs: Seq<(String, serde_json::Value)>) -> Map<Seq<char>, JsonView>
    decreases pairs.len(),
{
    if pairs.len() == 0 {
        Map::empty()
    } else {
        pairs_view(pairs.drop_last()).insert(pairs.last().0@, value_view(pairs.last().1))
    }
}

/// No two pairs have the same name.
pub open spec fn distinct_names(pairs: Seq<(String, serde_json::Value)>) -> bool {
    forall|i: int, j: int|
        0 <= i < j < pairs.len() ==> (#[trigger] pairs[i]).0@ != (#[trigger] pairs[j]).0@
}

/// One level of a `serde_json::Value`: what kind of document it is, with
/// its parts still as values.
pub enum Parts {
    Null,
    Bool(bool),
    /// A number: what it is as an unsigned and as a signed integer of 64
    /// bits, as far as it is one, and the text that stands for it.
    Number(Option<u64>, Option<i64>, String),
    Str(String),
    Array(Vec<serde_json::Value>),
    Object(Vec<(String, serde_json::Value)>),
}

/// The document that the parts of a value make up. A number that is no
/// integer of 64 bits is known by its text.
pub open spec fn parts_view(parts: Parts) -> JsonView {
    match parts {
        Parts::Null => JsonView::Null,
        Parts::Bool(b) => JsonView::Bool(b),
        Parts::Number(Some(n), _, _) => JsonView::Int(n as int),
        Parts::Number(None, Some(n), _) => JsonView::Int(n as int),
        Parts::Number(None, None, text) => JsonView::Real(text@),
        Parts::Str(s) => JsonView::Str(s@),
        Parts::Array(items) => JsonView::Array(values_view(items@)),
        Parts::Object(pairs) => JsonView::Object(pairs_view(pairs@)),
    }
}

/// `serde_json::from_str` at type `serde_json::Value`. The contract gives
/// the result a name and claims nothing else: the same text is read as the
/// same document, and an error is an error every time.
#[verifier::external_body]
fn parse_value(text: &str) -> (r: Option<serde_json::Value>)
    ensures
        match r {
            Some(v) => parsed(text@) == Some(value_view(v)),
            None => parsed(text@) is None,
        },
{
    serde_json::from_str::<serde_json::Value>(text).ok()
}

/// `serde_json::to_string` on a `serde_json::Value`. The contract gives
/// the result a name and claims nothing else: values that hold the same
/// document are written as the same text, and an error is an error every
/// time. Success is not promised.
#[verifier::external_body]
fn render_value(v: &serde_json::Value) -> (r: Option<String>)
    ensures
        match r {
            Some(text) => rendered(value_view(*v)) == Some(text@),
            None => rendered(value_view(*v)) is None,
        },
{
    serde_json::to_string(v).ok()
}

/// Takes a `serde_json::Value` apart by its variant. Of a number it hands
/// out what `Number::as_u64` and `Number::as_i64` return and the text that
/// `Number`'s `Display` writes; of an object, the members as the map
/// iterates them. The contract says that the parts make up the document of
/// the value: a number that is an unsigned integer of 64 bits is that
/// integer, one that is only a signed one is that integer, and any other
/// number is known by its text; and that no two members of an object have
/// the same name.
#[verifier::external_body]
fn unpack(v: serde_json::Value) -> (parts: Parts)
    ensures
        value_view(v) == parts_view(parts),
        parts matches Parts::Object(pairs) ==> distinct_names(pairs@),
{
    match v {
        serde_json::Value::Null => Parts::Null,
        serde_json::Value::Bool(b) => Parts::Bool(b),
        serde_json::Value::Number(n) => Parts::Number(n.as_u64(), n.as_i64(), n.to_string()),
        serde_json::Value::String(s) => Parts::Str(s),
        serde_json::Value::Array(items) => Parts::Array(items),
        serde_json::Value::Object(members) => Parts::Object(members.into_iter().collect()),
    }
}

/// Puts a `serde_json::Value` together from its parts, one variant for each
/// kind but numbers. The members of an object, which must differ in their
/// names, are collected into a `serde_json::Map`. The contract says that the
/// value holds the document that the parts make up.
#[verifier::external_body]
fn pack(parts: Parts) -> (v: serde_json::Value)
    requires
        !(parts is Number),
        parts matches Parts::Object(pairs) ==> distinct_names(pairs@),
    ensures
        value_view(v) == parts_view(parts),
{
    match parts {
        Parts::Null | Parts::Number(..) => serde_json::Value::Null,
        Parts::Bool(b) => serde_json::Value::Bool(b),
        Parts::Str(s) => serde_json::Value::String(s),
        Parts::Array(items) => serde_json::Value::Array(items),
        Parts::Object(pairs) => serde_json::Value::Object(pairs.into_iter().collect()),
    }
}

/// `serde_json::Value::from` on a `u64`: the value holds that integer.
#[verifier::external_body]
fn unsigned_value(n: u64) -> (v: serde_json::Value)
    ensures
        value_view(v) == JsonView::Int(n as int),
{
    serde_json::Value::from(n)
}

/// `serde_json::Value::from` on an `i64`: the value holds that integer.
#[verifier::external_body]
fn signed_value(n: i64) -> (v: serde_json::Value)
    ensures
        value_view(v) == JsonView::Int(n as int),
{
    serde_json::Value::from(n)
}

/// Whether the arrays and objects of a document are nested at most `depth`
/// deep.
pub open spec fn within(doc: JsonView, depth: nat) -> bool
    decreases depth,
{
    match doc {
        JsonView::Array(items) => depth > 0 && forall|i: int|
            0 <= i < items.len() ==> within(#[trigger] items[i], (depth - 1) as nat),
        JsonView::Object(members) => depth > 0 && forall|k: Seq<char>| #[trigger]
            members.contains_key(k) ==> within(members[k], (depth - 1) as nat),
        _ => true,
    }
}

/// Whether a document can be written: every integer in it fits into 64
/// bits, signed or unsigned, and every other number is held as the very
/// text that is read as that number.
pub open spec fn writable(doc: JsonView) -> bool
    decreases doc,
{
    match doc {
        JsonView::Int(n) => i64::MIN <= n <= u64::MAX,
        JsonView::Real(text) => parsed(text) == Some(JsonView::Real(text)),
        JsonView::Array(items) => forall|i: int|
            0 <= i < items.len() ==> writable(#[trigger] items[i]),
        JsonView::Object(members) => forall|k: Seq<char>| #[trigger]
            members.contains_key(k) ==> writable(members[k]),
        _ => true,
    }
}

/// How deep a document is read. `serde_json` itself gives up on a text
/// before its arrays and objects are nested this deep.
pub const DEPTH: usize = 128;

/// The name of every pair is present in the denoted map, and with one pair
/// per name the map sends the name to the document of that pair.
proof fn lemma_pairs_view_at(pairs: Seq<(String, serde_json::Value)>, i: int)
    requires
        distinct_names(pairs),
        0 <= i < pairs.len(),
    ensures
        pairs_view(pairs).contains_key(pairs[i].0@),
        pairs_view(pairs)[pairs[i].0@] == value_view(pairs[i].1),
    decreases pairs.len(),
{
    if i < pairs.len() - 1 {
        let rest = pairs.drop_last();
        assert(distinct_names(rest)) by {
            assert forall|a: int, b: int| 0 <= a < b < rest.len() implies (#[trigger] rest[a]).0@ != (
            #[trigger] rest[b]).0@ by {
                assert(rest[a] == pairs[a] && rest[b] == pairs[b]);
            }
        }
        assert(rest[i] == pairs[i]);
        lemma_pairs_view_at(rest, i);
        assert(pairs[i].0@ != pairs[pairs.len() - 1].0@);
    }
}

/// An array with an element that cannot be held cannot be held.
proof fn lemma_not_within_array(items: Seq<JsonView>, depth: nat, i: int)
    requires
        0 <= i < items.len(),
        depth == 0 || !within(items[i], (depth - 1) as nat),
    ensures
        !within(JsonView::Array(items), depth),
{
    assert(JsonView::Array(items)->Array_0 == items);
}

/// An object with a member that cannot be held cannot be held.
proof fn lemma_not_within_object(members: Map<Seq<char>, JsonView>, depth: nat, name: Seq<char>)
    requires
        members.contains_key(name),
        depth == 0 || !within(members[name], (depth - 1) as nat),
    ensures
        !within(JsonView::Object(members), depth),
{
    assert(JsonView::Object(members)->Object_0 == members);
}

/// Turns a value into a document of the library, down to `depth` levels of
/// arrays and objects.
fn lift(v: serde_json::Value, depth: usize) -> (r: Option<Json>)
    ensures
        match r {
            Some(doc) => doc@ == value_view(v) && within(value_view(v), depth as nat),
            None => !within(value_view(v), depth as nat),
        },
    decreases depth,
{
    match unpack(v) {
        Parts::Null => Some(Json::Null),
        Parts::Bool(b) => Some(Json::Bool(b)),
        Parts::Number(Some(n), _, _) => Some(Json::from_u64(n)),
        Parts::Number(None, Some(n), _) => Some(Json::from_i64(n)),
        Parts::Number(None, None, text) => Some(Json::Real(text)),
        Parts::Str(s) => Some(Json::Str(s)),
        Parts::Array(items) => {
            if depth == 0 {
                return None;
            }
            let ghost all = items@;
            let mut out: Vec<Json> = Vec::new();
            for item in it: items
                invariant
                    it.seq() == all,
                    depth > 0,
                    value_view(v) == JsonView::Array(values_view(all)),
                    out@.len() == it.index(),
                    forall|i: int|
                        0 <= i < it.index() ==> (#[trigger] out@[i])@ == value_view(all[i]) && within(
                            value_view(all[i]),
                            (depth - 1) as nat,
                        ),
            {
                match lift(item, depth - 1) {
                    Some(doc) => {
                        out.push(doc);
                    },
                    None => {
                        proof {
                            let i = it.index();
                            assert(item == all[i]);
                            assert(!within(value_view(item), (depth - 1) as nat));
                            assert(values_view(all)[i] == value_view(item));
                            lemma_not_within_array(values_view(all), depth as nat, i);
                        }
                        return None;
                    },
                }
            }
            proof {
                crate::json::lemma_items_view_index(out@);
                assert(items_view(out@) =~= values_view(all));
                assert forall|i: int| 0 <= i < values_view(all).len() implies within(
                    #[trigger] values_view(all)[i],
                    (depth - 1) as nat,
                ) by {
                    assert(out@[i]@ == value_view(all[i]));
                }
            }
            Some(Json::Array(out))
        },
        Parts::Object(pairs) => {
            if depth == 0 {
                return None;
            }
            let ghost all = pairs@;
            let mut out: Vec<(String, Json)> = Vec::new();
            for pair in it: pairs
                invariant
                    it.seq() == all,
                    depth > 0,
                    value_view(v) == JsonView::Object(pairs_view(all)),
                    distinct_names(all),
                    members_view(out@) == pairs_view(all.take(it.index())),
                    forall|k: Seq<char>| #[trigger]
                        pairs_view(all.take(it.index())).contains_key(k) ==> within(
                            pairs_view(all.take(it.index()))[k],
                            (depth - 1) as nat,
                        ),
            {
                proof {
                    assert(all.take(it.index() + 1).drop_last() =~= all.take(it.index()));
                }
                let (name, value) = pair;
                match lift(value, depth - 1) {
                    Some(doc) => {
                        proof {
                            lemma_members_view_push(out@, name, doc);
                        }
                        out.push((name, doc));
                    },
                    None => {
                        proof {
                            let i = it.index();
                            assert(pair == all[i]);
                            lemma_pairs_view_at(all, i);
                            assert(!within(pairs_view(all)[all[i].0@], (depth - 1) as nat));
                            lemma_not_within_object(pairs_view(all), depth as nat, all[i].0@);
                        }
                        return None;
                    },
                }
            }
            proof {
                assert(all.take(all.len() as int) =~= all);
            }
            Some(Json::Object(out))
        },
    }
}

/// Whether one of `pairs` has the name `name`.
fn has_pair(pairs: &Vec<(String, serde_json::Value)>, name: &String) -> (r: bool)
    ensures
        r == exists|j: int| 0 <= j < pairs.len() && (#[trigger] pairs@[j]).0@ == name@,
{
    let mut i: usize = 0;
    while i < pairs.len()
        invariant
            i <= pairs.len(),
            forall|j: int| 0 <= j < i ==> (#[trigger] pairs@[j]).0@ != name@,
        decreases pairs.len() - i,
    {
        if pairs[i].0 == *name {
            return true;
        }
        i = i + 1;
    }
    false
}

/// The place of the last member with the name of member `i`.
fn last_with_name(members: &Vec<(String, Json)>, i: usize) -> (k: usize)
    requires
        i < members.len(),
    ensures
        i <= k < members.len(),
        members@[k as int].0@ == members@[i as int].0@,
        forall|j: int| k < j < members.len() ==> (#[trigger] members@[j]).0@ != members@[i as int].0@,
{
    let mut k: usize = members.len() - 1;
    while k > i
        invariant
            i <= k < members.len(),
            forall|j: int| k < j < members.len() ==> (#[trigger] members@[j]).0@ != members@[i as int].0@,
        decreases k,
    {
        if members[k].0 == members[i].0 {
            return k;
        }
        k = k - 1;
    }
    i
}

/// Turns a document of the library into a value. Of the members of an
/// object that share a name, the last one is taken.
fn lower(doc: &Json) -> (r: Option<serde_json::Value>)
    ensures
        match r {
            Some(v) => value_view(v) == doc@ && writable(doc@),
            None => !writable(doc@),
        },
    decreases doc,
{
    match doc {
        Json::Null => Some(pack(Parts::Null)),
        Json::Bool(b) => Some(pack(Parts::Bool(*b))),
        Json::Int(n) => {
            if 0 <= *n && *n <= 0xffff_ffff_ffff_ffff {
                Some(unsigned_value(*n as u64))
            } else if -0x8000_0000_0000_0000 <= *n && *n < 0 {
                Some(signed_value(*n as i64))
            } else {
                None
            }
        },
        Json::Real(text) => {
            let held = match parse_value(text.as_str()) {
                Some(first) => match unpack(first) {
                    Parts::Number(None, None, written) => written == *text,
                    _ => false,
                },
                None => false,
            };
            if held {
                parse_value(text.as_str())
            } else {
                None
            }
        },
        Json::Str(s) => Some(pack(Parts::Str(s.clone()))),
        Json::Array(items) => {
            let mut values: Vec<serde_json::Value> = Vec::new();
            let mut i: usize = 0;
            assert(decreases_to!(*doc => *items));
            proof {
                crate::json::lemma_items_view_index(items@);
                assert(doc@->Array_0 == items_view(items@));
            }
            while i < items.len()
                invariant
                    i <= items.len(),
                    decreases_to!(*doc => *items),
                    doc@ == JsonView::Array(items_view(items@)),
                    items_view(items@).len() == items.len(),
                    forall|j: int|
                        0 <= j < items.len() ==> #[trigger] items_view(items@)[j] == items@[j]@,
                    values@.len() == i,
                    forall|j: int|
                        0 <= j < i ==> value_view(#[trigger] values@[j]) == items@[j]@ && writable(
                            items@[j]@,
                        ),
                decreases items.len() - i,
            {
                proof {
                    assert(decreases_to!(*items => items[i as int]));
                }
                match lower(&items[i]) {
                    Some(v) => {
                        values.push(v);
                    },
                    None => {
                        proof {
                            assert(doc@->Array_0[i as int] == items@[i as int]@);
                        }
                        return None;
                    },
                }
                i = i + 1;
            }
            proof {
                assert(values_view(values@) =~= items_view(items@));
                assert forall|j: int| 0 <= j < doc@->Array_0.len() implies writable(
                    #[trigger] doc@->Array_0[j],
                ) by {
                    assert(value_view(values@[j]) == items@[j]@);
                }
            }
            Some(pack(Parts::Array(values)))
        },
        Json::Object(members) => {
            let mut pairs: Vec<(String, serde_json::Value)> = Vec::new();
            let mut i: usize = 0;
            let ghost whole = members_view(members@);
            assert(decreases_to!(*doc => *members));
            proof {
                assert(doc@->Object_0 == whole);
                assert(members_view(members@.take(0)).dom() =~= Set::empty());
                assert(pairs_view(pairs@).dom() =~= Set::empty());
            }
            while i < members.len()
                invariant
                    i <= members.len(),
                    decreases_to!(*doc => *members),
                    doc@ == JsonView::Object(whole),
                    whole == members_view(members@),
                    distinct_names(pairs@),
                    pairs_view(pairs@).dom() == members_view(members@.take(i as int)).dom(),
                    forall|j: int|
                        0 <= j < pairs.len() ==> pairs_view(pairs@).contains_key(
                            (#[trigger] pairs@[j]).0@,
                        ),
                    forall|k: Seq<char>| #[trigger]
                        pairs_view(pairs@).contains_key(k) ==> whole.contains_key(k) && whole[k]
                            == pairs_view(pairs@)[k] && writable(whole[k]),
                decreases members.len() - i,
            {
                proof {
                    assert(members@.take(i + 1).drop_last() =~= members@.take(i as int));
                }
                if !has_pair(&pairs, &members[i].0) {
                    let k = last_with_name(members, i);
                    proof {
                        assert(decreases_to!(*members => members[k as int]));
                        assert(decreases_to!(members[k as int] => members[k as int].1));
                        crate::json::lemma_members_view_last(
                            members@,
                            k as int,
                            members@[i as int].0@,
                        );
                    }
                    match lower(&members[k].1) {
                        Some(v) => {
                            let name = members[i].0.clone();
                            proof {
                                assert(pairs@.push((name, v)).drop_last() =~= pairs@);
                                assert forall|a: int, b: int|
                                    0 <= a < b < pairs@.push((name, v)).len() implies (
                                #[trigger] pairs@.push((name, v))[a]).0@ != (
                                #[trigger] pairs@.push((name, v))[b]).0@ by {
                                    if b < pairs.len() {
                                        assert(pairs@[a].0@ != pairs@[b].0@);
                                    } else {
                                        assert(pairs@[a].0@ != name@);
                                    }
                                }
                            }
                            pairs.push((name, v));
                        },
                        None => {
                            proof {
                                assert(!writable(doc@->Object_0[members@[i as int].0@]));
                            }
                            return None;
                        },
                    }
                } else {
                    proof {
                        let j = choose|j: int|
                            0 <= j < pairs.len() && (#[trigger] pairs@[j]).0@ == members@[i as int].0@;
                        assert(pairs_view(pairs@).contains_key(pairs@[j].0@));
                    }
                }
                assert(pairs_view(pairs@).dom() =~= members_view(members@.take(i + 1)).dom());
                i = i + 1;
            }
            proof {
                assert(members@.take(members.len() as int) =~= members@);
                assert(pairs_view(pairs@) =~= whole);
                assert forall|k: Seq<char>| #[trigger]
                    doc@->Object_0.contains_key(k) implies writable(doc@->Object_0[k]) by {}
            }
            Some(pack(Parts::Object(pairs)))
        },
    }
}

/// Reads a document from JSON text. A text that `serde_json` does not
/// accept is refused.
pub fn parse(text: &str) -> (r: Result<Json, ProtocolError>)
    ensures
        match r {
            Ok(doc) => parsed(text@) == Some(doc@),
            Err(e) => {
                &&& e == ProtocolError::Malformed
                &&& (parsed(text@) is None || !within(parsed(text@).unwrap(), DEPTH as nat))
            },
        },
{
    match parse_value(text) {
        Some(v) => match lift(v, DEPTH) {
            Some(doc) => Ok(doc),
            None => Err(ProtocolError::Malformed),
        },
        None => Err(ProtocolError::Malformed),
    }
}

/// Writes a document as JSON text. There is no text for a document with an
/// integer that does not fit into 64 bits, or with another number whose
/// text is not read back as that number; every other document gets the text
/// that `serde_json` writes for it, or none where `serde_json` gives none.
pub fn render(doc: &Json) -> (r: Option<String>)
    ensures
        match r {
            Some(text) => writable(doc@) && rendered(doc@) == Some(text@),
            None => !writable(doc@) || rendered(doc@) is None,
        },
{
    match lower(doc) {
        Some(v) => render_value(&v),
        None => None,
    }
}

/// Reads one request from a line of input: the line must hold a JSON object.
pub fn await_request(input: &str) -> (r: Result<Json, ProtocolError>)
    ensures
        match r {
            Ok(request) => parsed(input@) == Some(request@) && request@ is Object,
            Err(e) => {
                &&& e == ProtocolError::Malformed
                &&& (parsed(input@) is None || !within(parsed(input@).unwrap(), DEPTH as nat)
                    || !(parsed(input@).unwrap() is Object))
            },
        },
{
    match parse(input) {
        Ok(Json::Object(members)) => Ok(Json::Object(members)),
        Ok(_) => Err(ProtocolError::Malformed),
        Err(e) => Err(e),
    }
}

} // verus!
