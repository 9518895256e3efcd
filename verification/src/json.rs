use vstd::prelude::*;

verus! {

/// A JSON document. An integer is held as a number; any other number is
/// held as the text that stands for it, and the library does no arithmetic
/// on it.
///
/// An object is kept as the list of its members in the order they were
/// written. A name may occur more than once; the last occurrence is the one
/// that counts, exactly as if the members had been inserted into a map one
/// after another.
#[derive(Debug, PartialEq, Eq)]
pub enum Json {
    Null,
    Bool(bool),
    Int(i128),
    /// A number that is no integer of 64 bits, as its text.
    Real(String),
    Str(String),
    Array(Vec<Json>),
    Object(Vec<(String, Json)>),
}

/// The mathematical value of a [`Json`] document.
pub enum JsonView {
    Null,
    Bool(bool),
    Int(int),
    /// A number that is no integer of 64 bits, by the text that stands for it.
    Real(Seq<char>),
    Str(Seq<char>),
    Array(Seq<JsonView>),
    Object(Map<Seq<char>, JsonView>),
}

/// The map denoted by a member list: later members override earlier ones.
pub open spec fn members_view(members: Seq<(String, Json)>) -> Map<Seq<char>, JsonView>
    decreases members, 0int,
{
    if members.len() == 0 {
        Map::empty()
    } else {
        members_view(members.drop_last()).insert(members.last().0@, json_view(members.last().1))
    }
}

/// The values of a list of documents, in order.
pub open spec fn items_view(items: Seq<Json>) -> Seq<JsonView>
    decreases items, 0int,
{
    if items.len() == 0 {
        Seq::empty()
    } else {
        items_view(items.drop_last()).push(json_view(items.last()))
    }
}

/// The value of a document.
pub open spec fn json_view(j: Json) -> JsonView
    decreases j, 1int,
{
    match j {
        Json::Null => JsonView::Null,
        Json::Bool(b) => JsonView::Bool(b),
        Json::Int(n) => JsonView::Int(n as int),
        Json::Real(text) => JsonView::Real(text@),
        Json::Str(s) => JsonView::Str(s@),
        Json::Array(items) => JsonView::Array(items_view(items@)),
        Json::Object(members) => JsonView::Object(members_view(members@)),
    }
}

impl View for Json {
    type V = JsonView;

    open spec fn view(&self) -> JsonView {
        json_view(*self)
    }
}

/// The member `name` of an object; `None` for a missing member and for a
/// document that is not an object.
pub open spec fn field(v: JsonView, name: Seq<char>) -> Option<JsonView> {
    match v {
        JsonView::Object(m) => if m.contains_key(name) {
            Some(m[name])
        } else {
            None
        },
        _ => None,
    }
}

/// The document as an unsigned 64-bit integer, if it is one.
pub open spec fn as_u64_spec(v: JsonView) -> Option<u64> {
    match v {
        JsonView::Int(n) => if 0 <= n <= u64::MAX {
            Some(n as u64)
        } else {
            None
        },
        _ => None,
    }
}

/// The document as a signed 64-bit integer, if it is one.
pub open spec fn as_i64_spec(v: JsonView) -> Option<i64> {
    match v {
        JsonView::Int(n) => if i64::MIN <= n <= i64::MAX {
            Some(n as i64)
        } else {
            None
        },
        _ => None,
    }
}

/// The document as text, if it is a string.
pub open spec fn as_str_spec(v: JsonView) -> Option<Seq<char>> {
    match v {
        JsonView::Str(s) => Some(s),
        _ => None,
    }
}

/// The elements of the document, if it is an array.
pub open spec fn as_array_spec(v: JsonView) -> Option<Seq<JsonView>> {
    match v {
        JsonView::Array(items) => Some(items),
        _ => None,
    }
}

/// The object `v` with member `name` set to `value`. Anything that is not an
/// object is left alone.
pub open spec fn with_field(v: JsonView, name: Seq<char>, value: JsonView) -> JsonView {
    match v {
        JsonView::Object(m) => JsonView::Object(m.insert(name, value)),
        _ => v,
    }
}

/// The object `v` without member `name`.
pub open spec fn without_field(v: JsonView, name: Seq<char>) -> JsonView {
    match v {
        JsonView::Object(m) => JsonView::Object(m.remove(name)),
        _ => v,
    }
}

impl Json {
    /// A number from an unsigned 64-bit integer.
    pub fn from_u64(n: u64) -> (j: Json)
        ensures
            j@ == JsonView::Int(n as int),
    {
        Json::Int(n as i128)
    }

    /// A number from a signed 64-bit integer.
    pub fn from_i64(n: i64) -> (j: Json)
        ensures
            j@ == JsonView::Int(n as int),
    {
        Json::Int(n as i128)
    }

    /// A string with the given text.
    pub fn text(s: &str) -> (j: Json)
        ensures
            j@ == JsonView::Str(s@),
    {
        Json::Str(s.to_owned())
    }

    /// An object without members.
    pub fn object() -> (j: Json)
        ensures
            j@ == JsonView::Object(Map::empty()),
    {
        Json::Object(Vec::new())
    }

    /// The number as an unsigned 64-bit integer; `None` for anything else.
    pub fn as_u64(&self) -> (r: Option<u64>)
        ensures
            r == as_u64_spec(self@),
    {
        match self {
            Json::Int(n) => if 0 <= *n && *n <= 0xffff_ffff_ffff_ffff {
                Some(*n as u64)
            } else {
                None
            },
            _ => None,
        }
    }

    /// The number as a signed 64-bit integer; `None` for anything else.
    pub fn as_i64(&self) -> (r: Option<i64>)
        ensures
            r == as_i64_spec(self@),
    {
        match self {
            Json::Int(n) => if -0x8000_0000_0000_0000 <= *n && *n <= 0x7fff_ffff_ffff_ffff {
                Some(*n as i64)
            } else {
                None
            },
            _ => None,
        }
    }

    /// The text of a string; `None` for anything else.
    pub fn as_str(&self) -> (r: Option<&str>)
        ensures
            match r {
                Some(s) => as_str_spec(self@) == Some(s@),
                None => as_str_spec(self@) is None,
            },
    {
        match self {
            Json::Str(s) => Some(s.as_str()),
            _ => None,
        }
    }

    /// The elements of an array; `None` for anything else.
    pub fn as_array(&self) -> (r: Option<&Vec<Json>>)
        ensures
            match r {
                Some(items) => as_array_spec(self@) == Some(items_view(items@)),
                None => as_array_spec(self@) is None,
            },
    {
        match self {
            Json::Array(items) => Some(items),
            _ => None,
        }
    }

    /// The member `name` of an object.
    pub fn get(&self, name: &str) -> (r: Option<&Json>)
        ensures
            match r {
                Some(v) => field(self@, name@) == Some(v@),
                None => field(self@, name@) is None,
            },
    {
        match self {
            Json::Object(members) => {
                let key = name.to_owned();
                let mut i: usize = members.len();
                while i > 0
                    invariant
                        i <= members.len(),
                        key@ == name@,
                        self@ == JsonView::Object(members_view(members@)),
                        forall|j: int| i <= j < members.len() ==> (#[trigger] members@[j]).0@ != name@,
                    decreases i,
                {
                    i = i - 1;
                    if members[i].0 == key {
                        proof {
                            lemma_members_view_last(members@, i as int, name@);
                        }
                        return Some(&members[i].1);
                    }
                }
                proof {
                    lemma_members_view_absent(members@, name@);
                }
                None
            },
            _ => None,
        }
    }

    /// Sets member `name` of an object to `value`. A document that is not an
    /// object is left as it is, and the answer is `false`.
    pub fn insert(&mut self, name: &str, value: Json) -> (done: bool)
        ensures
            done == (old(self)@ is Object),
            final(self)@ == with_field(old(self)@, name@, value@),
    {
        match self {
            Json::Object(members) => {
                let key = name.to_owned();
                proof {
                    lemma_members_view_push(members@, key, value);
                }
                members.push((key, value));
                true
            },
            _ => false,
        }
    }

    /// Takes member `name` out of an object and hands its value over.
    /// Nothing changes where there is no such member.
    pub fn take(&mut self, name: &str) -> (r: Option<Json>)
        ensures
            match r {
                Some(v) => field(old(self)@, name@) == Some(v@),
                None => field(old(self)@, name@) is None,
            },
            final(self)@ == without_field(old(self)@, name@),
    {
        match self {
            Json::Object(members) => {
                let key = name.to_owned();
                let mut source: Vec<(String, Json)> = Vec::new();
                std::mem::swap(members, &mut source);
                let ghost all = source@;
                let mut found: Option<Json> = None;
                for member in it: source
                    invariant
                        key@ == name@,
                        it.seq() == all,
                        members_view(members@) == members_view(all.take(it.index() as int)).remove(
                            name@,
                        ),
                        match found {
                            Some(v) => field(
                                JsonView::Object(members_view(all.take(it.index() as int))),
                                name@,
                            ) == Some(v@),
                            None => !members_view(all.take(it.index() as int)).contains_key(name@),
                        },
                {
                    proof {
                        let i = it.index() as int;
                        assert(all.take(i + 1) =~= all.take(i).push(all[i]));
                        lemma_members_view_push(all.take(i), all[i].0, all[i].1);
                    }
                    if member.0 == key {
                        found = Some(member.1);
                        assert(members_view(members@) =~= members_view(
                            all.take(it.index() + 1),
                        ).remove(name@));
                    } else {
                        proof {
                            lemma_members_view_push(members@, member.0, member.1);
                        }
                        members.push(member);
                        assert(members_view(members@) =~= members_view(
                            all.take(it.index() + 1),
                        ).remove(name@));
                    }
                }
                assert(all.take(all.len() as int) =~= all);
                found
            },
            _ => None,
        }
    }

    /// A deep copy.
    pub fn duplicate(&self) -> (copy: Json)
        ensures
            copy@ == self@,
        decreases self,
    {
        match self {
            Json::Null => Json::Null,
            Json::Bool(b) => Json::Bool(*b),
            Json::Int(n) => Json::Int(*n),
            Json::Real(text) => Json::Real(text.clone()),
            Json::Str(s) => Json::Str(s.clone()),
            Json::Array(items) => {
                let mut out: Vec<Json> = Vec::new();
                let mut i: usize = 0;
                assert(decreases_to!(*self => *items));
                while i < items.len()
                    invariant
                        i <= items.len(),
                        decreases_to!(*self => *items),
                        items_view(out@) == items_view(items@.take(i as int)),
                    decreases items.len() - i,
                {
                    proof {
                        assert(decreases_to!(*items => items[i as int]));
                    }
                    let item = items[i].duplicate();
                    proof {
                        lemma_items_view_push(out@, item);
                        lemma_items_view_push(items@.take(i as int), items@[i as int]);
                        assert(items@.take(i + 1) =~= items@.take(i as int).push(items@[i as int]));
                    }
                    out.push(item);
                    i = i + 1;
                }
                assert(items@.take(items.len() as int) =~= items@);
                Json::Array(out)
            },
            Json::Object(members) => {
                let mut out: Vec<(String, Json)> = Vec::new();
                let mut i: usize = 0;
                assert(decreases_to!(*self => *members));
                while i < members.len()
                    invariant
                        i <= members.len(),
                        decreases_to!(*self => *members),
                        members_view(out@) == members_view(members@.take(i as int)),
                    decreases members.len() - i,
                {
                    let key = members[i].0.clone();
                    proof {
                        assert(decreases_to!(*members => members[i as int]));
                        assert(decreases_to!(members[i as int] => members[i as int].1));
                    }
                    let value = members[i].1.duplicate();
                    proof {
                        lemma_members_view_push(out@, key, value);
                        lemma_members_view_push(
                            members@.take(i as int),
                            members@[i as int].0,
                            members@[i as int].1,
                        );
                        assert(members@.take(i + 1) =~= members@.take(i as int).push(
                            members@[i as int],
                        ));
                    }
                    out.push((key, value));
                    i = i + 1;
                }
                assert(members@.take(members.len() as int) =~= members@);
                Json::Object(out)
            },
        }
    }
}

/// Appending a member inserts it into the denoted map.
pub proof fn lemma_members_view_push(members: Seq<(String, Json)>, key: String, value: Json)
    ensures
        members_view(members.push((key, value))) == members_view(members).insert(key@, value@),
{
    assert(members.push((key, value)).drop_last() =~= members);
}

/// Appending a document appends its value.
pub proof fn lemma_items_view_push(items: Seq<Json>, item: Json)
    ensures
        items_view(items.push(item)) == items_view(items).push(item@),
{
    assert(items.push(item).drop_last() =~= items);
}

/// The values of a list are the values of its elements.
pub proof fn lemma_items_view_index(items: Seq<Json>)
    ensures
        items_view(items).len() == items.len(),
        forall|i: int| 0 <= i < items.len() ==> #[trigger] items_view(items)[i] == items[i]@,
    decreases items.len(),
{
    if items.len() > 0 {
        lemma_items_view_index(items.drop_last());
    }
}

/// The name of every member is present in the denoted map.
pub proof fn lemma_members_view_has(members: Seq<(String, Json)>, i: int)
    requires
        0 <= i < members.len(),
    ensures
        members_view(members).contains_key(members[i].0@),
    decreases members.len(),
{
    if i < members.len() - 1 {
        assert(members.drop_last()[i] == members[i]);
        lemma_members_view_has(members.drop_last(), i);
    }
}

/// A name that no member carries is absent from the denoted map.
pub proof fn lemma_members_view_absent(members: Seq<(String, Json)>, name: Seq<char>)
    requires
        forall|j: int| 0 <= j < members.len() ==> (#[trigger] members[j]).0@ != name,
    ensures
        !members_view(members).contains_key(name),
    decreases members.len(),
{
    if members.len() > 0 {
        let rest = members.drop_last();
        assert forall|j: int| 0 <= j < rest.len() implies (#[trigger] rest[j]).0@ != name by {
            assert(rest[j] == members[j]);
        }
        lemma_members_view_absent(rest, name);
    }
}

/// The denoted map sends a name to the value of the last member that carries it.
pub proof fn lemma_members_view_last(members: Seq<(String, Json)>, i: int, name: Seq<char>)
    requires
        0 <= i < members.len(),
        members[i].0@ == name,
        forall|j: int| i < j < members.len() ==> (#[trigger] members[j]).0@ != name,
    ensures
        members_view(members).contains_key(name),
        members_view(members)[name] == members[i].1@,
    decreases members.len(),
{
    if i < members.len() - 1 {
        let rest = members.drop_last();
        assert forall|j: int| i < j < rest.len() implies (#[trigger] rest[j]).0@ != name by {
            assert(rest[j] == members[j]);
        }
        assert(rest[i] == members[i]);
        lemma_members_view_last(rest, i, name);
        assert(members.last().0@ != name);
    }
}

} // verus!
