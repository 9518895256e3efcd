use crate::error::ProtocolError;
use crate::json::{
    as_i64_spec, items_view, lemma_items_view_index, lemma_members_view_has,
    lemma_members_view_push, members_view, Json, JsonView,
};
use crate::message::{
    body_field, body_view, check_sender, envelope_of, envelope_view, get_body_field,
    lemma_message_read_back, lemma_names_differ, lemma_response_read_back,
    lemma_with_body_field, message_type, msg_id_of, names, reply_body_view, reply_to,
    select_targets, sender_refusal, set_body_field, targets, type_of,
};
use vstd::prelude::*;

verus! {

/// The state of a grow-only counter: what each node has counted, by node id.
pub type Counts = Map<Seq<char>, int>;

/// The larger of two integers.
pub open spec fn larger(a: int, b: int) -> int {
    if a >= b {
        a
    } else {
        b
    }
}

/// The merge of two counter states: every node that either side knows, with
/// the larger of the two counts where both know it.
pub open spec fn merge(a: Counts, b: Counts) -> Counts {
    Map::new(
        |k: Seq<char>| a.contains_key(k) || b.contains_key(k),
        |k: Seq<char>|
            if a.contains_key(k) && b.contains_key(k) {
                larger(a[k], b[k])
            } else if a.contains_key(k) {
                a[k]
            } else {
                b[k]
            },
    )
}

/// `a` is below `b`: `b` knows every node that `a` knows, with a count at
/// least as large.
pub open spec fn below(a: Counts, b: Counts) -> bool {
    forall|k: Seq<char>| #[trigger] a.contains_key(k) ==> b.contains_key(k) && a[k] <= b[k]
}

/// The value of a counter: the sum of the counts of all nodes.
pub open spec fn total(m: Counts) -> int
    decreases m.dom().len(),
    when m.dom().finite()
{
    if m.dom().len() == 0 {
        0
    } else {
        let k = m.dom().choose();
        m[k] + total(m.remove(k))
    }
}

/// The sum may be taken in any order: any node can be counted first.
pub proof fn lemma_total_remove(m: Counts, k: Seq<char>)
    requires
        m.dom().finite(),
        m.contains_key(k),
    ensures
        total(m) == m[k] + total(m.remove(k)),
    decreases m.dom().len(),
{
    let c = m.dom().choose();
    if c != k {
        lemma_total_remove(m.remove(c), k);
        lemma_total_remove(m.remove(k), c);
        assert(m.remove(c).remove(k) =~= m.remove(k).remove(c));
    }
}

/// Counting one more node adds its count to the sum.
pub proof fn lemma_total_insert(m: Counts, k: Seq<char>, n: int)
    requires
        m.dom().finite(),
        !m.contains_key(k),
    ensures
        total(m.insert(k, n)) == total(m) + n,
{
    lemma_total_remove(m.insert(k, n), k);
    assert(m.insert(k, n).remove(k) =~= m);
}

/// A sum of counts of which none is below zero is not below zero.
pub proof fn lemma_total_non_negative(m: Counts)
    requires
        m.dom().finite(),
        non_negative(m),
    ensures
        total(m) >= 0,
    decreases m.dom().len(),
{
    if m.dom().len() > 0 {
        let k = m.dom().choose();
        assert(m.contains_key(k));
        assert forall|j: Seq<char>| #[trigger] m.remove(k).contains_key(j) implies m.remove(k)[j]
            >= 0 by {
            assert(m.contains_key(j));
        }
        lemma_total_non_negative(m.remove(k));
    }
}

/// Merging is commutative.
pub proof fn lemma_merge_commutative(a: Counts, b: Counts)
    ensures
        merge(a, b) == merge(b, a),
{
    assert(merge(a, b) =~= merge(b, a));
}

/// Merging is associative.
pub proof fn lemma_merge_associative(a: Counts, b: Counts, c: Counts)
    ensures
        merge(merge(a, b), c) == merge(a, merge(b, c)),
{
    assert(merge(merge(a, b), c) =~= merge(a, merge(b, c)));
}

/// Merging is idempotent: a snapshot that was merged already changes nothing.
pub proof fn lemma_merge_idempotent(a: Counts, b: Counts)
    ensures
        merge(a, a) == a,
        merge(merge(a, b), b) == merge(a, b),
{
    assert(merge(a, a) =~= a);
    assert(merge(merge(a, b), b) =~= merge(a, b));
}

/// A merge never loses a node and never lowers a count, and it is the least
/// state of which that is true for both sides.
pub proof fn lemma_merge_is_least_upper_bound(a: Counts, b: Counts, c: Counts)
    ensures
        below(a, merge(a, b)),
        below(b, merge(a, b)),
        below(a, c) && below(b, c) ==> below(merge(a, b), c),
{
}

/// Two states that are below each other are the same state.
pub proof fn lemma_below_antisymmetric(a: Counts, b: Counts)
    requires
        below(a, b),
        below(b, a),
    ensures
        a == b,
{
    assert(a =~= b);
}

/// The state after merging `snapshots` into `start`, one after another.
pub open spec fn merge_all(start: Counts, snapshots: Seq<Counts>) -> Counts
    decreases snapshots.len(),
{
    if snapshots.len() == 0 {
        start
    } else {
        merge(merge_all(start, snapshots.drop_last()), snapshots.last())
    }
}

/// The state after a run of merges is the least state above the start and
/// above every snapshot.
pub proof fn lemma_merge_all_is_least_upper_bound(start: Counts, snapshots: Seq<Counts>, c: Counts)
    ensures
        below(start, merge_all(start, snapshots)),
        forall|i: int|
            0 <= i < snapshots.len() ==> below(#[trigger] snapshots[i], merge_all(start, snapshots)),
        below(start, c) && (forall|i: int|
            0 <= i < snapshots.len() ==> below(#[trigger] snapshots[i], c)) ==> below(
            merge_all(start, snapshots),
            c,
        ),
    decreases snapshots.len(),
{
    if snapshots.len() > 0 {
        let rest = snapshots.drop_last();
        let mid = merge_all(start, rest);
        lemma_merge_all_is_least_upper_bound(start, rest, c);
        lemma_merge_all_is_least_upper_bound(start, rest, merge_all(start, snapshots));
        assert forall|i: int| 0 <= i < snapshots.len() implies below(
            #[trigger] snapshots[i],
            merge_all(start, snapshots),
        ) by {
            if i < rest.len() {
                assert(rest[i] == snapshots[i]);
                assert(below(rest[i], mid));
            }
        }
        if below(start, c) && (forall|i: int|
            0 <= i < snapshots.len() ==> below(#[trigger] snapshots[i], c)) {
            assert forall|i: int| 0 <= i < rest.len() implies below(#[trigger] rest[i], c) by {
                assert(rest[i] == snapshots[i]);
            }
            assert(below(snapshots.last(), c));
        }
    }
}

/// Convergence: two replicas that start from the same state and have merged
/// the same snapshots hold the same state, in whatever order, and however
/// often, each of them merged each snapshot.
pub proof fn lemma_merge_all_converges(start: Counts, first: Seq<Counts>, second: Seq<Counts>)
    requires
        first.to_set() == second.to_set(),
    ensures
        merge_all(start, first) == merge_all(start, second),
        total(merge_all(start, first)) == total(merge_all(start, second)),
{
    let a = merge_all(start, first);
    let b = merge_all(start, second);
    lemma_merge_all_is_least_upper_bound(start, first, b);
    lemma_merge_all_is_least_upper_bound(start, second, a);
    assert forall|i: int| 0 <= i < first.len() implies below(#[trigger] first[i], b) by {
        assert(first.to_set().contains(first[i]));
        assert(second.contains(first[i]));
        let j = choose|j: int| 0 <= j < second.len() && second[j] == first[i];
        assert(below(second[j], b));
    }
    assert forall|i: int| 0 <= i < second.len() implies below(#[trigger] second[i], a) by {
        assert(second.to_set().contains(second[i]));
        assert(first.contains(second[i]));
        let j = choose|j: int| 0 <= j < first.len() && first[j] == second[i];
        assert(below(first[j], a));
    }
    lemma_below_antisymmetric(a, b);
}

/// A local addition and a merge may come in either order, as long as the
/// snapshot does not claim more for the node than the node has counted
/// itself and the amount is not negative.
pub proof fn lemma_add_commutes_with_merge(counts: Counts, node: Seq<char>, delta: int, theirs: Counts)
    requires
        delta >= 0,
        count_of(theirs, node) <= count_of(counts, node),
        theirs.contains_key(node) ==> counts.contains_key(node),
    ensures
        merge(counts.insert(node, count_of(counts, node) + delta), theirs) == merge(
            counts,
            theirs,
        ).insert(node, count_of(merge(counts, theirs), node) + delta),
{
    let left = merge(counts.insert(node, count_of(counts, node) + delta), theirs);
    let right = merge(counts, theirs).insert(node, count_of(merge(counts, theirs), node) + delta);
    assert(left =~= right);
}

/// The counts denoted by a list of entries: later entries override earlier ones.
pub open spec fn counts_view(entries: Seq<(String, i64)>) -> Counts
    decreases entries.len(),
{
    if entries.len() == 0 {
        Map::empty()
    } else {
        counts_view(entries.drop_last()).insert(entries.last().0@, entries.last().1 as int)
    }
}

/// No two entries are for the same node.
pub open spec fn distinct_nodes(entries: Seq<(String, i64)>) -> bool {
    forall|i: int, j: int|
        0 <= i < j < entries.len() ==> (#[trigger] entries[i]).0@ != (#[trigger] entries[j]).0@
}

/// The sum of the counts of a list of entries.
pub open spec fn entries_total(entries: Seq<(String, i64)>) -> int
    decreases entries.len(),
{
    if entries.len() == 0 {
        0
    } else {
        entries_total(entries.drop_last()) + entries.last().1
    }
}

/// The denoted counts are finitely many, each within 64 bits.
pub proof fn lemma_counts_view_bounded(entries: Seq<(String, i64)>)
    ensures
        counts_view(entries).dom().finite(),
        forall|k: Seq<char>| #[trigger]
            counts_view(entries).contains_key(k) ==> i64::MIN <= counts_view(entries)[k]
                <= i64::MAX,
    decreases entries.len(),
{
    if entries.len() > 0 {
        lemma_counts_view_bounded(entries.drop_last());
    }
}

/// A node without an entry has no count.
pub proof fn lemma_counts_view_absent(entries: Seq<(String, i64)>, node: Seq<char>)
    requires
        forall|j: int| 0 <= j < entries.len() ==> (#[trigger] entries[j]).0@ != node,
    ensures
        !counts_view(entries).contains_key(node),
    decreases entries.len(),
{
    if entries.len() > 0 {
        let rest = entries.drop_last();
        assert forall|j: int| 0 <= j < rest.len() implies (#[trigger] rest[j]).0@ != node by {
            assert(rest[j] == entries[j]);
        }
        lemma_counts_view_absent(rest, node);
    }
}

/// With one entry per node, the count of a node is what its entry says.
pub proof fn lemma_counts_view_at(entries: Seq<(String, i64)>, i: int)
    requires
        distinct_nodes(entries),
        0 <= i < entries.len(),
    ensures
        counts_view(entries).contains_key(entries[i].0@),
        counts_view(entries)[entries[i].0@] == entries[i].1,
    decreases entries.len(),
{
    if i < entries.len() - 1 {
        let rest = entries.drop_last();
        assert(distinct_nodes(rest)) by {
            assert forall|a: int, b: int| 0 <= a < b < rest.len() implies (#[trigger] rest[a]).0@ != (
            #[trigger] rest[b]).0@ by {
                assert(rest[a] == entries[a] && rest[b] == entries[b]);
            }
        }
        assert(rest[i] == entries[i]);
        lemma_counts_view_at(rest, i);
        assert(entries[i].0@ != entries[entries.len() - 1].0@);
    }
}

/// With one entry per node, replacing the count in an entry replaces the
/// count of its node.
pub proof fn lemma_counts_view_update(entries: Seq<(String, i64)>, i: int, key: String, n: i64)
    requires
        distinct_nodes(entries),
        0 <= i < entries.len(),
        key@ == entries[i].0@,
    ensures
        distinct_nodes(entries.update(i, (key, n))),
        counts_view(entries.update(i, (key, n))) == counts_view(entries).insert(key@, n as int),
    decreases entries.len(),
{
    let changed = entries.update(i, (key, n));
    assert(distinct_nodes(changed)) by {
        assert forall|a: int, b: int| 0 <= a < b < changed.len() implies (#[trigger] changed[a]).0@
            != (#[trigger] changed[b]).0@ by {
            assert(entries[a].0@ != entries[b].0@);
        }
    }
    let rest = entries.drop_last();
    if i == entries.len() - 1 {
        assert(changed.drop_last() =~= rest);
        assert(counts_view(changed) =~= counts_view(entries).insert(key@, n as int));
    } else {
        assert(distinct_nodes(rest)) by {
            assert forall|a: int, b: int| 0 <= a < b < rest.len() implies (#[trigger] rest[a]).0@ != (
            #[trigger] rest[b]).0@ by {
                assert(rest[a] == entries[a] && rest[b] == entries[b]);
            }
        }
        assert(rest[i] == entries[i]);
        lemma_counts_view_update(rest, i, key, n);
        assert(changed.drop_last() =~= rest.update(i, (key, n)));
        assert(entries[i].0@ != entries[entries.len() - 1].0@);
        assert(counts_view(changed) =~= counts_view(entries).insert(key@, n as int));
    }
}

/// With one entry per node, the sum of the entries is the value of the counter.
pub proof fn lemma_entries_total(entries: Seq<(String, i64)>)
    requires
        distinct_nodes(entries),
    ensures
        entries_total(entries) == total(counts_view(entries)),
    decreases entries.len(),
{
    if entries.len() > 0 {
        let rest = entries.drop_last();
        assert(distinct_nodes(rest)) by {
            assert forall|a: int, b: int| 0 <= a < b < rest.len() implies (#[trigger] rest[a]).0@ != (
            #[trigger] rest[b]).0@ by {
                assert(rest[a] == entries[a] && rest[b] == entries[b]);
            }
        }
        lemma_entries_total(rest);
        lemma_counts_view_bounded(rest);
        assert forall|j: int| 0 <= j < rest.len() implies (#[trigger] rest[j]).0@
            != entries.last().0@ by {
            assert(rest[j] == entries[j]);
        }
        lemma_counts_view_absent(rest, entries.last().0@);
        lemma_total_insert(counts_view(rest), entries.last().0@, entries.last().1 as int);
    } else {
        assert(counts_view(entries).dom() =~= Set::empty());
    }
}

/// The sum of `n` counts lies within `n` times the range of one count.
pub proof fn lemma_entries_total_bounded(entries: Seq<(String, i64)>)
    ensures
        -0x8000_0000_0000_0000 * entries.len() <= entries_total(entries) <= 0x7fff_ffff_ffff_ffff
            * entries.len(),
    decreases entries.len(),
{
    if entries.len() > 0 {
        lemma_entries_total_bounded(entries.drop_last());
    }
}

/// The counts as the members of a JSON object: one number per node.
pub open spec fn counts_members(m: Counts) -> Map<Seq<char>, JsonView> {
    m.map_values(|n: int| JsonView::Int(n))
}

/// The counts as a JSON object.
pub open spec fn counts_json(m: Counts) -> JsonView {
    JsonView::Object(counts_members(m))
}

/// The count that a JSON document stands for: an integer from 0 up to the
/// largest signed one of 64 bits. `None` for every other document.
pub open spec fn count_in(v: JsonView) -> Option<i64> {
    match as_i64_spec(v) {
        Some(n) => if n >= 0 {
            Some(n)
        } else {
            None
        },
        None => None,
    }
}

/// The counts that a JSON object holds: every member must be a count.
/// `None` for every other document.
pub open spec fn counts_of(v: JsonView) -> Option<Counts> {
    match v {
        JsonView::Object(m) => if forall|k: Seq<char>| #[trigger]
            m.contains_key(k) ==> count_in(m[k]) is Some {
            Some(m.map_values(|x: JsonView| count_in(x).unwrap() as int))
        } else {
            None
        },
        _ => None,
    }
}

/// No count is below zero.
pub open spec fn non_negative(m: Counts) -> bool {
    forall|k: Seq<char>| #[trigger] m.contains_key(k) ==> m[k] >= 0
}

/// No entry holds a count below zero.
pub open spec fn entries_non_negative(entries: Seq<(String, i64)>) -> bool {
    forall|i: int| 0 <= i < entries.len() ==> (#[trigger] entries[i]).1 >= 0
}

/// Entries without a count below zero denote counts without one.
pub proof fn lemma_counts_view_non_negative(entries: Seq<(String, i64)>)
    requires
        entries_non_negative(entries),
    ensures
        non_negative(counts_view(entries)),
    decreases entries.len(),
{
    if entries.len() > 0 {
        let rest = entries.drop_last();
        assert forall|i: int| 0 <= i < rest.len() implies (#[trigger] rest[i]).1 >= 0 by {
            assert(rest[i] == entries[i]);
        }
        lemma_counts_view_non_negative(rest);
        assert(entries[entries.len() - 1].1 >= 0);
    }
}

/// What a node has counted so far; a node that is not known has counted nothing.
pub open spec fn count_of(m: Counts, node: Seq<char>) -> int {
    if m.contains_key(node) {
        m[node]
    } else {
        0
    }
}

/// A grow-only counter: one count per node.
pub struct GCounter {
    entries: Vec<(String, i64)>,
}

impl View for GCounter {
    type V = Counts;

    closed spec fn view(&self) -> Counts {
        counts_view(self.entries@)
    }
}

impl GCounter {
    #[verifier::type_invariant]
    spec fn one_count_per_node(self) -> bool {
        distinct_nodes(self.entries@) && entries_non_negative(self.entries@)
    }

    /// A counter holds finitely many counts, each within 64 bits.
    pub proof fn lemma_bounded(&self)
        ensures
            self@.dom().finite(),
            forall|k: Seq<char>| #[trigger]
                self@.contains_key(k) ==> i64::MIN <= self@[k] <= i64::MAX,
    {
        lemma_counts_view_bounded(self.entries@);
    }

    /// Whatever a counter was made from, none of its counts is below zero.
    pub fn only_grows(&self)
        ensures
            non_negative(self@),
            self@.dom().finite(),
    {
        proof {
            use_type_invariant(self);
            lemma_counts_view_non_negative(self.entries@);
            lemma_counts_view_bounded(self.entries@);
        }
    }

    /// A counter that knows no node.
    pub fn new() -> (counter: GCounter)
        ensures
            counter@ == Map::<Seq<char>, int>::empty(),
    {
        GCounter { entries: Vec::new() }
    }

    fn position(&self, node: &String) -> (r: Option<usize>)
        ensures
            match r {
                Some(i) => i < self.entries.len() && self.entries@[i as int].0@ == node@,
                None => forall|j: int|
                    0 <= j < self.entries.len() ==> (#[trigger] self.entries@[j]).0@ != node@,
            },
    {
        let mut i: usize = 0;
        while i < self.entries.len()
            invariant
                i <= self.entries.len(),
                forall|j: int| 0 <= j < i ==> (#[trigger] self.entries@[j]).0@ != node@,
            decreases self.entries.len() - i,
        {
            if self.entries[i].0 == *node {
                return Some(i);
            }
            i = i + 1;
        }
        None
    }

    /// The count of `node`, if the counter knows the node.
    pub fn get(&self, node: &str) -> (r: Option<i64>)
        ensures
            match r {
                Some(n) => self@.contains_key(node@) && self@[node@] == n && n >= 0,
                None => !self@.contains_key(node@),
            },
    {
        let key = node.to_owned();
        proof {
            use_type_invariant(self);
        }
        match self.position(&key) {
            Some(i) => {
                proof {
                    lemma_counts_view_at(self.entries@, i as int);
                }
                Some(self.entries[i].1)
            },
            None => {
                proof {
                    lemma_counts_view_absent(self.entries@, node@);
                }
                None
            },
        }
    }

    /// Sets the count of `node`.
    fn set(&mut self, node: &str, count: i64)
        requires
            count >= 0,
        ensures
            final(self)@ == old(self)@.insert(node@, count as int),
    {
        let key = node.to_owned();
        proof {
            use_type_invariant(&*self);
        }
        let found = self.position(&key);
        let mut entries: Vec<(String, i64)> = Vec::new();
        std::mem::swap(&mut entries, &mut self.entries);
        match found {
            Some(i) => {
                proof {
                    lemma_counts_view_update(entries@, i as int, key, count);
                    assert forall|j: int|
                        0 <= j < entries@.update(i as int, (key, count)).len() implies (
                    #[trigger] entries@.update(i as int, (key, count))[j]).1 >= 0 by {
                        if j != i {
                            assert(entries@[j].1 >= 0);
                        }
                    }
                }
                entries.set(i, (key, count));
            },
            None => {
                assert(entries@.push((key, count)).drop_last() =~= entries@);
                assert(distinct_nodes(entries@.push((key, count))));
                assert forall|j: int| 0 <= j < entries@.push((key, count)).len() implies (
                #[trigger] entries@.push((key, count))[j]).1 >= 0 by {
                    if j < entries.len() {
                        assert(entries@[j].1 >= 0);
                    }
                }
                entries.push((key, count));
            },
        }
        self.entries = entries;
    }

    /// The value of the counter: the sum of all counts.
    pub fn value(&self) -> (sum: i128)
        ensures
            sum == total(self@),
    {
        proof {
            use_type_invariant(self);
            lemma_entries_total(self.entries@);
        }
        let mut sum: i128 = 0;
        let mut i: usize = 0;
        while i < self.entries.len()
            invariant
                i <= self.entries.len(),
                sum == entries_total(self.entries@.take(i as int)),
            decreases self.entries.len() - i,
        {
            proof {
                assert(self.entries@.take(i + 1).drop_last() =~= self.entries@.take(i as int));
                lemma_entries_total_bounded(self.entries@.take(i as int));
            }
            sum = sum + self.entries[i].1 as i128;
            i = i + 1;
        }
        assert(self.entries@.take(self.entries.len() as int) =~= self.entries@);
        sum
    }
    /// Adds `delta` to the count of `node`. Nothing changes, and the answer
    /// is `false`, where the amount is below zero or the new count would not
    /// fit into 64 bits.
    pub fn add(&mut self, node: &str, delta: i64) -> (done: bool)
        ensures
            done == (delta >= 0 && count_of(old(self)@, node@) + delta <= i64::MAX),
            done ==> final(self)@ == old(self)@.insert(
                node@,
                count_of(old(self)@, node@) + delta,
            ),
            !done ==> final(self)@ == old(self)@,
    {
        if delta < 0 {
            return false;
        }
        let current = match self.get(node) {
            Some(n) => n,
            None => 0,
        };
        match current.checked_add(delta) {
            Some(n) => {
                self.set(node, n);
                true
            },
            None => false,
        }
    }

    /// Merges the counts of `other` into this counter.
    pub fn merge(&mut self, other: &GCounter)
        ensures
            final(self)@ == merge(old(self)@, other@),
    {
        proof {
            use_type_invariant(other);
        }
        let mut i: usize = 0;
        assert(self@ =~= merge(old(self)@, counts_view(other.entries@.take(0))));
        while i < other.entries.len()
            invariant
                i <= other.entries.len(),
                distinct_nodes(other.entries@),
                entries_non_negative(other.entries@),
                self@ == merge(old(self)@, counts_view(other.entries@.take(i as int))),
            decreases other.entries.len() - i,
        {
            let ghost done = other.entries@.take(i as int);
            let ghost entry = other.entries@[i as int];
            proof {
                assert(other.entries@.take(i + 1).drop_last() =~= done);
                assert forall|j: int| 0 <= j < done.len() implies (#[trigger] done[j]).0@
                    != entry.0@ by {
                    assert(done[j] == other.entries@[j]);
                }
                lemma_counts_view_absent(done, entry.0@);
            }
            let theirs = other.entries[i].1;
            let node = other.entries[i].0.as_str();
            match self.get(node) {
                Some(ours) => {
                    if ours < theirs {
                        self.set(node, theirs);
                    }
                },
                None => {
                    self.set(node, theirs);
                },
            }
            assert(self@ =~= merge(old(self)@, counts_view(other.entries@.take(i + 1))));
            i = i + 1;
        }
        assert(other.entries@.take(other.entries.len() as int) =~= other.entries@);
    }

    /// The counts as a JSON object: one number per node.
    pub fn to_json(&self) -> (j: Json)
        ensures
            j@ == counts_json(self@),
    {
        let mut members: Vec<(String, Json)> = Vec::new();
        let mut i: usize = 0;
        assert(members_view(members@) =~= counts_members(counts_view(self.entries@.take(0))));
        while i < self.entries.len()
            invariant
                i <= self.entries.len(),
                members_view(members@) == counts_members(
                    counts_view(self.entries@.take(i as int)),
                ),
            decreases self.entries.len() - i,
        {
            let key = self.entries[i].0.clone();
            let value = Json::from_i64(self.entries[i].1);
            proof {
                assert(self.entries@.take(i + 1).drop_last() =~= self.entries@.take(i as int));
                lemma_members_view_push(members@, key, value);
                assert(members_view(members@.push((key, value))) =~= counts_members(
                    counts_view(self.entries@.take(i + 1)),
                ));
            }
            members.push((key, value));
            i = i + 1;
        }
        assert(self.entries@.take(self.entries.len() as int) =~= self.entries@);
        Json::Object(members)
    }

    /// The counter that a JSON object holds.
    pub fn from_json(j: &Json) -> (r: Option<GCounter>)
        ensures
            match r {
                Some(counter) => counts_of(j@) == Some(counter@),
                None => counts_of(j@) is None,
            },
    {
        let members = match j {
            Json::Object(members) => members,
            _ => {
                return None;
            },
        };
        let ghost whole = members_view(members@);
        let mut counter = GCounter::new();
        let mut i: usize = 0;
        assert(members_view(members@.take(0)).dom() =~= Set::empty());
        while i < members.len()
            invariant
                i <= members.len(),
                j@ == JsonView::Object(whole),
                whole == members_view(members@),
                counter@.dom() == members_view(members@.take(i as int)).dom(),
                counter@.dom().subset_of(whole.dom()),
                forall|k: Seq<char>| #[trigger]
                    counter@.contains_key(k) ==> count_in(whole[k]) is Some && count_in(
                        whole[k],
                    ).unwrap() == counter@[k],
            decreases members.len() - i,
        {
            let name = members[i].0.as_str();
            proof {
                assert(members@.take(i + 1).drop_last() =~= members@.take(i as int));
                counter.lemma_bounded();
                lemma_members_view_has(members@, i as int);
            }
            let count = match j.get(name) {
                Some(value) => match value.as_i64() {
                    Some(n) => n,
                    None => {
                        return None;
                    },
                },
                None => {
                    return None;
                },
            };
            if count < 0 {
                return None;
            }
            counter.set(name, count);
            assert(counter@.dom() =~= members_view(members@.take(i + 1)).dom());
            i = i + 1;
        }
        proof {
            assert(members@.take(members.len() as int) =~= members@);
            counter.lemma_bounded();
            assert(counter@ =~= whole.map_values(|x: JsonView| count_in(x).unwrap() as int));
        }
        Some(counter)
    }
}

/// What a counter node knows.
pub struct State {
    /// This node's id.
    pub node_id: Seq<char>,
    /// Every node of the cluster.
    pub node_ids: Seq<Seq<char>>,
    /// What each node has counted, as far as this node knows.
    pub counts: Counts,
    /// The id the next message will carry.
    pub next_id: u64,
}

/// What handling a message gives: the messages to send, in order, or the
/// reason to stop.
pub open spec fn outcome(r: Result<Vec<Json>, ProtocolError>) -> Result<
    Seq<JsonView>,
    ProtocolError,
> {
    match r {
        Ok(out) => Ok(items_view(out@)),
        Err(e) => Err(e),
    }
}

/// The node went from `pre` to `post` and answered `result` as `effect`
/// prescribes; a refused message leaves the node as it was.
pub open spec fn stepped(
    pre: State,
    post: State,
    result: Result<Seq<JsonView>, ProtocolError>,
    effect: Result<(State, Seq<JsonView>), ProtocolError>,
) -> bool {
    match effect {
        Ok((state, out)) => post == state && result == Ok::<Seq<JsonView>, ProtocolError>(out),
        Err(e) => post == pre && result == Err::<Seq<JsonView>, ProtocolError>(e),
    }
}

/// The amount an `add` message asks to add: an integer that is not below
/// zero. A counter only grows, so there is no other amount.
pub open spec fn add_delta(request: JsonView) -> Option<i64> {
    match body_field(request, "delta"@) {
        Some(delta) => count_in(delta),
        None => None,
    }
}

/// `add`: the node adds the amount to its own count, and to no other, and
/// answers `add_ok`. No peer is asked. A message whose amount is below zero
/// is malformed and changes nothing.
pub open spec fn add_effect(pre: State, request: JsonView) -> Result<
    (State, Seq<JsonView>),
    ProtocolError,
> {
    match sender_refusal(pre.node_id, request) {
        Some(e) => Err(e),
        None => match add_delta(request) {
            None => Err(ProtocolError::Malformed),
            Some(delta) => {
                let count = count_of(pre.counts, pre.node_id) + delta;
                if count > i64::MAX {
                    Err(ProtocolError::CounterOverflow)
                } else if pre.next_id == u64::MAX {
                    Err(ProtocolError::IdsExhausted)
                } else {
                    Ok(
                        (
                            State {
                                counts: pre.counts.insert(pre.node_id, count),
                                next_id: (pre.next_id + 1) as u64,
                                ..pre
                            },
                            seq![reply_to(request, pre.next_id, "add_ok"@)],
                        ),
                    )
                }
            },
        },
    }
}

/// The `read_ok` response that reports `value`.
pub open spec fn read_ok_view(request: JsonView, msg_id: u64, value: int) -> JsonView {
    let envelope = envelope_of(request).unwrap();
    envelope_view(
        envelope.dest,
        envelope.src,
        reply_body_view(msg_id as int, "read_ok"@, envelope.msg_id as int).insert(
            "value"@,
            JsonView::Int(value),
        ),
    )
}

/// `read`: the node answers `read_ok` with the sum of all counts it knows.
/// No peer is asked; only the id counter moves.
pub open spec fn read_effect(pre: State, request: JsonView) -> Result<
    (State, Seq<JsonView>),
    ProtocolError,
> {
    match sender_refusal(pre.node_id, request) {
        Some(e) => Err(e),
        None => if pre.next_id == u64::MAX {
            Err(ProtocolError::IdsExhausted)
        } else {
            Ok(
                (
                    State { next_id: (pre.next_id + 1) as u64, ..pre },
                    seq![read_ok_view(request, pre.next_id, total(pre.counts))],
                ),
            )
        },
    }
}

/// The counts that a `replicate` message carries.
pub open spec fn replicated_counts(request: JsonView) -> Option<Counts> {
    match body_field(request, "value"@) {
        Some(value) => counts_of(value),
        None => None,
    }
}

/// `replicate`: the node merges the peer's counts into its own. Nothing is sent.
pub open spec fn replicate_effect(pre: State, request: JsonView) -> Result<
    (State, Seq<JsonView>),
    ProtocolError,
> {
    match replicated_counts(request) {
        None => Err(ProtocolError::Malformed),
        Some(theirs) => Ok((State { counts: merge(pre.counts, theirs), ..pre }, Seq::empty())),
    }
}

/// The `replicate` message that carries `counts` from `node_id` to `dest`.
pub open spec fn gossip_view(node_id: Seq<char>, dest: Seq<char>, msg_id: u64, counts: Counts) -> JsonView {
    envelope_view(
        node_id,
        dest,
        body_view(msg_id as int, "replicate"@).insert("value"@, counts_json(counts)),
    )
}

/// The gossip tick: the node sends all its counts to every other node of
/// the cluster, each message under its own fresh id. No answer is expected.
pub open spec fn gossip_effect(pre: State) -> Result<(State, Seq<JsonView>), ProtocolError> {
    let peers = targets(pre.node_ids, pre.node_id);
    if pre.next_id + peers.len() > u64::MAX {
        Err(ProtocolError::IdsExhausted)
    } else {
        Ok(
            (
                State { next_id: (pre.next_id + peers.len()) as u64, ..pre },
                Seq::new(
                    peers.len(),
                    |i: int| gossip_view(pre.node_id, peers[i], (pre.next_id + i) as u64, pre.counts),
                ),
            ),
        )
    }
}

/// What a node in steady state does with a message, by the message's type.
/// `init` was dealt with before; a type without a handler is refused.
pub open spec fn handled(
    pre: State,
    request: JsonView,
    post: State,
    result: Result<Seq<JsonView>, ProtocolError>,
) -> bool {
    match type_of(request) {
        None => post == pre && result == Err::<Seq<JsonView>, ProtocolError>(
            ProtocolError::Malformed,
        ),
        Some(tag) => if tag == "init"@ {
            post == pre && result == Err::<Seq<JsonView>, ProtocolError>(
                ProtocolError::AlreadyInitialized,
            )
        } else if tag == "add"@ {
            stepped(pre, post, result, add_effect(pre, request))
        } else if tag == "read"@ {
            stepped(pre, post, result, read_effect(pre, request))
        } else if tag == "replicate"@ {
            stepped(pre, post, result, replicate_effect(pre, request))
        } else {
            post == pre && result == Err::<Seq<JsonView>, ProtocolError>(
                ProtocolError::UnknownType,
            )
        },
    }
}

/// A node that replicates a grow-only counter.
pub struct Node {
    inner: crate::message::Node,
    node_to_count: GCounter,
}

impl View for Node {
    type V = State;

    closed spec fn view(&self) -> State {
        State {
            node_id: self.inner.node_id@,
            node_ids: names(self.inner.node_ids@),
            counts: self.node_to_count@,
            next_id: self.inner.next_id(),
        }
    }
}

impl Node {
    /// A counter node on top of an initialized node. It has counted nothing.
    pub fn new(inner: crate::message::Node) -> (node: Node)
        ensures
            node@ == (State {
                node_id: inner.node_id@,
                node_ids: names(inner.node_ids@),
                counts: Map::<Seq<char>, int>::empty().insert(inner.node_id@, 0),
                next_id: inner.next_id(),
            }),
            non_negative(node@.counts),
    {
        let mut node_to_count = GCounter::new();
        node_to_count.set(inner.node_id.as_str(), 0);
        Node { inner, node_to_count }
    }

    /// The node underneath: its id, the cluster and the id counter.
    pub fn inner(&self) -> (inner: &crate::message::Node)
        ensures
            inner.node_id@ == self@.node_id,
            names(inner.node_ids@) == self@.node_ids,
            inner.next_id() == self@.next_id,
    {
        &self.inner
    }

    /// What `node` has counted, as far as this node knows.
    pub fn count(&self, node: &str) -> (r: Option<i64>)
        ensures
            match r {
                Some(n) => self@.counts.contains_key(node@) && self@.counts[node@] == n,
                None => !self@.counts.contains_key(node@),
            },
    {
        self.node_to_count.get(node)
    }

    /// The value of the counter as this node sees it.
    pub fn value(&self) -> (sum: i128)
        ensures
            sum == total(self@.counts),
            sum >= 0,
    {
        self.node_to_count.only_grows();
        proof {
            lemma_total_non_negative(self@.counts);
        }
        self.node_to_count.value()
    }

    /// The counts of a node are finitely many, each within 64 bits, so that
    /// their sum is defined.
    pub proof fn lemma_counts_bounded(&self)
        ensures
            self@.counts.dom().finite(),
            forall|k: Seq<char>| #[trigger]
                self@.counts.contains_key(k) ==> i64::MIN <= self@.counts[k] <= i64::MAX,
    {
        self.node_to_count.lemma_bounded();
    }

    /// Whatever a node has handled, none of its counts is below zero.
    pub fn only_grows(&self)
        ensures
            non_negative(self@.counts),
            self@.counts.dom().finite(),
    {
        self.node_to_count.only_grows();
    }

    /// `add`: adds the amount to this node's own count.
    pub fn handle_add(&mut self, request: &Json) -> (r: Result<Vec<Json>, ProtocolError>)
        ensures
            stepped(old(self)@, final(self)@, outcome(r), add_effect(old(self)@, request@)),
            non_negative(final(self)@.counts),
    {
        self.node_to_count.only_grows();
        let header = match check_sender(self.inner.node_id.as_str(), request) {
            Ok(header) => header,
            Err(e) => {
                return Err(e);
            },
        };
        let delta = match get_body_field(request, "delta") {
            Some(v) => match v.as_i64() {
                Some(delta) => delta,
                None => {
                    return Err(ProtocolError::Malformed);
                },
            },
            None => {
                return Err(ProtocolError::Malformed);
            },
        };
        if delta < 0 {
            return Err(ProtocolError::Malformed);
        }
        let current = match self.node_to_count.get(self.inner.node_id.as_str()) {
            Some(n) => n,
            None => 0,
        };
        let count = match current.checked_add(delta) {
            Some(count) => count,
            None => {
                return Err(ProtocolError::CounterOverflow);
            },
        };
        if self.inner.room() == 0 {
            return Err(ProtocolError::IdsExhausted);
        }
        let response = crate::message::respond(&mut self.inner.msg_id, &header, "add_ok");
        self.node_to_count.set(self.inner.node_id.as_str(), count);
        let mut out: Vec<Json> = Vec::new();
        out.push(response);
        proof {
            lemma_items_view_index(out@);
            assert(items_view(out@) =~= seq![response@]);
        }
        Ok(out)
    }

    /// `read`: answers with the sum of all counts this node knows.
    pub fn handle_read(&mut self, request: &Json) -> (r: Result<Vec<Json>, ProtocolError>)
        ensures
            stepped(old(self)@, final(self)@, outcome(r), read_effect(old(self)@, request@)),
            non_negative(final(self)@.counts),
    {
        self.node_to_count.only_grows();
        let header = match check_sender(self.inner.node_id.as_str(), request) {
            Ok(header) => header,
            Err(e) => {
                return Err(e);
            },
        };
        if self.inner.room() == 0 {
            return Err(ProtocolError::IdsExhausted);
        }
        let ghost pre = self@;
        let mut response = crate::message::respond(&mut self.inner.msg_id, &header, "read_ok");
        let sum = self.node_to_count.value();
        proof {
            lemma_with_body_field(
                header.dest@,
                header.src@,
                reply_body_view(pre.next_id as int, "read_ok"@, header.msg_id as int),
                "value"@,
                JsonView::Int(sum as int),
            );
        }
        set_body_field(&mut response, "value", Json::Int(sum));
        let mut out: Vec<Json> = Vec::new();
        out.push(response);
        proof {
            lemma_items_view_index(out@);
            assert(items_view(out@) =~= seq![response@]);
        }
        Ok(out)
    }

    /// `replicate`: merges the counts of a peer into this node's.
    pub fn handle_replicate(&mut self, request: &Json) -> (r: Result<Vec<Json>, ProtocolError>)
        ensures
            stepped(old(self)@, final(self)@, outcome(r), replicate_effect(old(self)@, request@)),
            non_negative(final(self)@.counts),
    {
        self.node_to_count.only_grows();
        let theirs = match get_body_field(request, "value") {
            Some(value) => match GCounter::from_json(value) {
                Some(theirs) => theirs,
                None => {
                    return Err(ProtocolError::Malformed);
                },
            },
            None => {
                return Err(ProtocolError::Malformed);
            },
        };
        self.node_to_count.merge(&theirs);
        let out: Vec<Json> = Vec::new();
        assert(items_view(out@) =~= Seq::empty());
        Ok(out)
    }

    /// The gossip tick: one `replicate` message with all counts for every
    /// other node of the cluster.
    pub fn send_replication(&mut self) -> (r: Result<Vec<Json>, ProtocolError>)
        ensures
            stepped(old(self)@, final(self)@, outcome(r), gossip_effect(old(self)@)),
            non_negative(final(self)@.counts),
    {
        self.node_to_count.only_grows();
        let peers = select_targets(&self.inner.node_ids, &self.inner.node_id);
        let ghost pre = self@;
        let ghost wanted = targets(pre.node_ids, pre.node_id);
        if peers.len() as u64 > self.inner.room() {
            return Err(ProtocolError::IdsExhausted);
        }
        let mut out: Vec<Json> = Vec::new();
        let mut i: usize = 0;
        while i < peers.len()
            invariant
                i <= peers.len(),
                names(peers@) == wanted,
                pre.next_id + peers.len() <= u64::MAX,
                self.inner.node_id@ == pre.node_id,
                names(self.inner.node_ids@) == pre.node_ids,
                self.node_to_count@ == pre.counts,
                self.inner.next_id() == pre.next_id + i,
                out@.len() == i,
                forall|j: int|
                    0 <= j < i ==> (#[trigger] out@[j])@ == gossip_view(
                        pre.node_id,
                        wanted[j],
                        (pre.next_id + j) as u64,
                        pre.counts,
                    ),
            decreases peers.len() - i,
        {
            let ghost id = self.inner.next_id();
            let mut message = self.inner.msg_id.build_message(
                self.inner.node_id.as_str(),
                peers[i].as_str(),
                "replicate",
            );
            let counts = self.node_to_count.to_json();
            proof {
                lemma_with_body_field(
                    pre.node_id,
                    wanted[i as int],
                    body_view(id as int, "replicate"@),
                    "value"@,
                    counts@,
                );
            }
            set_body_field(&mut message, "value", counts);
            out.push(message);
            i = i + 1;
        }
        proof {
            assert(wanted.len() == peers.len());
            lemma_items_view_index(out@);
            assert(items_view(out@) =~= gossip_effect(pre)->Ok_0.1);
        }
        Ok(out)
    }

    /// Handles one message of the steady state by its type.
    pub fn handle(&mut self, request: &Json) -> (r: Result<Vec<Json>, ProtocolError>)
        ensures
            handled(old(self)@, request@, final(self)@, outcome(r)),
            non_negative(final(self)@.counts),
    {
        self.node_to_count.only_grows();
        let tag = match message_type(request) {
            Some(tag) => tag,
            None => {
                return Err(ProtocolError::Malformed);
            },
        };
        if tag == "init".to_owned() {
            Err(ProtocolError::AlreadyInitialized)
        } else if tag == "add".to_owned() {
            self.handle_add(request)
        } else if tag == "read".to_owned() {
            self.handle_read(request)
        } else if tag == "replicate".to_owned() {
            self.handle_replicate(request)
        } else {
            Err(ProtocolError::UnknownType)
        }
    }
}

/// After `replicate` no count is lower than before and no node is
/// forgotten; a read then reports the sum of the merged counts; and the same
/// snapshot once more changes nothing.
pub proof fn lemma_replicate_is_monotone(pre: State, request: JsonView, read: JsonView)
    requires
        replicate_effect(pre, request) is Ok,
    ensures
        ({
            let post = replicate_effect(pre, request)->Ok_0.0;
            let theirs = replicated_counts(request).unwrap();
            &&& post.counts == merge(pre.counts, theirs)
            &&& below(pre.counts, post.counts)
            &&& below(theirs, post.counts)
            &&& replicate_effect(post, request) == Ok::<(State, Seq<JsonView>), ProtocolError>(
                (post, Seq::empty()),
            )
            &&& read_effect(post, read) matches Ok((_, out)) ==> out == seq![
                read_ok_view(read, post.next_id, total(merge(pre.counts, theirs))),
            ]
        }),
{
    let theirs = replicated_counts(request).unwrap();
    lemma_merge_idempotent(pre.counts, theirs);
    lemma_merge_is_least_upper_bound(pre.counts, theirs, pre.counts);
}

/// Message ids grow strictly: the messages that one step or one gossip
/// tick hands out carry the ids from the node's counter on, one after
/// another, and the counter ends behind the last of them.
pub proof fn lemma_ids_grow(pre: State, post: State, out: Seq<JsonView>, request: Option<JsonView>)
    requires
        match request {
            Some(request) => handled(pre, request, post, Ok(out)),
            None => stepped(pre, post, Ok(out), gossip_effect(pre)),
        },
    ensures
        post.next_id == pre.next_id + out.len(),
        forall|i: int|
            0 <= i < out.len() ==> msg_id_of(#[trigger] out[i]) == Some((pre.next_id + i) as u64),
{
    reveal_strlit("value");
    lemma_names_differ();
    match request {
        Some(request) => {
            let tag = type_of(request).unwrap();
            let envelope = envelope_of(request).unwrap();
            if tag == "add"@ || tag == "read"@ {
                lemma_response_read_back(
                    envelope.dest,
                    envelope.src,
                    pre.next_id,
                    if tag == "add"@ {
                        "add_ok"@
                    } else {
                        "read_ok"@
                    },
                    envelope.msg_id,
                    "value"@,
                    JsonView::Int(total(pre.counts)),
                );
            }
        },
        None => {
            let peers = targets(pre.node_ids, pre.node_id);
            assert forall|i: int| 0 <= i < out.len() implies msg_id_of(#[trigger] out[i]) == Some(
                (pre.next_id + i) as u64,
            ) by {
                lemma_message_read_back(
                    pre.node_id,
                    peers[i],
                    (pre.next_id + i) as u64,
                    "replicate"@,
                    "value"@,
                    counts_json(pre.counts),
                );
            }
        },
    }
}

/// A counter only grows: whatever message is handled, no count of any node
/// is lowered and no node is forgotten, and where no count was below zero
/// none is afterwards. An accepted `add` raises the node's own count by the
/// amount, which is not below zero.
pub proof fn lemma_counts_only_grow(
    pre: State,
    request: JsonView,
    post: State,
    result: Result<Seq<JsonView>, ProtocolError>,
)
    requires
        handled(pre, request, post, result),
    ensures
        below(pre.counts, post.counts),
        non_negative(pre.counts) ==> non_negative(post.counts),
        add_effect(pre, request) matches Ok((after, _)) ==> add_delta(request).unwrap() >= 0
            && after.counts[pre.node_id] == count_of(pre.counts, pre.node_id) + add_delta(
            request,
        ).unwrap(),
{
}

} // verus!
