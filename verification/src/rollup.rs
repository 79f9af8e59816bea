//! Merging records that stand for the same logical entity.
//!
//! Records are grouped by a key function; there is one for each of the two
//! granularities of the report. The first record of a group keeps its place
//! and its descriptive fields; each later one adds its cost and instance count
//! to it and contributes its container names.

use vstd::prelude::*;
use crate::record::{names_of, views_of, RecordView, WorkloadKind, WorkloadRecord};

verus! {

/// The granularity at which records are grouped.
#[derive(Clone, Copy, Debug, PartialEq, Eq, Structural)]
pub enum RollupLevel {
    /// One group per container of an object.
    Container,
    /// One group per object, whatever its containers.
    Object,
}

/// What a grouping key is, as plain mathematical values.
///
/// At object level `container_names` is empty.
pub struct KeyView {
    pub object_name: Seq<char>,
    pub namespace: Seq<char>,
    pub kind: WorkloadKind,
    pub container_names: Seq<Seq<char>>,
}

/// The key under which a record is grouped at a level.
pub open spec fn key_of(r: RecordView, level: RollupLevel) -> KeyView {
    KeyView {
        object_name: r.object_name,
        namespace: r.namespace,
        kind: r.kind,
        container_names: match level {
            RollupLevel::Container => r.container_names,
            RollupLevel::Object => Seq::empty(),
        },
    }
}

/// The key function of a level.
pub open spec fn level_key(level: RollupLevel) -> spec_fn(RecordView) -> KeyView {
    |r: RecordView| key_of(r, level)
}

/// A grouping key.
#[derive(Clone, Debug)]
pub struct RollupKey {
    pub object_name: String,
    pub namespace: String,
    pub kind: WorkloadKind,
    pub container_names: Vec<String>,
}

impl View for RollupKey {
    type V = KeyView;

    open spec fn view(&self) -> KeyView {
        KeyView {
            object_name: self.object_name@,
            namespace: self.namespace@,
            kind: self.kind,
            container_names: names_of(self.container_names@),
        }
    }
}

/// `acc` followed by the names of `incoming` that are not yet in it, in order.
pub open spec fn union_names(acc: Seq<Seq<char>>, incoming: Seq<Seq<char>>) -> Seq<Seq<char>>
    decreases incoming.len(),
{
    if incoming.len() == 0 {
        acc
    } else {
        let u = union_names(acc, incoming.drop_last());
        if u.contains(incoming.last()) {
            u
        } else {
            u.push(incoming.last())
        }
    }
}

/// The record that stands for `acc` and `x` together: costs and instance
/// counts are added, container names united, everything else is kept from `acc`.
pub open spec fn merge(acc: RecordView, x: RecordView) -> RecordView {
    RecordView {
        container_names: union_names(acc.container_names, x.container_names),
        total_millicores: acc.total_millicores + x.total_millicores,
        instance_count: acc.instance_count + x.instance_count,
        ..acc
    }
}

/// The first position in `acc` whose record has key `k`, or `acc.len()` if
/// there is none.
pub open spec fn find_group<K>(acc: Seq<RecordView>, k: K, key: spec_fn(RecordView) -> K) -> int
    decreases acc.len(),
{
    if acc.len() == 0 {
        0
    } else {
        let i = find_group(acc.drop_last(), k, key);
        if i < acc.len() - 1 {
            i
        } else if key(acc.last()) == k {
            acc.len() - 1
        } else {
            acc.len() as int
        }
    }
}

/// `acc` after one more record: merged into its group, or added as a new one.
///
/// The group of a record is the one that has the record's key. Under a key
/// function that is stable under merging, that is the group whose first
/// record had the key.
pub open spec fn absorb<K>(
    acc: Seq<RecordView>,
    x: RecordView,
    key: spec_fn(RecordView) -> K,
) -> Seq<RecordView> {
    let i = find_group(acc, key(x), key);
    if i < acc.len() {
        acc.update(i, merge(acc[i], x))
    } else {
        acc.push(x)
    }
}

/// The rollup of `rs` by a key function: one record per key, in the order in
/// which the keys first occur.
pub open spec fn aggregate_spec<K>(
    rs: Seq<RecordView>,
    key: spec_fn(RecordView) -> K,
) -> Seq<RecordView>
    decreases rs.len(),
{
    if rs.len() == 0 {
        Seq::empty()
    } else {
        absorb(aggregate_spec(rs.drop_last(), key), rs.last(), key)
    }
}

/// The sum of the costs of `rs`, in millicores.
pub open spec fn total_millicores_of(rs: Seq<RecordView>) -> nat
    decreases rs.len(),
{
    if rs.len() == 0 {
        0
    } else {
        total_millicores_of(rs.drop_last()) + rs.last().total_millicores
    }
}

/// The sum of the instance counts of `rs`.
pub open spec fn total_instances_of(rs: Seq<RecordView>) -> nat
    decreases rs.len(),
{
    if rs.len() == 0 {
        0
    } else {
        total_instances_of(rs.drop_last()) + rs.last().instance_count
    }
}

/// No two records of `rs` have the same key.
pub open spec fn distinct_keys<K>(rs: Seq<RecordView>, key: spec_fn(RecordView) -> K) -> bool {
    forall|i: int, j: int|
        0 <= i < j < rs.len() ==> key(#[trigger] rs[i]) != key(#[trigger] rs[j])
}

/// Every record of `rs` is well formed.
pub open spec fn all_wf(rs: Seq<RecordView>) -> bool {
    forall|i: int| 0 <= i < rs.len() ==> (#[trigger] rs[i]).wf()
}

/// `find_group` returns the first position with the key, if there is one.
pub proof fn lemma_find_group<K>(acc: Seq<RecordView>, k: K, key: spec_fn(RecordView) -> K)
    ensures
        0 <= find_group(acc, k, key) <= acc.len(),
        find_group(acc, k, key) < acc.len() ==> key(acc[find_group(acc, k, key)]) == k,
        forall|j: int|
            0 <= j < find_group(acc, k, key) ==> key(#[trigger] acc[j]) != k,
    decreases acc.len(),
{
    if acc.len() > 0 {
        lemma_find_group(acc.drop_last(), k, key);
        let i = find_group(acc.drop_last(), k, key);
        assert forall|j: int| 0 <= j < find_group(acc, k, key) implies
            key(#[trigger] acc[j]) != k by {
            if j < acc.len() - 1 {
                assert(acc[j] == acc.drop_last()[j]);
            }
        }
        if i < acc.len() - 1 {
            assert(acc[i] == acc.drop_last()[i]);
        }
    }
}

/// A position that holds the key and has none before it is the one that
/// `find_group` returns.
pub proof fn lemma_find_group_is<K>(
    acc: Seq<RecordView>,
    k: K,
    key: spec_fn(RecordView) -> K,
    i: int,
)
    requires
        0 <= i <= acc.len(),
        i < acc.len() ==> key(acc[i]) == k,
        forall|j: int| 0 <= j < i ==> key(#[trigger] acc[j]) != k,
    ensures
        find_group(acc, k, key) == i,
{
    lemma_find_group(acc, k, key);
    let f = find_group(acc, k, key);
    if f < i {
        assert(key(acc[f]) != k);
    }
    if i < f {
        assert(key(acc[i]) != k);
    }
}

/// What `union_names` holds: `acc` stays in front, every name comes from one
/// of the two, and no duplicate is added.
pub proof fn lemma_union_names(acc: Seq<Seq<char>>, incoming: Seq<Seq<char>>)
    ensures
        acc.len() <= union_names(acc, incoming).len(),
        union_names(acc, incoming).subrange(0, acc.len() as int) == acc,
        forall|s: Seq<char>|
            union_names(acc, incoming).contains(s) <==> (acc.contains(s) || incoming.contains(s)),
        acc.no_duplicates() ==> union_names(acc, incoming).no_duplicates(),
    decreases incoming.len(),
{
    let u = union_names(acc, incoming);
    if incoming.len() == 0 {
        assert(u.subrange(0, acc.len() as int) =~= acc);
        assert forall|s: Seq<char>| u.contains(s) <==> (acc.contains(s) || incoming.contains(
            s,
        )) by {
            if incoming.contains(s) {
                let j = choose|j: int| 0 <= j < incoming.len() && incoming[j] == s;
            }
        }
    } else {
        let rest = incoming.drop_last();
        let last = incoming.last();
        let v = union_names(acc, rest);
        lemma_union_names(acc, rest);
        assert(u.subrange(0, acc.len() as int) =~= v.subrange(0, acc.len() as int));
        assert forall|s: Seq<char>| u.contains(s) <==> (acc.contains(s) || incoming.contains(
            s,
        )) by {
            if incoming.contains(s) {
                let j = choose|j: int| 0 <= j < incoming.len() && incoming[j] == s;
                if j < rest.len() {
                    assert(rest[j] == s);
                    assert(rest.contains(s));
                    assert(v.contains(s));
                } else {
                    assert(s == last);
                }
            }
            if rest.contains(s) {
                let j = choose|j: int| 0 <= j < rest.len() && rest[j] == s;
                assert(incoming[j] == s);
            }
            assert(incoming[incoming.len() - 1] == last);
            if v.contains(s) {
                let j = choose|j: int| 0 <= j < v.len() && v[j] == s;
                assert(u[j] == s);
            }
            if u.contains(s) && !v.contains(s) {
                let j = choose|j: int| 0 <= j < u.len() && u[j] == s;
                if j < v.len() {
                    assert(v[j] == s);
                }
                assert(s == last);
            }
            if s == last && !v.contains(last) {
                assert(u[v.len() as int] == s);
            }
        }
        if acc.no_duplicates() && !v.contains(last) {
            assert forall|i: int, j: int|
                0 <= i < u.len() && 0 <= j < u.len() && i != j implies u[i] != u[j] by {
                if i < v.len() && j < v.len() {
                    assert(v[i] != v[j]);
                } else if i < v.len() {
                    assert(v[i] == u[i]);
                } else {
                    assert(v[j] == u[j]);
                }
            }
        }
    }
}

/// Uniting a list with names that it already holds changes nothing.
pub proof fn lemma_union_names_absorbed(acc: Seq<Seq<char>>, incoming: Seq<Seq<char>>)
    requires
        forall|j: int| 0 <= j < incoming.len() ==> acc.contains(#[trigger] incoming[j]),
    ensures
        union_names(acc, incoming) == acc,
    decreases incoming.len(),
{
    if incoming.len() > 0 {
        let rest = incoming.drop_last();
        assert forall|j: int| 0 <= j < rest.len() implies acc.contains(#[trigger] rest[j]) by {
            assert(rest[j] == incoming[j]);
        }
        lemma_union_names_absorbed(acc, rest);
        assert(acc.contains(incoming[incoming.len() - 1]));
    }
}

/// A key function is stable under merging: a record keeps its key when a
/// record of the same key is merged into it.
pub open spec fn merge_stable<K>(key: spec_fn(RecordView) -> K) -> bool {
    forall|acc: RecordView, x: RecordView|
        key(acc) == key(x) ==> #[trigger] key(merge(acc, x)) == key(acc)
}

/// The key functions of both levels are stable under merging.
pub proof fn lemma_level_key_stable(level: RollupLevel)
    ensures
        merge_stable(level_key(level)),
{
    let key = level_key(level);
    assert forall|acc: RecordView, x: RecordView| key(acc) == key(x) implies #[trigger] key(
        merge(acc, x),
    ) == key(acc) by {
        match level {
            RollupLevel::Container => {
                assert(x.container_names == acc.container_names);
                assert forall|j: int|
                    0 <= j < x.container_names.len() implies acc.container_names.contains(
                    #[trigger] x.container_names[j],
                ) by {
                    assert(acc.container_names[j] == x.container_names[j]);
                }
                lemma_union_names_absorbed(acc.container_names, x.container_names);
            },
            RollupLevel::Object => {},
        }
    }
}

/// A merge of well-formed records is well formed.
pub proof fn lemma_merge_wf(acc: RecordView, x: RecordView)
    requires
        acc.wf(),
    ensures
        merge(acc, x).wf(),
{
    lemma_union_names(acc.container_names, x.container_names);
}

/// Replacing one record changes the sums by the difference.
pub proof fn lemma_totals_update(rs: Seq<RecordView>, i: int, r: RecordView)
    requires
        0 <= i < rs.len(),
    ensures
        total_millicores_of(rs.update(i, r)) + rs[i].total_millicores == total_millicores_of(rs)
            + r.total_millicores,
        total_instances_of(rs.update(i, r)) + rs[i].instance_count == total_instances_of(rs)
            + r.instance_count,
    decreases rs.len(),
{
    let up = rs.update(i, r);
    if i == rs.len() - 1 {
        assert(up.drop_last() =~= rs.drop_last());
    } else {
        assert(up.drop_last() =~= rs.drop_last().update(i, r));
        lemma_totals_update(rs.drop_last(), i, r);
    }
}

/// Adding one record adds its cost and count to the sums.
pub proof fn lemma_totals_push(rs: Seq<RecordView>, r: RecordView)
    ensures
        total_millicores_of(rs.push(r)) == total_millicores_of(rs) + r.total_millicores,
        total_instances_of(rs.push(r)) == total_instances_of(rs) + r.instance_count,
{
    assert(rs.push(r).drop_last() =~= rs);
}

/// No record costs or counts more than the whole.
pub proof fn lemma_totals_bound(rs: Seq<RecordView>, i: int)
    requires
        0 <= i < rs.len(),
    ensures
        rs[i].total_millicores <= total_millicores_of(rs),
        rs[i].instance_count <= total_instances_of(rs),
    decreases rs.len(),
{
    if i < rs.len() - 1 {
        lemma_totals_bound(rs.drop_last(), i);
    }
}

/// The sums of a prefix are at most those of the whole.
pub proof fn lemma_totals_prefix(rs: Seq<RecordView>, n: int)
    requires
        0 <= n <= rs.len(),
    ensures
        total_millicores_of(rs.take(n)) <= total_millicores_of(rs),
        total_instances_of(rs.take(n)) <= total_instances_of(rs),
    decreases rs.len(),
{
    if n == rs.len() {
        assert(rs.take(n) =~= rs);
    } else {
        assert(rs.drop_last().take(n) =~= rs.take(n));
        lemma_totals_prefix(rs.drop_last(), n);
    }
}

/// Absorbing a record adds exactly its cost and count.
pub proof fn lemma_absorb_totals<K>(
    acc: Seq<RecordView>,
    x: RecordView,
    key: spec_fn(RecordView) -> K,
)
    ensures
        total_millicores_of(absorb(acc, x, key)) == total_millicores_of(acc)
            + x.total_millicores,
        total_instances_of(absorb(acc, x, key)) == total_instances_of(acc) + x.instance_count,
{
    lemma_find_group(acc, key(x), key);
    let i = find_group(acc, key(x), key);
    if i < acc.len() {
        lemma_totals_update(acc, i, merge(acc[i], x));
    } else {
        lemma_totals_push(acc, x);
    }
}

/// Absorbing a record keeps keys distinct and records well formed.
pub proof fn lemma_absorb_keeps_shape<K>(
    acc: Seq<RecordView>,
    x: RecordView,
    key: spec_fn(RecordView) -> K,
)
    requires
        distinct_keys(acc, key),
        merge_stable(key),
    ensures
        distinct_keys(absorb(acc, x, key), key),
        all_wf(acc) && x.wf() ==> all_wf(absorb(acc, x, key)),
{
    let k = key(x);
    lemma_find_group(acc, k, key);
    let i = find_group(acc, k, key);
    let out = absorb(acc, x, key);
    if i < acc.len() {
        assert(key(merge(acc[i], x)) == key(acc[i]));
        assert forall|a: int, b: int| 0 <= a < b < out.len() implies
            key(#[trigger] out[a]) != key(#[trigger] out[b]) by {
            assert(key(out[a]) == key(acc[a]));
            assert(key(out[b]) == key(acc[b]));
        }
        if all_wf(acc) {
            lemma_merge_wf(acc[i], x);
        }
    } else {
        assert forall|a: int, b: int| 0 <= a < b < out.len() implies
            key(#[trigger] out[a]) != key(#[trigger] out[b]) by {
            assert(out[a] == acc[a]);
            if b < acc.len() {
                assert(out[b] == acc[b]);
            }
        }
    }
}

/// A rollup holds each key once, and well-formed records if it was given such.
pub proof fn lemma_aggregate_shape<K>(rs: Seq<RecordView>, key: spec_fn(RecordView) -> K)
    requires
        merge_stable(key),
    ensures
        distinct_keys(aggregate_spec(rs, key), key),
        aggregate_spec(rs, key).len() <= rs.len(),
        all_wf(rs) ==> all_wf(aggregate_spec(rs, key)),
    decreases rs.len(),
{
    if rs.len() > 0 {
        lemma_aggregate_shape(rs.drop_last(), key);
        lemma_absorb_keeps_shape(aggregate_spec(rs.drop_last(), key), rs.last(), key);
        lemma_find_group(
            aggregate_spec(rs.drop_last(), key),
            key(rs.last()),
            key,
        );
        if all_wf(rs) {
            assert forall|i: int| 0 <= i < rs.drop_last().len() implies (
            #[trigger] rs.drop_last()[i]).wf() by {
                assert(rs.drop_last()[i] == rs[i]);
            }
        }
    }
}

/// A rollup costs and counts what its input does: merging neither loses nor
/// invents cores or instances.
pub proof fn lemma_aggregate_preserves_totals<K>(rs: Seq<RecordView>, key: spec_fn(RecordView) -> K)
    ensures
        total_millicores_of(aggregate_spec(rs, key)) == total_millicores_of(rs),
        total_instances_of(aggregate_spec(rs, key)) == total_instances_of(rs),
    decreases rs.len(),
{
    if rs.len() > 0 {
        lemma_aggregate_preserves_totals(rs.drop_last(), key);
        lemma_absorb_totals(aggregate_spec(rs.drop_last(), key), rs.last(), key);
    }
}

/// Records whose keys are all different are their own rollup.
pub proof fn lemma_aggregate_of_distinct<K>(rs: Seq<RecordView>, key: spec_fn(RecordView) -> K)
    requires
        distinct_keys(rs, key),
    ensures
        aggregate_spec(rs, key) == rs,
    decreases rs.len(),
{
    if rs.len() > 0 {
        let front = rs.drop_last();
        assert forall|i: int, j: int| 0 <= i < j < front.len() implies
            key(#[trigger] front[i]) != key(#[trigger] front[j]) by {
            assert(front[i] == rs[i] && front[j] == rs[j]);
        }
        lemma_aggregate_of_distinct(front, key);
        assert forall|j: int| 0 <= j < front.len() implies key(#[trigger] front[j])
            != key(rs.last()) by {
            assert(front[j] == rs[j]);
            assert(rs.last() == rs[rs.len() - 1]);
        }
        lemma_find_group_is(front, key(rs.last()), key, front.len() as int);
        assert(front.push(rs.last()) =~= rs);
    } else {
        assert(aggregate_spec(rs, key) =~= rs);
    }
}

/// Rolling up a rollup again by the same key function changes nothing.
pub proof fn lemma_aggregate_idempotent<K>(rs: Seq<RecordView>, key: spec_fn(RecordView) -> K)
    requires
        merge_stable(key),
    ensures
        aggregate_spec(aggregate_spec(rs, key), key) == aggregate_spec(rs, key),
{
    lemma_aggregate_shape(rs, key);
    lemma_aggregate_of_distinct(aggregate_spec(rs, key), key);
}

/// Some record of `rs` has the key `k`.
pub open spec fn has_key<K>(rs: Seq<RecordView>, k: K, key: spec_fn(RecordView) -> K) -> bool {
    exists|j: int| 0 <= j < rs.len() && key(#[trigger] rs[j]) == k
}

/// Some record of `rs` with the key `k` names the container `name`.
pub open spec fn named_under<K>(
    rs: Seq<RecordView>,
    k: K,
    key: spec_fn(RecordView) -> K,
    name: Seq<char>,
) -> bool {
    exists|j: int|
        0 <= j < rs.len() && key(#[trigger] rs[j]) == k && rs[j].container_names.contains(name)
}

/// What the records of `rs` with the key `k` cost together, in millicores.
pub open spec fn cost_under<K>(rs: Seq<RecordView>, k: K, key: spec_fn(RecordView) -> K) -> nat
    decreases rs.len(),
{
    if rs.len() == 0 {
        0
    } else if key(rs.last()) == k {
        cost_under(rs.drop_last(), k, key) + rs.last().total_millicores
    } else {
        cost_under(rs.drop_last(), k, key)
    }
}

/// How many instances the records of `rs` with the key `k` count together.
pub open spec fn instances_under<K>(
    rs: Seq<RecordView>,
    k: K,
    key: spec_fn(RecordView) -> K,
) -> nat
    decreases rs.len(),
{
    if rs.len() == 0 {
        0
    } else if key(rs.last()) == k {
        instances_under(rs.drop_last(), k, key) + rs.last().instance_count
    } else {
        instances_under(rs.drop_last(), k, key)
    }
}

/// The group `g` stands for the records of `rs` with the key `k`: it has
/// their key, costs and counts what they do together, names the containers
/// that they name, and has every other field from the first of them.
pub open spec fn stands_for<K>(
    g: RecordView,
    rs: Seq<RecordView>,
    k: K,
    key: spec_fn(RecordView) -> K,
) -> bool {
    let first = rs[find_group(rs, k, key)];
    &&& key(g) == k
    &&& g.total_millicores == cost_under(rs, k, key)
    &&& g.instance_count == instances_under(rs, k, key)
    &&& g.object_name == first.object_name
    &&& g.namespace == first.namespace
    &&& g.kind == first.kind
    &&& g.node_selector_text == first.node_selector_text
    &&& g.has_node_selector == first.has_node_selector
    &&& g.has_qos_request == first.has_qos_request
    &&& g.has_trusted_image == first.has_trusted_image
    &&& g.image_url == first.image_url
    &&& forall|name: Seq<char>|
        #![trigger g.container_names.contains(name)]
        #![trigger named_under(rs, k, key, name)]
        g.container_names.contains(name) <==> named_under(rs, k, key, name)
}

/// `find_group` finds a position exactly if some record has the key.
pub proof fn lemma_found_iff<K>(rs: Seq<RecordView>, k: K, key: spec_fn(RecordView) -> K)
    ensures
        find_group(rs, k, key) < rs.len() <==> has_key(rs, k, key),
{
    lemma_find_group(rs, k, key);
    let f = find_group(rs, k, key);
    if f < rs.len() {
        assert(key(rs[f]) == k);
    }
    if has_key(rs, k, key) {
        let j = choose|j: int| 0 <= j < rs.len() && key(#[trigger] rs[j]) == k;
        if f >= rs.len() {
            assert(key(rs[j]) != k);
        }
    }
}

/// What one more record does to the records under a key.
pub proof fn lemma_under_step<K>(rs: Seq<RecordView>, k: K, key: spec_fn(RecordView) -> K)
    requires
        rs.len() > 0,
    ensures
        has_key(rs, k, key) <==> has_key(rs.drop_last(), k, key) || key(rs.last()) == k,
        forall|name: Seq<char>|
            #![trigger named_under(rs, k, key, name)]
            named_under(rs, k, key, name) <==> named_under(rs.drop_last(), k, key, name) || (
            key(rs.last()) == k && rs.last().container_names.contains(name)),
        has_key(rs.drop_last(), k, key) ==> find_group(rs, k, key) == find_group(
            rs.drop_last(),
            k,
            key,
        ) && rs[find_group(rs, k, key)] == rs.drop_last()[find_group(rs.drop_last(), k, key)],
        !has_key(rs.drop_last(), k, key) && key(rs.last()) == k ==> find_group(rs, k, key)
            == rs.len() - 1,
{
    let front = rs.drop_last();
    let last = rs.last();
    assert(rs[rs.len() - 1] == last);
    lemma_found_iff(front, k, key);
    lemma_find_group(front, k, key);
    if has_key(rs, k, key) {
        let j = choose|j: int| 0 <= j < rs.len() && key(#[trigger] rs[j]) == k;
        if j < front.len() {
            assert(front[j] == rs[j]);
        }
    }
    if has_key(front, k, key) {
        let j = choose|j: int| 0 <= j < front.len() && key(#[trigger] front[j]) == k;
        assert(rs[j] == front[j]);
    }
    assert forall|name: Seq<char>|
        #![trigger named_under(rs, k, key, name)]
        named_under(rs, k, key, name) <==> named_under(front, k, key, name) || (key(last) == k
            && last.container_names.contains(name)) by {
        if named_under(rs, k, key, name) {
            let j = choose|j: int|
                0 <= j < rs.len() && key(#[trigger] rs[j]) == k && rs[j].container_names.contains(
                    name,
                );
            if j < front.len() {
                assert(front[j] == rs[j]);
            }
        }
        if named_under(front, k, key, name) {
            let j = choose|j: int|
                0 <= j < front.len() && key(#[trigger] front[j]) == k
                    && front[j].container_names.contains(name);
            assert(rs[j] == front[j]);
            assert(key(rs[j]) == k && rs[j].container_names.contains(name));
        }
        if key(last) == k && last.container_names.contains(name) {
            assert(key(rs[rs.len() - 1]) == k && rs[rs.len() - 1].container_names.contains(
                name,
            ));
        }
    }
}

/// A group that stands for the records under a key still does after a record
/// of another key.
pub proof fn lemma_stands_carry<K>(
    g: RecordView,
    rs: Seq<RecordView>,
    k: K,
    key: spec_fn(RecordView) -> K,
)
    requires
        rs.len() > 0,
        key(rs.last()) != k,
        has_key(rs.drop_last(), k, key),
        stands_for(g, rs.drop_last(), k, key),
    ensures
        stands_for(g, rs, k, key),
{
    lemma_under_step(rs, k, key);
    assert forall|name: Seq<char>|
        #![trigger g.container_names.contains(name)]
        #![trigger named_under(rs, k, key, name)]
        g.container_names.contains(name) <==> named_under(rs, k, key, name) by {
        assert(g.container_names.contains(name) <==> named_under(rs.drop_last(), k, key, name));
    }
}

/// A group that stands for the records under a key stands, merged with one
/// more record of that key, for them and that record.
pub proof fn lemma_stands_merge<K>(
    g: RecordView,
    rs: Seq<RecordView>,
    k: K,
    key: spec_fn(RecordView) -> K,
)
    requires
        rs.len() > 0,
        key(rs.last()) == k,
        has_key(rs.drop_last(), k, key),
        stands_for(g, rs.drop_last(), k, key),
        merge_stable(key),
    ensures
        stands_for(merge(g, rs.last()), rs, k, key),
{
    lemma_under_step(rs, k, key);
    lemma_union_names(g.container_names, rs.last().container_names);
    let m = merge(g, rs.last());
    assert(key(m) == key(g));
    assert forall|name: Seq<char>|
        #![trigger m.container_names.contains(name)]
        #![trigger named_under(rs, k, key, name)]
        m.container_names.contains(name) <==> named_under(rs, k, key, name) by {
        assert(g.container_names.contains(name) <==> named_under(rs.drop_last(), k, key, name));
        assert(m.container_names.contains(name) <==> g.container_names.contains(name)
            || rs.last().container_names.contains(name));
    }
}

/// The first record of a key stands for itself.
pub proof fn lemma_stands_first<K>(rs: Seq<RecordView>, k: K, key: spec_fn(RecordView) -> K)
    requires
        rs.len() > 0,
        key(rs.last()) == k,
        !has_key(rs.drop_last(), k, key),
    ensures
        stands_for(rs.last(), rs, k, key),
{
    lemma_under_step(rs, k, key);
    lemma_nothing_under(rs.drop_last(), k, key);
    assert(rs[rs.len() - 1] == rs.last());
    assert forall|name: Seq<char>|
        #![trigger rs.last().container_names.contains(name)]
        #![trigger named_under(rs, k, key, name)]
        rs.last().container_names.contains(name) <==> named_under(rs, k, key, name) by {
        assert(!named_under(rs.drop_last(), k, key, name));
    }
}

/// Where no record has the key, nothing is cost, counted or named under it.
pub proof fn lemma_nothing_under<K>(rs: Seq<RecordView>, k: K, key: spec_fn(RecordView) -> K)
    requires
        !has_key(rs, k, key),
    ensures
        cost_under(rs, k, key) == 0,
        instances_under(rs, k, key) == 0,
        forall|name: Seq<char>| !(#[trigger] named_under(rs, k, key, name)),
    decreases rs.len(),
{
    if rs.len() > 0 {
        lemma_under_step(rs, k, key);
        lemma_nothing_under(rs.drop_last(), k, key);
    }
    assert forall|name: Seq<char>| !(#[trigger] named_under(rs, k, key, name)) by {
        if named_under(rs, k, key, name) {
            let j = choose|j: int|
                0 <= j < rs.len() && key(#[trigger] rs[j]) == k && rs[j].container_names.contains(
                    name,
                );
            assert(has_key(rs, k, key));
        }
    }
}

/// Taking one record out takes its cost and count out of what is under its
/// key, and nothing out of what is under another.
pub proof fn lemma_under_remove<K>(
    rs: Seq<RecordView>,
    i: int,
    k: K,
    key: spec_fn(RecordView) -> K,
)
    requires
        0 <= i < rs.len(),
    ensures
        cost_under(rs, k, key) == cost_under(rs.remove(i), k, key) + if key(rs[i]) == k {
            rs[i].total_millicores
        } else {
            0
        },
        instances_under(rs, k, key) == instances_under(rs.remove(i), k, key) + if key(rs[i])
            == k {
            rs[i].instance_count
        } else {
            0
        },
    decreases rs.len(),
{
    if i == rs.len() - 1 {
        assert(rs.remove(i) =~= rs.drop_last());
    } else {
        assert(rs.remove(i).drop_last() =~= rs.drop_last().remove(i));
        assert(rs.remove(i).last() == rs.last());
        lemma_under_remove(rs.drop_last(), i, k, key);
    }
}

/// What is cost and counted under a key does not depend on the order of the
/// records: two lists that hold the same records, each as often, cost and
/// count the same under every key.
pub proof fn lemma_under_permutation<K>(
    a: Seq<RecordView>,
    b: Seq<RecordView>,
    k: K,
    key: spec_fn(RecordView) -> K,
)
    requires
        a.to_multiset() == b.to_multiset(),
    ensures
        cost_under(a, k, key) == cost_under(b, k, key),
        instances_under(a, k, key) == instances_under(b, k, key),
    decreases a.len(),
{
    broadcast use vstd::multiset::group_multiset_axioms;
    broadcast use vstd::seq_lib::group_to_multiset_ensures;

    assert(a.len() == b.len()) by {
        vstd::seq_lib::to_multiset_len(a);
        vstd::seq_lib::to_multiset_len(b);
    }
    if a.len() > 0 {
        let x = a.last();
        assert(a.to_multiset().count(x) > 0) by {
            assert(a[a.len() - 1] == x);
            assert(a.contains(x));
        }
        assert(b.contains(x));
        let j = choose|j: int| 0 <= j < b.len() && b[j] == x;
        assert(a.remove(a.len() - 1) =~= a.drop_last());
        assert(a.drop_last().to_multiset() == b.remove(j).to_multiset());
        lemma_under_permutation(a.drop_last(), b.remove(j), k, key);
        lemma_under_remove(b, j, k, key);
    }
}

/// What a rollup holds, key by key: a group for a key exactly if some record
/// has the key, and then a group that stands for the records with that key.
/// So a group costs and counts what its members do, names the containers that
/// they name, and has every other field from the first of them.
pub proof fn lemma_aggregate_groups<K>(rs: Seq<RecordView>, key: spec_fn(RecordView) -> K, k: K)
    requires
        merge_stable(key),
    ensures
        find_group(aggregate_spec(rs, key), k, key) < aggregate_spec(rs, key).len() <==> has_key(
            rs,
            k,
            key,
        ),
        has_key(rs, k, key) ==> stands_for(
            aggregate_spec(rs, key)[find_group(aggregate_spec(rs, key), k, key)],
            rs,
            k,
            key,
        ),
    decreases rs.len(),
{
    if rs.len() == 0 {
        assert(!has_key(rs, k, key));
    } else {
        let front = rs.drop_last();
        let x = rs.last();
        let kx = key(x);
        let old_groups = aggregate_spec(front, key);
        let groups = aggregate_spec(rs, key);
        let i = find_group(old_groups, kx, key);
        let f = find_group(old_groups, k, key);
        lemma_aggregate_groups(front, key, k);
        lemma_aggregate_groups(front, key, kx);
        lemma_find_group(old_groups, k, key);
        lemma_find_group(old_groups, kx, key);
        lemma_under_step(rs, k, key);
        if !has_key(front, k, key) {
            lemma_nothing_under(front, k, key);
        }
        if i < old_groups.len() {
            let merged = merge(old_groups[i], x);
            assert(key(merged) == key(old_groups[i]));
            assert forall|j: int| 0 <= j < groups.len() implies key(#[trigger] groups[j]) == key(
                old_groups[j],
            ) by {}
            assert forall|j: int| 0 <= j < f implies key(#[trigger] groups[j]) != k by {
                assert(key(old_groups[j]) != k);
            }
            lemma_find_group_is(groups, k, key, f);
            if k == kx {
                assert(f == i);
                lemma_stands_merge(old_groups[i], rs, k, key);
                assert(groups[f] == merged);
            } else if f < old_groups.len() {
                assert(key(old_groups[f]) == k);
                assert(groups[f] == old_groups[f]);
                lemma_stands_carry(old_groups[f], rs, k, key);
            }
        } else {
            assert forall|j: int| 0 <= j < old_groups.len() implies groups[j] == old_groups[j] by {}
            if k == kx {
                assert forall|j: int| 0 <= j < old_groups.len() implies key(#[trigger] groups[j])
                    != k by {
                    assert(key(old_groups[j]) != k);
                }
                lemma_find_group_is(groups, k, key, old_groups.len() as int);
                assert(groups[old_groups.len() as int] == x);
                lemma_stands_first(rs, k, key);
            } else if f < old_groups.len() {
                assert forall|j: int| 0 <= j < f implies key(#[trigger] groups[j]) != k by {
                    assert(key(old_groups[j]) != k);
                }
                assert(groups[f] == old_groups[f]);
                lemma_find_group_is(groups, k, key, f);
                lemma_stands_carry(old_groups[f], rs, k, key);
            } else {
                assert forall|j: int| 0 <= j < groups.len() implies key(#[trigger] groups[j])
                    != k by {
                    if j < old_groups.len() {
                        assert(key(old_groups[j]) != k);
                    }
                }
                lemma_find_group_is(groups, k, key, groups.len() as int);
            }
        }
    }
}

/// The sums of two lists laid end to end are the sums of the two.
pub proof fn lemma_totals_concat(a: Seq<RecordView>, b: Seq<RecordView>)
    ensures
        total_millicores_of(a + b) == total_millicores_of(a) + total_millicores_of(b),
        total_instances_of(a + b) == total_instances_of(a) + total_instances_of(b),
    decreases b.len(),
{
    if b.len() == 0 {
        assert(a + b =~= a);
    } else {
        assert((a + b).drop_last() =~= a + b.drop_last());
        lemma_totals_concat(a, b.drop_last());
    }
}

/// Taking one record out takes its cost and count out of the sums.
pub proof fn lemma_totals_remove(rs: Seq<RecordView>, i: int)
    requires
        0 <= i < rs.len(),
    ensures
        total_millicores_of(rs.remove(i)) + rs[i].total_millicores == total_millicores_of(rs),
        total_instances_of(rs.remove(i)) + rs[i].instance_count == total_instances_of(rs),
    decreases rs.len(),
{
    if i == rs.len() - 1 {
        assert(rs.remove(i) =~= rs.drop_last());
    } else {
        assert(rs.remove(i).drop_last() =~= rs.drop_last().remove(i));
        assert(rs.remove(i).last() == rs.last());
        lemma_totals_remove(rs.drop_last(), i);
    }
}

/// The sums do not depend on the order of the records: two lists that hold
/// the same records, each as often, cost and count the same.
pub proof fn lemma_totals_permutation(a: Seq<RecordView>, b: Seq<RecordView>)
    requires
        a.to_multiset() == b.to_multiset(),
    ensures
        total_millicores_of(a) == total_millicores_of(b),
        total_instances_of(a) == total_instances_of(b),
    decreases a.len(),
{
    broadcast use vstd::multiset::group_multiset_axioms;
    broadcast use vstd::seq_lib::group_to_multiset_ensures;

    assert(a.len() == b.len()) by {
        vstd::seq_lib::to_multiset_len(a);
        vstd::seq_lib::to_multiset_len(b);
    }
    if a.len() > 0 {
        let x = a.last();
        assert(a.to_multiset().count(x) > 0) by {
            assert(a[a.len() - 1] == x);
            assert(a.contains(x));
        }
        assert(b.contains(x));
        let j = choose|j: int| 0 <= j < b.len() && b[j] == x;
        assert(a.remove(a.len() - 1) =~= a.drop_last());
        assert(a.drop_last().to_multiset() == b.remove(j).to_multiset());
        lemma_totals_permutation(a.drop_last(), b.remove(j));
        lemma_totals_remove(b, j);
    }
}

/// Records may be rolled up in parts: rolling up the rollups of two parts
/// together costs and counts what rolling up all the records at once does.
pub proof fn lemma_partial_rollups_totals<K>(
    a: Seq<RecordView>,
    b: Seq<RecordView>,
    key: spec_fn(RecordView) -> K,
)
    ensures
        total_millicores_of(aggregate_spec(aggregate_spec(a, key) + aggregate_spec(b, key), key))
            == total_millicores_of(aggregate_spec(a + b, key)),
        total_instances_of(aggregate_spec(aggregate_spec(a, key) + aggregate_spec(b, key), key))
            == total_instances_of(aggregate_spec(a + b, key)),
{
    lemma_aggregate_preserves_totals(a, key);
    lemma_aggregate_preserves_totals(b, key);
    lemma_aggregate_preserves_totals(a + b, key);
    lemma_aggregate_preserves_totals(aggregate_spec(a, key) + aggregate_spec(b, key), key);
    lemma_totals_concat(a, b);
    lemma_totals_concat(aggregate_spec(a, key), aggregate_spec(b, key));
}

/// Rolling up twice, by one key function and then by another, neither adds
/// nor loses cost or instances: the totals are those of the records first
/// given. So it is for the container level followed by the object level.
pub proof fn lemma_two_level_totals<K1, K2>(
    rs: Seq<RecordView>,
    first: spec_fn(RecordView) -> K1,
    second: spec_fn(RecordView) -> K2,
)
    ensures
        total_millicores_of(aggregate_spec(aggregate_spec(rs, first), second))
            == total_millicores_of(rs),
        total_instances_of(aggregate_spec(aggregate_spec(rs, first), second))
            == total_instances_of(rs),
{
    lemma_aggregate_preserves_totals(rs, first);
    lemma_aggregate_preserves_totals(aggregate_spec(rs, first), second);
}

/// Rolling the container-level groups up to objects never inflates the
/// totals: the object-level groups cost and count what the records first given
/// do.
pub proof fn lemma_levels_totals(rs: Seq<RecordView>)
    ensures
        total_millicores_of(
            aggregate_spec(
                aggregate_spec(rs, level_key(RollupLevel::Container)),
                level_key(RollupLevel::Object),
            ),
        ) == total_millicores_of(rs),
        total_instances_of(
            aggregate_spec(
                aggregate_spec(rs, level_key(RollupLevel::Container)),
                level_key(RollupLevel::Object),
            ),
        ) == total_instances_of(rs),
{
    lemma_two_level_totals(rs, level_key(RollupLevel::Container), level_key(RollupLevel::Object));
}

} // verus!
