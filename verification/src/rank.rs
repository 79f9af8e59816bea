//! Ranking records by cost and filtering them by compliance.
//!
//! Records are ordered by descending cost. Ties are broken by object name,
//! namespace, kind and container names, and then by every remaining field, so
//! that two records rank equal only if they are the same record: the ranking
//! of a collection of records does not depend on the order in which they came.

use core::cmp::Ordering;
use rayon::slice::ParallelSliceMut;
use vstd::prelude::*;
use vstd::relations::{sorted_by, total_ordering};
use vstd::seq_lib::{group_to_multiset_ensures, lemma_sorted_unique};
use crate::aggregate::{aggregate_by, describes};
use crate::order::{
    lemma_names_lt, lemma_text_lt, names_lt, names_order, text_lt, text_order_of, Precedence,
};
use crate::record::{views_of, RecordView, WorkloadKind, WorkloadRecord};
use crate::rollup::{
    aggregate_spec, all_wf, distinct_keys, lemma_aggregate_of_distinct,
    lemma_aggregate_preserves_totals, lemma_aggregate_shape, lemma_totals_permutation,
    merge_stable, total_instances_of, total_millicores_of, KeyView, RollupKey,
};

verus! {

/// The place of a kind among the kinds.
pub open spec fn kind_index(k: WorkloadKind) -> int {
    match k {
        WorkloadKind::Pod => 0,
        WorkloadKind::Deployment => 1,
        WorkloadKind::StatefulSet => 2,
        WorkloadKind::DaemonSet => 3,
    }
}

/// `a` ranks strictly before `b`: it costs more, or costs the same and comes
/// first by the first field in which the two differ, the fields taken in the
/// order object name, namespace, kind, container names, image, node selector
/// text, the three flags (unset first) and instance count.
pub open spec fn ranks_before(a: RecordView, b: RecordView) -> bool {
    if a.total_millicores != b.total_millicores {
        a.total_millicores > b.total_millicores
    } else if a.object_name != b.object_name {
        text_lt(a.object_name, b.object_name)
    } else if a.namespace != b.namespace {
        text_lt(a.namespace, b.namespace)
    } else if a.kind != b.kind {
        kind_index(a.kind) < kind_index(b.kind)
    } else if a.container_names != b.container_names {
        names_lt(a.container_names, b.container_names)
    } else if a.image_url != b.image_url {
        text_lt(a.image_url, b.image_url)
    } else if a.node_selector_text != b.node_selector_text {
        text_lt(a.node_selector_text, b.node_selector_text)
    } else if a.has_node_selector != b.has_node_selector {
        !a.has_node_selector
    } else if a.has_qos_request != b.has_qos_request {
        !a.has_qos_request
    } else if a.has_trusted_image != b.has_trusted_image {
        !a.has_trusted_image
    } else {
        a.instance_count < b.instance_count
    }
}

/// `a` ranks before `b` or is `b`.
pub open spec fn rank_le(a: RecordView, b: RecordView) -> bool {
    a == b || ranks_before(a, b)
}

/// The ranking order as a relation.
pub open spec fn rank_relation() -> spec_fn(RecordView, RecordView) -> bool {
    |a: RecordView, b: RecordView| rank_le(a, b)
}

/// `rs` is in ranking order.
pub open spec fn ranked(rs: Seq<RecordView>) -> bool {
    forall|i: int, j: int| 0 <= i < j < rs.len() ==> rank_le(#[trigger] rs[i], #[trigger] rs[j])
}

/// The records of `rs` in ranking order.
pub open spec fn ranking_of(rs: Seq<RecordView>) -> Seq<RecordView> {
    rs.sort_by(rank_relation())
}

/// Whether a record belongs in the report: every record where compliant ones
/// are included, else those that fail at least one compliance dimension.
pub open spec fn reported(r: RecordView, include_compliant: bool) -> bool {
    include_compliant || !r.compliant()
}

/// The records of `rs` that belong in the report, in their order.
pub open spec fn retained(rs: Seq<RecordView>, include_compliant: bool) -> Seq<RecordView>
    decreases rs.len(),
{
    if rs.len() == 0 {
        rs
    } else if reported(rs.last(), include_compliant) {
        retained(rs.drop_last(), include_compliant).push(rs.last())
    } else {
        retained(rs.drop_last(), include_compliant)
    }
}

/// Ranking strictly before is a strict total order on records.
pub proof fn lemma_ranks_before(a: RecordView, b: RecordView, c: RecordView)
    ensures
        !ranks_before(a, a),
        a != b ==> ranks_before(a, b) || ranks_before(b, a),
        !(ranks_before(a, b) && ranks_before(b, a)),
        ranks_before(a, b) && ranks_before(b, c) ==> ranks_before(a, c),
{
    lemma_text_lt(a.object_name, b.object_name, c.object_name);
    lemma_text_lt(a.namespace, b.namespace, c.namespace);
    lemma_names_lt(a.container_names, b.container_names, c.container_names);
    lemma_text_lt(a.image_url, b.image_url, c.image_url);
    lemma_text_lt(a.node_selector_text, b.node_selector_text, c.node_selector_text);
}

/// The ranking order is a total order: reflexive, antisymmetric, transitive,
/// and any two records are comparable.
pub proof fn lemma_rank_total_order()
    ensures
        total_ordering(rank_relation()),
{
    let r = rank_relation();
    assert forall|x: RecordView, y: RecordView| #[trigger] r(x, y) && #[trigger] r(y, x) implies x
        == y by {
        lemma_ranks_before(x, y, x);
    }
    assert forall|x: RecordView, y: RecordView, z: RecordView| #[trigger]
        r(x, y) && #[trigger] r(y, z) implies r(x, z) by {
        lemma_ranks_before(x, y, z);
    }
    assert forall|x: RecordView, y: RecordView| #[trigger] r(x, y) || #[trigger] r(y, x) by {
        lemma_ranks_before(x, y, x);
    }
    assert forall|x: RecordView| #[trigger] r(x, x) by {}
}

/// A collection of records has one ranking only: two sequences in ranking
/// order that hold the same records, each as often, are equal. Ties in cost
/// are therefore always broken the same way.
pub proof fn lemma_ranking_unique(x: Seq<RecordView>, y: Seq<RecordView>)
    requires
        ranked(x),
        ranked(y),
        x.to_multiset() == y.to_multiset(),
    ensures
        x == y,
{
    lemma_rank_total_order();
    assert(sorted_by(x, rank_relation()));
    assert(sorted_by(y, rank_relation()));
    lemma_sorted_unique(x, y, rank_relation());
}

/// `ranking_of` gives the records it was given, in ranking order.
pub proof fn lemma_ranking_of(rs: Seq<RecordView>)
    ensures
        ranked(ranking_of(rs)),
        ranking_of(rs).to_multiset() == rs.to_multiset(),
{
    lemma_rank_total_order();
    rs.lemma_sort_by_ensures(rank_relation());
    let s = ranking_of(rs);
    assert forall|i: int, j: int| 0 <= i < j < s.len() implies rank_le(
        #[trigger] s[i],
        #[trigger] s[j],
    ) by {
        assert(rank_relation()(s[i], s[j]));
    }
}

/// Two lists that hold the same records, each as often, are well formed
/// together.
pub proof fn lemma_wf_permutation(a: Seq<RecordView>, b: Seq<RecordView>)
    requires
        a.to_multiset() == b.to_multiset(),
        all_wf(b),
    ensures
        all_wf(a),
{
    broadcast use group_to_multiset_ensures;

    assert forall|i: int| 0 <= i < a.len() implies (#[trigger] a[i]).wf() by {
        assert(a.contains(a[i]));
        assert(b.to_multiset().count(a[i]) > 0);
        assert(b.contains(a[i]));
    }
}

/// The retained ones of well-formed records are well formed.
pub proof fn lemma_retained_wf(rs: Seq<RecordView>, include_compliant: bool)
    requires
        all_wf(rs),
    ensures
        all_wf(retained(rs, include_compliant)),
    decreases rs.len(),
{
    if rs.len() > 0 {
        assert forall|i: int| 0 <= i < rs.drop_last().len() implies (
        #[trigger] rs.drop_last()[i]).wf() by {
            assert(rs.drop_last()[i] == rs[i]);
        }
        lemma_retained_wf(rs.drop_last(), include_compliant);
    }
}

/// Two lists that hold the same records, each as often, hold each key once
/// together.
pub proof fn lemma_distinct_keys_permutation<K>(
    a: Seq<RecordView>,
    b: Seq<RecordView>,
    key: spec_fn(RecordView) -> K,
)
    requires
        a.to_multiset() == b.to_multiset(),
        distinct_keys(b, key),
    ensures
        distinct_keys(a, key),
{
    broadcast use group_to_multiset_ensures;

    assert forall|i: int, j: int| 0 <= i < b.len() && 0 <= j < b.len() && i != j implies b[i]
        != b[j] by {
        if i < j {
            assert(key(b[i]) != key(b[j]));
        } else {
            assert(key(b[j]) != key(b[i]));
        }
    }
    b.lemma_multiset_has_no_duplicates();
    a.lemma_multiset_has_no_duplicates_conv();
    assert forall|i: int, j: int| 0 <= i < j < a.len() implies key(#[trigger] a[i]) != key(
        #[trigger] a[j],
    ) by {
        assert(a[i] != a[j]);
        assert(a.contains(a[i]));
        assert(a.contains(a[j]));
        assert(b.to_multiset().count(a[i]) > 0);
        assert(b.to_multiset().count(a[j]) > 0);
        assert(b.contains(a[i]));
        assert(b.contains(a[j]));
        let p = choose|p: int| 0 <= p < b.len() && b[p] == a[i];
        let q = choose|q: int| 0 <= q < b.len() && b[q] == a[j];
        if p < q {
            assert(key(b[p]) != key(b[q]));
        } else {
            assert(key(b[q]) != key(b[p]));
        }
    }
}

/// Rolling up and ranking a ranked rollup again by the same key function
/// changes nothing: nothing is merged or summed a second time, and the order
/// stays.
pub proof fn lemma_ranked_rollup_idempotent<K>(rs: Seq<RecordView>, key: spec_fn(RecordView) -> K)
    requires
        merge_stable(key),
    ensures
        ranking_of(aggregate_spec(ranking_of(aggregate_spec(rs, key)), key)) == ranking_of(
            aggregate_spec(rs, key),
        ),
{
    let groups = aggregate_spec(rs, key);
    let ranking = ranking_of(groups);
    lemma_aggregate_shape(rs, key);
    lemma_ranking_of(groups);
    lemma_distinct_keys_permutation(ranking, groups, key);
    lemma_aggregate_of_distinct(ranking, key);
    lemma_ranking_of(ranking);
    lemma_ranking_unique(ranking_of(ranking), ranking);
}

/// A ranked rollup does not depend on more than its groups: two rollups that
/// hold the same groups, each as often, rank the same, so that records of
/// equal cost always come in the same order.
pub proof fn lemma_ranked_rollup_unique(a: Seq<RecordView>, b: Seq<RecordView>)
    requires
        a.to_multiset() == b.to_multiset(),
    ensures
        ranking_of(a) == ranking_of(b),
{
    lemma_ranking_of(a);
    lemma_ranking_of(b);
    lemma_ranking_unique(ranking_of(a), ranking_of(b));
}

/// Rolling up and ranking twice, by one key function and then by another,
/// neither adds nor loses cost or instances.
pub proof fn lemma_ranked_rollups_totals<K1, K2>(
    rs: Seq<RecordView>,
    first: spec_fn(RecordView) -> K1,
    second: spec_fn(RecordView) -> K2,
)
    ensures
        total_millicores_of(ranking_of(aggregate_spec(rs, first))) == total_millicores_of(rs),
        total_instances_of(ranking_of(aggregate_spec(rs, first))) == total_instances_of(rs),
        total_millicores_of(
            ranking_of(aggregate_spec(ranking_of(aggregate_spec(rs, first)), second)),
        ) == total_millicores_of(rs),
        total_instances_of(
            ranking_of(aggregate_spec(ranking_of(aggregate_spec(rs, first)), second)),
        ) == total_instances_of(rs),
{
    let once = aggregate_spec(rs, first);
    lemma_aggregate_preserves_totals(rs, first);
    lemma_ranking_of(once);
    lemma_totals_permutation(ranking_of(once), once);
    let twice = aggregate_spec(ranking_of(once), second);
    lemma_aggregate_preserves_totals(ranking_of(once), second);
    lemma_ranking_of(twice);
    lemma_totals_permutation(ranking_of(twice), twice);
}

/// How often a record occurs among the retained ones: as often as in the
/// input if it belongs in the report, else never.
pub proof fn lemma_retained_count(rs: Seq<RecordView>, include_compliant: bool, v: RecordView)
    ensures
        retained(rs, include_compliant).to_multiset().count(v) == if reported(
            v,
            include_compliant,
        ) {
            rs.to_multiset().count(v)
        } else {
            0
        },
    decreases rs.len(),
{
    broadcast use vstd::multiset::group_multiset_axioms;
    broadcast use group_to_multiset_ensures;

    if rs.len() == 0 {
        assert(rs.to_multiset().len() == 0);
    } else {
        let front = rs.drop_last();
        lemma_retained_count(front, include_compliant, v);
        assert(rs =~= front.push(rs.last()));
        assert(rs.to_multiset() =~= front.to_multiset().insert(rs.last()));
    }
}

/// The report does not depend on the order in which the records came: inputs
/// that hold the same records, each as often, give the same report.
pub proof fn lemma_report_ignores_arrival_order(
    r1: Seq<RecordView>,
    r2: Seq<RecordView>,
    include_compliant: bool,
)
    requires
        r1.to_multiset() == r2.to_multiset(),
    ensures
        ranking_of(retained(r1, include_compliant)) == ranking_of(
            retained(r2, include_compliant),
        ),
{
    let k1 = retained(r1, include_compliant);
    let k2 = retained(r2, include_compliant);
    assert forall|v: RecordView| k1.to_multiset().count(v) == k2.to_multiset().count(v) by {
        lemma_retained_count(r1, include_compliant, v);
        lemma_retained_count(r2, include_compliant, v);
    }
    assert(k1.to_multiset() =~= k2.to_multiset());
    lemma_ranking_of(k1);
    lemma_ranking_of(k2);
    lemma_ranking_unique(ranking_of(k1), ranking_of(k2));
}

/// The place of a kind among the kinds.
pub fn kind_rank(k: WorkloadKind) -> (r: u8)
    ensures
        r == kind_index(k),
{
    match k {
        WorkloadKind::Pod => 0,
        WorkloadKind::Deployment => 1,
        WorkloadKind::StatefulSet => 2,
        WorkloadKind::DaemonSet => 3,
    }
}

/// Compares two records in ranking order.
pub fn rank_order(a: &WorkloadRecord, b: &WorkloadRecord) -> (o: Ordering)
    ensures
        (o == Ordering::Less) == ranks_before(a@, b@),
        (o == Ordering::Equal) == (a@ == b@),
        (o == Ordering::Greater) == ranks_before(b@, a@),
{
    proof {
        lemma_ranks_before(a@, b@, a@);
    }
    if a.total_millicores != b.total_millicores {
        return if a.total_millicores > b.total_millicores {
            Ordering::Less
        } else {
            Ordering::Greater
        };
    }
    match text_order_of(&a.object_name, &b.object_name) {
        Precedence::Before => {
            return Ordering::Less;
        },
        Precedence::After => {
            return Ordering::Greater;
        },
        Precedence::Same => {},
    }
    match text_order_of(&a.namespace, &b.namespace) {
        Precedence::Before => {
            return Ordering::Less;
        },
        Precedence::After => {
            return Ordering::Greater;
        },
        Precedence::Same => {},
    }
    let ka = kind_rank(a.kind);
    let kb = kind_rank(b.kind);
    if ka != kb {
        return if ka < kb {
            Ordering::Less
        } else {
            Ordering::Greater
        };
    }
    match names_order(&a.container_names, &b.container_names) {
        Precedence::Before => {
            return Ordering::Less;
        },
        Precedence::After => {
            return Ordering::Greater;
        },
        Precedence::Same => {},
    }
    match text_order_of(&a.image_url, &b.image_url) {
        Precedence::Before => {
            return Ordering::Less;
        },
        Precedence::After => {
            return Ordering::Greater;
        },
        Precedence::Same => {},
    }
    match text_order_of(&a.node_selector_text, &b.node_selector_text) {
        Precedence::Before => {
            return Ordering::Less;
        },
        Precedence::After => {
            return Ordering::Greater;
        },
        Precedence::Same => {},
    }
    if a.has_node_selector != b.has_node_selector {
        return if !a.has_node_selector {
            Ordering::Less
        } else {
            Ordering::Greater
        };
    }
    if a.has_qos_request != b.has_qos_request {
        return if !a.has_qos_request {
            Ordering::Less
        } else {
            Ordering::Greater
        };
    }
    if a.has_trusted_image != b.has_trusted_image {
        return if !a.has_trusted_image {
            Ordering::Less
        } else {
            Ordering::Greater
        };
    }
    if a.instance_count < b.instance_count {
        Ordering::Less
    } else if a.instance_count > b.instance_count {
        Ordering::Greater
    } else {
        Ordering::Equal
    }
}

/// Sorts records in place with rayon's `par_sort_unstable_by`, comparing by
/// `rank_order`. Trusted: that the records afterwards are those given, each as
/// often, and stand in the order of the comparison, which is a total order.
#[verifier::external_body]
fn sort_by_rank(records: &mut Vec<WorkloadRecord>)
    ensures
        views_of(final(records)@).to_multiset() == views_of(old(records)@).to_multiset(),
        ranked(views_of(final(records)@)),
{
    records.par_sort_unstable_by(|a, b| rank_order(a, b));
}

/// The report: the records that belong in it, in ranking order.
pub fn rank_and_filter(records: &Vec<WorkloadRecord>, include_compliant: bool) -> (out: Vec<
    WorkloadRecord,
>)
    ensures
        views_of(out@) == ranking_of(retained(views_of(records@), include_compliant)),
        ranked(views_of(out@)),
        forall|v: RecordView|
            views_of(out@).to_multiset().count(v) == if reported(v, include_compliant) {
                views_of(records@).to_multiset().count(v)
            } else {
                0
            },
        all_wf(views_of(records@)) ==> all_wf(views_of(out@)),
{
    let ghost rs = views_of(records@);
    let mut out: Vec<WorkloadRecord> = Vec::new();
    let mut i: usize = 0;
    assert(views_of(out@) =~= retained(rs.take(0), include_compliant));
    while i < records.len()
        invariant
            i <= records.len(),
            rs == views_of(records@),
            views_of(out@) == retained(rs.take(i as int), include_compliant),
        decreases records.len() - i,
    {
        proof {
            assert(rs.take(i + 1).drop_last() =~= rs.take(i as int));
            assert(rs.take(i + 1).last() == records[i as int]@);
        }
        if include_compliant || !records[i].is_compliant() {
            let ghost before = views_of(out@);
            out.push(records[i].duplicate());
            assert(views_of(out@) =~= before.push(records[i as int]@));
        }
        i += 1;
    }
    assert(rs.take(records.len() as int) =~= rs);
    let ghost kept = views_of(out@);
    sort_by_rank(&mut out);
    proof {
        lemma_ranking_of(kept);
        lemma_ranking_unique(views_of(out@), ranking_of(kept));
        if all_wf(rs) {
            lemma_retained_wf(rs, include_compliant);
            lemma_wf_permutation(views_of(out@), kept);
        }
        assert forall|v: RecordView|
            views_of(out@).to_multiset().count(v) == if reported(v, include_compliant) {
                rs.to_multiset().count(v)
            } else {
                0
            } by {
            lemma_retained_count(rs, include_compliant, v);
        }
    }
    out
}

/// Rolls `records` up by a key function and puts the groups in ranking
/// order.
pub fn agg_and_sort<F: Fn(&WorkloadRecord) -> RollupKey>(
    records: &Vec<WorkloadRecord>,
    key_fn: F,
) -> (out: Vec<WorkloadRecord>)
    requires
        forall|r: &WorkloadRecord| call_requires(key_fn, (r,)),
        total_millicores_of(views_of(records@)) <= u64::MAX,
        total_instances_of(views_of(records@)) <= u64::MAX,
    ensures
        forall|key: spec_fn(RecordView) -> KeyView| #[trigger]
            describes(key_fn, key) && merge_stable(key) ==> views_of(out@) == ranking_of(
                aggregate_spec(views_of(records@), key),
            ),
        ranked(views_of(out@)),
        total_millicores_of(views_of(out@)) == total_millicores_of(views_of(records@)),
        total_instances_of(views_of(out@)) == total_instances_of(views_of(records@)),
        all_wf(views_of(records@)) ==> all_wf(views_of(out@)),
{
    let mut out = aggregate_by(records, key_fn);
    let ghost groups = views_of(out@);
    sort_by_rank(&mut out);
    proof {
        if all_wf(groups) {
            lemma_wf_permutation(views_of(out@), groups);
        }
        lemma_ranking_of(groups);
        lemma_ranking_unique(views_of(out@), ranking_of(groups));
        lemma_totals_permutation(views_of(out@), groups);
    }
    out
}

} // verus!
