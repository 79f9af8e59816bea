//! The executable rollup: a merge over a list of groups and their keys that
//! keeps the groups in the order in which their keys first occur.

use vstd::prelude::*;
use crate::record::{copy_names, names_of, views_of, RecordView, WorkloadRecord};
use crate::rollup::{
    aggregate_spec, all_wf, distinct_keys, key_of, level_key, lemma_aggregate_shape,
    lemma_find_group_is, lemma_level_key_stable, lemma_merge_wf, lemma_totals_bound,
    lemma_totals_prefix, lemma_totals_push, lemma_totals_update, merge, merge_stable,
    total_instances_of, total_millicores_of, union_names, KeyView, RollupKey, RollupLevel,
};

verus! {

/// Whether two lists hold the same names in the same order.
pub fn same_names(a: &Vec<String>, b: &Vec<String>) -> (r: bool)
    ensures
        r == (names_of(a@) == names_of(b@)),
{
    if a.len() != b.len() {
        assert(names_of(a@).len() != names_of(b@).len());
        return false;
    }
    let mut i: usize = 0;
    while i < a.len()
        invariant
            i <= a.len(),
            a.len() == b.len(),
            forall|j: int| 0 <= j < i ==> a[j]@ == b[j]@,
        decreases a.len() - i,
    {
        if !(a[i] == b[i]) {
            assert(names_of(a@)[i as int] != names_of(b@)[i as int]);
            return false;
        }
        i += 1;
    }
    assert(names_of(a@) =~= names_of(b@));
    true
}

/// Whether a list holds a name.
pub fn names_contain(names: &Vec<String>, name: &String) -> (r: bool)
    ensures
        r == names_of(names@).contains(name@),
{
    let mut i: usize = 0;
    while i < names.len()
        invariant
            i <= names.len(),
            forall|j: int| 0 <= j < i ==> names[j]@ != name@,
        decreases names.len() - i,
    {
        if names[i] == *name {
            assert(names_of(names@)[i as int] == name@);
            return true;
        }
        i += 1;
    }
    assert forall|j: int| 0 <= j < names_of(names@).len() implies names_of(names@)[j]
        != name@ by {}
    false
}

/// `acc` followed by the names of `incoming` that it lacks.
pub fn unite_names(acc: &Vec<String>, incoming: &Vec<String>) -> (out: Vec<String>)
    ensures
        names_of(out@) == union_names(names_of(acc@), names_of(incoming@)),
{
    let mut out = copy_names(acc);
    let mut j: usize = 0;
    assert(names_of(incoming@).take(0) =~= Seq::empty());
    while j < incoming.len()
        invariant
            j <= incoming.len(),
            names_of(out@) == union_names(names_of(acc@), names_of(incoming@).take(j as int)),
        decreases incoming.len() - j,
    {
        let ghost before = names_of(incoming@).take(j as int);
        let ghost now = names_of(incoming@).take(j + 1);
        assert(now.drop_last() =~= before);
        assert(now.last() == incoming[j as int]@);
        if !names_contain(&out, &incoming[j]) {
            let ghost old_out = out@;
            out.push(incoming[j].clone());
            assert(names_of(out@) =~= names_of(old_out).push(incoming[j as int]@));
        }
        j += 1;
    }
    assert(names_of(incoming@).take(incoming.len() as int) =~= names_of(incoming@));
    out
}

/// The record that stands for `acc` and `x` together.
pub fn merge_records(acc: &WorkloadRecord, x: &WorkloadRecord) -> (out: WorkloadRecord)
    requires
        acc.total_millicores + x.total_millicores <= u64::MAX,
        acc.instance_count + x.instance_count <= u64::MAX,
    ensures
        out@ == merge(acc@, x@),
{
    WorkloadRecord {
        object_name: acc.object_name.clone(),
        namespace: acc.namespace.clone(),
        kind: acc.kind,
        container_names: unite_names(&acc.container_names, &x.container_names),
        node_selector_text: acc.node_selector_text.clone(),
        has_node_selector: acc.has_node_selector,
        has_qos_request: acc.has_qos_request,
        has_trusted_image: acc.has_trusted_image,
        image_url: acc.image_url.clone(),
        total_millicores: acc.total_millicores + x.total_millicores,
        instance_count: acc.instance_count + x.instance_count,
    }
}

/// The key of a record among the containers of its object.
pub fn extract_container_level_key(x: &WorkloadRecord) -> (k: RollupKey)
    ensures
        k@ == key_of(x@, RollupLevel::Container),
{
    RollupKey {
        object_name: x.object_name.clone(),
        namespace: x.namespace.clone(),
        kind: x.kind,
        container_names: copy_names(&x.container_names),
    }
}

/// The key of a record's object.
pub fn extract_object_level_key(x: &WorkloadRecord) -> (k: RollupKey)
    ensures
        k@ == key_of(x@, RollupLevel::Object),
{
    let k = RollupKey {
        object_name: x.object_name.clone(),
        namespace: x.namespace.clone(),
        kind: x.kind,
        container_names: Vec::new(),
    };
    assert(names_of(k.container_names@) =~= Seq::empty());
    k
}

/// Whether two keys are the same.
pub fn same_key(a: &RollupKey, b: &RollupKey) -> (r: bool)
    ensures
        r == (a@ == b@),
{
    a.kind == b.kind && a.object_name == b.object_name && a.namespace == b.namespace
        && same_names(&a.container_names, &b.container_names)
}

/// The key function `key` says what `key_fn` returns: for every record, the
/// key of its view.
pub open spec fn describes<F: Fn(&WorkloadRecord) -> RollupKey>(
    key_fn: F,
    key: spec_fn(RecordView) -> KeyView,
) -> bool {
    forall|r: &WorkloadRecord, k: RollupKey| call_ensures(key_fn, (r,), k) ==> k@ == key(r@)
}

/// Whether the costs and the instance counts of `records` can each be summed
/// in 64 bits.
pub fn totals_fit(records: &Vec<WorkloadRecord>) -> (ok: bool)
    ensures
        ok == (total_millicores_of(views_of(records@)) <= u64::MAX && total_instances_of(
            views_of(records@),
        ) <= u64::MAX),
{
    let ghost rs = views_of(records@);
    let mut cores: u64 = 0;
    let mut instances: u64 = 0;
    let mut i: usize = 0;
    while i < records.len()
        invariant
            i <= records.len(),
            rs == views_of(records@),
            cores == total_millicores_of(rs.take(i as int)),
            instances == total_instances_of(rs.take(i as int)),
        decreases records.len() - i,
    {
        proof {
            assert(rs.take(i + 1).drop_last() =~= rs.take(i as int));
            assert(rs.take(i + 1).last() == records[i as int]@);
            lemma_totals_prefix(rs, i + 1);
        }
        let r = &records[i];
        if r.total_millicores > u64::MAX - cores || r.instance_count > u64::MAX - instances {
            return false;
        }
        cores = cores + r.total_millicores;
        instances = instances + r.instance_count;
        i += 1;
    }
    assert(rs.take(records.len() as int) =~= rs);
    true
}

/// Rolls `records` up by a key function: one record per key, in the order in
/// which the keys first occur. The first record of a group gives every field
/// but cost, instance count and container names, which all its members give.
///
/// `key_fn` is called once on every record, and a group stays under the key
/// of its first record. The result is stated for key functions whose key
/// depends on the record's view alone and is stable under merging, so that a
/// group's key is also that of its merged record; the totals are kept
/// whatever `key_fn` returns.
pub fn aggregate_by<F: Fn(&WorkloadRecord) -> RollupKey>(
    records: &Vec<WorkloadRecord>,
    key_fn: F,
) -> (out: Vec<WorkloadRecord>)
    requires
        forall|r: &WorkloadRecord| call_requires(key_fn, (r,)),
        total_millicores_of(views_of(records@)) <= u64::MAX,
        total_instances_of(views_of(records@)) <= u64::MAX,
    ensures
        forall|key: spec_fn(RecordView) -> KeyView| #[trigger]
            describes(key_fn, key) && merge_stable(key) ==> views_of(out@) == aggregate_spec(
                views_of(records@),
                key,
            ),
        total_millicores_of(views_of(out@)) == total_millicores_of(views_of(records@)),
        total_instances_of(views_of(out@)) == total_instances_of(views_of(records@)),
        all_wf(views_of(records@)) ==> all_wf(views_of(out@)),
{
    let ghost rs = views_of(records@);
    let mut out: Vec<WorkloadRecord> = Vec::new();
    let mut keys: Vec<RollupKey> = Vec::new();
    let mut i: usize = 0;
    proof {
        assert(rs.take(0) =~= Seq::empty());
        assert(views_of(out@) =~= Seq::empty());
    }
    while i < records.len()
        invariant
            i <= records.len(),
            rs == views_of(records@),
            total_millicores_of(rs) <= u64::MAX,
            total_instances_of(rs) <= u64::MAX,
            forall|r: &WorkloadRecord| call_requires(key_fn, (r,)),
            keys.len() == out.len(),
            all_wf(rs) ==> all_wf(views_of(out@)),
            total_millicores_of(views_of(out@)) == total_millicores_of(rs.take(i as int)),
            total_instances_of(views_of(out@)) == total_instances_of(rs.take(i as int)),
            forall|key: spec_fn(RecordView) -> KeyView| #[trigger]
                describes(key_fn, key) && merge_stable(key) ==> {
                    &&& views_of(out@) == aggregate_spec(rs.take(i as int), key)
                    &&& forall|j: int| 0 <= j < out.len() ==> (#[trigger] keys[j])@ == key(out[j]@)
                },
        decreases records.len() - i,
    {
        let x = &records[i];
        let x_key = key_fn(x);
        let ghost acc = views_of(out@);
        let ghost old_out = out@;
        let ghost old_keys = keys@;
        proof {
            assert(rs.take(i + 1).drop_last() =~= rs.take(i as int));
            assert(rs.take(i + 1).last() == x@);
            lemma_totals_prefix(rs, i + 1);
        }
        let mut k: usize = 0;
        while k < keys.len() && !same_key(&keys[k], &x_key)
            invariant
                k <= keys.len(),
                forall|j: int| 0 <= j < k ==> (#[trigger] keys[j])@ != x_key@,
            decreases keys.len() - k,
        {
            k += 1;
        }
        if k < out.len() {
            proof {
                assert(acc[k as int] == out[k as int]@);
                lemma_totals_bound(acc, k as int);
                lemma_totals_update(acc, k as int, merge(acc[k as int], x@));
                if all_wf(rs) {
                    lemma_merge_wf(acc[k as int], x@);
                }
            }
            let merged = merge_records(&out[k], x);
            out.set(k, merged);
            proof {
                assert(views_of(out@) =~= acc.update(k as int, merge(acc[k as int], x@)));
                assert forall|key: spec_fn(RecordView) -> KeyView| #[trigger]
                    describes(key_fn, key) && merge_stable(key) implies {
                    &&& views_of(out@) == aggregate_spec(rs.take(i + 1), key)
                    &&& forall|j: int| 0 <= j < out.len() ==> (#[trigger] keys[j])@ == key(out[j]@)
                } by {
                    assert(acc == aggregate_spec(rs.take(i as int), key));
                    assert forall|j: int| 0 <= j < k implies key(#[trigger] acc[j]) != key(x@) by {
                        assert(old_keys[j]@ == key(old_out[j]@));
                        assert(keys[j] == old_keys[j]);
                    }
                    assert(old_keys[k as int]@ == key(old_out[k as int]@));
                    lemma_find_group_is(acc, key(x@), key, k as int);
                    assert(key(merge(acc[k as int], x@)) == key(acc[k as int]));
                    assert forall|j: int| 0 <= j < out.len() implies (#[trigger] keys[j])@ == key(
                        out[j]@,
                    ) by {
                        assert(keys[j] == old_keys[j]);
                        if j != k {
                            assert(out[j] == old_out[j]);
                        }
                    }
                }
            }
        } else {
            proof {
                lemma_totals_push(acc, x@);
                assert(x@ == rs[i as int]);
            }
            out.push(x.duplicate());
            keys.push(x_key);
            proof {
                assert(views_of(out@) =~= acc.push(x@));
                assert forall|key: spec_fn(RecordView) -> KeyView| #[trigger]
                    describes(key_fn, key) && merge_stable(key) implies {
                    &&& views_of(out@) == aggregate_spec(rs.take(i + 1), key)
                    &&& forall|j: int| 0 <= j < out.len() ==> (#[trigger] keys[j])@ == key(out[j]@)
                } by {
                    assert(acc == aggregate_spec(rs.take(i as int), key));
                    assert forall|j: int| 0 <= j < k implies key(#[trigger] acc[j]) != key(x@) by {
                        assert(old_keys[j]@ == key(old_out[j]@));
                        assert(keys[j] == old_keys[j]);
                    }
                    lemma_find_group_is(acc, key(x@), key, k as int);
                    assert forall|j: int| 0 <= j < out.len() implies (#[trigger] keys[j])@ == key(
                        out[j]@,
                    ) by {
                        if j < k {
                            assert(keys[j] == old_keys[j]);
                            assert(out[j] == old_out[j]);
                        }
                    }
                }
            }
        }
        i += 1;
    }
    assert(rs.take(records.len() as int) =~= rs);
    out
}

/// Rolls `records` up at a level: one record per key, in the order in which
/// the keys first occur.
pub fn aggregate(records: &Vec<WorkloadRecord>, level: RollupLevel) -> (out: Vec<WorkloadRecord>)
    requires
        total_millicores_of(views_of(records@)) <= u64::MAX,
        total_instances_of(views_of(records@)) <= u64::MAX,
    ensures
        views_of(out@) == aggregate_spec(views_of(records@), level_key(level)),
        distinct_keys(views_of(out@), level_key(level)),
        all_wf(views_of(records@)) ==> all_wf(views_of(out@)),
        total_millicores_of(views_of(out@)) == total_millicores_of(views_of(records@)),
        total_instances_of(views_of(out@)) == total_instances_of(views_of(records@)),
{
    proof {
        lemma_level_key_stable(level);
        lemma_aggregate_shape(views_of(records@), level_key(level));
    }
    match level {
        RollupLevel::Container => {
            assert(describes(extract_container_level_key, level_key(level)));
            aggregate_by(records, extract_container_level_key)
        },
        RollupLevel::Object => {
            assert(describes(extract_object_level_key, level_key(level)));
            aggregate_by(records, extract_object_level_key)
        },
    }
}

/// Rolls `records` up at a level, where their totals can be summed in 64
/// bits; `None` where they cannot.
pub fn try_aggregate(records: &Vec<WorkloadRecord>, level: RollupLevel) -> (out: Option<
    Vec<WorkloadRecord>,
>)
    ensures
        out.is_some() == (total_millicores_of(views_of(records@)) <= u64::MAX
            && total_instances_of(views_of(records@)) <= u64::MAX),
        match out {
            Some(groups) => {
                &&& views_of(groups@) == aggregate_spec(views_of(records@), level_key(level))
                &&& distinct_keys(views_of(groups@), level_key(level))
                &&& all_wf(views_of(records@)) ==> all_wf(views_of(groups@))
                &&& total_millicores_of(views_of(groups@)) == total_millicores_of(
                    views_of(records@),
                )
                &&& total_instances_of(views_of(groups@)) == total_instances_of(
                    views_of(records@),
                )
            },
            None => true,
        },
{
    if totals_fit(records) {
        Some(aggregate(records, level))
    } else {
        None
    }
}

} // verus!
