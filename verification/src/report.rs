//! The whole computation behind a report: both rollups and what is shown.

use vstd::prelude::*;
use crate::aggregate::{
    describes, extract_container_level_key, extract_object_level_key, totals_fit,
};
use crate::rank::{agg_and_sort, rank_and_filter, ranking_of, retained};
use crate::record::{views_of, WorkloadRecord};
use crate::rollup::{
    aggregate_spec, all_wf, level_key, lemma_level_key_stable, total_instances_of,
    total_millicores_of, RollupLevel,
};

verus! {

/// The rollups of a collection of records.
#[derive(Clone, Debug)]
pub struct Rollups {
    /// One record per container of an object, in ranking order.
    pub by_container: Vec<WorkloadRecord>,
    /// One record per object, rolled up from `by_container`, in ranking order.
    pub by_object: Vec<WorkloadRecord>,
    /// The container-level records that belong in the report, in ranking order.
    pub shown: Vec<WorkloadRecord>,
}

/// Rolls the records up per container and, from that, per object, and picks
/// the container-level records to show. There are no rollups where the costs
/// or the instance counts of the records cannot be summed in 64 bits.
///
/// Both rollups cost and count what the records do: rolling up twice counts
/// nothing twice.
pub fn build_rollups(records: &Vec<WorkloadRecord>, include_compliant: bool) -> (out: Option<
    Rollups,
>)
    ensures
        out.is_some() == (total_millicores_of(views_of(records@)) <= u64::MAX
            && total_instances_of(views_of(records@)) <= u64::MAX),
        match out {
            Some(rollups) => {
                let by_container = views_of(rollups.by_container@);
                let by_object = views_of(rollups.by_object@);
                &&& by_container == ranking_of(
                    aggregate_spec(views_of(records@), level_key(RollupLevel::Container)),
                )
                &&& by_object == ranking_of(
                    aggregate_spec(by_container, level_key(RollupLevel::Object)),
                )
                &&& views_of(rollups.shown@) == ranking_of(
                    retained(by_container, include_compliant),
                )
                &&& total_millicores_of(by_container) == total_millicores_of(views_of(records@))
                &&& total_instances_of(by_container) == total_instances_of(views_of(records@))
                &&& total_millicores_of(by_object) == total_millicores_of(views_of(records@))
                &&& total_instances_of(by_object) == total_instances_of(views_of(records@))
                &&& all_wf(views_of(records@)) ==> all_wf(by_container) && all_wf(by_object)
                    && all_wf(views_of(rollups.shown@))
            },
            None => true,
        },
{
    if !totals_fit(records) {
        return None;
    }
    proof {
        lemma_level_key_stable(RollupLevel::Container);
        lemma_level_key_stable(RollupLevel::Object);
    }
    assert(describes(extract_container_level_key, level_key(RollupLevel::Container)));
    let by_container = agg_and_sort(records, extract_container_level_key);
    assert(describes(extract_object_level_key, level_key(RollupLevel::Object)));
    let by_object = agg_and_sort(&by_container, extract_object_level_key);
    let shown = rank_and_filter(&by_container, include_compliant);
    Some(Rollups { by_container, by_object, shown })
}

} // verus!
