//! The decisions of the fan-out over namespaces.
//!
//! One retrieval is launched per namespace. Their results arrive in any order;
//! each is taken in as it comes: the workloads of a namespace are extracted
//! at once, a failed namespace is noted, and neither holds up the others. When
//! every namespace has reported, the fan-out is finished.

use vstd::prelude::*;
use crate::extract::{item_outcome, process_workload};
use crate::record::{names_of, views_of, RecordView, WorkloadRecord};
use crate::rollup::all_wf;
use crate::workload::{ExtractionError, ExtractionErrorView, Workload};

verus! {

/// The state of a fan-out.
#[derive(Clone, Debug)]
pub struct FanOut {
    /// The namespaces whose retrieval was launched.
    pub namespaces: Vec<String>,
    /// For each namespace, whether its retrieval has reported.
    pub settled: Vec<bool>,
    /// The records extracted so far.
    pub records: Vec<WorkloadRecord>,
    /// The namespaces whose retrieval failed.
    pub failed: Vec<String>,
    /// The workloads that gave no records, each with its reason.
    pub skipped: Vec<ExtractionError>,
}

/// What a retrieval reports. The namespace is given by its position in the
/// list that the fan-out was launched with.
#[derive(Clone, Debug)]
pub enum Arrival {
    Fetched { namespace: usize, workloads: Vec<Workload> },
    Failed { namespace: usize },
}

/// What to do after an arrival.
#[derive(Clone, Copy, Debug, PartialEq, Eq, Structural)]
pub enum Next {
    /// Some namespace has not reported: wait for the next arrival.
    Await,
    /// Every namespace has reported: go on to the rollup.
    Finish,
}

/// The views of a list of errors, in order.
pub open spec fn faults_of(v: Seq<ExtractionError>) -> Seq<ExtractionErrorView> {
    Seq::new(v.len(), |i: int| v[i]@)
}

/// The records of the workloads that can be extracted, in the workloads'
/// order.
pub open spec fn batch_records(workloads: Seq<Workload>) -> Seq<RecordView>
    decreases workloads.len(),
{
    if workloads.len() == 0 {
        Seq::empty()
    } else {
        match item_outcome(workloads.last()) {
            Ok(records) => batch_records(workloads.drop_last()) + records,
            Err(_) => batch_records(workloads.drop_last()),
        }
    }
}

/// The errors of the workloads that cannot be extracted, in the workloads'
/// order.
pub open spec fn batch_faults(workloads: Seq<Workload>) -> Seq<ExtractionErrorView>
    decreases workloads.len(),
{
    if workloads.len() == 0 {
        Seq::empty()
    } else {
        match item_outcome(workloads.last()) {
            Ok(_) => batch_faults(workloads.drop_last()),
            Err(e) => batch_faults(workloads.drop_last()).push(e),
        }
    }
}

impl FanOut {
    /// There is one mark per namespace.
    pub open spec fn wf(&self) -> bool {
        self.settled@.len() == self.namespaces@.len()
    }

    /// Every namespace has reported.
    pub open spec fn all_settled(&self) -> bool {
        forall|i: int| 0 <= i < self.settled@.len() ==> self.settled@[i]
    }

    /// A report from this namespace is still due.
    pub open spec fn expects(&self, namespace: int) -> bool {
        0 <= namespace < self.settled@.len() && !self.settled@[namespace]
    }

    /// The fan-out at its start: a retrieval is due for every namespace, and
    /// nothing has been taken in.
    pub fn launch(namespaces: Vec<String>) -> (f: FanOut)
        ensures
            f.wf(),
            f.namespaces == namespaces,
            forall|i: int| 0 <= i < namespaces@.len() ==> f.expects(i),
            f.records@.len() == 0,
            f.failed@.len() == 0,
            f.skipped@.len() == 0,
    {
        let mut settled: Vec<bool> = Vec::new();
        let mut i: usize = 0;
        while i < namespaces.len()
            invariant
                i <= namespaces.len(),
                settled.len() == i,
                forall|j: int| 0 <= j < i ==> !settled[j],
            decreases namespaces.len() - i,
        {
            settled.push(false);
            i += 1;
        }
        FanOut {
            namespaces: namespaces,
            settled: settled,
            records: Vec::new(),
            failed: Vec::new(),
            skipped: Vec::new(),
        }
    }

    /// Whether every namespace has reported.
    pub fn is_finished(&self) -> (r: bool)
        ensures
            r == self.all_settled(),
    {
        let mut i: usize = 0;
        while i < self.settled.len()
            invariant
                i <= self.settled.len(),
                forall|j: int| 0 <= j < i ==> self.settled@[j],
            decreases self.settled.len() - i,
        {
            if !self.settled[i] {
                return false;
            }
            i += 1;
        }
        true
    }

    /// Takes in one arrival.
    ///
    /// A report that is due marks its namespace as settled. If it brought
    /// workloads, their records are added to those held, and the workloads
    /// that could not be extracted to those skipped; if it failed, the
    /// namespace is added to the failed ones. A report that is not due, from
    /// a namespace that is unknown or has reported already, changes nothing.
    /// Either way the answer is `Finish` exactly when every namespace has then
    /// reported.
    pub fn step(&mut self, arrival: Arrival) -> (next: Next)
        requires
            old(self).wf(),
        ensures
            final(self).wf(),
            final(self).namespaces == old(self).namespaces,
            (next == Next::Finish) == final(self).all_settled(),
            all_wf(views_of(old(self).records@)) ==> all_wf(views_of(final(self).records@)),
            match arrival {
                Arrival::Fetched { namespace, workloads } => if old(self).expects(
                    namespace as int,
                ) {
                    &&& final(self).settled@ == old(self).settled@.update(namespace as int, true)
                    &&& views_of(final(self).records@) == views_of(old(self).records@)
                        + batch_records(workloads@)
                    &&& faults_of(final(self).skipped@) == faults_of(old(self).skipped@)
                        + batch_faults(workloads@)
                    &&& final(self).failed == old(self).failed
                } else {
                    *final(self) == *old(self)
                },
                Arrival::Failed { namespace } => if old(self).expects(namespace as int) {
                    &&& final(self).settled@ == old(self).settled@.update(namespace as int, true)
                    &&& names_of(final(self).failed@) == names_of(old(self).failed@).push(
                        old(self).namespaces@[namespace as int]@,
                    )
                    &&& final(self).records == old(self).records
                    &&& final(self).skipped == old(self).skipped
                } else {
                    *final(self) == *old(self)
                },
            },
    {
        match arrival {
            Arrival::Fetched { namespace, workloads } => {
                if namespace < self.settled.len() && !self.settled[namespace] {
                    self.settled.set(namespace, true);
                    let ghost held = views_of(self.records@);
                    let ghost faults = faults_of(self.skipped@);
                    let mut i: usize = 0;
                    assert(workloads@.take(0) =~= Seq::empty());
                    assert(views_of(self.records@) =~= held + batch_records(workloads@.take(0)));
                    assert(faults_of(self.skipped@) =~= faults + batch_faults(workloads@.take(0)));
                    while i < workloads.len()
                        invariant
                            i <= workloads.len(),
                            self.wf(),
                            self.namespaces == old(self).namespaces,
                            self.failed == old(self).failed,
                            self.settled@ == old(self).settled@.update(namespace as int, true),
                            all_wf(views_of(old(self).records@)) ==> all_wf(
                                views_of(self.records@),
                            ),
                            views_of(self.records@) == held + batch_records(
                                workloads@.take(i as int),
                            ),
                            faults_of(self.skipped@) == faults + batch_faults(
                                workloads@.take(i as int),
                            ),
                        decreases workloads.len() - i,
                    {
                        proof {
                            assert(workloads@.take(i + 1).drop_last() =~= workloads@.take(
                                i as int,
                            ));
                            assert(workloads@.take(i + 1).last() == workloads@[i as int]);
                        }
                        let ghost before = self.records@;
                        let ghost skipped_before = self.skipped@;
                        match process_workload(&workloads[i]) {
                            Ok(mut records) => {
                                let ghost added = records@;
                                self.records.append(&mut records);
                                assert(views_of(self.records@) =~= views_of(before) + views_of(
                                    added,
                                ));
                                assert(views_of(self.records@) =~= held + batch_records(
                                    workloads@.take(i + 1),
                                ));
                            },
                            Err(e) => {
                                self.skipped.push(e);
                                assert(faults_of(self.skipped@) =~= faults_of(
                                    skipped_before,
                                ).push(e@));
                            },
                        }
                        i += 1;
                    }
                    assert(workloads@.take(workloads.len() as int) =~= workloads@);
                }
            },
            Arrival::Failed { namespace } => {
                if namespace < self.settled.len() && !self.settled[namespace] {
                    self.settled.set(namespace, true);
                    let ghost before = self.failed@;
                    let name = self.namespaces[namespace].clone();
                    self.failed.push(name);
                    assert(names_of(self.failed@) =~= names_of(before).push(
                        self.namespaces@[namespace as int]@,
                    ));
                }
            },
        }
        if self.is_finished() {
            Next::Finish
        } else {
            Next::Await
        }
    }
}

} // verus!
