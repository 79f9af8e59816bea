//! What the audit reads of a workload: its containers, their images and
//! resource requests, and its scheduling constraints.

use vstd::prelude::*;
use crate::record::WorkloadKind;

verus! {

/// The resources that a container asks for, each as a name and a quantity.
/// `None` is a list that was not declared at all.
#[derive(Clone, Debug)]
pub struct ResourceRequirements {
    pub limits: Option<Vec<(String, String)>>,
    pub requests: Option<Vec<(String, String)>>,
}

/// One container of a workload.
#[derive(Clone, Debug)]
pub struct Container {
    pub name: String,
    pub image: Option<String>,
    pub resources: Option<ResourceRequirements>,
}

/// The part of a workload that describes its pods.
#[derive(Clone, Debug)]
pub struct PodSpec {
    pub containers: Vec<Container>,
    pub node_selector: Option<Vec<(String, String)>>,
}

/// A pod as the cluster lists it.
#[derive(Clone, Debug)]
pub struct Pod {
    pub name: Option<String>,
    pub namespace: Option<String>,
    pub owner_names: Option<Vec<String>>,
    pub spec: Option<PodSpec>,
}

/// A workload that runs its pods from a template: a deployment, a stateful
/// set or a daemon set, with the number of its replicas.
#[derive(Clone, Debug)]
pub struct Controller {
    pub name: String,
    pub namespace: Option<String>,
    pub kind: WorkloadKind,
    pub template: Option<PodSpec>,
    pub replicas: u32,
}

/// A workload as the cluster lists it.
#[derive(Clone, Debug)]
pub enum Workload {
    Pod(Pod),
    Controller(Controller),
}

/// Why a workload gave no records.
#[derive(Clone, Debug)]
pub enum ExtractionError {
    /// The workload of this name has no pod spec.
    MissingPodSpec { workload: String },
    /// The workload of this name has no namespace.
    MissingNamespace { workload: String },
    /// The container of this name has no image.
    MissingImage { container: String },
}

/// What an `ExtractionError` is, as plain mathematical values.
pub enum ExtractionErrorView {
    MissingPodSpec { workload: Seq<char> },
    MissingNamespace { workload: Seq<char> },
    MissingImage { container: Seq<char> },
}

impl View for ExtractionError {
    type V = ExtractionErrorView;

    open spec fn view(&self) -> ExtractionErrorView {
        match self {
            ExtractionError::MissingPodSpec { workload } => ExtractionErrorView::MissingPodSpec {
                workload: workload@,
            },
            ExtractionError::MissingNamespace {
                workload,
            } => ExtractionErrorView::MissingNamespace { workload: workload@ },
            ExtractionError::MissingImage { container } => ExtractionErrorView::MissingImage {
                container: container@,
            },
        }
    }
}

} // verus!
