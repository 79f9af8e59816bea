//! The record that the whole pipeline works on, and its mathematical view.

use vstd::prelude::*;

verus! {

/// The kind of workload that owns a container.
#[derive(Clone, Copy, Debug, PartialEq, Eq, Structural)]
pub enum WorkloadKind {
    Pod,
    Deployment,
    StatefulSet,
    DaemonSet,
}

/// The name that a kind goes by.
pub open spec fn kind_label(kind: WorkloadKind) -> Seq<char> {
    match kind {
        WorkloadKind::Pod => "pod"@,
        WorkloadKind::Deployment => "deployment"@,
        WorkloadKind::StatefulSet => "statefulset"@,
        WorkloadKind::DaemonSet => "daemonset"@,
    }
}

impl WorkloadKind {
    /// The name that the kind goes by.
    pub fn label(self) -> (r: &'static str)
        ensures
            r@ == kind_label(self),
    {
        match self {
            WorkloadKind::Pod => "pod",
            WorkloadKind::Deployment => "deployment",
            WorkloadKind::StatefulSet => "statefulset",
            WorkloadKind::DaemonSet => "daemonset",
        }
    }

    /// The kind that goes by a name, if there is one.
    pub fn from_label(label: &str) -> (r: Option<WorkloadKind>)
        ensures
            match r {
                Some(kind) => label@ == kind_label(kind),
                None => forall|kind: WorkloadKind| label@ != kind_label(kind),
            },
    {
        let text = label.to_owned();
        if text == "pod".to_owned() {
            Some(WorkloadKind::Pod)
        } else if text == "deployment".to_owned() {
            Some(WorkloadKind::Deployment)
        } else if text == "statefulset".to_owned() {
            Some(WorkloadKind::StatefulSet)
        } else if text == "daemonset".to_owned() {
            Some(WorkloadKind::DaemonSet)
        } else {
            None
        }
    }
}

/// What a `WorkloadRecord` is, as plain mathematical values.
pub struct RecordView {
    pub object_name: Seq<char>,
    pub namespace: Seq<char>,
    pub kind: WorkloadKind,
    pub container_names: Seq<Seq<char>>,
    pub node_selector_text: Seq<char>,
    pub has_node_selector: bool,
    pub has_qos_request: bool,
    pub has_trusted_image: bool,
    pub image_url: Seq<char>,
    pub total_millicores: nat,
    pub instance_count: nat,
}

impl RecordView {
    /// A record names at least one container and names none twice.
    pub open spec fn wf(self) -> bool {
        self.container_names.len() > 0 && self.container_names.no_duplicates()
    }

    /// All three compliance dimensions hold.
    pub open spec fn compliant(self) -> bool {
        self.has_node_selector && self.has_qos_request && self.has_trusted_image
    }
}

/// The compliance and cost facts of one container, or of several merged ones.
///
/// `total_millicores` is the CPU request of one instance in millicores times
/// the number of instances; a thousand of them make one core.
#[derive(Clone, Debug)]
pub struct WorkloadRecord {
    pub object_name: String,
    pub namespace: String,
    pub kind: WorkloadKind,
    pub container_names: Vec<String>,
    pub node_selector_text: String,
    pub has_node_selector: bool,
    pub has_qos_request: bool,
    pub has_trusted_image: bool,
    pub image_url: String,
    pub total_millicores: u64,
    pub instance_count: u64,
}

/// The strings of a vector, each as its sequence of characters.
pub open spec fn names_of(v: Seq<String>) -> Seq<Seq<char>> {
    Seq::new(v.len(), |i: int| v[i]@)
}

impl View for WorkloadRecord {
    type V = RecordView;

    open spec fn view(&self) -> RecordView {
        RecordView {
            object_name: self.object_name@,
            namespace: self.namespace@,
            kind: self.kind,
            container_names: names_of(self.container_names@),
            node_selector_text: self.node_selector_text@,
            has_node_selector: self.has_node_selector,
            has_qos_request: self.has_qos_request,
            has_trusted_image: self.has_trusted_image,
            image_url: self.image_url@,
            total_millicores: self.total_millicores as nat,
            instance_count: self.instance_count as nat,
        }
    }
}

/// The views of a vector of records, in order.
pub open spec fn views_of(v: Seq<WorkloadRecord>) -> Seq<RecordView> {
    Seq::new(v.len(), |i: int| v[i]@)
}

/// A fresh copy of a list of names.
pub fn copy_names(names: &Vec<String>) -> (out: Vec<String>)
    ensures
        names_of(out@) == names_of(names@),
{
    let mut out: Vec<String> = Vec::new();
    let mut i: usize = 0;
    while i < names.len()
        invariant
            i <= names.len(),
            out.len() == i,
            forall|j: int| 0 <= j < i ==> out[j]@ == names[j]@,
        decreases names.len() - i,
    {
        out.push(names[i].clone());
        i += 1;
    }
    assert(names_of(out@) =~= names_of(names@));
    out
}

impl WorkloadRecord {
    /// A fresh record with the same view.
    pub fn duplicate(&self) -> (out: WorkloadRecord)
        ensures
            out@ == self@,
    {
        WorkloadRecord {
            object_name: self.object_name.clone(),
            namespace: self.namespace.clone(),
            kind: self.kind,
            container_names: copy_names(&self.container_names),
            node_selector_text: self.node_selector_text.clone(),
            has_node_selector: self.has_node_selector,
            has_qos_request: self.has_qos_request,
            has_trusted_image: self.has_trusted_image,
            image_url: self.image_url.clone(),
            total_millicores: self.total_millicores,
            instance_count: self.instance_count,
        }
    }

    /// Whether every compliance dimension holds.
    pub fn is_compliant(&self) -> (r: bool)
        ensures
            r == self@.compliant(),
    {
        self.has_node_selector && self.has_qos_request && self.has_trusted_image
    }
}

} // verus!
