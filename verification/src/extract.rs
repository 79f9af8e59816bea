//! From a workload's containers to one record each.

use vstd::prelude::*;
use vstd::string::StringExecFns;
use crate::image::{default_pattern, default_registry_pattern, has_trusted_image_for, trusted_image};
use crate::quantity::{convert_quantity_to_int, quantity_millicores, ParseError};
use crate::record::{names_of, views_of, RecordView, WorkloadKind, WorkloadRecord};
use crate::rollup::all_wf;
use crate::text::{join_names, joined};
use crate::workload::{
    Container, Controller, ExtractionError, ExtractionErrorView, Pod, PodSpec, Workload,
};

verus! {

/// The value of the first entry with the given name, if there is one.
pub open spec fn lookup(entries: Seq<(String, String)>, name: Seq<char>) -> Option<Seq<char>>
    decreases entries.len(),
{
    if entries.len() == 0 {
        None
    } else if entries[0].0@ == name {
        Some(entries[0].1@)
    } else {
        lookup(entries.drop_first(), name)
    }
}

/// Each entry as `name=value`.
pub open spec fn entry_texts(entries: Seq<(String, String)>) -> Seq<Seq<char>> {
    Seq::new(entries.len(), |i: int| entries[i].0@ + "="@ + entries[i].1@)
}

/// A node selector as text: its entries as `name=value` with commas between
/// them, or `none` where there is no selector.
pub open spec fn selector_text(selector: Option<Vec<(String, String)>>) -> Seq<char> {
    match selector {
        Some(entries) => joined(entry_texts(entries@), ","@),
        None => "none"@,
    }
}

/// The CPU quantity that a container requests, if it requests one.
pub open spec fn cpu_request(c: Container) -> Option<Seq<char>> {
    match c.resources {
        Some(resources) => match resources.requests {
            Some(requests) => lookup(requests@, "cpu"@),
            None => None,
        },
        None => None,
    }
}

/// Whether a container declares resource requests at all, for CPU or not.
pub open spec fn declares_requests(c: Container) -> bool {
    match c.resources {
        Some(resources) => resources.requests is Some,
        None => false,
    }
}

/// The CPU request of a container in millicores: zero where it requests no
/// CPU or its quantity cannot be read.
pub open spec fn container_millicores(c: Container) -> nat {
    match cpu_request(c) {
        Some(q) => match quantity_millicores(q) {
            Some(v) => v,
            None => 0,
        },
        None => 0,
    }
}

/// The record of one container that has an image.
pub open spec fn record_of(
    name: Seq<char>,
    namespace: Seq<char>,
    kind: WorkloadKind,
    pod_spec: PodSpec,
    c: Container,
    replicas: nat,
    pattern: Seq<char>,
) -> RecordView {
    RecordView {
        object_name: name,
        namespace: namespace,
        kind: kind,
        container_names: seq![c.name@],
        node_selector_text: selector_text(pod_spec.node_selector),
        has_node_selector: pod_spec.node_selector is Some,
        has_qos_request: declares_requests(c),
        has_trusted_image: trusted_image(c.image.unwrap()@, pattern),
        image_url: c.image.unwrap()@,
        total_millicores: container_millicores(c) * replicas,
        instance_count: replicas,
    }
}

/// The records of a workload: one per container, in order.
pub open spec fn extracted(
    name: Seq<char>,
    namespace: Seq<char>,
    kind: WorkloadKind,
    pod_spec: PodSpec,
    replicas: nat,
    pattern: Seq<char>,
) -> Seq<RecordView> {
    Seq::new(
        pod_spec.containers@.len(),
        |i: int|
            record_of(
                name,
                namespace,
                kind,
                pod_spec,
                pod_spec.containers@[i],
                replicas,
                pattern,
            ),
    )
}

/// Container `i` is the first that has no image.
pub open spec fn first_without_image(containers: Seq<Container>, i: int) -> bool {
    &&& 0 <= i < containers.len()
    &&& containers[i].image is None
    &&& forall|j: int| 0 <= j < i ==> (#[trigger] containers[j]).image is Some
}

/// Every container has an image.
pub open spec fn all_have_images(containers: Seq<Container>) -> bool {
    forall|j: int| 0 <= j < containers.len() ==> (#[trigger] containers[j]).image is Some
}

/// The position of the first container that has no image, where there is one.
pub open spec fn first_missing_image(containers: Seq<Container>) -> int {
    choose|i: int| first_without_image(containers, i)
}

/// What extraction gives for a workload: its records, one per container in
/// order, where every container has an image; else the error that names the
/// first container without one.
pub open spec fn workload_outcome(
    name: Seq<char>,
    namespace: Seq<char>,
    kind: WorkloadKind,
    pod_spec: PodSpec,
    replicas: nat,
    pattern: Seq<char>,
) -> Result<Seq<RecordView>, ExtractionErrorView> {
    if all_have_images(pod_spec.containers@) {
        Ok(extracted(name, namespace, kind, pod_spec, replicas, pattern))
    } else {
        Err(
            ExtractionErrorView::MissingImage {
                container: pod_spec.containers@[first_missing_image(pod_spec.containers@)].name@,
            },
        )
    }
}

/// What extraction gives for a pod: the records of its containers, counted
/// once, under the pod's owners; or the error that names the pod where it has
/// no spec or, having one, no namespace.
pub open spec fn pod_outcome(pod: Pod) -> Result<Seq<RecordView>, ExtractionErrorView> {
    if pod.spec is None {
        Err(ExtractionErrorView::MissingPodSpec { workload: pod_name(pod) })
    } else if pod.namespace is None {
        Err(ExtractionErrorView::MissingNamespace { workload: pod_name(pod) })
    } else {
        workload_outcome(
            owner_text(pod),
            pod.namespace.unwrap()@,
            WorkloadKind::Pod,
            pod.spec.unwrap(),
            1,
            default_registry_pattern(),
        )
    }
}

/// What extraction gives for a controller: the records of its template's
/// containers, counted once per replica, under the controller's name; or the
/// error that names the controller where it has no template or, having one, no
/// namespace.
pub open spec fn controller_outcome(c: Controller) -> Result<Seq<RecordView>, ExtractionErrorView> {
    if c.template is None {
        Err(ExtractionErrorView::MissingPodSpec { workload: c.name@ })
    } else if c.namespace is None {
        Err(ExtractionErrorView::MissingNamespace { workload: c.name@ })
    } else {
        workload_outcome(
            c.name@,
            c.namespace.unwrap()@,
            c.kind,
            c.template.unwrap(),
            c.replicas as nat,
            default_registry_pattern(),
        )
    }
}

/// What extraction gives for a workload of either sort.
pub open spec fn item_outcome(w: Workload) -> Result<Seq<RecordView>, ExtractionErrorView> {
    match w {
        Workload::Pod(pod) => pod_outcome(pod),
        Workload::Controller(c) => controller_outcome(c),
    }
}

/// An extraction's result as plain mathematical values.
pub open spec fn outcome_view(r: Result<Vec<WorkloadRecord>, ExtractionError>) -> Result<
    Seq<RecordView>,
    ExtractionErrorView,
> {
    match r {
        Ok(records) => Ok(views_of(records@)),
        Err(e) => Err(e@),
    }
}

/// The CPU quantities of the containers that cannot be read, in order.
pub open spec fn quantity_faults(containers: Seq<Container>) -> Seq<Seq<char>>
    decreases containers.len(),
{
    if containers.len() == 0 {
        Seq::empty()
    } else {
        let front = quantity_faults(containers.drop_last());
        match cpu_request(containers.last()) {
            Some(q) => if quantity_millicores(q) is None {
                front.push(q)
            } else {
                front
            },
            None => front,
        }
    }
}

/// The name of a pod, or `no_pod_name` where it has none.
pub open spec fn pod_name(pod: Pod) -> Seq<char> {
    match pod.name {
        Some(name) => name@,
        None => "no_pod_name"@,
    }
}

/// Whether a pod has an owner: a list of owners that holds at least one.
pub open spec fn has_owner(pod: Pod) -> bool {
    match pod.owner_names {
        Some(names) => names@.len() > 0,
        None => false,
    }
}

/// The object that a pod is counted under: its owners' names with `|`
/// between them, or `pod:` and its own name where it has no owner, be it
/// that it has no list of owners or an empty one.
pub open spec fn owner_text(pod: Pod) -> Seq<char> {
    if has_owner(pod) {
        joined(names_of(pod.owner_names.unwrap()@), "|"@)
    } else {
        "pod:"@ + pod_name(pod)
    }
}

/// The value of the first entry with the given name, if there is one.
pub fn find_entry<'a>(entries: &'a Vec<(String, String)>, name: &String) -> (r: Option<
    &'a String,
>)
    ensures
        match r {
            Some(v) => lookup(entries@, name@) == Some(v@),
            None => lookup(entries@, name@) is None,
        },
{
    let mut i: usize = 0;
    assert(entries@.skip(0) =~= entries@);
    while i < entries.len()
        invariant
            i <= entries.len(),
            lookup(entries@, name@) == lookup(entries@.skip(i as int), name@),
        decreases entries.len() - i,
    {
        assert(entries@.skip(i as int).drop_first() =~= entries@.skip(i + 1));
        assert(entries@.skip(i as int)[0] == entries@[i as int]);
        if entries[i].0 == *name {
            return Some(&entries[i].1);
        }
        i += 1;
    }
    None
}

/// A node selector as text.
pub fn render_selector(selector: &Option<Vec<(String, String)>>) -> (out: String)
    ensures
        out@ == selector_text(*selector),
{
    match selector {
        Some(entries) => {
            let mut texts: Vec<String> = Vec::new();
            let mut i: usize = 0;
            while i < entries.len()
                invariant
                    i <= entries.len(),
                    texts.len() == i,
                    forall|j: int|
                        0 <= j < i ==> texts[j]@ == entries[j].0@ + "="@ + entries[j].1@,
                decreases entries.len() - i,
            {
                let mut text = entries[i].0.clone();
                text.append("=");
                text.append(entries[i].1.as_str());
                texts.push(text);
                i += 1;
            }
            assert(names_of(texts@) =~= entry_texts(entries@));
            join_names(&texts, ",")
        },
        None => "none".to_owned(),
    }
}

/// The CPU quantity that a container requests, if it requests one.
pub fn cpu_request_of(c: &Container) -> (r: Option<&String>)
    ensures
        match r {
            Some(q) => cpu_request(*c) == Some(q@),
            None => cpu_request(*c) is None,
        },
{
    let cpu = "cpu".to_owned();
    match &c.resources {
        Some(resources) => match &resources.requests {
            Some(requests) => find_entry(requests, &cpu),
            None => None,
        },
        None => None,
    }
}

/// The records of a workload, one per container in order, the private
/// registry having the given pattern. A container without an image stops the
/// extraction: the first such container is named in the error. A CPU quantity
/// that cannot be read counts as zero; `unreadable_quantities` lists those.
pub fn extract_with_registry(
    name: String,
    namespace: String,
    kind: WorkloadKind,
    pod_spec: &PodSpec,
    replicas: u32,
    pattern: &str,
) -> (r: Result<Vec<WorkloadRecord>, ExtractionError>)
    ensures
        outcome_view(r) == workload_outcome(
            name@,
            namespace@,
            kind,
            *pod_spec,
            replicas as nat,
            pattern@,
        ),
        r is Ok ==> all_wf(views_of(r.unwrap()@)),
{
    let has_node_selector = pod_spec.node_selector.is_some();
    let node_selector_text = render_selector(&pod_spec.node_selector);
    let ghost want = extracted(name@, namespace@, kind, *pod_spec, replicas as nat, pattern@);
    let mut out: Vec<WorkloadRecord> = Vec::new();
    let mut i: usize = 0;
    while i < pod_spec.containers.len()
        invariant
            i <= pod_spec.containers.len(),
            has_node_selector == (pod_spec.node_selector is Some),
            node_selector_text@ == selector_text(pod_spec.node_selector),
            want == extracted(name@, namespace@, kind, *pod_spec, replicas as nat, pattern@),
            out.len() == i,
            forall|j: int| 0 <= j < i ==> (#[trigger] pod_spec.containers@[j]).image is Some,
            forall|j: int| 0 <= j < i ==> (#[trigger] out[j])@ == want[j],
        decreases pod_spec.containers.len() - i,
    {
        let c = &pod_spec.containers[i];
        let image = match &c.image {
            Some(image) => image,
            None => {
                assert(first_without_image(pod_spec.containers@, i as int));
                assert(first_missing_image(pod_spec.containers@) == i) by {
                    let f = first_missing_image(pod_spec.containers@);
                    assert(first_without_image(pod_spec.containers@, f));
                    if f < i {
                        assert(pod_spec.containers@[f].image is Some);
                    }
                    if i < f {
                        assert(pod_spec.containers@[i as int].image is Some);
                    }
                }
                return Err(ExtractionError::MissingImage { container: c.name.clone() });
            },
        };
        let millicores: u32 = match cpu_request_of(c) {
            Some(q) => match convert_quantity_to_int(q.as_str()) {
                Ok(v) => v,
                Err(_) => 0,
            },
            None => 0,
        };
        assert(millicores * replicas <= u64::MAX) by (nonlinear_arith)
            requires
                millicores <= u32::MAX,
                replicas <= u32::MAX,
        ;
        let mut names: Vec<String> = Vec::new();
        names.push(c.name.clone());
        assert(names_of(names@) =~= seq![c.name@]);
        let record = WorkloadRecord {
            object_name: name.clone(),
            namespace: namespace.clone(),
            kind: kind,
            container_names: names,
            node_selector_text: node_selector_text.clone(),
            has_node_selector: has_node_selector,
            has_qos_request: match &c.resources {
                Some(resources) => resources.requests.is_some(),
                None => false,
            },
            has_trusted_image: has_trusted_image_for(image.as_str(), pattern),
            image_url: image.clone(),
            total_millicores: (millicores as u64) * (replicas as u64),
            instance_count: replicas as u64,
        };
        assert(record@ == want[i as int]);
        out.push(record);
        i += 1;
    }
    assert(views_of(out@) =~= want);
    assert forall|j: int| 0 <= j < want.len() implies (#[trigger] want[j]).wf() by {
        assert(want[j].container_names.len() == 1);
    }
    Ok(out)
}

/// The records of a workload, one per container in order, the private
/// registry having the default pattern.
pub fn extract_containers_and_info(
    name: String,
    namespace: String,
    kind: WorkloadKind,
    pod_spec: &PodSpec,
    replicas: u32,
) -> (r: Result<Vec<WorkloadRecord>, ExtractionError>)
    ensures
        outcome_view(r) == workload_outcome(
            name@,
            namespace@,
            kind,
            *pod_spec,
            replicas as nat,
            default_registry_pattern(),
        ),
        r is Ok ==> all_wf(views_of(r.unwrap()@)),
{
    extract_with_registry(name, namespace, kind, pod_spec, replicas, default_pattern())
}

/// The CPU quantities among a workload's containers that cannot be read and
/// so count as zero, in the containers' order.
pub fn unreadable_quantities(pod_spec: &PodSpec) -> (out: Vec<ParseError>)
    ensures
        out@.len() == quantity_faults(pod_spec.containers@).len(),
        forall|j: int|
            0 <= j < out@.len() ==> (#[trigger] out@[j]).quantity@ == quantity_faults(
                pod_spec.containers@,
            )[j],
{
    let ghost cs = pod_spec.containers@;
    let mut out: Vec<ParseError> = Vec::new();
    let mut i: usize = 0;
    assert(cs.take(0) =~= Seq::empty());
    while i < pod_spec.containers.len()
        invariant
            i <= pod_spec.containers.len(),
            cs == pod_spec.containers@,
            out@.len() == quantity_faults(cs.take(i as int)).len(),
            forall|j: int|
                0 <= j < out@.len() ==> (#[trigger] out@[j]).quantity@ == quantity_faults(
                    cs.take(i as int),
                )[j],
        decreases pod_spec.containers.len() - i,
    {
        assert(cs.take(i + 1).drop_last() =~= cs.take(i as int));
        assert(cs.take(i + 1).last() == cs[i as int]);
        match cpu_request_of(&pod_spec.containers[i]) {
            Some(q) => match convert_quantity_to_int(q.as_str()) {
                Ok(_) => {},
                Err(e) => {
                    out.push(e);
                },
            },
            None => {},
        }
        i += 1;
    }
    assert(cs.take(pod_spec.containers.len() as int) =~= cs);
    out
}

/// The records of a pod: those of its containers, counted once, under the
/// pod's owners or, where it has none, under `pod:` and its name. A pod
/// without a spec or without a namespace gives an error that names it.
pub fn process_pod(pod: &Pod) -> (r: Result<Vec<WorkloadRecord>, ExtractionError>)
    ensures
        outcome_view(r) == pod_outcome(*pod),
        r is Ok ==> all_wf(views_of(r.unwrap()@)),
{
    let name = match &pod.name {
        Some(name) => name.clone(),
        None => "no_pod_name".to_owned(),
    };
    let pod_spec = match &pod.spec {
        Some(spec) => spec,
        None => {
            return Err(ExtractionError::MissingPodSpec { workload: name });
        },
    };
    let namespace = match &pod.namespace {
        Some(namespace) => namespace.clone(),
        None => {
            return Err(ExtractionError::MissingNamespace { workload: name });
        },
    };
    let owned = match &pod.owner_names {
        Some(names) => names.len() > 0,
        None => false,
    };
    let owners = match &pod.owner_names {
        Some(names) if owned => join_names(names, "|"),
        _ => {
            let mut text = "pod:".to_owned();
            text.append(name.as_str());
            text
        },
    };
    extract_containers_and_info(owners, namespace, WorkloadKind::Pod, pod_spec, 1)
}

/// The records of a controller: those of its template's containers, counted
/// once per replica, under the controller's name. A controller without a
/// template or without a namespace gives an error that names it.
pub fn process_controller(c: &Controller) -> (r: Result<Vec<WorkloadRecord>, ExtractionError>)
    ensures
        outcome_view(r) == controller_outcome(*c),
        r is Ok ==> all_wf(views_of(r.unwrap()@)),
{
    let template = match &c.template {
        Some(template) => template,
        None => {
            return Err(ExtractionError::MissingPodSpec { workload: c.name.clone() });
        },
    };
    let namespace = match &c.namespace {
        Some(namespace) => namespace.clone(),
        None => {
            return Err(ExtractionError::MissingNamespace { workload: c.name.clone() });
        },
    };
    extract_containers_and_info(c.name.clone(), namespace, c.kind, template, c.replicas)
}

/// The records of a workload of either sort.
pub fn process_workload(w: &Workload) -> (r: Result<Vec<WorkloadRecord>, ExtractionError>)
    ensures
        outcome_view(r) == item_outcome(*w),
        r is Ok ==> all_wf(views_of(r.unwrap()@)),
{
    match w {
        Workload::Pod(pod) => process_pod(pod),
        Workload::Controller(c) => process_controller(c),
    }
}

} // verus!
