use std::cmp::Ordering;
use workload_audit::aggregate::{
    aggregate, aggregate_by, extract_container_level_key, extract_object_level_key, merge_records,
    names_contain, same_key, same_names, totals_fit, try_aggregate, unite_names,
};
use workload_audit::extract::extract_containers_and_info;
use workload_audit::fanout::{Arrival, FanOut, Next};
use workload_audit::order::{names_order, Precedence};
use workload_audit::rank::{agg_and_sort, kind_rank, rank_and_filter, rank_order};
use workload_audit::record::{copy_names, WorkloadKind, WorkloadRecord};
use workload_audit::report::build_rollups;
use workload_audit::rollup::{RollupKey, RollupLevel};
use workload_audit::workload::{
    Container, Controller, ExtractionError, Pod, PodSpec, ResourceRequirements, Workload,
};

fn record(object: &str, namespace: &str, container: &str, cost: u64, count: u64) -> WorkloadRecord {
    WorkloadRecord {
        object_name: object.to_string(),
        namespace: namespace.to_string(),
        kind: WorkloadKind::Deployment,
        container_names: vec![container.to_string()],
        node_selector_text: "none".to_string(),
        has_node_selector: false,
        has_qos_request: true,
        has_trusted_image: true,
        image_url: format!("quay.io/{}", container),
        total_millicores: cost,
        instance_count: count,
    }
}

fn same(a: &WorkloadRecord, b: &WorkloadRecord) -> bool {
    a.object_name == b.object_name
        && a.namespace == b.namespace
        && a.kind == b.kind
        && a.container_names == b.container_names
        && a.node_selector_text == b.node_selector_text
        && a.has_node_selector == b.has_node_selector
        && a.has_qos_request == b.has_qos_request
        && a.has_trusted_image == b.has_trusted_image
        && a.image_url == b.image_url
        && a.total_millicores == b.total_millicores
        && a.instance_count == b.instance_count
}

fn same_all(a: &[WorkloadRecord], b: &[WorkloadRecord]) -> bool {
    a.len() == b.len() && a.iter().zip(b.iter()).all(|(x, y)| same(x, y))
}

fn cores(rs: &[WorkloadRecord]) -> u64 {
    rs.iter().map(|r| r.total_millicores).sum()
}

fn instances(rs: &[WorkloadRecord]) -> u64 {
    rs.iter().map(|r| r.instance_count).sum()
}

fn sample() -> Vec<WorkloadRecord> {
    vec![
        record("web", "ns1", "app", 400, 1),
        record("web", "ns1", "sidecar", 100, 1),
        record("web", "ns1", "app", 400, 1),
        record("db", "ns1", "pg", 2000, 3),
        record("web", "ns2", "app", 50, 1),
        record("web", "ns1", "sidecar", 100, 1),
        record("web", "ns1", "app", 400, 1),
    ]
}

#[test]
fn container_level_rollup() {
    let out = aggregate(&sample(), RollupLevel::Container);
    assert_eq!(out.len(), 4);
    assert_eq!(out[0].container_names, vec!["app".to_string()]);
    assert_eq!((out[0].total_millicores, out[0].instance_count), (1200, 3));
    assert_eq!(out[1].container_names, vec!["sidecar".to_string()]);
    assert_eq!((out[1].total_millicores, out[1].instance_count), (200, 2));
    assert_eq!(out[2].object_name, "db");
    assert_eq!((out[2].total_millicores, out[2].instance_count), (2000, 3));
    assert_eq!(out[3].namespace, "ns2");
    assert_eq!((out[3].total_millicores, out[3].instance_count), (50, 1));
}

#[test]
fn object_level_rollup_unites_names() {
    let out = aggregate(&sample(), RollupLevel::Object);
    assert_eq!(out.len(), 3);
    assert_eq!(out[0].object_name, "web");
    assert_eq!(out[0].namespace, "ns1");
    assert_eq!(out[0].container_names, vec!["app".to_string(), "sidecar".to_string()]);
    assert_eq!((out[0].total_millicores, out[0].instance_count), (1400, 5));
    assert_eq!(out[0].image_url, "quay.io/app");
}

#[test]
fn first_record_of_a_group_gives_the_flags() {
    let mut first = record("web", "ns1", "app", 10, 1);
    first.has_trusted_image = false;
    first.image_url = "docker.io/app".to_string();
    let mut second = record("web", "ns1", "app", 20, 2);
    second.has_node_selector = true;
    second.node_selector_text = "tier=frontend".to_string();
    let out = aggregate(&vec![first, second], RollupLevel::Container);
    assert_eq!(out.len(), 1);
    assert!(!out[0].has_trusted_image);
    assert!(!out[0].has_node_selector);
    assert_eq!(out[0].image_url, "docker.io/app");
    assert_eq!(out[0].node_selector_text, "none");
    assert_eq!((out[0].total_millicores, out[0].instance_count), (30, 3));
}

#[test]
fn groups_differ_by_kind_and_namespace() {
    let mut a = record("web", "ns1", "app", 10, 1);
    a.kind = WorkloadKind::Pod;
    let b = record("web", "ns1", "app", 10, 1);
    let c = record("web", "ns2", "app", 10, 1);
    assert_eq!(aggregate(&vec![a, b, c], RollupLevel::Object).len(), 3);
}

#[test]
fn rollup_preserves_totals() {
    let input = sample();
    for level in [RollupLevel::Container, RollupLevel::Object] {
        let out = aggregate(&input, level);
        assert_eq!(cores(&out), cores(&input));
        assert_eq!(instances(&out), instances(&input));
    }
    assert_eq!(cores(&input), 3450);
    assert_eq!(instances(&input), 9);
}

#[test]
fn rollup_is_idempotent() {
    for level in [RollupLevel::Container, RollupLevel::Object] {
        let once = aggregate(&sample(), level);
        let twice = aggregate(&once, level);
        assert!(same_all(&once, &twice));
    }
}

#[test]
fn two_level_rollup_does_not_inflate() {
    let input = sample();
    let by_container = aggregate(&input, RollupLevel::Container);
    let by_object = aggregate(&by_container, RollupLevel::Object);
    assert_eq!(cores(&by_object), cores(&input));
    assert_eq!(instances(&by_object), instances(&input));
    assert!(same_all(&by_object, &aggregate(&input, RollupLevel::Object)));
}

#[test]
fn rollup_of_nothing() {
    assert!(aggregate(&Vec::new(), RollupLevel::Object).is_empty());
    assert!(rank_and_filter(&Vec::new(), true).is_empty());
}

#[test]
fn totals_that_do_not_fit() {
    let big = vec![record("a", "ns", "c", u64::MAX, 1), record("b", "ns", "c", 1, 1)];
    assert!(!totals_fit(&big));
    assert!(try_aggregate(&big, RollupLevel::Object).is_none());
    let counts = vec![record("a", "ns", "c", 1, u64::MAX), record("b", "ns", "c", 1, 1)];
    assert!(!totals_fit(&counts));
    let edge = vec![record("a", "ns", "c", u64::MAX - 1, 1), record("a", "ns", "c", 1, 1)];
    assert!(totals_fit(&edge));
    let out = try_aggregate(&edge, RollupLevel::Object).unwrap();
    assert_eq!(out[0].total_millicores, u64::MAX);
}

#[test]
fn keys_and_names() {
    let r = aggregate(&sample(), RollupLevel::Object).remove(0);
    let ck = extract_container_level_key(&r);
    assert_eq!(ck.container_names, vec!["app".to_string(), "sidecar".to_string()]);
    assert_eq!((ck.object_name.as_str(), ck.namespace.as_str()), ("web", "ns1"));
    let ok = extract_object_level_key(&r);
    assert!(ok.container_names.is_empty());
    assert!(same_key(&ok, &extract_object_level_key(&r)));
    assert!(same_key(&ck, &extract_container_level_key(&r)));
    assert!(!same_key(&ck, &ok));
    assert!(!same_key(&ck, &extract_container_level_key(&record("web", "ns1", "app", 1, 1))));
    assert!(same_key(&ok, &extract_object_level_key(&record("web", "ns1", "app", 1, 1))));
    let k = extract_object_level_key(&record("db", "ns1", "pg", 1, 1));
    assert!(!same_key(&ok, &k));

    let a = vec!["x".to_string(), "y".to_string()];
    let b = vec!["y".to_string(), "z".to_string(), "y".to_string()];
    assert_eq!(unite_names(&a, &b), vec!["x", "y", "z"]);
    assert_eq!(unite_names(&a, &a), a);
    assert!(names_contain(&a, &"y".to_string()));
    assert!(!names_contain(&a, &"z".to_string()));
    assert!(same_names(&a, &copy_names(&a)));
    assert!(!same_names(&a, &b));
    let m = merge_records(&record("a", "n", "x", 1, 2), &record("b", "m", "y", 3, 4));
    assert_eq!(m.object_name, "a");
    assert_eq!(m.container_names, vec!["x", "y"]);
    assert_eq!((m.total_millicores, m.instance_count), (4, 6));
}

#[test]
fn ranking_is_by_descending_cost() {
    let out = rank_and_filter(&sample(), true);
    let costs: Vec<u64> = out.iter().map(|r| r.total_millicores).collect();
    assert_eq!(costs, vec![2000, 400, 400, 400, 100, 100, 50]);
}

#[test]
fn ties_are_broken_by_name() {
    let input = vec![
        record("zeta", "ns1", "app", 500, 1),
        record("alpha", "ns2", "app", 500, 1),
        record("alpha", "ns1", "web", 500, 1),
        record("alpha", "ns1", "app", 500, 1),
        record("beta", "ns1", "app", 900, 1),
    ];
    let out = rank_and_filter(&input, true);
    let order: Vec<(&str, &str, &str)> = out
        .iter()
        .map(|r| (r.object_name.as_str(), r.namespace.as_str(), r.container_names[0].as_str()))
        .collect();
    assert_eq!(
        order,
        vec![
            ("beta", "ns1", "app"),
            ("alpha", "ns1", "app"),
            ("alpha", "ns1", "web"),
            ("alpha", "ns2", "app"),
            ("zeta", "ns1", "app"),
        ]
    );
}

#[test]
fn ranking_ignores_arrival_order() {
    let forward = sample();
    let mut backward = sample();
    backward.reverse();
    let mut rotated = sample();
    rotated.rotate_left(3);
    for with_compliant in [true, false] {
        let a = rank_and_filter(&forward, with_compliant);
        assert!(same_all(&a, &rank_and_filter(&backward, with_compliant)));
        assert!(same_all(&a, &rank_and_filter(&rotated, with_compliant)));
        assert!(same_all(&a, &rank_and_filter(&a, with_compliant)));
    }
}

#[test]
fn filter_keeps_what_fails_a_dimension() {
    let mut fine = record("fine", "ns", "c", 5, 1);
    fine.has_node_selector = true;
    let mut no_selector = record("a", "ns", "c", 4, 1);
    no_selector.has_node_selector = false;
    let mut no_requests = record("b", "ns", "c", 3, 1);
    no_requests.has_node_selector = true;
    no_requests.has_qos_request = false;
    let mut untrusted = record("c", "ns", "c", 2, 1);
    untrusted.has_node_selector = true;
    untrusted.has_trusted_image = false;
    let input = vec![untrusted, fine, no_requests, no_selector];
    let filtered = rank_and_filter(&input, false);
    let names: Vec<&str> = filtered.iter().map(|r| r.object_name.as_str()).collect();
    assert_eq!(names, vec!["a", "b", "c"]);
    let all = rank_and_filter(&input, true);
    let names: Vec<&str> = all.iter().map(|r| r.object_name.as_str()).collect();
    assert_eq!(names, vec!["fine", "a", "b", "c"]);
}

#[test]
fn comparison_of_records() {
    let a = record("a", "ns", "c", 5, 1);
    let b = record("b", "ns", "c", 5, 1);
    let costly = record("z", "ns", "c", 6, 1);
    assert_eq!(rank_order(&a, &b), Ordering::Less);
    assert_eq!(rank_order(&b, &a), Ordering::Greater);
    assert_eq!(rank_order(&a, &record("a", "ns", "c", 5, 1)), Ordering::Equal);
    assert_eq!(rank_order(&costly, &a), Ordering::Less);
    let mut pod = record("a", "ns", "c", 5, 1);
    pod.kind = WorkloadKind::Pod;
    assert_eq!(rank_order(&pod, &a), Ordering::Less);
    let mut flagged = record("a", "ns", "c", 5, 1);
    flagged.has_node_selector = true;
    assert_eq!(rank_order(&a, &flagged), Ordering::Less);
    let mut more = record("a", "ns", "c", 5, 2);
    assert_eq!(rank_order(&a, &more), Ordering::Less);
    more.container_names.push("d".to_string());
    assert_eq!(rank_order(&a, &more), Ordering::Less);
    assert_eq!(rank_order(&record("ab", "ns", "c", 5, 1), &record("b", "ns", "c", 5, 1)), Ordering::Less);
    assert_eq!(rank_order(&record("é", "ns", "c", 5, 1), &record("z", "ns", "c", 5, 1)), Ordering::Greater);
    assert_eq!(kind_rank(WorkloadKind::Pod), 0);
    assert_eq!(kind_rank(WorkloadKind::DaemonSet), 3);
}

#[test]
fn comparison_of_name_lists() {
    let n = |v: &[&str]| v.iter().map(|s| s.to_string()).collect::<Vec<String>>();
    assert_eq!(names_order(&n(&["a", "b"]), &n(&["a", "c"])), Precedence::Before);
    assert_eq!(names_order(&n(&["a", "b"]), &n(&["a"])), Precedence::After);
    assert_eq!(names_order(&n(&["a"]), &n(&["a"])), Precedence::Same);
    assert_eq!(names_order(&n(&[]), &n(&["a"])), Precedence::Before);
    assert_eq!(names_order(&n(&["b"]), &n(&["a", "z"])), Precedence::After);
}

#[test]
fn rollup_then_ranking() {
    let out = agg_and_sort(&sample(), extract_container_level_key);
    let costs: Vec<u64> = out.iter().map(|r| r.total_millicores).collect();
    assert_eq!(costs, vec![2000, 1200, 200, 50]);
    let by_object = agg_and_sort(&out, extract_object_level_key);
    let costs: Vec<u64> = by_object.iter().map(|r| r.total_millicores).collect();
    assert_eq!(costs, vec![2000, 1400, 50]);
}

fn web_spec(image: &str, cpu: Option<&str>) -> PodSpec {
    PodSpec {
        containers: vec![Container {
            name: "app".to_string(),
            image: Some(image.to_string()),
            resources: cpu.map(|q| ResourceRequirements {
                limits: None,
                requests: Some(vec![("cpu".to_string(), q.to_string())]),
            }),
        }],
        node_selector: Some(vec![("tier".to_string(), "frontend".to_string())]),
    }
}

#[test]
fn compliant_deployment_end_to_end() {
    let spec = web_spec("123456789012.dkr.ecr.us-east-1.amazonaws.com/app:1", Some("400m"));
    let records = extract_containers_and_info(
        "web".to_string(),
        "ns1".to_string(),
        WorkloadKind::Deployment,
        &spec,
        10,
    )
    .unwrap();
    let by_container = aggregate(&records, RollupLevel::Container);
    assert_eq!(by_container.len(), 1);
    assert_eq!(by_container[0].total_millicores as f64 / 1000.0, 4.0);
    assert!(by_container[0].has_node_selector);
    assert!(by_container[0].has_qos_request);
    assert!(by_container[0].has_trusted_image);
    assert!(rank_and_filter(&by_container, false).is_empty());
    let shown = rank_and_filter(&by_container, true);
    assert_eq!(shown.len(), 1);
    assert!(same(&shown[0], &by_container[0]));
}

#[test]
fn non_compliant_deployment_end_to_end() {
    let spec = web_spec("docker.io/library/app:1", None);
    let records = extract_containers_and_info(
        "web".to_string(),
        "ns1".to_string(),
        WorkloadKind::Deployment,
        &spec,
        10,
    )
    .unwrap();
    let by_container = aggregate(&records, RollupLevel::Container);
    assert!(!by_container[0].has_trusted_image);
    assert!(!by_container[0].has_qos_request);
    assert_eq!(by_container[0].total_millicores as f64 / 1000.0, 0.0);
    let report = rank_and_filter(&by_container, false);
    assert_eq!(report.len(), 1);
    assert_eq!(report[0].object_name, "web");
}

fn pod(name: &str, namespace: Option<&str>, image: Option<&str>, cpu: &str) -> Workload {
    Workload::Pod(Pod {
        name: Some(name.to_string()),
        namespace: namespace.map(|s| s.to_string()),
        owner_names: None,
        spec: Some(PodSpec {
            containers: vec![Container {
                name: "app".to_string(),
                image: image.map(|s| s.to_string()),
                resources: Some(ResourceRequirements {
                    limits: None,
                    requests: Some(vec![("cpu".to_string(), cpu.to_string())]),
                }),
            }],
            node_selector: None,
        }),
    })
}

#[test]
fn fan_out_takes_arrivals_in_any_order() {
    let mut f = FanOut::launch(vec!["ns1".to_string(), "ns2".to_string(), "ns3".to_string()]);
    assert!(!f.is_finished());
    assert_eq!(f.settled, vec![false, false, false]);
    let next = f.step(Arrival::Fetched {
        namespace: 2,
        workloads: vec![pod("c", Some("ns3"), Some("quay.io/c"), "300m")],
    });
    assert_eq!(next, Next::Await);
    let next = f.step(Arrival::Failed { namespace: 0 });
    assert_eq!(next, Next::Await);
    assert_eq!(f.settled, vec![true, false, true]);
    let next = f.step(Arrival::Fetched {
        namespace: 1,
        workloads: vec![
            pod("a", Some("ns2"), Some("quay.io/a"), "100m"),
            pod("broken", Some("ns2"), None, "100m"),
            pod("lost", None, Some("quay.io/a"), "100m"),
            pod("b", Some("ns2"), Some("quay.io/b"), "1"),
            Workload::Controller(Controller {
                name: "web".to_string(),
                namespace: Some("ns2".to_string()),
                kind: WorkloadKind::Deployment,
                template: Some(web_spec("quay.io/web", Some("200m"))),
                replicas: 5,
            }),
        ],
    });
    assert_eq!(next, Next::Finish);
    assert!(f.is_finished());
    assert_eq!(f.failed, vec!["ns1".to_string()]);
    let names: Vec<&str> = f.records.iter().map(|r| r.object_name.as_str()).collect();
    assert_eq!(names, vec!["pod:c", "pod:a", "pod:b", "web"]);
    assert_eq!(cores(&f.records), 2400);
    assert_eq!(instances(&f.records), 8);
    assert_eq!(f.skipped.len(), 2);
    assert!(matches!(&f.skipped[0], ExtractionError::MissingImage { container } if container == "app"));
    assert!(matches!(&f.skipped[1], ExtractionError::MissingNamespace { workload } if workload == "lost"));
}

#[test]
fn fan_out_ignores_reports_that_are_not_due() {
    let mut f = FanOut::launch(vec!["ns1".to_string(), "ns2".to_string()]);
    assert_eq!(f.step(Arrival::Failed { namespace: 7 }), Next::Await);
    assert_eq!(f.step(Arrival::Failed { namespace: 0 }), Next::Await);
    assert_eq!(
        f.step(Arrival::Fetched {
            namespace: 0,
            workloads: vec![pod("a", Some("ns1"), Some("quay.io/a"), "100m")],
        }),
        Next::Await
    );
    assert_eq!(f.step(Arrival::Failed { namespace: 0 }), Next::Await);
    assert!(f.records.is_empty());
    assert_eq!(f.failed, vec!["ns1".to_string()]);
    assert_eq!(f.step(Arrival::Fetched { namespace: 1, workloads: vec![] }), Next::Finish);
    assert_eq!(f.step(Arrival::Failed { namespace: 1 }), Next::Finish);
    assert_eq!(f.failed.len(), 1);
}

#[test]
fn fan_out_over_no_namespace_is_finished() {
    let mut f = FanOut::launch(Vec::new());
    assert!(f.is_finished());
    assert_eq!(f.step(Arrival::Failed { namespace: 0 }), Next::Finish);
}

#[test]
fn rollups_of_a_collection() {
    let input = sample();
    let rollups = build_rollups(&input, false).unwrap();
    let costs: Vec<u64> = rollups.by_container.iter().map(|r| r.total_millicores).collect();
    assert_eq!(costs, vec![2000, 1200, 200, 50]);
    let costs: Vec<u64> = rollups.by_object.iter().map(|r| r.total_millicores).collect();
    assert_eq!(costs, vec![2000, 1400, 50]);
    assert_eq!(cores(&rollups.by_object), cores(&input));
    assert_eq!(instances(&rollups.by_object), instances(&input));
    assert_eq!(cores(&rollups.by_container), cores(&input));
    // every sample record lacks a node selector, so all are shown
    assert!(same_all(&rollups.shown, &rollups.by_container));
    let mut fine = sample();
    for r in fine.iter_mut() {
        r.has_node_selector = true;
    }
    assert!(build_rollups(&fine, false).unwrap().shown.is_empty());
    assert_eq!(build_rollups(&fine, true).unwrap().shown.len(), 4);
    let big = vec![record("a", "ns", "c", u64::MAX, 1), record("b", "ns", "c", 1, 1)];
    assert!(build_rollups(&big, true).is_none());
}

fn namespace_key(r: &WorkloadRecord) -> RollupKey {
    RollupKey {
        object_name: String::new(),
        namespace: r.namespace.clone(),
        kind: WorkloadKind::Pod,
        container_names: Vec::new(),
    }
}

#[test]
fn rollup_by_a_key_function_of_ones_own() {
    let input = sample();
    let out = aggregate_by(&input, namespace_key);
    assert_eq!(out.len(), 2);
    assert_eq!(out[0].namespace, "ns1");
    assert_eq!(out[0].object_name, "web");
    assert_eq!(out[0].container_names, vec!["app", "sidecar", "pg"]);
    assert_eq!((out[0].total_millicores, out[0].instance_count), (3400, 8));
    assert_eq!((out[1].total_millicores, out[1].instance_count), (50, 1));
    assert_eq!(cores(&out), cores(&input));
    assert!(same_all(&aggregate_by(&out, namespace_key), &out));
    let by_function = aggregate_by(&input, extract_object_level_key);
    assert!(same_all(&by_function, &aggregate(&input, RollupLevel::Object)));
    let everything = aggregate_by(&input, |_| namespace_key(&record("", "", "", 0, 0)));
    assert_eq!(everything.len(), 1);
    assert_eq!(everything[0].total_millicores, 3450);
}

fn count_key(r: &WorkloadRecord) -> RollupKey {
    RollupKey {
        object_name: r.instance_count.to_string(),
        namespace: String::new(),
        kind: WorkloadKind::Pod,
        container_names: Vec::new(),
    }
}

#[test]
fn a_group_stays_under_the_key_of_its_first_record() {
    // the key changes when records are merged: the groups still go by their first records
    let input = vec![
        record("a", "ns", "c", 1, 1),
        record("b", "ns", "c", 1, 1),
        record("c", "ns", "c", 1, 2),
    ];
    let out = aggregate_by(&input, count_key);
    assert_eq!(out.len(), 2);
    assert_eq!((out[0].object_name.as_str(), out[0].instance_count), ("a", 2));
    assert_eq!((out[1].object_name.as_str(), out[1].instance_count), ("c", 2));
    assert_eq!(instances(&out), 4);
}

#[test]
fn groups_stand_for_their_members() {
    let mut input = sample();
    input[2].image_url = "docker.io/other".to_string();
    input[2].has_trusted_image = false;
    let by_object = agg_and_sort(&input, extract_object_level_key);
    let web = by_object.iter().find(|r| r.object_name == "web" && r.namespace == "ns1").unwrap();
    // cost and count of all members, names of all, the rest from the first
    assert_eq!((web.total_millicores, web.instance_count), (1400, 5));
    assert_eq!(web.container_names, vec!["app", "sidecar"]);
    assert_eq!(web.image_url, "quay.io/app");
    assert!(web.has_trusted_image);
    // the same members in another order cost and count the same
    input.reverse();
    let reversed = agg_and_sort(&input, extract_object_level_key);
    let web = reversed.iter().find(|r| r.object_name == "web" && r.namespace == "ns1").unwrap();
    assert_eq!((web.total_millicores, web.instance_count), (1400, 5));
    // ranking a ranked rollup again changes nothing
    assert!(same_all(&agg_and_sort(&by_object, extract_object_level_key), &by_object));
}
