use workload_audit::extract::{
    cpu_request_of, extract_containers_and_info, extract_with_registry, find_entry,
    process_controller, process_pod, process_workload, render_selector, unreadable_quantities,
};
use workload_audit::image::{
    has_trusted_image, has_trusted_image_for, is_ecr_image, is_hosted_image, is_private_registry,
};
use workload_audit::decimal::{
    find_mark, parse_exponent, parse_mantissa, read_digits, scale_decimal, shift_digits, slice_of,
};
use workload_audit::quantity::convert_quantity_to_int;
use workload_audit::record::WorkloadKind;
use workload_audit::text::{contains_text, join_names};
use workload_audit::utils;
use workload_audit::workload::{
    Container, Controller, ExtractionError, Pod, PodSpec, ResourceRequirements, Workload,
};

fn pair(a: &str, b: &str) -> (String, String) {
    (a.to_string(), b.to_string())
}

fn container(name: &str, image: Option<&str>, cpu: Option<&str>) -> Container {
    Container {
        name: name.to_string(),
        image: image.map(|s| s.to_string()),
        resources: cpu.map(|q| ResourceRequirements {
            limits: None,
            requests: Some(vec![pair("cpu", q)]),
        }),
    }
}

#[test]
fn test_is_ecr_image() {
    let input =
        "095116963143.dkr.ecr.ap-southeast-1.amazonaws.com/datadog-agent:7.32.4".to_string();
    assert!(is_ecr_image(&input));
}

#[test]
fn pass_case() {
    let mut node_selector = Vec::new();
    node_selector.push(("key".to_string(), "value".to_string()));

    let mut resource_requests = Vec::new();
    resource_requests.push(("cpu".to_string(), "400m".to_string()));
    let pod_spec = PodSpec {
        containers: vec![Container {
            image: Some(
                "095116963143.dkr.ecr.ap-southeast-1.amazonaws.com/datadog-agent:7.32.4"
                    .to_string(),
            ),
            name: "Test Name".to_string(),
            resources: Some(ResourceRequirements {
                limits: None,
                requests: Some(resource_requests),
            }),
            ..utils::get_empty_container()
        }],
        node_selector: Some(node_selector),
        ..utils::get_empty_pod_spec()
    };

    let tagged_result = extract_containers_and_info(
        "random name".to_string(),
        "namespace".to_string(),
        WorkloadKind::Deployment,
        &pod_spec,
        10,
    )
    .unwrap();

    assert_ne!(tagged_result.len(), 0);
    let x = tagged_result.first().unwrap();
    assert!(x.has_trusted_image);
    assert!(x.has_node_selector);
    assert!(x.has_qos_request);
}

#[test]
fn test_false_cases() {
    let mut resource_requests = Vec::new();
    resource_requests.push(("cpu".to_string(), "400m".to_string()));
    assert_eq!(resource_requests.len(), 1);
    let pod_spec = PodSpec {
        containers: vec![Container {
            image: Some("datadog-agent:7.32.4".to_string()),
            name: "Test Name".to_string(),
            resources: Some(ResourceRequirements {
                limits: None,
                requests: None,
            }),
            ..utils::get_empty_container()
        }],
        node_selector: None,
        ..utils::get_empty_pod_spec()
    };

    let tagged_result = extract_containers_and_info(
        "random name".to_string(),
        "namespace".to_string(),
        WorkloadKind::Deployment,
        &pod_spec,
        10,
    )
    .unwrap();

    assert_ne!(tagged_result.len(), 0);
    let x = tagged_result.first().unwrap();
    assert!(!x.has_trusted_image);
    assert!(!x.has_node_selector);
    assert!(!x.has_qos_request);
}

#[test]
fn quantity_in_millicores() {
    let m = convert_quantity_to_int("400m").unwrap();
    assert_eq!(m, 400);
    assert_eq!(m as f64 / 1000.0, 0.4);
    assert_eq!(convert_quantity_to_int("100m").unwrap(), 100);
    assert_eq!(convert_quantity_to_int("0m").unwrap(), 0);
    assert_eq!(convert_quantity_to_int("4m00").unwrap(), 400);
    assert_eq!(convert_quantity_to_int("12.000m").unwrap(), 12);
}

#[test]
fn quantity_in_cores() {
    let c = convert_quantity_to_int("2").unwrap();
    assert_eq!(c, 2000);
    assert_eq!(c as f64 * 1.0 / 1000.0, 2.0);
    assert_eq!(convert_quantity_to_int("0.5").unwrap(), 500);
    assert_eq!(convert_quantity_to_int("1.5").unwrap(), 1500);
    assert_eq!(convert_quantity_to_int("0.001").unwrap(), 1);
    assert_eq!(convert_quantity_to_int("1.2500").unwrap(), 1250);
    assert_eq!(convert_quantity_to_int(".5").unwrap(), 500);
    assert_eq!(convert_quantity_to_int("5.").unwrap(), 5000);
    assert_eq!(convert_quantity_to_int("007").unwrap(), 7000);
    assert_eq!(convert_quantity_to_int("0").unwrap(), 0);
}

#[test]
fn quantity_with_g_counts_cores() {
    assert_eq!(convert_quantity_to_int("2g").unwrap(), 2000);
    assert_eq!(convert_quantity_to_int("0.25g").unwrap(), 250);
    // an `m` anywhere decides, whatever else the text holds
    assert!(convert_quantity_to_int("2gm").is_err());
}

#[test]
fn quantity_refused() {
    for q in [
        "", "m", "g", ".", "abc", "1.2.3", "-1", "-0", "-0.5m", "1 ", " 1", "٣", "+", "++1",
        "+-1", "e3", "1e", "1e+", "1e-", "1e1.5", "1e3e3", "1 e3", ".e1", "+.", "inf", "Infinity",
        "nan", "NaN", "0x10", "1_000",
    ] {
        let e = convert_quantity_to_int(q).unwrap_err();
        assert_eq!(e.quantity, q);
    }
}

#[test]
fn quantity_with_sign_and_exponent() {
    assert_eq!(convert_quantity_to_int("1e3").unwrap(), 1_000_000);
    assert_eq!(convert_quantity_to_int("+2").unwrap(), 2000);
    assert_eq!(convert_quantity_to_int("5e-1").unwrap(), 500);
    assert_eq!(convert_quantity_to_int("1E3").unwrap(), 1_000_000);
    assert_eq!(convert_quantity_to_int("1e+2").unwrap(), 100_000);
    assert_eq!(convert_quantity_to_int("+.5e1").unwrap(), 5000);
    assert_eq!(convert_quantity_to_int("5.e0").unwrap(), 5000);
    assert_eq!(convert_quantity_to_int("1500e-3").unwrap(), 1500);
    assert_eq!(convert_quantity_to_int("1e-3").unwrap(), 1);
    assert_eq!(convert_quantity_to_int("1e-0").unwrap(), 1000);
    assert_eq!(convert_quantity_to_int("1e0001").unwrap(), 10_000);
    assert_eq!(convert_quantity_to_int("+400m").unwrap(), 400);
    assert_eq!(convert_quantity_to_int("1e3m").unwrap(), 1000);
    assert_eq!(convert_quantity_to_int("2.5e2m").unwrap(), 250);
    assert_eq!(convert_quantity_to_int("2500e-1m").unwrap(), 250);
    assert_eq!(convert_quantity_to_int("25e-1g").unwrap(), 2500);
    assert_eq!(convert_quantity_to_int("1000000000000000000000000e-24").unwrap(), 1000);
    assert_eq!(convert_quantity_to_int("0.0000000000000000000000001e25").unwrap(), 1000);
}

#[test]
fn quantity_finer_than_a_millicore_goes_to_the_nearest() {
    for (q, millicores) in [
        ("0.5m", 1),
        ("0.4m", 0),
        ("0.49999m", 0),
        ("0.50000m", 1),
        ("2.4m", 2),
        ("2.5m", 3),
        ("3.5m", 4),
        ("0.0005", 1),
        ("0.0004", 0),
        ("0.00049999999999999999999999999", 0),
        ("1.2345", 1235),
        ("1.2344", 1234),
        ("0.9999", 1000),
        ("0.9994", 999),
        ("1e-4", 0),
        ("5e-4", 1),
        ("49e-5", 0),
        ("5e-1m", 1),
        ("1.5e-3", 2),
        ("250e-2m", 3),
        ("249e-2m", 2),
        ("12345e-4", 1235),
        ("0.00000000000000000000000001", 0),
        ("9e-5", 0),
        ("1e-99999999999999999999999999999999999999", 0),
        ("9999e-99999999999999999999999999999999999999m", 0),
        ("0.25g", 250),
        ("0.0015g", 2),
    ] {
        assert_eq!(convert_quantity_to_int(q).unwrap(), millicores, "{}", q);
    }
}

#[test]
fn quantity_with_exponent_refused_or_zero() {
    // more than can be held
    for q in ["1e7", "5e6", "4294967296e-3", "1e99999999999999999999999999999999999999"] {
        assert!(convert_quantity_to_int(q).is_err());
    }
    assert_eq!(convert_quantity_to_int("4e6").unwrap(), 4_000_000_000);
    assert_eq!(convert_quantity_to_int("4294967295e-3").unwrap(), u32::MAX);
    // the nearest millicore may lie above what can be held
    assert_eq!(convert_quantity_to_int("4294967295.4m").unwrap(), u32::MAX);
    assert!(convert_quantity_to_int("4294967295.5m").is_err());
    assert_eq!(convert_quantity_to_int("4294967.2954").unwrap(), u32::MAX);
    assert!(convert_quantity_to_int("4294967.2955").is_err());
    // zero stays zero whatever the exponent
    assert_eq!(convert_quantity_to_int("0e99999999999999999999999999999999999999").unwrap(), 0);
    assert_eq!(convert_quantity_to_int("0.000e-99999999999999999999999999999999999").unwrap(), 0);
    assert_eq!(convert_quantity_to_int("0e12").unwrap(), 0);
    assert_eq!(convert_quantity_to_int("000e-2").unwrap(), 0);
}

#[test]
fn quantity_at_the_limit() {
    assert_eq!(convert_quantity_to_int("4294967295m").unwrap(), u32::MAX);
    assert!(convert_quantity_to_int("4294967296m").is_err());
    assert_eq!(convert_quantity_to_int("4294967").unwrap(), 4_294_967_000);
    assert_eq!(convert_quantity_to_int("4294967.295").unwrap(), u32::MAX);
    assert!(convert_quantity_to_int("4294967.296").is_err());
    assert!(convert_quantity_to_int("4294968").is_err());
    assert!(convert_quantity_to_int("99999999999999999999999999").is_err());
    assert_eq!(convert_quantity_to_int("0000000000000000000001").unwrap(), 1000);
}

#[test]
fn image_classification() {
    assert!(has_trusted_image("123456789012.dkr.ecr.us-east-1.amazonaws.com/app:1"));
    assert!(!has_trusted_image("docker.io/library/nginx:latest"));
    assert!(has_trusted_image("ghcr.io/org/app:1"));
    assert!(has_trusted_image("gcr.io/org/app:1"));
    assert!(has_trusted_image("quay.io/org/app:1"));
    assert!(is_hosted_image("mirror.example/quay.io/app"));
    assert!(!is_hosted_image("ghcr.i"));
    assert!(!is_ecr_image("amazonaws.com"));
    assert!(!is_ecr_image(""));
}

#[test]
fn private_registry_pattern_is_configurable() {
    assert!(is_private_registry("registry.corp.example/app:1", "registry.corp.example/"));
    assert!(!is_private_registry("registry.corp.example/app:1", "amazonaws.com/"));
    assert!(has_trusted_image_for("registry.corp.example/app:1", "corp.example"));
    assert!(!has_trusted_image_for("docker.io/app:1", "corp.example"));
    assert!(has_trusted_image_for("quay.io/app:1", "corp.example"));
}

#[test]
fn substring_search() {
    assert!(contains_text("abc", ""));
    assert!(contains_text("", ""));
    assert!(!contains_text("", "a"));
    assert!(contains_text("abc", "abc"));
    assert!(contains_text("aab", "ab"));
    assert!(!contains_text("ab", "abc"));
    assert!(contains_text("héllo wörld", "wör"));
    assert!(!contains_text("abcabd", "abe"));
}

#[test]
fn joining() {
    let names = vec!["a".to_string(), "b".to_string(), "c".to_string()];
    assert_eq!(join_names(&names, "|"), "a|b|c");
    assert_eq!(join_names(&vec!["solo".to_string()], "|"), "solo");
    assert_eq!(join_names(&Vec::new(), "|"), "");
}

#[test]
fn selector_rendering() {
    assert_eq!(render_selector(&None), "none");
    assert_eq!(render_selector(&Some(vec![])), "");
    assert_eq!(render_selector(&Some(vec![pair("tier", "frontend")])), "tier=frontend");
    assert_eq!(
        render_selector(&Some(vec![pair("a", "1"), pair("b", "2")])),
        "a=1,b=2"
    );
}

#[test]
fn compliant_deployment_record() {
    let pod_spec = PodSpec {
        containers: vec![container(
            "app",
            Some("123456789012.dkr.ecr.us-east-1.amazonaws.com/app:1"),
            Some("400m"),
        )],
        node_selector: Some(vec![pair("tier", "frontend")]),
    };
    let records = extract_containers_and_info(
        "web".to_string(),
        "ns1".to_string(),
        WorkloadKind::Deployment,
        &pod_spec,
        10,
    )
    .unwrap();
    assert_eq!(records.len(), 1);
    let r = &records[0];
    assert_eq!(r.object_name, "web");
    assert_eq!(r.namespace, "ns1");
    assert_eq!(r.kind, WorkloadKind::Deployment);
    assert_eq!(r.container_names, vec!["app".to_string()]);
    assert_eq!(r.node_selector_text, "tier=frontend");
    assert_eq!(r.total_millicores, 4000);
    assert_eq!(r.total_millicores as f64 / 1000.0, 4.0);
    assert_eq!(r.instance_count, 10);
    assert!(r.has_node_selector && r.has_qos_request && r.has_trusted_image);
    assert!(r.is_compliant());
}

#[test]
fn untrusted_image_without_requests() {
    let pod_spec = PodSpec {
        containers: vec![container("app", Some("docker.io/library/app:1"), None)],
        node_selector: Some(vec![pair("tier", "frontend")]),
    };
    let records = extract_containers_and_info(
        "web".to_string(),
        "ns1".to_string(),
        WorkloadKind::Deployment,
        &pod_spec,
        10,
    )
    .unwrap();
    let r = &records[0];
    assert!(!r.has_trusted_image);
    assert!(!r.has_qos_request);
    assert!(r.has_node_selector);
    assert_eq!(r.total_millicores, 0);
    assert_eq!(r.image_url, "docker.io/library/app:1");
    assert!(!r.is_compliant());
}

#[test]
fn requests_without_cpu_still_count_as_declared() {
    let c = Container {
        name: "app".to_string(),
        image: Some("quay.io/app:1".to_string()),
        resources: Some(ResourceRequirements {
            limits: Some(vec![pair("cpu", "2")]),
            requests: Some(vec![pair("memory", "1Gi")]),
        }),
    };
    let pod_spec = PodSpec { containers: vec![c], node_selector: Some(vec![]) };
    let records = extract_containers_and_info(
        "db".to_string(),
        "ns".to_string(),
        WorkloadKind::StatefulSet,
        &pod_spec,
        3,
    )
    .unwrap();
    assert!(records[0].has_qos_request);
    assert!(records[0].has_node_selector);
    assert_eq!(records[0].node_selector_text, "");
    assert_eq!(records[0].total_millicores, 0);
    assert_eq!(records[0].instance_count, 3);
}

#[test]
fn first_cpu_entry_is_the_request() {
    let c = Container {
        name: "app".to_string(),
        image: Some("quay.io/app:1".to_string()),
        resources: Some(ResourceRequirements {
            limits: None,
            requests: Some(vec![pair("memory", "1Gi"), pair("cpu", "1.5"), pair("cpu", "9")]),
        }),
    };
    let pod_spec = PodSpec { containers: vec![c], node_selector: None };
    let records = extract_containers_and_info(
        "db".to_string(),
        "ns".to_string(),
        WorkloadKind::DaemonSet,
        &pod_spec,
        4,
    )
    .unwrap();
    assert_eq!(records[0].total_millicores, 6000);
    assert_eq!(records[0].node_selector_text, "none");
}

#[test]
fn containers_keep_their_order() {
    let pod_spec = PodSpec {
        containers: vec![
            container("one", Some("quay.io/a"), Some("100m")),
            container("two", Some("docker.io/b"), Some("1")),
            container("three", Some("gcr.io/c"), None),
        ],
        node_selector: None,
    };
    let records = extract_containers_and_info(
        "web".to_string(),
        "ns".to_string(),
        WorkloadKind::Deployment,
        &pod_spec,
        2,
    )
    .unwrap();
    let names: Vec<&str> = records.iter().map(|r| r.container_names[0].as_str()).collect();
    assert_eq!(names, vec!["one", "two", "three"]);
    let costs: Vec<u64> = records.iter().map(|r| r.total_millicores).collect();
    assert_eq!(costs, vec![200, 2000, 0]);
}

#[test]
fn empty_workload_gives_no_records() {
    let records = extract_containers_and_info(
        "web".to_string(),
        "ns".to_string(),
        WorkloadKind::Deployment,
        &utils::get_empty_pod_spec(),
        2,
    )
    .unwrap();
    assert!(records.is_empty());
}

#[test]
fn missing_image_stops_extraction() {
    let pod_spec = PodSpec {
        containers: vec![
            container("one", Some("quay.io/a"), None),
            container("two", None, None),
            container("three", None, None),
        ],
        node_selector: None,
    };
    let e = extract_containers_and_info(
        "web".to_string(),
        "ns".to_string(),
        WorkloadKind::Deployment,
        &pod_spec,
        2,
    )
    .unwrap_err();
    assert!(matches!(e, ExtractionError::MissingImage { container } if container == "two"));
}

#[test]
fn unreadable_quantity_counts_as_zero_and_is_listed() {
    let pod_spec = PodSpec {
        containers: vec![
            container("one", Some("quay.io/a"), Some("lots")),
            container("two", Some("quay.io/b"), Some("250m")),
            container("three", Some("quay.io/c"), Some("-1")),
            container("four", Some("quay.io/d"), None),
        ],
        node_selector: None,
    };
    let records = extract_containers_and_info(
        "web".to_string(),
        "ns".to_string(),
        WorkloadKind::Deployment,
        &pod_spec,
        2,
    )
    .unwrap();
    assert_eq!(records[0].total_millicores, 0);
    assert!(records[0].has_qos_request);
    assert_eq!(records[1].total_millicores, 500);
    let faults = unreadable_quantities(&pod_spec);
    let texts: Vec<&str> = faults.iter().map(|e| e.quantity.as_str()).collect();
    assert_eq!(texts, vec!["lots", "-1"]);
}

#[test]
fn largest_cost_fits() {
    let pod_spec = PodSpec {
        containers: vec![container("one", Some("quay.io/a"), Some("4294967295m"))],
        node_selector: None,
    };
    let records = extract_with_registry(
        "web".to_string(),
        "ns".to_string(),
        WorkloadKind::Deployment,
        &pod_spec,
        u32::MAX,
        "corp/",
    )
    .unwrap();
    assert_eq!(records[0].total_millicores, 18_446_744_065_119_617_025);
    assert_eq!(records[0].instance_count, 4_294_967_295);
}

#[test]
fn blank_parts() {
    let c = utils::get_empty_container();
    assert_eq!(c.name, "Test Name");
    assert!(c.image.is_none());
    assert!(c.resources.is_none());
    let p = utils::get_empty_pod_spec();
    assert!(p.containers.is_empty());
    assert!(p.node_selector.is_none());
}

fn pod(name: Option<&str>, namespace: Option<&str>, owners: Option<Vec<&str>>, spec: Option<PodSpec>) -> Pod {
    Pod {
        name: name.map(|s| s.to_string()),
        namespace: namespace.map(|s| s.to_string()),
        owner_names: owners.map(|v| v.into_iter().map(|s| s.to_string()).collect()),
        spec,
    }
}

fn one_container_spec() -> PodSpec {
    PodSpec {
        containers: vec![container("app", Some("quay.io/app:1"), Some("250m"))],
        node_selector: None,
    }
}

#[test]
fn pod_is_counted_under_its_owners() {
    let p = pod(Some("web-1"), Some("ns1"), Some(vec!["web-rs", "other"]), Some(one_container_spec()));
    let records = process_pod(&p).unwrap();
    assert_eq!(records.len(), 1);
    assert_eq!(records[0].object_name, "web-rs|other");
    assert_eq!(records[0].namespace, "ns1");
    assert_eq!(records[0].kind, WorkloadKind::Pod);
    assert_eq!(records[0].instance_count, 1);
    assert_eq!(records[0].total_millicores, 250);
}

#[test]
fn bare_pod_is_counted_under_its_own_name() {
    let p = pod(Some("job-1"), Some("ns1"), None, Some(one_container_spec()));
    assert_eq!(process_pod(&p).unwrap()[0].object_name, "pod:job-1");
    let nameless = pod(None, Some("ns1"), None, Some(one_container_spec()));
    assert_eq!(process_pod(&nameless).unwrap()[0].object_name, "pod:no_pod_name");
    let no_owner_names = pod(Some("p"), Some("ns1"), Some(vec![]), Some(one_container_spec()));
    assert_eq!(process_pod(&no_owner_names).unwrap()[0].object_name, "pod:p");
    let nameless_owner = pod(Some("p"), Some("ns1"), Some(vec![""]), Some(one_container_spec()));
    assert_eq!(process_pod(&nameless_owner).unwrap()[0].object_name, "");
}

#[test]
fn pod_errors() {
    let no_spec = pod(Some("a"), None, None, None);
    assert!(matches!(process_pod(&no_spec).unwrap_err(),
        ExtractionError::MissingPodSpec { workload } if workload == "a"));
    let no_namespace = pod(None, None, None, Some(one_container_spec()));
    assert!(matches!(process_pod(&no_namespace).unwrap_err(),
        ExtractionError::MissingNamespace { workload } if workload == "no_pod_name"));
    let no_image = pod(
        Some("a"),
        Some("ns"),
        None,
        Some(PodSpec { containers: vec![container("c", None, None)], node_selector: None }),
    );
    assert!(matches!(process_pod(&no_image).unwrap_err(),
        ExtractionError::MissingImage { container } if container == "c"));
}

fn controller(namespace: Option<&str>, template: Option<PodSpec>, replicas: u32) -> Controller {
    Controller {
        name: "web".to_string(),
        namespace: namespace.map(|s| s.to_string()),
        kind: WorkloadKind::StatefulSet,
        template,
        replicas,
    }
}

#[test]
fn controller_is_counted_once_per_replica() {
    let records = process_controller(&controller(Some("ns1"), Some(one_container_spec()), 4)).unwrap();
    assert_eq!(records.len(), 1);
    assert_eq!(records[0].object_name, "web");
    assert_eq!(records[0].kind, WorkloadKind::StatefulSet);
    assert_eq!(records[0].instance_count, 4);
    assert_eq!(records[0].total_millicores, 1000);
    let idle = process_controller(&controller(Some("ns1"), Some(one_container_spec()), 0)).unwrap();
    assert_eq!((idle[0].instance_count, idle[0].total_millicores), (0, 0));
}

#[test]
fn controller_errors() {
    assert!(matches!(process_controller(&controller(None, None, 1)).unwrap_err(),
        ExtractionError::MissingPodSpec { workload } if workload == "web"));
    assert!(matches!(
        process_controller(&controller(None, Some(one_container_spec()), 1)).unwrap_err(),
        ExtractionError::MissingNamespace { workload } if workload == "web"));
}

#[test]
fn workloads_of_either_sort() {
    let as_pod = Workload::Pod(pod(Some("p"), Some("ns"), None, Some(one_container_spec())));
    assert_eq!(process_workload(&as_pod).unwrap()[0].object_name, "pod:p");
    let as_controller = Workload::Controller(controller(Some("ns"), Some(one_container_spec()), 2));
    assert_eq!(process_workload(&as_controller).unwrap()[0].total_millicores, 500);
}

#[test]
fn entries_are_found_by_name() {
    let entries = vec![pair("memory", "1Gi"), pair("cpu", "2"), pair("cpu", "3")];
    assert_eq!(find_entry(&entries, &"cpu".to_string()), Some(&"2".to_string()));
    assert_eq!(find_entry(&entries, &"disk".to_string()), None);
    assert_eq!(cpu_request_of(&container("c", None, Some("250m"))), Some(&"250m".to_string()));
    assert_eq!(cpu_request_of(&container("c", None, None)), None);
}

#[test]
fn kinds_and_their_names() {
    for (kind, label) in [
        (WorkloadKind::Pod, "pod"),
        (WorkloadKind::Deployment, "deployment"),
        (WorkloadKind::StatefulSet, "statefulset"),
        (WorkloadKind::DaemonSet, "daemonset"),
    ] {
        assert_eq!(kind.label(), label);
        assert_eq!(WorkloadKind::from_label(label), Some(kind));
    }
    assert_eq!(WorkloadKind::from_label("Pod"), None);
    assert_eq!(WorkloadKind::from_label(""), None);
    assert_eq!(WorkloadKind::from_label("job"), None);
}

fn chars(s: &str) -> Vec<char> {
    s.chars().collect()
}

#[test]
fn parts_of_decimal_text() {
    assert_eq!(find_mark(&chars("12e3"), 'e', 'E'), 2);
    assert_eq!(find_mark(&chars("12E3e4"), 'e', 'E'), 2);
    assert_eq!(find_mark(&chars("123"), '.', '.'), 3);
    assert_eq!(slice_of(&chars("abcdef"), 2, 4), chars("cd"));
    assert_eq!(slice_of(&chars("abc"), 3, 3), chars(""));
    assert_eq!(read_digits(&chars("x120y"), 1, 4, 1000), Some((120, false)));
    assert_eq!(read_digits(&chars("x120y"), 1, 5, 1000), None);
    assert_eq!(read_digits(&chars("1001"), 0, 4, 1000).map(|r| r.1), Some(true));
    assert_eq!(read_digits(&chars(""), 0, 0, 1000), Some((0, false)));
    assert_eq!(parse_mantissa(&chars("12.50")), Some((chars("1250"), 2)));
    assert_eq!(parse_mantissa(&chars("12")), Some((chars("12"), 0)));
    assert_eq!(parse_mantissa(&chars(".5")), Some((chars("5"), 1)));
    assert_eq!(parse_mantissa(&chars("5.")), Some((chars("5"), 0)));
    assert_eq!(parse_mantissa(&chars(".")), None);
    assert_eq!(parse_mantissa(&chars("1.2.3")), None);
    assert_eq!(parse_exponent(&chars("-12")), Some((true, 12, false)));
    assert_eq!(parse_exponent(&chars("+7")), Some((false, 7, false)));
    assert_eq!(parse_exponent(&chars("0")), Some((false, 0, false)));
    assert_eq!(parse_exponent(&chars("-")), None);
    assert_eq!(parse_exponent(&chars("")), None);
    assert_eq!(
        parse_exponent(&chars("9999999999999999999999999999999999")).map(|r| (r.0, r.2)),
        Some((false, true))
    );
    assert_eq!(shift_digits(&chars("1250"), 0, 5000), Some(1250));
    assert_eq!(shift_digits(&chars("1250"), 1, 50_000), Some(12_500));
    assert_eq!(shift_digits(&chars("1250"), 1, 5000), None);
    assert_eq!(shift_digits(&chars("1250"), -1, 5000), Some(125));
    assert_eq!(shift_digits(&chars("1250"), -2, 5000), Some(13));
    assert_eq!(shift_digits(&chars("1249"), -2, 5000), Some(12));
    assert_eq!(shift_digits(&chars("1250"), -4, 5000), Some(0));
    assert_eq!(shift_digits(&chars("5000"), -4, 5000), Some(1));
    assert_eq!(shift_digits(&chars("4999"), -4, 5000), Some(0));
    assert_eq!(shift_digits(&chars("9999"), -5, 5000), Some(0));
    assert_eq!(shift_digits(&chars("9995"), -1, 1000), Some(1000));
    assert_eq!(shift_digits(&chars("9995"), -1, 999), None);
    assert_eq!(shift_digits(&chars("0000"), -4, 5000), Some(0));
    assert_eq!(shift_digits(&chars("0"), 11, 5000), Some(0));
    assert_eq!(shift_digits(&chars("1"), 11, u32::MAX), None);
    assert_eq!(scale_decimal(&chars("1.5"), 0, 10), Some(2));
    assert_eq!(scale_decimal(&chars("1.4"), 0, 10), Some(1));
    assert_eq!(scale_decimal(&chars("1.x"), 0, 10), None);
    assert_eq!(scale_decimal(&chars("1.5"), 1, 15), Some(15));
    assert_eq!(scale_decimal(&chars("1.5"), 1, 14), None);
    assert_eq!(scale_decimal(&chars("+15e-1"), 1, 15), Some(15));
}
