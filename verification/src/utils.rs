//! Blank workload parts to build examples from.

use vstd::prelude::*;
use crate::workload::{Container, PodSpec};

verus! {

/// A pod spec with no container and no node selector.
pub fn get_empty_pod_spec() -> (spec: PodSpec)
    ensures
        spec.containers@.len() == 0,
        spec.node_selector is None,
{
    PodSpec { containers: Vec::new(), node_selector: None }
}

/// A container named `Test Name` with neither image nor resources.
pub fn get_empty_container() -> (container: Container)
    ensures
        container.name@ == "Test Name"@,
        container.image is None,
        container.resources is None,
{
    Container { name: "Test Name".to_owned(), image: None, resources: None }
}

} // verus!
