//! What this library reads of a Pod, and the container of a Pod that asks
//! for swap.

use crate::error::WaspError;
use crate::text::same_text;
use vstd::prelude::*;

verus! {

/// The resource by which a container limits its memory.
pub const MEMORY_RESOURCE: &'static str = "memory";

/// The extended resource by which a container asks for swap.
pub const SWAP_RESOURCE_NAME: &'static str = "node.kubevirt.io/swap";

/// One entry of a container's limits: a resource and its quantity.
#[derive(Clone, Debug)]
pub struct ResourceLimit {
    pub name: String,
    pub quantity: String,
}

/// A container as the Pod declares it.
#[derive(Clone, Debug)]
pub struct Container {
    pub name: String,
    /// The limits of the container's resources, where it declares any. Of
    /// two entries for one resource the first counts.
    pub limits: Option<Vec<ResourceLimit>>,
}

/// A container as the node reports it.
#[derive(Clone, Debug)]
pub struct ContainerStatus {
    pub name: String,
    /// The identifier that the container runtime gave to the container, once
    /// it has one.
    pub container_id: Option<String>,
}

/// A Pod: the containers it declares, and what the node reports of them
/// once it has started any.
#[derive(Clone, Debug)]
pub struct PodDescriptor {
    pub containers: Vec<Container>,
    pub container_statuses: Option<Vec<ContainerStatus>>,
}

/// The quantity of the first entry of `limits` for the resource `name`.
pub open spec fn limit_of(limits: Seq<ResourceLimit>, name: Seq<char>) -> Option<Seq<char>>
    decreases limits.len(),
{
    if limits.len() == 0 {
        None
    } else if limits[0].name@ == name {
        Some(limits[0].quantity@)
    } else {
        limit_of(limits.drop_first(), name)
    }
}

/// The swap that `container` asks for: the quantity of the swap resource
/// among its limits, if it limits its memory too.
pub open spec fn swap_request_of(container: Container) -> Option<Seq<char>> {
    match container.limits {
        Some(limits) => {
            if limit_of(limits@, MEMORY_RESOURCE@) is Some {
                limit_of(limits@, SWAP_RESOURCE_NAME@)
            } else {
                None
            }
        },
        None => None,
    }
}

/// The name and the swap request of the first container that asks for swap.
pub open spec fn first_swap_container(containers: Seq<Container>) -> Option<
    (Seq<char>, Seq<char>),
>
    decreases containers.len(),
{
    if containers.len() == 0 {
        None
    } else {
        match swap_request_of(containers[0]) {
            Some(request) => Some((containers[0].name@, request)),
            None => first_swap_container(containers.drop_first()),
        }
    }
}

/// The identifier in the first status that bears `name`, if that status
/// has one.
pub open spec fn container_id_of(statuses: Seq<ContainerStatus>, name: Seq<char>) -> Option<
    Seq<char>,
>
    decreases statuses.len(),
{
    if statuses.len() == 0 {
        None
    } else if statuses[0].name@ == name {
        match statuses[0].container_id {
            Some(id) => Some(id@),
            None => None,
        }
    } else {
        container_id_of(statuses.drop_first(), name)
    }
}

/// The container identifier and the swap request of `pod`.
///
/// `NoSwapResourceDeclared` where no container asks for swap. `NotFound`
/// where one does, but the node reports no container yet, none by that name,
/// or none with an identifier.
pub open spec fn pod_swap(pod: PodDescriptor) -> Result<(Seq<char>, Seq<char>), WaspError> {
    match first_swap_container(pod.containers@) {
        None => Err(WaspError::NoSwapResourceDeclared),
        Some((name, request)) => match pod.container_statuses {
            None => Err(WaspError::NotFound),
            Some(statuses) => match container_id_of(statuses@, name) {
                Some(id) => Ok((id, request)),
                None => Err(WaspError::NotFound),
            },
        },
    }
}

/// The quantity of the first entry of `limits` for the resource `name`.
pub fn find_limit<'a>(limits: &'a Vec<ResourceLimit>, name: &str) -> (r: Option<&'a String>)
    ensures
        match limit_of(limits@, name@) {
            Some(quantity) => r is Some && r->0@ == quantity,
            None => r is None,
        },
{
    let mut i: usize = 0;
    assert(limits@.skip(0) =~= limits@);
    while i < limits.len()
        invariant
            i <= limits.len(),
            limit_of(limits@, name@) == limit_of(limits@.skip(i as int), name@),
        decreases limits.len() - i,
    {
        assert(limits@.skip(i as int).drop_first() =~= limits@.skip(i + 1));
        if same_text(limits[i].name.as_str(), name) {
            return Some(&limits[i].quantity);
        }
        i += 1;
    }
    None
}

/// The swap that `container` asks for.
pub fn swap_request<'a>(container: &'a Container) -> (r: Option<&'a String>)
    ensures
        match swap_request_of(*container) {
            Some(quantity) => r is Some && r->0@ == quantity,
            None => r is None,
        },
{
    match &container.limits {
        Some(limits) => {
            if find_limit(limits, MEMORY_RESOURCE).is_some() {
                find_limit(limits, SWAP_RESOURCE_NAME)
            } else {
                None
            }
        },
        None => None,
    }
}

/// The identifier in the first status that bears `name`.
pub fn find_container_id<'a>(statuses: &'a Vec<ContainerStatus>, name: &str) -> (r: Option<
    &'a String,
>)
    ensures
        match container_id_of(statuses@, name@) {
            Some(id) => r is Some && r->0@ == id,
            None => r is None,
        },
{
    let mut i: usize = 0;
    assert(statuses@.skip(0) =~= statuses@);
    while i < statuses.len()
        invariant
            i <= statuses.len(),
            container_id_of(statuses@, name@) == container_id_of(statuses@.skip(i as int), name@),
        decreases statuses.len() - i,
    {
        assert(statuses@.skip(i as int).drop_first() =~= statuses@.skip(i + 1));
        if same_text(statuses[i].name.as_str(), name) {
            return match &statuses[i].container_id {
                Some(id) => Some(id),
                None => None,
            };
        }
        i += 1;
    }
    None
}

/// The container identifier and the swap request of `pod`, in this order.
pub fn resolve_pod(pod: &PodDescriptor) -> (r: Result<(String, String), WaspError>)
    ensures
        match pod_swap(*pod) {
            Ok((id, request)) => r is Ok && r->Ok_0.0@ == id && r->Ok_0.1@ == request,
            Err(e) => r == Err::<(String, String), WaspError>(e),
        },
{
    let containers = &pod.containers;
    let mut i: usize = 0;
    assert(containers@.skip(0) =~= containers@);
    while i < containers.len()
        invariant
            i <= containers.len(),
            containers == &pod.containers,
            first_swap_container(containers@) == first_swap_container(containers@.skip(i as int)),
        decreases containers.len() - i,
    {
        assert(containers@.skip(i as int).drop_first() =~= containers@.skip(i + 1));
        match swap_request(&containers[i]) {
            Some(request) => {
                let name = containers[i].name.as_str();
                return match &pod.container_statuses {
                    Some(statuses) => match find_container_id(statuses, name) {
                        Some(id) => Ok((id.clone(), request.clone())),
                        None => Err(WaspError::NotFound),
                    },
                    None => Err(WaspError::NotFound),
                };
            },
            None => {},
        }
        i += 1;
    }
    Err(WaspError::NoSwapResourceDeclared)
}

} // verus!
