//! Telling the cgroups of Kubernetes containers from all others, by the
//! names that the container runtime gives to cgroups.

use crate::cgroup_set::CgroupSet;
use crate::sorted::{lemma_prefix_set_step, views};
use crate::text::{chars_of, contains, occurs_in};
use vstd::prelude::*;

verus! {

/// Stands in the path of every cgroup below the slice of Kubernetes' Pods.
pub const KUBEPODS_MARKER: &'static str = "kubepods.slice";

/// Stands in the path of the cgroup in which the runtime's monitor of a
/// container runs. It lies beside the container's own cgroup, below the same
/// Pod, and is not a container.
pub const SHIM_MARKER: &'static str = "conmon";

/// The cgroup at `path` is that of a Kubernetes container: the path holds
/// the Pods' marker and does not hold the monitor's.
pub open spec fn is_kube_container(path: Seq<char>) -> bool {
    occurs_in(KUBEPODS_MARKER@, path) && !occurs_in(SHIM_MARKER@, path)
}

/// The members of `s` that are cgroups of Kubernetes containers.
pub open spec fn kube_containers(s: Set<Seq<char>>) -> Set<Seq<char>> {
    s.filter(|p: Seq<char>| is_kube_container(p))
}

/// What is left of `s` when the cgroups of Kubernetes containers are taken
/// out.
pub open spec fn others(s: Set<Seq<char>>) -> Set<Seq<char>> {
    s.difference(kube_containers(s))
}

/// The two classes have no cgroup in common, and together they are the
/// whole set: every cgroup falls into exactly one of them.
pub proof fn lemma_classes_partition(s: Set<Seq<char>>)
    ensures
        kube_containers(s).disjoint(others(s)),
        kube_containers(s).union(others(s)) == s,
        forall|p: Seq<char>| s.contains(p) ==> (kube_containers(s).contains(p) != others(s).contains(p)),
{
    assert(kube_containers(s).union(others(s)) =~= s);
}

/// A path that holds `kubepods.slice` and not `conmon` is that of a
/// Kubernetes container; one that holds `conmon` anywhere is not, whatever
/// else it holds.
pub proof fn lemma_markers_decide(path: Seq<char>)
    ensures
        occurs_in("kubepods.slice"@, path) && !occurs_in("conmon"@, path) ==> is_kube_container(
            path,
        ),
        occurs_in("conmon"@, path) ==> !is_kube_container(path),
        forall|s: Set<Seq<char>>|
            occurs_in("conmon"@, path) ==> !(#[trigger] kube_containers(s)).contains(path),
        forall|s: Set<Seq<char>>|
            s.contains(path) && occurs_in("kubepods.slice"@, path) && !occurs_in("conmon"@, path)
                ==> (#[trigger] kube_containers(s)).contains(path),
{
}

/// Whether the cgroup at `path` is that of a Kubernetes container.
pub fn path_is_kube_container(path: &str) -> (r: bool)
    ensures
        r == is_kube_container(path@),
{
    let hay = chars_of(path);
    let pods = chars_of(KUBEPODS_MARKER);
    let shim = chars_of(SHIM_MARKER);
    contains(&hay, &pods) && !contains(&hay, &shim)
}

/// The cgroups of `set` that are those of Kubernetes containers.
pub fn classify_kube(set: &CgroupSet) -> (kube: CgroupSet)
    ensures
        kube@ == kube_containers(set@),
{
    let paths = set.paths();
    let ghost all = views(paths@);
    let mut kube = CgroupSet::new();
    let mut i: usize = 0;
    assert(all.take(0).to_set() =~= Set::<Seq<char>>::empty());
    assert(kube@ =~= kube_containers(all.take(0).to_set()));
    while i < paths.len()
        invariant
            i <= paths.len(),
            all == views(paths@),
            kube@ == kube_containers(all.take(i as int).to_set()),
        decreases paths.len() - i,
    {
        let path = paths[i].as_str();
        proof {
            lemma_prefix_set_step(all, i as int);
        }
        if path_is_kube_container(path) {
            kube.insert(path);
        }
        assert(kube@ =~= kube_containers(all.take(i + 1).to_set()));
        i += 1;
    }
    assert(all.take(i as int) =~= all);
    kube
}

/// The cgroups of `set` that are left when those of Kubernetes containers
/// are taken out.
pub fn classify_other(set: &CgroupSet) -> (other: CgroupSet)
    ensures
        other@ == others(set@),
{
    let kube = classify_kube(set);
    set.difference(&kube)
}

} // verus!
