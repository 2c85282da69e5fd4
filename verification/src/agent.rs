//! The agent: one store of the node's files, and the two ways of working on
//! it. A sweep turns swap off for every cgroup in use that is no Kubernetes
//! container. An event sets the swap of one Pod's container.

use crate::cgroup_set::CgroupSet;
use crate::classify::{classify_kube, kube_containers, others};
use crate::configure::{after_outcome, apply_zero_policy, configure_pod, pod_outcome, reports,
    zeroed, SwapWrite, SweepReport};
use crate::enumerate::{enumerate_swap_capable_cgroups, swap_capable_cgroups};
use crate::error::WaspError;
use crate::fs::FS;
use crate::pod::{pod_swap, resolve_pod, PodDescriptor};
use vstd::prelude::*;

verus! {

/// The agent of one node. It owns the store of the node's files.
pub struct WaspAgent {
    fs: FS,
}

impl View for WaspAgent {
    type V = Map<Seq<char>, Seq<char>>;

    /// The files of the agent's store.
    closed spec fn view(&self) -> Map<Seq<char>, Seq<char>> {
        self.fs@
    }
}

impl WaspAgent {
    /// An agent that works on `fs`.
    pub fn new(fs: FS) -> (agent: WaspAgent)
        ensures
            agent@ == fs@,
            agent.mock() == fs.mock(),
    {
        WaspAgent { fs }
    }

    /// Whether the agent's store stands alone.
    pub closed spec fn mock(&self) -> bool {
        self.fs.mock()
    }

    /// The agent's store.
    pub fn fs(&self) -> (fs: &FS)
        ensures
            fs@ == self@,
            fs.mock() == self.mock(),
    {
        &self.fs
    }

    /// Gives the store back.
    pub fn into_fs(self) -> (fs: FS)
        ensures
            fs@ == self@,
            fs.mock() == self.mock(),
    {
        self.fs
    }

    /// The cgroups in use that expose the swap control file.
    pub fn swap_capable_cgroups(&self) -> (set: CgroupSet)
        ensures
            set@ == swap_capable_cgroups(self@),
    {
        enumerate_swap_capable_cgroups(&self.fs)
    }

    /// The cgroups in use that are those of Kubernetes containers.
    pub fn kube_container_cgroups(&self) -> (set: CgroupSet)
        ensures
            set@ == kube_containers(swap_capable_cgroups(self@)),
    {
        let all = enumerate_swap_capable_cgroups(&self.fs);
        classify_kube(&all)
    }

    /// The cgroups in use that are not those of Kubernetes containers: what
    /// is left of a fresh enumeration when `kube_container_cgroups` is taken
    /// out.
    pub fn non_kube_container_cgroups(&self) -> (set: CgroupSet)
        ensures
            set@ == others(swap_capable_cgroups(self@)),
    {
        let all = enumerate_swap_capable_cgroups(&self.fs);
        let kube = self.kube_container_cgroups();
        all.difference(&kube)
    }

    /// A sweep: turns swap off for every cgroup in use that is no Kubernetes
    /// container. Every such cgroup exposes the control file, so none fails.
    pub fn configure_node_swap(&mut self) -> (report: SweepReport)
        ensures
            final(self)@ == zeroed(old(self)@, others(swap_capable_cgroups(old(self)@))),
            final(self).mock() == old(self).mock(),
            report.configured@ == others(swap_capable_cgroups(old(self)@)),
            report.failed@ == Set::<Seq<char>>::empty(),
    {
        let targets = self.non_kube_container_cgroups();
        let report = apply_zero_policy(&mut self.fs, &targets);
        proof {
            assert(report.configured@ =~= targets@);
            assert(report.failed@ =~= Set::<Seq<char>>::empty());
        }
        report
    }

    /// An event: sets the swap of the container of `pod` that asks for it.
    /// Where anything fails, nothing is written.
    pub fn handle_pod(&mut self, pod: &PodDescriptor) -> (r: Result<SwapWrite, WaspError>)
        ensures
            reports(r, pod_outcome(old(self)@, *pod)),
            final(self)@ == after_outcome(old(self)@, pod_outcome(old(self)@, *pod)),
            final(self).mock() == old(self).mock(),
    {
        self.set_container_swap_according_to_pod_swap_resource(pod)
    }

    /// Finds the container of `pod` that asks for swap, looks up its cgroup
    /// by the container's identifier, and writes the request, in bytes, to
    /// the swap control file of that cgroup.
    pub fn set_container_swap_according_to_pod_swap_resource(
        &mut self,
        pod: &PodDescriptor,
    ) -> (r: Result<SwapWrite, WaspError>)
        ensures
            reports(r, pod_outcome(old(self)@, *pod)),
            final(self)@ == after_outcome(old(self)@, pod_outcome(old(self)@, *pod)),
            final(self).mock() == old(self).mock(),
    {
        configure_pod(&mut self.fs, pod)
    }

    /// The identifier of the container of `pod` that asks for swap, and the
    /// swap it asks for.
    pub fn container_id_and_swap_from_pod(&self, pod: &PodDescriptor) -> (r: Result<
        (String, String),
        WaspError,
    >)
        ensures
            match pod_swap(*pod) {
                Ok((id, request)) => r is Ok && r->Ok_0.0@ == id && r->Ok_0.1@ == request,
                Err(e) => r == Err::<(String, String), WaspError>(e),
            },
    {
        resolve_pod(pod)
    }
}

} // verus!
