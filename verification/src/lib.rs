//! Swap limits for the cgroups of a Kubernetes worker node.
//!
//! Kubernetes knows no swap. Here a Pod asks for it through an extended
//! resource, and the agent of the node writes the limit into the cgroup of
//! the Pod's container. Whatever runs on the node outside a Pod gets no swap
//! at all.
//!
//! The library works on an in-memory picture of the node's files, `FS`, and
//! on nothing else: the program around it reads the files from disk before
//! and carries the writes out after.

pub mod agent;
pub mod cgroup;
pub mod cgroup_set;
pub mod classify;
pub mod configure;
pub mod enumerate;
pub mod error;
pub mod fs;
pub mod glob;
pub mod membership;
pub mod pod;
pub mod quantity;
pub mod sorted;
pub mod sweep;
pub mod text;

pub use agent::WaspAgent;
pub use cgroup::{CgInterface, Cgroup};
pub use cgroup_set::CgroupSet;
pub use configure::{SwapWrite, SweepReport};
pub use error::WaspError;
pub use fs::FS;
pub use pod::{Container, ContainerStatus, PodDescriptor, ResourceLimit};
