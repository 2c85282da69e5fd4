//! Writing swap limits into the control files of cgroups.
//!
//! Two policies: cgroups that are no Kubernetes containers get no swap at
//! all; the cgroup of a Pod's container gets what the Pod asks for. Every
//! write replaces what the control file held, so writing the same limit
//! again changes nothing. A cgroup that does not expose the control file is
//! never written to.

use crate::cgroup::{first_match, join, path_of, Cgroup, CGROUP_BASE, SWAP_INTERFACE};
use crate::cgroup_set::CgroupSet;
use crate::error::WaspError;
use crate::fs::{matching, FS};
use crate::glob::admissible;
use crate::pod::{pod_swap, resolve_pod, PodDescriptor};
use crate::quantity::{normalize_swap_request, normalized};
use crate::sorted::{lemma_prefix_set_step, views};
use vstd::prelude::*;
use vstd::string::StringExecFns;

verus! {

/// What the control file holds when swap is off.
pub const ZERO_SWAP: &'static str = "0";

/// What stands before the container's identifier in the pattern of its
/// cgroup.
pub const CONTAINER_PATTERN_HEAD: &'static str = "kubepods.slice/*.slice/*.slice/crio-";

/// What stands behind the container's identifier in the pattern of its
/// cgroup.
pub const CONTAINER_PATTERN_TAIL: &'static str = ".scope";

/// A write that was made: the control file and what it holds now.
#[derive(Clone, Debug)]
pub struct SwapWrite {
    pub path: String,
    pub value: String,
}

/// How a sweep went: the cgroups whose swap was set, and those that could
/// not be set because they do not expose the control file.
#[derive(Debug)]
pub struct SweepReport {
    pub configured: CgroupSet,
    pub failed: CgroupSet,
}

/// The cgroup at `cgroup` exposes the swap control file among `files`.
pub open spec fn exposes_swap(files: Map<Seq<char>, Seq<char>>, cgroup: Seq<char>) -> bool {
    files.dom().contains(join(cgroup, SWAP_INTERFACE@))
}

/// The files after `value` was written as the swap limit of `cgroup`: the
/// control file holds `value` if the cgroup exposes it, and nothing has
/// changed if it does not.
pub open spec fn swap_written(
    files: Map<Seq<char>, Seq<char>>,
    cgroup: Seq<char>,
    value: Seq<char>,
) -> Map<Seq<char>, Seq<char>> {
    if exposes_swap(files, cgroup) {
        files.insert(join(cgroup, SWAP_INTERFACE@), value)
    } else {
        files
    }
}

/// The files after swap was turned off for `cgroup`.
pub open spec fn zero_policy(files: Map<Seq<char>, Seq<char>>, cgroup: Seq<char>) -> Map<
    Seq<char>,
    Seq<char>,
> {
    swap_written(files, cgroup, ZERO_SWAP@)
}

/// The files after swap was turned off for every cgroup of `cgroups`: the
/// same files, and `0` in each that is the swap control file of one of the
/// cgroups.
pub open spec fn zeroed(files: Map<Seq<char>, Seq<char>>, cgroups: Set<Seq<char>>) -> Map<
    Seq<char>,
    Seq<char>,
> {
    Map::new(
        |file: Seq<char>| files.dom().contains(file),
        |file: Seq<char>|
            if exists|cgroup: Seq<char>|
                cgroups.contains(cgroup) && join(cgroup, SWAP_INTERFACE@) == file {
                ZERO_SWAP@
            } else {
                files[file]
            },
    )
}

/// The pattern that the cgroup of the container `id` matches, from the
/// mount point on.
pub open spec fn container_pattern(id: Seq<char>) -> Seq<char> {
    CONTAINER_PATTERN_HEAD@ + id + CONTAINER_PATTERN_TAIL@
}

/// What comes of the swap request `request` for a container whose cgroup was
/// looked up with the result `cgroup`: the control file and the value to
/// write, or the failure.
///
/// `NotFound` where no cgroup was found; `InvalidQuantity` where the request
/// cannot be read; `IoError` where the cgroup does not expose the control
/// file.
pub open spec fn request_outcome(
    files: Map<Seq<char>, Seq<char>>,
    cgroup: Option<Seq<char>>,
    request: Seq<char>,
) -> Result<(Seq<char>, Seq<char>), WaspError> {
    match cgroup {
        None => Err(WaspError::NotFound),
        Some(path) => match normalized(request) {
            None => Err(WaspError::InvalidQuantity),
            Some(value) => {
                if exposes_swap(files, path) {
                    Ok((join(path, SWAP_INTERFACE@), value))
                } else {
                    Err(WaspError::IoError)
                }
            },
        },
    }
}

/// What comes of handling `pod`: the control file and the value to write,
/// or the failure.
///
/// The failures of finding the container come first. `PatternRefused` where
/// the pattern made of the container's identifier is not admissible. Then
/// the failures of `request_outcome`.
pub open spec fn pod_outcome(files: Map<Seq<char>, Seq<char>>, pod: PodDescriptor) -> Result<
    (Seq<char>, Seq<char>),
    WaspError,
> {
    match pod_swap(pod) {
        Err(e) => Err(e),
        Ok((id, request)) => {
            if admissible(container_pattern(id)) {
                request_outcome(files, first_match(files, container_pattern(id)), request)
            } else {
                Err(WaspError::PatternRefused)
            }
        },
    }
}

/// The files after an operation with the outcome `outcome`: one file written
/// where it succeeded, nothing changed where it failed.
pub open spec fn after_outcome(
    files: Map<Seq<char>, Seq<char>>,
    outcome: Result<(Seq<char>, Seq<char>), WaspError>,
) -> Map<Seq<char>, Seq<char>> {
    match outcome {
        Ok((path, value)) => files.insert(path, value),
        Err(_) => files,
    }
}

/// `r` reports `outcome`: the same failure, or a write of the same value to
/// the same file.
pub open spec fn reports(
    r: Result<SwapWrite, WaspError>,
    outcome: Result<(Seq<char>, Seq<char>), WaspError>,
) -> bool {
    match outcome {
        Ok((path, value)) => r is Ok && r->Ok_0.path@ == path && r->Ok_0.value@ == value,
        Err(e) => r == Err::<SwapWrite, WaspError>(e),
    }
}

/// Writing the same limit to a cgroup twice leaves the files as writing it
/// once does.
pub proof fn lemma_swap_written_twice(
    files: Map<Seq<char>, Seq<char>>,
    cgroup: Seq<char>,
    value: Seq<char>,
)
    ensures
        swap_written(swap_written(files, cgroup, value), cgroup, value) == swap_written(
            files,
            cgroup,
            value,
        ),
{
    let once = swap_written(files, cgroup, value);
    assert(swap_written(once, cgroup, value) =~= once);
}

/// Turning swap off for a cgroup twice leaves every file, the control file
/// among them, as turning it off once does.
pub proof fn lemma_zero_policy_twice(files: Map<Seq<char>, Seq<char>>, cgroup: Seq<char>)
    ensures
        zero_policy(zero_policy(files, cgroup), cgroup) == zero_policy(files, cgroup),
        exposes_swap(files, cgroup) ==> zero_policy(files, cgroup)[join(cgroup, SWAP_INTERFACE@)]
            == ZERO_SWAP@,
{
    lemma_swap_written_twice(files, cgroup, ZERO_SWAP@);
}

/// Handling a Pod once more, on the files that the first handling left,
/// comes to the same outcome and leaves the files as they are: the last
/// write wins, and it is the same write.
pub proof fn lemma_pod_handled_twice(files: Map<Seq<char>, Seq<char>>, pod: PodDescriptor)
    ensures
        pod_outcome(after_outcome(files, pod_outcome(files, pod)), pod) == pod_outcome(files, pod),
        after_outcome(after_outcome(files, pod_outcome(files, pod)), pod_outcome(files, pod))
            == after_outcome(files, pod_outcome(files, pod)),
{
    let outcome = pod_outcome(files, pod);
    let once = after_outcome(files, outcome);
    match outcome {
        Ok((path, value)) => {
            assert(files.dom().contains(path));
            assert(once.dom() =~= files.dom());
            let (id, request) = pod_swap(pod)->Ok_0;
            let pattern = container_pattern(id);
            assert(matching(once, CGROUP_BASE@, pattern) =~= matching(
                files,
                CGROUP_BASE@,
                pattern,
            ));
            assert(after_outcome(once, outcome) =~= once);
        },
        Err(_) => {},
    }
}

/// A sweep over one cgroup is the zero policy for that cgroup.
pub proof fn lemma_zeroed_single(files: Map<Seq<char>, Seq<char>>, cgroup: Seq<char>)
    ensures
        zeroed(files, set![cgroup]) == zero_policy(files, cgroup),
{
    let file = join(cgroup, SWAP_INTERFACE@);
    let a = zeroed(files, set![cgroup]);
    let b = zero_policy(files, cgroup);
    assert forall|k: Seq<char>| a.dom().contains(k) implies a[k] == b[k] by {
        if k == file {
            assert(set![cgroup].contains(cgroup));
        }
    }
    assert(a =~= b);
}

/// Writes `value` as the swap limit of `cgroup`, if the cgroup exposes the
/// control file; `IoError` if it does not.
pub fn set_swap(fs: &mut FS, cgroup: &Cgroup, value: &str) -> (r: Result<SwapWrite, WaspError>)
    ensures
        final(fs)@ == swap_written(old(fs)@, cgroup@, value@),
        final(fs).mock() == old(fs).mock(),
        exposes_swap(old(fs)@, cgroup@) ==> r is Ok && r->Ok_0.path@ == join(
            cgroup@,
            SWAP_INTERFACE@,
        ) && r->Ok_0.value@ == value@,
        !exposes_swap(old(fs)@, cgroup@) ==> r == Err::<SwapWrite, WaspError>(WaspError::IoError),
{
    match cgroup.interface(fs, SWAP_INTERFACE) {
        Some(handle) => {
            match handle.set(fs, value) {
                Ok(_) => Ok(SwapWrite { path: handle.file().to_owned(), value: value.to_owned() }),
                Err(e) => Err(e),
            }
        },
        None => Err(WaspError::IoError),
    }
}

/// Turns swap off for `cgroup`.
pub fn configure_zero(fs: &mut FS, cgroup: &Cgroup) -> (r: Result<SwapWrite, WaspError>)
    ensures
        final(fs)@ == zero_policy(old(fs)@, cgroup@),
        final(fs).mock() == old(fs).mock(),
        exposes_swap(old(fs)@, cgroup@) ==> r is Ok && r->Ok_0.path@ == join(
            cgroup@,
            SWAP_INTERFACE@,
        ) && r->Ok_0.value@ == ZERO_SWAP@,
        !exposes_swap(old(fs)@, cgroup@) ==> r == Err::<SwapWrite, WaspError>(WaspError::IoError),
{
    set_swap(fs, cgroup, ZERO_SWAP)
}

/// Turning swap off for one more cgroup is the zero policy for that cgroup,
/// applied to what the sweep over the others left.
pub proof fn lemma_zeroed_one_more(
    files: Map<Seq<char>, Seq<char>>,
    cgroups: Set<Seq<char>>,
    cgroup: Seq<char>,
)
    ensures
        zeroed(files, cgroups.insert(cgroup)) == zero_policy(zeroed(files, cgroups), cgroup),
        exposes_swap(zeroed(files, cgroups), cgroup) == exposes_swap(files, cgroup),
{
    let more = cgroups.insert(cgroup);
    let file = join(cgroup, SWAP_INTERFACE@);
    let target = zeroed(files, more);
    let stepped = zero_policy(zeroed(files, cgroups), cgroup);
    assert(stepped.dom() =~= target.dom());
    assert forall|k: Seq<char>| target.dom().contains(k) implies target[k] == stepped[k] by {
        if k == file {
            assert(more.contains(cgroup));
        } else {
            if exists|c: Seq<char>| more.contains(c) && join(c, SWAP_INTERFACE@) == k {
                let c = choose|c: Seq<char>| more.contains(c) && join(c, SWAP_INTERFACE@) == k;
                assert(cgroups.contains(c));
            }
            if exists|c: Seq<char>| cgroups.contains(c) && join(c, SWAP_INTERFACE@) == k {
                let c = choose|c: Seq<char>|
                    cgroups.contains(c) && join(c, SWAP_INTERFACE@) == k;
                assert(more.contains(c));
            }
        }
    }
    assert(target =~= stepped);
}

/// Turns swap off for every cgroup of `cgroups`. A cgroup that does not
/// expose the control file is reported as failed, and the sweep goes on with
/// the next.
pub fn apply_zero_policy(fs: &mut FS, cgroups: &CgroupSet) -> (report: SweepReport)
    ensures
        final(fs)@ == zeroed(old(fs)@, cgroups@),
        final(fs).mock() == old(fs).mock(),
        report.configured@ == cgroups@.filter(|c: Seq<char>| exposes_swap(old(fs)@, c)),
        report.failed@ == cgroups@.filter(|c: Seq<char>| !exposes_swap(old(fs)@, c)),
{
    let paths = cgroups.paths();
    let ghost all = views(paths@);
    let ghost start = fs@;
    let mut configured = CgroupSet::new();
    let mut failed = CgroupSet::new();
    let mut i: usize = 0;
    proof {
        assert(all.take(0).to_set() =~= Set::<Seq<char>>::empty());
        assert(fs@ =~= zeroed(start, all.take(0).to_set()));
        assert(configured@ =~= all.take(0).to_set().filter(|c: Seq<char>| exposes_swap(start, c)));
        assert(failed@ =~= all.take(0).to_set().filter(|c: Seq<char>| !exposes_swap(start, c)));
    }
    while i < paths.len()
        invariant
            i <= paths.len(),
            all == views(paths@),
            start == old(fs)@,
            fs.mock() == old(fs).mock(),
            fs@ == zeroed(start, all.take(i as int).to_set()),
            configured@ == all.take(i as int).to_set().filter(
                |c: Seq<char>| exposes_swap(start, c),
            ),
            failed@ == all.take(i as int).to_set().filter(|c: Seq<char>| !exposes_swap(start, c)),
        decreases paths.len() - i,
    {
        let path = paths[i].as_str();
        let cgroup = Cgroup::at(paths[i].clone());
        let ghost after = all.take(i + 1).to_set();
        proof {
            lemma_prefix_set_step(all, i as int);
            lemma_zeroed_one_more(start, all.take(i as int).to_set(), path@);
        }
        match configure_zero(fs, &cgroup) {
            Ok(_) => {
                configured.insert(path);
            },
            Err(_) => {
                failed.insert(path);
            },
        }
        assert(configured@ =~= after.filter(|c: Seq<char>| exposes_swap(start, c)));
        assert(failed@ =~= after.filter(|c: Seq<char>| !exposes_swap(start, c)));
        i += 1;
    }
    assert(all.take(i as int) =~= all);
    SweepReport { configured, failed }
}

/// The pattern that the cgroup of the container `id` matches.
pub fn container_cgroup_pattern(id: &str) -> (pattern: String)
    ensures
        pattern@ == container_pattern(id@),
{
    let mut pattern = CONTAINER_PATTERN_HEAD.to_owned();
    pattern.append(id);
    pattern.append(CONTAINER_PATTERN_TAIL);
    pattern
}

/// Applies the swap request `request` to the cgroup that was looked up for
/// its container: reads the request, and writes the bytes it stands for to
/// the swap control file of the cgroup. Where anything fails, nothing is
/// written.
pub fn apply_swap_request(fs: &mut FS, cgroup: Option<Cgroup>, request: &str) -> (r: Result<
    SwapWrite,
    WaspError,
>)
    ensures
        reports(r, request_outcome(old(fs)@, path_of(cgroup), request@)),
        final(fs)@ == after_outcome(
            old(fs)@,
            request_outcome(old(fs)@, path_of(cgroup), request@),
        ),
        final(fs).mock() == old(fs).mock(),
{
    let cgroup = match cgroup {
        Some(cgroup) => cgroup,
        None => {
            return Err(WaspError::NotFound);
        },
    };
    let value = match normalize_swap_request(request) {
        Ok(value) => value,
        Err(e) => {
            return Err(e);
        },
    };
    set_swap(fs, &cgroup, value.as_str())
}

/// Sets the swap of the container of `pod` that asks for it: finds the
/// container and its identifier, looks up the cgroup by the identifier, and
/// applies the request to it.
pub fn configure_pod(fs: &mut FS, pod: &PodDescriptor) -> (r: Result<SwapWrite, WaspError>)
    ensures
        reports(r, pod_outcome(old(fs)@, *pod)),
        final(fs)@ == after_outcome(old(fs)@, pod_outcome(old(fs)@, *pod)),
        final(fs).mock() == old(fs).mock(),
{
    let (id, request) = match resolve_pod(pod) {
        Ok(found) => found,
        Err(e) => {
            return Err(e);
        },
    };
    let pattern = container_cgroup_pattern(id.as_str());
    let cgroup = match fs.cg_find(pattern.as_str()) {
        Ok(cgroup) => cgroup,
        Err(e) => {
            return Err(e);
        },
    };
    apply_swap_request(fs, cgroup, request.as_str())
}

} // verus!
