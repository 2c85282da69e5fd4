//! What a sweep leaves behind: the same cgroups to find, and nothing more
//! to do for a second sweep.

use crate::cgroup::{join, lemma_resolved_below_base, CGROUP_BASE, SWAP_INTERFACE};
use crate::classify::others;
use crate::configure::zeroed;
use crate::enumerate::{cgroup_of_member, cgroups_of, swap_capable_cgroups,
    MEMBERSHIP_PATTERN, PROC_ROOT};
use crate::fs::{matching, relative_to};
use crate::membership::record_path;
use crate::text::{is_separator, strip_trailing_separators, trailing_run};
use vstd::prelude::*;

verus! {

/// The cgroup at `path` lies below the mount point.
pub open spec fn below_mount(path: Seq<char>) -> bool {
    (CGROUP_BASE@ + seq!['/']).is_prefix_of(path)
}

/// A character that does not satisfy `p` bounds the run at the back: the run
/// ends behind it.
pub proof fn lemma_trailing_run_stops(s: Seq<char>, p: spec_fn(char) -> bool, at: int)
    requires
        0 <= at < s.len(),
        !p(s[at]),
    ensures
        trailing_run(s, p) <= s.len() - 1 - at,
    decreases s.len(),
{
    if p(s.last()) {
        lemma_trailing_run_stops(s.drop_last(), p, at);
    }
}

/// The membership file of a process is not the swap control file of a cgroup
/// below the mount point: the one lies below the directory of processes, the
/// other below the mount point.
pub proof fn lemma_member_is_no_control_file(member: Seq<char>, cgroup: Seq<char>)
    requires
        relative_to(PROC_ROOT@, member) is Some,
        below_mount(cgroup),
    ensures
        member != join(cgroup, SWAP_INTERFACE@),
{
    reveal_strlit("/proc");
    reveal_strlit("/sys/fs/cgroup");
    let procs = PROC_ROOT@;
    assert(procs.len() == 5);
    assert(procs.last() == 'c');
    assert(strip_trailing_separators(procs) =~= procs);
    assert(member.take(5)[1] == procs[1]);
    assert(member[1] == 'p');
    let base = CGROUP_BASE@;
    let head = base + seq!['/'];
    assert(base.len() == 14);
    assert(cgroup.subrange(0, head.len() as int) == head);
    assert(cgroup[1] == head[1]);
    assert(cgroup[13] == head[13]);
    lemma_trailing_run_stops(cgroup, |c: char| is_separator(c), 13);
    let kept = strip_trailing_separators(cgroup);
    assert(kept.len() >= 14);
    assert(kept[1] == cgroup[1]);
    let file = join(cgroup, SWAP_INTERFACE@);
    assert(file[1] == kept[1]);
    assert(file[1] == 's');
}

/// Every enumerated cgroup lies below the mount point.
pub proof fn lemma_enumerated_below_mount(files: Map<Seq<char>, Seq<char>>, cgroup: Seq<char>)
    requires
        swap_capable_cgroups(files).contains(cgroup),
    ensures
        below_mount(cgroup),
{
    let member = choose|member: Seq<char>|
        matching(files, PROC_ROOT@, MEMBERSHIP_PATTERN@).contains(member) && cgroup_of_member(
            files,
            member,
        ) == Some(cgroup);
    let relative = record_path(files[member])->0;
    lemma_resolved_below_base(relative);
}

/// Turning swap off for cgroups below the mount point changes no membership
/// file and takes no control file away: the same cgroups are enumerated
/// afterwards.
pub proof fn lemma_sweep_keeps_enumeration(
    files: Map<Seq<char>, Seq<char>>,
    cgroups: Set<Seq<char>>,
)
    requires
        forall|cgroup: Seq<char>| cgroups.contains(cgroup) ==> below_mount(cgroup),
    ensures
        swap_capable_cgroups(zeroed(files, cgroups)) == swap_capable_cgroups(files),
{
    let swept = zeroed(files, cgroups);
    assert(swept.dom() =~= files.dom());
    let members = matching(files, PROC_ROOT@, MEMBERSHIP_PATTERN@);
    assert(matching(swept, PROC_ROOT@, MEMBERSHIP_PATTERN@) =~= members);
    assert forall|member: Seq<char>| members.contains(member) implies cgroup_of_member(
        swept,
        member,
    ) == cgroup_of_member(files, member) by {
        if exists|cgroup: Seq<char>|
            cgroups.contains(cgroup) && join(cgroup, SWAP_INTERFACE@) == member {
            let cgroup = choose|cgroup: Seq<char>|
                cgroups.contains(cgroup) && join(cgroup, SWAP_INTERFACE@) == member;
            lemma_member_is_no_control_file(member, cgroup);
        }
        assert(swept[member] == files[member]);
    }
    assert forall|cgroup: Seq<char>|
        cgroups_of(swept, members).contains(cgroup) <==> cgroups_of(files, members).contains(
            cgroup,
        ) by {
        if cgroups_of(swept, members).contains(cgroup) {
            let member = choose|member: Seq<char>|
                members.contains(member) && cgroup_of_member(swept, member) == Some(cgroup);
            assert(cgroup_of_member(files, member) == Some(cgroup));
        }
        if cgroups_of(files, members).contains(cgroup) {
            let member = choose|member: Seq<char>|
                members.contains(member) && cgroup_of_member(files, member) == Some(cgroup);
            assert(cgroup_of_member(swept, member) == Some(cgroup));
        }
    }
    assert(cgroups_of(swept, members) =~= cgroups_of(files, members));
}

/// A second sweep finds the cgroups of the first and leaves every file as
/// the first sweep left it.
pub proof fn lemma_sweep_twice(files: Map<Seq<char>, Seq<char>>)
    ensures
        ({
            let once = zeroed(files, others(swap_capable_cgroups(files)));
            &&& swap_capable_cgroups(once) == swap_capable_cgroups(files)
            &&& zeroed(once, others(swap_capable_cgroups(once))) == once
        }),
{
    let targets = others(swap_capable_cgroups(files));
    let once = zeroed(files, targets);
    assert forall|cgroup: Seq<char>| targets.contains(cgroup) implies below_mount(cgroup) by {
        lemma_enumerated_below_mount(files, cgroup);
    }
    lemma_sweep_keeps_enumeration(files, targets);
    assert(zeroed(once, targets) =~= once);
}

} // verus!
