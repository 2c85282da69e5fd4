//! Finding the cgroups in use on the node, by way of its processes.
//!
//! Every live process names its cgroup in a membership file. Going through
//! the processes, and not through the tree of cgroups, visits every cgroup
//! that is in use and none that lies empty. Only cgroups that expose the swap
//! control file are kept, so that nothing is written later where writing is
//! not supported.

use crate::cgroup::{join, resolved, Cgroup, SWAP_INTERFACE};
use crate::cgroup_set::CgroupSet;
use crate::fs::{matching, FS};
use crate::glob::{admissible, lemma_plain_pattern_is_admissible};
use crate::membership::{parse_membership, record_path};
use crate::sorted::{lemma_prefix_set_step, views};
use vstd::prelude::*;

verus! {

/// The directory with one entry for each live process.
pub const PROC_ROOT: &'static str = "/proc";

/// Matches, below `PROC_ROOT`, the membership file of every process.
pub const MEMBERSHIP_PATTERN: &'static str = "*/cgroup";

/// The cgroup named by a membership file that holds `content`, if the file
/// is a record of the unified hierarchy and the cgroup exposes the swap
/// control file among `files`.
pub open spec fn cgroup_of_record(files: Map<Seq<char>, Seq<char>>, content: Seq<char>) -> Option<
    Seq<char>,
> {
    match record_path(content) {
        Some(relative) => {
            let cgroup = resolved(relative);
            if files.dom().contains(join(cgroup, SWAP_INTERFACE@)) {
                Some(cgroup)
            } else {
                None
            }
        },
        None => None,
    }
}

/// The cgroup named by the membership file at `member`, if there is such a
/// file and `cgroup_of_record` finds a cgroup in it.
pub open spec fn cgroup_of_member(files: Map<Seq<char>, Seq<char>>, member: Seq<char>) -> Option<
    Seq<char>,
> {
    if files.dom().contains(member) {
        cgroup_of_record(files, files[member])
    } else {
        None
    }
}

/// The cgroups named by the membership files at `members`.
pub open spec fn cgroups_of(files: Map<Seq<char>, Seq<char>>, members: Set<Seq<char>>) -> Set<
    Seq<char>,
> {
    Set::new(
        |cgroup: Seq<char>|
            exists|member: Seq<char>|
                members.contains(member) && cgroup_of_member(files, member) == Some(cgroup),
    )
}

/// The cgroups in use that expose the swap control file: those named by the
/// membership files of all processes.
pub open spec fn swap_capable_cgroups(files: Map<Seq<char>, Seq<char>>) -> Set<Seq<char>> {
    cgroups_of(files, matching(files, PROC_ROOT@, MEMBERSHIP_PATTERN@))
}

/// Whatever the processes and the paths of their cgroups are, a cgroup that
/// lacks the swap control file is in no enumerated set.
pub proof fn lemma_enumerated_expose_swap(files: Map<Seq<char>, Seq<char>>, cgroup: Seq<char>)
    requires
        !files.dom().contains(join(cgroup, SWAP_INTERFACE@)),
    ensures
        !swap_capable_cgroups(files).contains(cgroup),
        forall|members: Set<Seq<char>>| !(#[trigger] cgroups_of(files, members)).contains(cgroup),
{
}

/// Two stores that hold the same files enumerate to the same set: going
/// through an unchanged store once more changes nothing.
pub proof fn lemma_enumeration_repeats(first: FS, second: FS)
    requires
        first@ == second@,
    ensures
        swap_capable_cgroups(first@) == swap_capable_cgroups(second@),
{
}

/// The pattern of the membership files is one that is handed to the
/// matcher.
pub proof fn lemma_membership_pattern_is_admissible()
    ensures
        admissible(MEMBERSHIP_PATTERN@),
{
    reveal_strlit("*/cgroup");
    let pattern = MEMBERSHIP_PATTERN@;
    assert(pattern.len() == 8);
    lemma_plain_pattern_is_admissible(pattern);
}

/// The cgroup named by a membership file that holds `content`, as
/// `cgroup_of_record` has it.
pub fn swap_capable_cgroup(fs: &FS, content: &str) -> (r: Option<Cgroup>)
    ensures
        match cgroup_of_record(fs@, content@) {
            Some(path) => r is Some && r->0@ == path,
            None => r is None,
        },
{
    match parse_membership(content) {
        Ok(relative) => {
            let cgroup = Cgroup::open(relative.as_str());
            if cgroup.has_interface(fs, SWAP_INTERFACE) {
                Some(cgroup)
            } else {
                None
            }
        },
        Err(_) => None,
    }
}

/// One more membership file adds the cgroup it names, if it names one, and
/// nothing else.
pub proof fn lemma_cgroups_of_one_more(
    files: Map<Seq<char>, Seq<char>>,
    members: Set<Seq<char>>,
    member: Seq<char>,
)
    ensures
        cgroups_of(files, members.insert(member)) == match cgroup_of_member(files, member) {
            Some(cgroup) => cgroups_of(files, members).insert(cgroup),
            None => cgroups_of(files, members),
        },
{
    let more = members.insert(member);
    let grown = match cgroup_of_member(files, member) {
        Some(cgroup) => cgroups_of(files, members).insert(cgroup),
        None => cgroups_of(files, members),
    };
    assert forall|c: Seq<char>| cgroups_of(files, more).contains(c) <==> grown.contains(c) by {
        if cgroups_of(files, members).contains(c) {
            let m = choose|m: Seq<char>|
                members.contains(m) && cgroup_of_member(files, m) == Some(c);
            assert(more.contains(m));
        }
        if cgroup_of_member(files, member) == Some(c) {
            assert(more.contains(member));
        }
    }
    assert(cgroups_of(files, more) =~= grown);
}

/// The cgroups named by the membership files at `members`. A path at which
/// `fs` holds no file, or a file that is no record, adds nothing.
pub fn collect_cgroups(fs: &FS, members: &Vec<String>) -> (set: CgroupSet)
    ensures
        set@ == cgroups_of(fs@, views(members@).to_set()),
{
    let ghost all = views(members@);
    let mut set = CgroupSet::new();
    let mut i: usize = 0;
    assert(all.take(0).to_set() =~= Set::<Seq<char>>::empty());
    assert(set@ =~= cgroups_of(fs@, all.take(0).to_set()));
    while i < members.len()
        invariant
            i <= members.len(),
            all == views(members@),
            set@ == cgroups_of(fs@, all.take(i as int).to_set()),
        decreases members.len() - i,
    {
        let member = members[i].as_str();
        proof {
            lemma_prefix_set_step(all, i as int);
            lemma_cgroups_of_one_more(fs@, all.take(i as int).to_set(), member@);
        }
        match fs.read_to_string(member) {
            Ok(content) => {
                match swap_capable_cgroup(fs, content.as_str()) {
                    Some(cgroup) => {
                        set.insert(cgroup.path());
                    },
                    None => {},
                }
            },
            Err(_) => {},
        }
        i += 1;
    }
    assert(all.take(i as int) =~= all);
    set
}

/// The cgroups in use on the node that expose the swap control file, each
/// once.
pub fn enumerate_swap_capable_cgroups(fs: &FS) -> (set: CgroupSet)
    ensures
        set@ == swap_capable_cgroups(fs@),
        forall|cgroup: Seq<char>| #[trigger]
            set@.contains(cgroup) ==> fs@.dom().contains(join(cgroup, SWAP_INTERFACE@)),
{
    proof {
        lemma_membership_pattern_is_admissible();
    }
    match fs.find(PROC_ROOT, MEMBERSHIP_PATTERN) {
        Ok(members) => collect_cgroups(fs, &members),
        Err(_) => CgroupSet::new(),
    }
}

} // verus!
