//! Cgroup paths below the mount point of the unified hierarchy, and the
//! control files that a cgroup exposes.

use crate::error::WaspError;
use crate::fs::{matching, selects, FS};
use crate::glob::admissible;
use crate::text::{chars_of, compare, count_leading_separators, count_trailing_separators,
    lemma_lex_asymmetric, lemma_lex_transitive, lex_less, strip_leading_separators,
    strip_trailing_separators, Precedence};
use crate::sorted::views;
use vstd::prelude::*;
use vstd::string::StringExecFns;

verus! {

/// Where the unified cgroup hierarchy is mounted.
pub const CGROUP_BASE: &'static str = "/sys/fs/cgroup";

/// The control file that caps the swap of a cgroup's members.
pub const SWAP_INTERFACE: &'static str = "memory.swap.max";

/// `segment` put below `base`: one separator stands between the two,
/// whatever separators `base` ends with or `segment` begins with.
pub open spec fn join(base: Seq<char>, segment: Seq<char>) -> Seq<char> {
    strip_trailing_separators(base) + seq!['/'] + strip_leading_separators(segment)
}

/// The absolute path of the cgroup that `relative` names below the mount
/// point.
pub open spec fn resolved(relative: Seq<char>) -> Seq<char> {
    join(CGROUP_BASE@, relative)
}

/// `segments` put below `base`, one after the other.
pub open spec fn join_all(base: Seq<char>, segments: Seq<Seq<char>>) -> Seq<char>
    decreases segments.len(),
{
    if segments.len() == 0 {
        base
    } else {
        join_all(join(base, segments[0]), segments.drop_first())
    }
}

/// `least` is in `s` and comes before every other member of `s`.
pub open spec fn is_least(s: Set<Seq<char>>, least: Seq<char>) -> bool {
    &&& s.contains(least)
    &&& forall|other: Seq<char>| #[trigger] s.contains(other) && other != least ==> lex_less(least, other)
}

/// The member of `s` that comes first in dictionary order, if `s` has one.
pub open spec fn first_of_set(s: Set<Seq<char>>) -> Option<Seq<char>> {
    if exists|x: Seq<char>| is_least(s, x) {
        Some(choose|x: Seq<char>| is_least(s, x))
    } else {
        None
    }
}

/// The first cgroup, in dictionary order, among the files of `files` that
/// lie below the mount point and match `pattern`.
pub open spec fn first_match(files: Map<Seq<char>, Seq<char>>, pattern: Seq<char>) -> Option<
    Seq<char>,
> {
    first_of_set(matching(files, CGROUP_BASE@, pattern))
}

/// The path of a cgroup that may be missing.
pub open spec fn path_of(cgroup: Option<Cgroup>) -> Option<Seq<char>> {
    match cgroup {
        Some(cg) => Some(cg@),
        None => None,
    }
}

/// A set has at most one least member.
pub proof fn lemma_least_is_unique(s: Set<Seq<char>>, a: Seq<char>, b: Seq<char>)
    requires
        is_least(s, a),
        is_least(s, b),
    ensures
        a == b,
{
    if a != b {
        assert(lex_less(a, b));
        assert(lex_less(b, a));
        lemma_lex_asymmetric(a, b);
    }
}

/// Whatever `relative` is, the cgroup it names lies below the mount point:
/// its path is the mount point, a separator, and `relative` without the
/// separators at its front.
pub proof fn lemma_resolved_below_base(relative: Seq<char>)
    ensures
        resolved(relative) == CGROUP_BASE@ + seq!['/'] + strip_leading_separators(relative),
        (CGROUP_BASE@ + seq!['/']).is_prefix_of(resolved(relative)),
        resolved(relative)[0] == '/',
{
    reveal_strlit("/sys/fs/cgroup");
    let base = CGROUP_BASE@;
    assert(base.len() == 14);
    assert(base.last() == 'p');
    assert(strip_trailing_separators(base) =~= base);
    let head = base + seq!['/'];
    assert(resolved(relative).subrange(0, head.len() as int) =~= head);
    assert(resolved(relative)[0] == base[0]);
}

/// Whatever the pattern, a path that it selects below the mount point begins
/// with the mount point and a separator.
pub proof fn lemma_selected_below_base(pattern: Seq<char>, path: Seq<char>)
    requires
        selects(CGROUP_BASE@, pattern, path),
    ensures
        (CGROUP_BASE@ + seq!['/']).is_prefix_of(path),
{
    reveal_strlit("/sys/fs/cgroup");
    let base = CGROUP_BASE@;
    assert(base.len() == 14);
    assert(base.last() == 'p');
    assert(strip_trailing_separators(base) =~= base);
    let head = base + seq!['/'];
    assert(path.take(14) == base);
    assert forall|i: int| 0 <= i < 15 implies path[i] == head[i] by {
        if i < 14 {
            assert(path.take(14)[i] == base[i]);
        }
    }
    assert(path.subrange(0, head.len() as int) =~= head);
}

/// `segment` put below `base`.
pub fn join_paths(base: &str, segment: &str) -> (path: String)
    ensures
        path@ == join(base@, segment@),
{
    let head = chars_of(base);
    let tail = chars_of(segment);
    let keep: usize = head.len() - count_trailing_separators(&head);
    let skip: usize = count_leading_separators(&tail);
    let mut path = base.substring_char(0, keep).to_owned();
    path.append("/");
    path.append(segment.substring_char(skip, tail.len()));
    proof {
        reveal_strlit("/");
        assert("/"@ =~= seq!['/']);
    }
    path
}

/// The absolute path of the cgroup that `relative` names below the mount
/// point.
pub fn resolve(relative: &str) -> (path: String)
    ensures
        path@ == resolved(relative@),
        (CGROUP_BASE@ + seq!['/']).is_prefix_of(path@),
{
    proof {
        lemma_resolved_below_base(relative@);
    }
    join_paths(CGROUP_BASE, relative)
}

/// The absolute path that `segments` name below the mount point, each
/// segment below the one before it.
pub fn resolve_all(segments: &Vec<String>) -> (path: String)
    ensures
        path@ == join_all(CGROUP_BASE@, views(segments@)),
{
    let ghost all = views(segments@);
    let mut path = CGROUP_BASE.to_owned();
    let mut i: usize = 0;
    assert(all.skip(0) =~= all);
    while i < segments.len()
        invariant
            i <= segments.len(),
            all == views(segments@),
            join_all(CGROUP_BASE@, all) == join_all(path@, all.skip(i as int)),
        decreases segments.len() - i,
    {
        assert(all.skip(i as int).drop_first() =~= all.skip(i + 1));
        assert(all.skip(i as int)[0] == segments@[i as int]@);
        path = join_paths(path.as_str(), segments[i].as_str());
        i += 1;
    }
    path
}

/// A cgroup, known by its absolute path.
#[derive(Debug)]
pub struct Cgroup {
    path: String,
}

impl View for Cgroup {
    type V = Seq<char>;

    closed spec fn view(&self) -> Seq<char> {
        self.path@
    }
}

impl Cgroup {
    /// The cgroup that `cg_path` names below the mount point.
    pub fn open(cg_path: &str) -> (cg: Cgroup)
        ensures
            cg@ == resolved(cg_path@),
            (CGROUP_BASE@ + seq!['/']).is_prefix_of(cg@),
    {
        Cgroup { path: resolve(cg_path) }
    }

    /// The cgroup at the absolute path `path`, taken as it stands.
    pub fn at(path: String) -> (cg: Cgroup)
        ensures
            cg@ == path@,
    {
        Cgroup { path }
    }

    /// The first cgroup, in dictionary order, among the files of `fs` that
    /// lie below the mount point and match `pattern`; `None` where there is
    /// none; `PatternRefused` for a pattern that is not admissible.
    pub fn find(fs: &FS, pattern: &str) -> (r: Result<Option<Cgroup>, WaspError>)
        ensures
            match r {
                Ok(found) => {
                    &&& admissible(pattern@)
                    &&& path_of(found) == first_match(fs@, pattern@)
                    &&& found is None <==> matching(fs@, CGROUP_BASE@, pattern@) == Set::<
                        Seq<char>,
                    >::empty()
                    &&& found matches Some(cg) ==> {
                        &&& is_least(matching(fs@, CGROUP_BASE@, pattern@), cg@)
                        &&& fs@.dom().contains(cg@)
                        &&& selects(CGROUP_BASE@, pattern@, cg@)
                        &&& (CGROUP_BASE@ + seq!['/']).is_prefix_of(cg@)
                    }
                },
                Err(e) => !admissible(pattern@) && e == WaspError::PatternRefused,
            },
    {
        let found = match fs.find(CGROUP_BASE, pattern) {
            Ok(found) => found,
            Err(e) => {
                return Err(e);
            },
        };
        let first = Cgroup::first_of(&found);
        proof {
            if first is Some {
                lemma_selected_below_base(pattern@, first->0@);
            }
        }
        Ok(first)
    }

    /// The first of `paths` in dictionary order as a cgroup; `None` where
    /// there is no path.
    pub fn first_of(paths: &Vec<String>) -> (r: Option<Cgroup>)
        ensures
            path_of(r) == first_of_set(views(paths@).to_set()),
            match r {
                Some(cg) => is_least(views(paths@).to_set(), cg@),
                None => views(paths@).to_set() == Set::<Seq<char>>::empty(),
            },
    {
        let ghost all = views(paths@);
        if paths.len() == 0 {
            assert(all.to_set() =~= Set::<Seq<char>>::empty());
            return None;
        }
        let mut best: usize = 0;
        let mut least = chars_of(paths[0].as_str());
        let mut i: usize = 1;
        while i < paths.len()
            invariant
                best < i <= paths.len(),
                all == views(paths@),
                least@ == all[best as int],
                forall|j: int| 0 <= j < i ==> #[trigger] all[j] == least@ || lex_less(least@, all[j]),
            decreases paths.len() - i,
        {
            let next = chars_of(paths[i].as_str());
            assert(next@ == all[i as int]);
            match compare(&next, &least) {
                Precedence::Before => {
                    assert forall|j: int| 0 <= j < i + 1 implies #[trigger] all[j] == next@
                        || lex_less(next@, all[j]) by {
                        if j < i && all[j] != least@ {
                            lemma_lex_transitive(next@, least@, all[j]);
                        }
                    }
                    best = i;
                    least = next;
                },
                _ => {},
            }
            i += 1;
        }
        let cg = Cgroup { path: paths[best].clone() };
        proof {
            assert(all[best as int] == cg@);
            assert(all.contains(cg@));
            assert forall|other: Seq<char>| #[trigger]
                all.to_set().contains(other) && other != cg@ implies lex_less(cg@, other) by {
                let j = choose|j: int| 0 <= j < all.len() && all[j] == other;
                assert(all[j] == least@ || lex_less(least@, all[j]));
            }
            assert(is_least(all.to_set(), cg@));
            let chosen = choose|x: Seq<char>| is_least(all.to_set(), x);
            lemma_least_is_unique(all.to_set(), chosen, cg@);
        }
        Some(cg)
    }

    /// The absolute path.
    pub fn path(&self) -> (p: &str)
        ensures
            p@ == self@,
    {
        self.path.as_str()
    }

    /// The absolute path of the control file `interface` of this cgroup.
    pub fn full_path(&self, interface: &str) -> (p: String)
        ensures
            p@ == join(self@, interface@),
    {
        join_paths(self.path.as_str(), interface)
    }

    /// Whether `fs` holds the control file `interface_name` of this cgroup.
    pub fn has_interface(&self, fs: &FS, interface_name: &str) -> (r: bool)
        ensures
            r == fs@.dom().contains(join(self@, interface_name@)),
    {
        let p = self.full_path(interface_name);
        fs.file_exists(p.as_str())
    }

    /// The control file `interface_name` of this cgroup, if `fs` holds it.
    pub fn interface(&self, fs: &FS, interface_name: &str) -> (r: Option<CgInterface>)
        ensures
            match r {
                Some(handle) => fs@.dom().contains(handle@) && handle@ == join(
                    self@,
                    interface_name@,
                ),
                None => !fs@.dom().contains(join(self@, interface_name@)),
            },
    {
        if self.has_interface(fs, interface_name) {
            Some(CgInterface::open(self, interface_name))
        } else {
            None
        }
    }
}

/// A control file of a cgroup, known by its absolute path.
#[derive(Debug)]
pub struct CgInterface {
    file: String,
}

impl View for CgInterface {
    type V = Seq<char>;

    closed spec fn view(&self) -> Seq<char> {
        self.file@
    }
}

impl CgInterface {
    /// The control file `interface_name` of `cg`, whether or not it is there.
    pub fn open(cg: &Cgroup, interface_name: &str) -> (handle: CgInterface)
        ensures
            handle@ == join(cg@, interface_name@),
    {
        CgInterface { file: cg.full_path(interface_name) }
    }

    /// The absolute path of the control file.
    pub fn file(&self) -> (p: &str)
        ensures
            p@ == self@,
    {
        self.file.as_str()
    }

    /// Replaces what the control file holds by `val`. A control file that
    /// `fs` does not hold is not created: the store stays as it is and the
    /// answer is `IoError`.
    pub fn set(&self, fs: &mut FS, val: &str) -> (r: Result<(), WaspError>)
        ensures
            final(fs).mock() == old(fs).mock(),
            old(fs)@.dom().contains(self@) ==> r == Ok::<(), WaspError>(()) && final(fs)@ == old(
                fs,
            )@.insert(self@, val@),
            !old(fs)@.dom().contains(self@) ==> r == Err::<(), WaspError>(WaspError::IoError)
                && final(fs)@ == old(fs)@,
    {
        if fs.file_exists(self.file.as_str()) {
            fs.write_string(self.file.as_str(), val);
            Ok(())
        } else {
            Err(WaspError::IoError)
        }
    }
}

} // verus!
