//! The files of a node, held in memory.
//!
//! An `FS` maps absolute paths to file contents. Every component reads and
//! writes the node's files through it and through nothing else. It is passed
//! to whoever needs it; there is no store behind the scenes.

use crate::cgroup::{first_match, path_of, resolved, Cgroup, CGROUP_BASE};
use crate::error::WaspError;
use crate::glob::{admissible, admitted_glob_match, glob_accepts, pattern_is_admissible};
use crate::sorted::{is_gap, lemma_insert_at_gap, lemma_prefix_set_step, lemma_push_set, locate,
    views};
use crate::text::{chars_of, count_trailing_separators, lemma_sorted_no_duplicates, lex_less,
    prefix_agrees, strictly_sorted, strip_trailing_separators};
use vstd::prelude::*;

verus! {

/// The map that sorted `keys` and their `contents`, index by index, stand for.
pub open spec fn store_map(keys: Seq<Seq<char>>, contents: Seq<Seq<char>>) -> Map<
    Seq<char>,
    Seq<char>,
> {
    Map::new(|k: Seq<char>| keys.contains(k), |k: Seq<char>| contents[keys.index_of(k)])
}

/// The part of `path` below the directory `root`, if `path` lies below it.
/// Separators at the end of `root` do not count.
pub open spec fn relative_to(root: Seq<char>, path: Seq<char>) -> Option<Seq<char>> {
    let base = strip_trailing_separators(root);
    if base.len() < path.len() && path.take(base.len() as int) == base && path[base.len() as int]
        == '/' {
        Some(path.skip(base.len() as int + 1))
    } else {
        None
    }
}

/// `path` lies below `root`, and what follows `root` in it matches `pattern`.
pub open spec fn selects(root: Seq<char>, pattern: Seq<char>, path: Seq<char>) -> bool {
    match relative_to(root, path) {
        Some(rest) => glob_accepts(pattern, rest),
        None => false,
    }
}

/// The paths of `files` that `selects` picks.
pub open spec fn matching(
    files: Map<Seq<char>, Seq<char>>,
    root: Seq<char>,
    pattern: Seq<char>,
) -> Set<Seq<char>> {
    Set::new(|p: Seq<char>| files.dom().contains(p) && selects(root, pattern, p))
}

proof fn lemma_store_insert(
    keys: Seq<Seq<char>>,
    contents: Seq<Seq<char>>,
    at: int,
    key: Seq<char>,
    val: Seq<char>,
)
    requires
        strictly_sorted(keys),
        keys.len() == contents.len(),
        is_gap(keys, key, at),
    ensures
        store_map(keys.insert(at, key), contents.insert(at, val)) == store_map(
            keys,
            contents,
        ).insert(key, val),
{
    let keys2 = keys.insert(at, key);
    let contents2 = contents.insert(at, val);
    lemma_insert_at_gap(keys, key, at);
    lemma_sorted_no_duplicates(keys);
    lemma_sorted_no_duplicates(keys2);
    let m1 = store_map(keys2, contents2);
    let m2 = store_map(keys, contents).insert(key, val);
    assert forall|k: Seq<char>| m1.dom().contains(k) <==> m2.dom().contains(k) by {
        assert(keys2.to_set().contains(k) <==> keys.to_set().insert(key).contains(k));
    }
    assert forall|k: Seq<char>| m1.dom().contains(k) implies m1[k] == m2[k] by {
        let i2 = keys2.index_of(k);
        assert(keys2[i2] == k);
        if k == key {
            assert(keys2[at] == key);
            assert(i2 == at);
        } else {
            assert(keys.contains(k));
            let i = keys.index_of(k);
            assert(keys[i] == k);
            if i < at {
                assert(keys2[i] == k);
                assert(i2 == i);
            } else {
                assert(keys2[i + 1] == k);
                assert(i2 == i + 1);
            }
        }
    }
    assert(m1 =~= m2);
}

proof fn lemma_store_update(keys: Seq<Seq<char>>, contents: Seq<Seq<char>>, at: int, val: Seq<char>)
    requires
        strictly_sorted(keys),
        keys.len() == contents.len(),
        0 <= at < keys.len(),
    ensures
        store_map(keys, contents.update(at, val)) == store_map(keys, contents).insert(
            keys[at],
            val,
        ),
{
    lemma_sorted_no_duplicates(keys);
    let m1 = store_map(keys, contents.update(at, val));
    let m2 = store_map(keys, contents).insert(keys[at], val);
    assert forall|k: Seq<char>| m1.dom().contains(k) <==> m2.dom().contains(k) by {
        if k == keys[at] {
            assert(keys.contains(k));
        }
    }
    assert forall|k: Seq<char>| m1.dom().contains(k) implies m1[k] == m2[k] by {
        let i = keys.index_of(k);
        assert(keys[i] == k);
        if k == keys[at] {
            assert(i == at);
        }
    }
    assert(m1 =~= m2);
}

/// An in-memory picture of the node's files: a finite map from absolute
/// paths to contents, walked in dictionary order of the paths.
pub struct FS {
    mock: bool,
    paths: Vec<String>,
    contents: Vec<String>,
}

impl View for FS {
    type V = Map<Seq<char>, Seq<char>>;

    closed spec fn view(&self) -> Map<Seq<char>, Seq<char>> {
        store_map(views(self.paths@), views(self.contents@))
    }
}

impl FS {
    #[verifier::type_invariant]
    spec fn well_formed(&self) -> bool {
        &&& self.paths.len() == self.contents.len()
        &&& strictly_sorted(views(self.paths@))
    }

    /// Whether the store stands alone, as in a test, or mirrors the files of
    /// a live node.
    pub closed spec fn mock(&self) -> bool {
        self.mock
    }

    /// An empty store that mirrors the node's own files. The program around
    /// the library fills it with what it has read from disk, and carries out
    /// on disk what the library reports as written.
    pub fn new() -> (fs: FS)
        ensures
            fs@ == Map::<Seq<char>, Seq<char>>::empty(),
            !fs.mock(),
    {
        let fs = FS { mock: false, paths: Vec::new(), contents: Vec::new() };
        assert(fs@ =~= Map::<Seq<char>, Seq<char>>::empty());
        fs
    }

    /// An empty store that stands alone and is never carried to disk.
    pub fn new_mock() -> (fs: FS)
        ensures
            fs@ == Map::<Seq<char>, Seq<char>>::empty(),
            fs.mock(),
    {
        let fs = FS { mock: true, paths: Vec::new(), contents: Vec::new() };
        assert(fs@ =~= Map::<Seq<char>, Seq<char>>::empty());
        fs
    }

    /// Whether the store stands alone.
    pub fn is_mock(&self) -> (r: bool)
        ensures
            r == self.mock(),
    {
        self.mock
    }

    /// The number of files.
    pub fn len(&self) -> (n: usize)
        ensures
            n == self@.dom().len(),
            self@.dom().finite(),
    {
        proof {
            use_type_invariant(&*self);
            let keys = views(self.paths@);
            lemma_sorted_no_duplicates(keys);
            keys.unique_seq_to_set();
            assert(self@.dom() =~= keys.to_set());
        }
        self.paths.len()
    }

    /// Whether a file stands at `path`.
    pub fn file_exists(&self, path: &str) -> (r: bool)
        ensures
            r == self@.dom().contains(path@),
    {
        proof {
            use_type_invariant(&*self);
        }
        let key = chars_of(path);
        let (_, found) = locate(&self.paths, &key);
        found
    }

    /// The contents of the file at `path`, or `NotFound` where there is none.
    pub fn read_to_string(&self, path: &str) -> (r: Result<String, WaspError>)
        ensures
            match r {
                Ok(text) => self@.dom().contains(path@) && text@ == self@[path@],
                Err(e) => !self@.dom().contains(path@) && e == WaspError::NotFound,
            },
    {
        proof {
            use_type_invariant(&*self);
            lemma_sorted_no_duplicates(views(self.paths@));
        }
        let key = chars_of(path);
        let (at, found) = locate(&self.paths, &key);
        if found {
            assert(views(self.paths@)[at as int] == key@);
            assert(views(self.paths@).index_of(key@) == at);
            Ok(self.contents[at].clone())
        } else {
            Err(WaspError::NotFound)
        }
    }

    /// Puts `val` at `path`, in place of what the file held or as a new file.
    /// No other file changes.
    pub fn write_string(&mut self, path: &str, val: &str)
        ensures
            final(self)@ == old(self)@.insert(path@, val@),
            final(self).mock() == old(self).mock(),
    {
        proof {
            use_type_invariant(&*self);
        }
        let key = chars_of(path);
        let (at, found) = locate(&self.paths, &key);
        let mut taken = FS { mock: self.mock, paths: Vec::new(), contents: Vec::new() };
        std::mem::swap(self, &mut taken);
        let FS { mock, mut paths, mut contents } = taken;
        let ghost keys = views(paths@);
        let ghost vals = views(contents@);
        if found {
            contents.set(at, val.to_owned());
            proof {
                assert(views(contents@) =~= vals.update(at as int, val@));
                lemma_store_update(keys, vals, at as int, val@);
            }
        } else {
            paths.insert(at, path.to_owned());
            contents.insert(at, val.to_owned());
            proof {
                assert(views(paths@) =~= keys.insert(at as int, path@));
                assert(views(contents@) =~= vals.insert(at as int, val@));
                lemma_insert_at_gap(keys, path@, at as int);
                lemma_store_insert(keys, vals, at as int, path@, val@);
            }
        }
        *self = FS { mock, paths, contents };
    }

    /// The cgroup that `cg_path` names below the mount point.
    pub fn cg(&self, cg_path: &str) -> (cg: Cgroup)
        ensures
            cg@ == resolved(cg_path@),
    {
        Cgroup::open(cg_path)
    }

    /// The first cgroup, in dictionary order, among the files that lie below
    /// the mount point and match `cg_pat`; `None` where there is none;
    /// `PatternRefused` for a pattern that is not admissible.
    pub fn cg_find(&self, cg_pat: &str) -> (r: Result<Option<Cgroup>, WaspError>)
        ensures
            match r {
                Ok(found) => {
                    &&& admissible(cg_pat@)
                    &&& path_of(found) == first_match(self@, cg_pat@)
                    &&& found is None <==> matching(self@, CGROUP_BASE@, cg_pat@) == Set::<
                        Seq<char>,
                    >::empty()
                    &&& found matches Some(cg) ==> self@.dom().contains(cg@) && selects(
                        CGROUP_BASE@,
                        cg_pat@,
                        cg@,
                    ) && (CGROUP_BASE@ + seq!['/']).is_prefix_of(cg@)
                },
                Err(e) => !admissible(cg_pat@) && e == WaspError::PatternRefused,
            },
    {
        Cgroup::find(self, cg_pat)
    }

    /// The files below `root` whose path from `root` on matches `pattern`, in
    /// dictionary order. A pattern that the matcher refuses matches nothing;
    /// one that is not admissible is answered with `PatternRefused`.
    pub fn find(&self, root: &str, pattern: &str) -> (r: Result<Vec<String>, WaspError>)
        ensures
            match r {
                Ok(found) => {
                    &&& admissible(pattern@)
                    &&& strictly_sorted(views(found@))
                    &&& views(found@).to_set() == matching(self@, root@, pattern@)
                },
                Err(e) => !admissible(pattern@) && e == WaspError::PatternRefused,
            },
    {
        proof {
            use_type_invariant(&*self);
        }
        let mut found: Vec<String> = Vec::new();
        let ghost keys = views(self.paths@);
        let ghost picks = |p: Seq<char>| selects(root@, pattern@, p);
        if !pattern_is_admissible(pattern) {
            return Err(WaspError::PatternRefused);
        }
        let base = chars_of(root);
        let cut: usize = base.len() - count_trailing_separators(&base);
        assert(base@.take(cut as int) == strip_trailing_separators(root@));
        let mut i: usize = 0;
        assert(views(found@).to_set() =~= keys.take(0).to_set().filter(picks));
        while i < self.paths.len()
            invariant
                i <= self.paths.len(),
                keys == views(self.paths@),
                strictly_sorted(keys),
                admissible(pattern@),
                base@ == root@,
                cut <= base.len(),
                base@.take(cut as int) == strip_trailing_separators(root@),
                picks == |p: Seq<char>| selects(root@, pattern@, p),
                strictly_sorted(views(found@)),
                forall|j: int, m: int|
                    0 <= j < found.len() && i <= m < keys.len() ==> lex_less(
                        #[trigger] views(found@)[j],
                        #[trigger] keys[m],
                    ),
                views(found@).to_set() == keys.take(i as int).to_set().filter(picks),
            decreases self.paths.len() - i,
        {
            let path: &String = &self.paths[i];
            let chars = chars_of(path.as_str());
            let ghost before = views(found@);
            let mut hit: bool = false;
            if cut < chars.len() && prefix_agrees(&chars, &base, cut) && chars[cut] == '/' {
                let rest = path.as_str().substring_char(cut + 1, chars.len());
                hit = admitted_glob_match(pattern, rest);
            }
            assert(hit == picks(keys[i as int]));
            proof {
                lemma_prefix_set_step(keys, i as int);
            }
            if hit {
                found.push(path.clone());
                proof {
                    let after = views(found@);
                    assert(after =~= before.push(keys[i as int]));
                    lemma_push_set(before, keys[i as int]);
                    assert forall|j: int, m: int|
                        0 <= j < after.len() && i + 1 <= m < keys.len() implies lex_less(
                        #[trigger] after[j],
                        #[trigger] keys[m],
                    ) by {
                        if j < before.len() {
                            assert(after[j] == before[j]);
                        }
                    }
                }
            }
            assert(views(found@).to_set() =~= keys.take(i + 1).to_set().filter(picks));
            i += 1;
        }
        proof {
            assert(keys.take(i as int) =~= keys);
            assert(views(found@).to_set() =~= matching(self@, root@, pattern@));
        }
        Ok(found)
    }
}

} // verus!
