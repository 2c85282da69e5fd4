//! Sets of cgroup paths.

use crate::sorted::{lemma_insert_at_gap, lemma_prefix_set_step, locate, views};
use crate::text::{chars_of, lemma_sorted_no_duplicates, strictly_sorted};
use vstd::prelude::*;

verus! {

/// A finite set of cgroup paths. No path is held twice, and the paths are
/// walked in dictionary order, so two equal sets are walked alike.
#[derive(Debug)]
pub struct CgroupSet {
    paths: Vec<String>,
}

impl View for CgroupSet {
    type V = Set<Seq<char>>;

    closed spec fn view(&self) -> Set<Seq<char>> {
        views(self.paths@).to_set()
    }
}

impl CgroupSet {
    #[verifier::type_invariant]
    spec fn well_formed(&self) -> bool {
        strictly_sorted(views(self.paths@))
    }

    /// The empty set.
    pub fn new() -> (set: CgroupSet)
        ensures
            set@ == Set::<Seq<char>>::empty(),
    {
        let set = CgroupSet { paths: Vec::new() };
        assert(set@ =~= Set::<Seq<char>>::empty());
        set
    }

    /// The number of paths.
    pub fn len(&self) -> (n: usize)
        ensures
            self@.finite(),
            n == self@.len(),
    {
        proof {
            use_type_invariant(&*self);
            lemma_sorted_no_duplicates(views(self.paths@));
            views(self.paths@).unique_seq_to_set();
        }
        self.paths.len()
    }

    /// Whether the set holds no path.
    pub fn is_empty(&self) -> (r: bool)
        ensures
            r == (self@ == Set::<Seq<char>>::empty()),
    {
        proof {
            if self.paths.len() > 0 {
                assert(views(self.paths@)[0] == self.paths@[0]@);
                assert(views(self.paths@).contains(self.paths@[0]@));
                assert(self@.contains(self.paths@[0]@));
            } else {
                assert(self@ =~= Set::<Seq<char>>::empty());
            }
        }
        self.paths.len() == 0
    }

    /// Whether `path` is in the set.
    pub fn contains(&self, path: &str) -> (r: bool)
        ensures
            r == self@.contains(path@),
    {
        proof {
            use_type_invariant(&*self);
        }
        let key = chars_of(path);
        let (_, found) = locate(&self.paths, &key);
        found
    }

    /// Adds `path`. The answer is whether the set has grown.
    pub fn insert(&mut self, path: &str) -> (fresh: bool)
        ensures
            final(self)@ == old(self)@.insert(path@),
            fresh == !old(self)@.contains(path@),
    {
        proof {
            use_type_invariant(&*self);
        }
        let key = chars_of(path);
        let (at, found) = locate(&self.paths, &key);
        if found {
            assert(old(self)@.insert(path@) =~= old(self)@);
            return false;
        }
        let mut paths: Vec<String> = Vec::new();
        std::mem::swap(&mut paths, &mut self.paths);
        let ghost before = views(paths@);
        paths.insert(at, path.to_owned());
        proof {
            assert(views(paths@) =~= before.insert(at as int, path@));
            lemma_insert_at_gap(before, path@, at as int);
        }
        self.paths = paths;
        true
    }

    /// The paths in dictionary order.
    pub fn paths(&self) -> (paths: &Vec<String>)
        ensures
            strictly_sorted(views(paths@)),
            views(paths@).to_set() == self@,
            paths@.len() == self@.len(),
    {
        proof {
            use_type_invariant(&*self);
            lemma_sorted_no_duplicates(views(self.paths@));
            views(self.paths@).unique_seq_to_set();
        }
        &self.paths
    }

    /// The paths of `self` that are not in `other`.
    pub fn difference(&self, other: &CgroupSet) -> (rest: CgroupSet)
        ensures
            rest@ == self@.difference(other@),
    {
        let ghost all = views(self.paths@);
        let mut rest = CgroupSet::new();
        let mut i: usize = 0;
        assert(all.take(0).to_set() =~= Set::<Seq<char>>::empty());
        while i < self.paths.len()
            invariant
                i <= self.paths.len(),
                all == views(self.paths@),
                rest@ == all.take(i as int).to_set().difference(other@),
            decreases self.paths.len() - i,
        {
            let path = self.paths[i].as_str();
            proof {
                lemma_prefix_set_step(all, i as int);
            }
            if !other.contains(path) {
                rest.insert(path);
            }
            assert(rest@ =~= all.take(i + 1).to_set().difference(other@));
            i += 1;
        }
        assert(all.take(i as int) =~= all);
        rest
    }
}

} // verus!
