//! The visit history: the set of paths one walk has already processed.
//!
//! The history is created at walk start, owned by that walk alone, and
//! consulted before any item is processed, so that each filesystem item is
//! visited at most once even when symbolic links alias or cycle.

use vstd::prelude::*;
use crate::fs_model::{path_eq, ItemPath};

verus! {

/// The set of paths already visited by one walk.
pub struct History {
    visited: Vec<ItemPath>,
}

impl View for History {
    type V = Set<Seq<u64>>;

    closed spec fn view(&self) -> Set<Seq<u64>> {
        Set::new(
            |q: Seq<u64>|
                exists|i: int| 0 <= i < self.visited@.len() && self.visited@[i]@ == q,
        )
    }
}

impl History {
    /// An empty history.
    pub fn new() -> (r: History)
        ensures
            r@ == Set::<Seq<u64>>::empty(),
    {
        let r = History { visited: Vec::new() };
        proof {
            assert(r@ =~= Set::<Seq<u64>>::empty());
        }
        r
    }

    /// Whether `p` was already visited.
    pub fn contains_path(&self, p: &ItemPath) -> (r: bool)
        ensures
            r == self@.contains(p@),
    {
        let mut i: usize = 0;
        while i < self.visited.len()
            invariant
                i <= self.visited.len(),
                forall|j: int| 0 <= j < i ==> self.visited@[j]@ != p@,
            decreases self.visited.len() - i,
        {
            if path_eq(&self.visited[i], p) {
                return true;
            }
            i += 1;
        }
        false
    }

    /// Register `p` as visited. Returns true when this is the first visit
    /// (the path is inserted), false when the path was already present.
    pub fn try_visit(&mut self, p: &ItemPath) -> (r: bool)
        ensures
            r == !old(self)@.contains(p@),
            final(self)@ == old(self)@.insert(p@),
    {
        if self.contains_path(p) {
            proof {
                assert(old(self)@.contains(p@));
                assert forall|q: Seq<u64>| old(self)@.insert(p@).contains(q) implies self@.contains(
                    q,
                ) by {
                    if q == p@ {
                        assert(self@.contains(p@));
                    }
                }
                assert(self@ =~= old(self)@.insert(p@));
            }
            false
        } else {
            self.visited.push(p.clone());
            proof {
                let n = old(self).visited@.len() as int;
                assert(self.visited@[n]@ == p@);
                assert forall|q: Seq<u64>| old(self)@.insert(p@).contains(q) implies self@.contains(
                    q,
                ) by {
                    if q == p@ {
                        assert(self.visited@[n]@ == q);
                    } else {
                        let i = choose|i: int|
                            0 <= i < old(self).visited@.len() && old(self).visited@[i]@ == q;
                        assert(self.visited@[i]@ == q);
                    }
                }
                assert forall|q: Seq<u64>| self@.contains(q) implies old(self)@.insert(
                    p@,
                ).contains(q) by {
                    let i = choose|i: int| 0 <= i < self.visited@.len() && self.visited@[i]@ == q;
                    if i < n {
                        assert(old(self).visited@[i]@ == q);
                    }
                }
                assert(self@ =~= old(self)@.insert(p@));
            }
            true
        }
    }
}

} // verus!
