//! The set of all relative file paths under the source root, as the external
//! scanner reports them. Paths are slash-separated strings relative to the
//! root, and the index is read-only once built.

use vstd::prelude::*;

use crate::text::spec_starts_with;
use crate::text::str_eq;
use crate::text::str_starts_with;

verus! {

/// All relative file paths of the site, in the order the scanner added them.
pub struct PathIndex {
    paths: Vec<String>,
}

impl View for PathIndex {
    type V = Seq<Seq<char>>;

    closed spec fn view(&self) -> Seq<Seq<char>> {
        self.paths.deep_view()
    }
}

impl PathIndex {
    /// An empty index.
    pub fn new() -> (r: Self)
        ensures
            r@ == Seq::<Seq<char>>::empty(),
    {
        let r = PathIndex { paths: Vec::new() };
        proof {
            assert(r@ =~= Seq::<Seq<char>>::empty());
        }
        r
    }

    /// Records one more path.
    pub fn push(&mut self, p: String)
        ensures
            final(self)@ == old(self)@.push(p@),
    {
        let ghost old_view = self@;
        let ghost pv = p@;
        self.paths.push(p);
        proof {
            assert(self@ =~= old_view.push(pv));
        }
    }

    /// How many paths are recorded.
    pub fn len(&self) -> (r: usize)
        ensures
            r == self@.len(),
    {
        self.paths.len()
    }

    /// The path at position `i`.
    pub fn get(&self, i: usize) -> (r: &String)
        requires
            i < self@.len(),
        ensures
            r@ == self@[i as int],
    {
        &self.paths[i]
    }

    /// Whether the given path is recorded.
    pub fn contains(&self, p: &str) -> (r: bool)
        ensures
            r == self@.contains(p@),
    {
        let n = self.paths.len();
        let mut i: usize = 0;
        while i < n
            invariant
                n == self@.len(),
                i <= n,
                forall|j: int| 0 <= j < i ==> self@[j] != p@,
            decreases n - i,
        {
            if str_eq(self.paths[i].as_str(), p) {
                proof {
                    assert(self@[i as int] == p@);
                }
                return true;
            }
            proof {
                assert(self@[i as int] == self.paths[i as int]@);
            }
            i = i + 1;
        }
        false
    }

    /// Whether some recorded path starts with the given prefix.
    pub fn has_with_prefix(&self, pre: &str) -> (r: bool)
        ensures
            r == exists|i: int|
                0 <= i < self@.len() && spec_starts_with(#[trigger] self@[i], pre@),
    {
        let n = self.paths.len();
        let mut i: usize = 0;
        while i < n
            invariant
                n == self@.len(),
                i <= n,
                forall|j: int| 0 <= j < i ==> !spec_starts_with(#[trigger] self@[j], pre@),
            decreases n - i,
        {
            if str_starts_with(self.paths[i].as_str(), pre) {
                proof {
                    assert(spec_starts_with(self@[i as int], pre@));
                }
                return true;
            }
            proof {
                assert(self@[i as int] == self.paths[i as int]@);
            }
            i = i + 1;
        }
        false
    }
}

} // verus!
