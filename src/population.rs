//! The population the annealer works on: the arena of splines together with the
//! quadtree of their handles, kept in step through the check-out / check-in
//! protocol of a Monte-Carlo step.
use vstd::prelude::*;

use crate::quad_tree::{Bounded, QuadTree};
use crate::random::MyRng;
use crate::rect::Rect;
use crate::storage::{SplineRef, SplineStorage};

verus! {

/// Splines and the spatial index over their handles. Between `check_out` and
/// `check_in` exactly one spline is out of the index.
pub struct Population<V> {
    storage: SplineStorage<V>,
    index: QuadTree<SplineRef>,
}

impl<V: Copy> Population<V> {
    pub closed spec fn storage(&self) -> SplineStorage<V> {
        self.storage
    }

    pub closed spec fn index(&self) -> QuadTree<SplineRef> {
        self.index
    }

    /// The handle of the spline being edited, if any.
    pub open spec fn out(&self) -> Option<SplineRef> {
        self.storage().checked_out()
    }

    pub open spec fn wf(&self) -> bool {
        &&& self.storage().wf()
        &&& self.index().wf()
        &&& self.index().items().len() + (if self.out() is Some { 1int } else { 0 })
            == self.storage().count()
        &&& forall|h: SplineRef| #[trigger]
            self.index().items().contains(h) ==> self.storage().handle_valid(h)
                && h.bbox().valid()
        &&& self.out() matches Some(h) ==> h.bbox().valid()
    }

    pub fn new() -> (r: Population<V>)
        ensures
            r.wf(),
            r.storage().splines() == Seq::<Seq<V>>::empty(),
            r.storage().flat().len() == 0,
            r.out() is None,
    {
        let storage = SplineStorage::new();
        let index = QuadTree::new();
        assert(storage.count() == 0) by {
            assert(storage.splines().len() == storage.count());
        }
        Population { storage, index }
    }

    /// Number of splines.
    pub fn count(&self) -> (r: usize)
        requires
            self.wf(),
        ensures
            r == self.storage().count(),
    {
        self.storage.len()
    }

    /// Number of splines in the index: all of them but the one checked out.
    pub fn indexed(&self) -> (r: usize)
        requires
            self.wf(),
        ensures
            r == self.index().items().len(),
    {
        self.index.len()
    }

    /// Adds a spline given as its anchor/tangent sequence with its bounds.
    #[verifier::spinoff_prover]
    pub fn add(&mut self, parts: Vec<V>, bounds: Rect) -> (r: SplineRef)
        requires
            old(self).wf(),
            old(self).out() is None,
            bounds.valid(),
            parts@.len() >= 4,
            parts@.len() % 2 == 0,
            old(self).storage().flat().len() + parts@.len() <= u32::MAX,
        ensures
            final(self).wf(),
            final(self).out() is None,
            final(self).storage().splines() == old(self).storage().splines().push(parts@),
            final(self).storage().flat().len() == old(self).storage().flat().len() + parts@.len(),
            r.list() == old(self).storage().count(),
            r.bounds_spec() == bounds,
    {
        broadcast use vstd::seq_lib::group_to_multiset_ensures;

        proof {
            crate::storage::lemma_count_below_flat(self.storage);
        }
        let ghost old_items = self.index.items();
        let ghost old_count = self.storage.count();
        let h = self.storage.add_spline(parts, bounds);
        assert(self.storage.splines().len() == self.storage.count());
        assert(self.storage.count() == old_count + 1);
        self.index.insert(h);
        proof {
            assert forall|g: SplineRef| #[trigger] self.index.items().contains(g) implies self.storage.handle_valid(g)
                && g.bbox().valid() by {
                assert(self.index.items().to_multiset().count(g) > 0);
                if g != h {
                    assert(old_items.to_multiset().count(g) > 0);
                    assert(old_items.contains(g));
                }
            }
        }
        h
    }

    /// Takes a spline drawn uniformly from the index out for editing: its handle
    /// leaves the index and its anchor/tangent sequence is returned.
    #[verifier::spinoff_prover]
    pub fn check_out(&mut self, rng: &mut MyRng) -> (r: Vec<V>)
        requires
            old(self).wf(),
            old(self).out() is None,
            old(self).storage().count() > 0,
        ensures
            final(self).wf(),
            final(self).out() matches Some(h) && old(self).index().items().contains(h) && r@
                == old(self).storage().splines()[h.list() as int],
            final(self).storage().splines() == old(self).storage().splines(),
            final(self).storage().flat().len() == old(self).storage().flat().len(),
            final(self).out() matches Some(h) && final(self).index().items().to_multiset() == old(
                self,
            ).index().items().to_multiset().remove(h),
    {
        broadcast use vstd::seq_lib::group_to_multiset_ensures;

        let ghost old_items = self.index.items();
        let ghost old_count = self.storage.count();
        let h = self.index.pop_random(rng);
        proof {
            assert(self.storage.handle_valid(h));
        }
        let r = self.storage.read(h);
        assert(self.storage.splines().len() == self.storage.count());
        assert(self.storage.count() == old_count);
        proof {
            assert forall|g: SplineRef| #[trigger] self.index.items().contains(g) implies self.storage.handle_valid(g)
                && g.bbox().valid() by {
                assert(self.index.items().to_multiset().count(g) > 0);
                assert(old_items.to_multiset().count(g) > 0);
                assert(old_items.contains(g));
            }
        }
        r
    }

    /// Ends the edit of the spline that is checked out. An accepted edit is written
    /// back with its new bounds; a rejected one is dropped and the spline keeps its
    /// old contents and bounds. Either way its handle returns to the index.
    #[verifier::spinoff_prover]
    #[verifier::rlimit(80)]
    pub fn check_in(&mut self, parts: Vec<V>, bounds: Rect, accept: bool) -> (r: SplineRef)
        requires
            old(self).wf(),
            old(self).out() matches Some(h) && parts@.len() == 2 * (h.segs() + 1),
            bounds.valid(),
        ensures
            final(self).wf(),
            final(self).out() is None,
            old(self).out() matches Some(h) && r.list() == h.list() && r.segs() == h.segs(),
            accept ==> r.bounds_spec() == bounds,
            accept ==> final(self).storage().splines() == old(self).storage().splines().update(
                r.list() as int,
                parts@,
            ),
            !accept ==> Some(r) == old(self).out(),
            !accept ==> final(self).storage().splines() == old(self).storage().splines(),
            final(self).storage().flat().len() == old(self).storage().flat().len(),
            final(self).index().items().to_multiset() == old(self).index().items().to_multiset().insert(r),
    {
        broadcast use vstd::seq_lib::group_to_multiset_ensures;

        proof {
            crate::storage::lemma_count_below_flat(self.storage);
        }
        let ghost old_items = self.index.items();
        let ghost s = self.storage.checked_out().unwrap();
        let ghost old_count = self.storage.count();
        assert(old_items.len() + 1 == old_count);
        let h = if accept {
            self.storage.overwrite_spline(parts, bounds)
        } else {
            let h = self.storage.revalidate_ref(parts);
            h
        };
        assert(self.storage.splines().len() == self.storage.count());
        assert(self.storage.count() == old_count);
        self.index.insert(h);
        proof {
            assert forall|g: SplineRef| #[trigger] self.index.items().contains(g) implies self.storage.handle_valid(g)
                && g.bbox().valid() by {
                assert(self.index.items().to_multiset().count(g) > 0);
                if g != h {
                    assert(old_items.to_multiset().count(g) > 0);
                    assert(old_items.contains(g));
                }
            }
        }
        h
    }

    /// Handles of the indexed splines whose bounds meet `q`.
    pub fn neighbours(&self, q: Rect) -> (r: Vec<SplineRef>)
        requires
            self.wf(),
        ensures
            r@ == self.index().items().filter(crate::quad_tree::hits::<SplineRef>(q)),
    {
        self.index.query_intersects(q)
    }

    /// Handles of all indexed splines.
    pub fn handles(&self) -> (r: Vec<SplineRef>)
        requires
            self.wf(),
        ensures
            r@ == self.index().items(),
    {
        self.index.iter()
    }

    /// The anchor/tangent sequence of the spline of `h`.
    pub fn spline(&self, h: &SplineRef) -> (r: Vec<V>)
        requires
            self.wf(),
            self.storage().handle_valid(*h),
        ensures
            r@ == self.storage().splines()[h.list() as int],
    {
        self.storage.get_spline(h)
    }

    /// Whether `h` is the spline being edited.
    pub fn is_checked_out(&self, h: &SplineRef) -> (r: bool)
        ensures
            r == (self.out() matches Some(s) && s.start() == h.start()),
    {
        self.storage.is_empty(h)
    }

    /// The arena, for reading.
    pub fn storage_ref(&self) -> (r: &SplineStorage<V>)
        ensures
            *r == self.storage(),
    {
        &self.storage
    }
}

} // verus!
