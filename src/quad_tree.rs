//! A region quadtree over items with bounding rectangles.
//!
//! The tree is complete to depth `MAX_DEPTH` and kept flat in heap order: the
//! children of node `k` are the nodes `4k+1 ..= 4k+4`, covering the quadrants of
//! node `k` in the order of `Rect::quadrant`. An item is stored at the deepest
//! node on its path from the root whose rectangle contains it: an item held by a
//! node with children fits in none of them (`partitioned`).
//!
//! Every node above the deepest level has its four children from the start,
//! instead of splitting when its own list outgrows a leaf capacity. With three
//! levels below the root the whole tree is 85 nodes, allocated once per root
//! rectangle; a query skips every node whose rectangle misses it, and pop-by-index
//! walks the nodes in a fixed order. The placement rule, and so every query result,
//! is the same as with splitting on overflow; only empty nodes are kept that a
//! splitting tree would not yet have made.
use vstd::prelude::*;

use crate::random::{random_below, MyRng};
use crate::rect::Rect;

verus! {

broadcast use {vstd::seq_lib::group_to_multiset_ensures, vstd::multiset::group_multiset_axioms};

/// Depth of the deepest level of nodes.
pub const MAX_DEPTH: usize = 3;

/// Nodes that have children: `1 + 4 + 16`.
pub const INNER_NODES: usize = 21;

/// All nodes of a tree: `1 + 4 + 16 + 64`.
pub const NODE_COUNT: usize = 85;

/// A value that occupies an axis-aligned rectangle.
pub trait Bounded {
    spec fn bbox(&self) -> Rect;

    fn bounding_box(&self) -> (r: Rect)
        ensures
            r == self.bbox(),
    ;
}

impl Bounded for Rect {
    open spec fn bbox(&self) -> Rect {
        *self
    }

    fn bounding_box(&self) -> (r: Rect) {
        *self
    }
}

impl Bounded for crate::storage::SplineRef {
    open spec fn bbox(&self) -> Rect {
        self.bounds_spec()
    }

    fn bounding_box(&self) -> (r: Rect) {
        self.bounds()
    }
}

/// The items whose rectangle meets `q`.
pub open spec fn hits<T: Bounded>(q: Rect) -> spec_fn(T) -> bool {
    |t: T| t.bbox().intersects_spec(q)
}

struct QNode<T> {
    bounds: Rect,
    objects: Vec<T>,
}

/// A box that fits in none of the children of node `k`.
spec fn fits_no_child<T>(s: Seq<QNode<T>>, k: int, b: Rect) -> bool {
    &&& !s[4 * k + 1].bounds.contains_spec(b)
    &&& !s[4 * k + 2].bounds.contains_spec(b)
    &&& !s[4 * k + 3].bounds.contains_spec(b)
    &&& !s[4 * k + 4].bounds.contains_spec(b)
}

/// The items of a list of nodes, node after node.
spec fn flat<T>(s: Seq<QNode<T>>) -> Seq<T>
    decreases s.len(),
{
    if s.len() == 0 {
        Seq::empty()
    } else {
        flat(s.drop_last()) + s.last().objects@
    }
}

pub struct QuadTree<T> {
    nodes: Vec<QNode<T>>,
    len: usize,
}

impl<T: Bounded + Copy> QuadTree<T> {
    /// The items, node by node in heap order.
    pub closed spec fn items(&self) -> Seq<T> {
        flat(self.nodes@)
    }

    /// The rectangle of the root, which contains every item.
    pub closed spec fn root_bounds(&self) -> Rect {
        self.nodes@[0].bounds
    }

    /// Every item held by a node with children fits in none of the children: it
    /// sits at the deepest node on its path whose rectangle contains it.
    pub closed spec fn partitioned(&self) -> bool {
        forall|k: int, j: int|
            0 <= k < INNER_NODES && k < self.nodes@.len() && 0 <= j < self.nodes@[k].objects@.len()
                ==> fits_no_child(self.nodes@, k, #[trigger] self.nodes@[k].objects@[j].bbox())
    }

    pub closed spec fn wf(&self) -> bool {
        &&& self.nodes@.len() == 0 || self.nodes@.len() == NODE_COUNT
        &&& self.len == flat(self.nodes@).len()
        &&& forall|k: int|
            0 <= k < self.nodes@.len() ==> (#[trigger] self.nodes@[k]).bounds.valid()
                && self.nodes@[0].bounds.contains_spec(self.nodes@[k].bounds)
        &&& forall|k: int|
            1 <= k < self.nodes@.len() ==> (#[trigger] self.nodes@[k]).bounds == self.nodes@[(k - 1)
                / 4].bounds.quadrant((k - 1) % 4)
        &&& forall|k: int, j: int|
            0 <= k < self.nodes@.len() && 0 <= j < self.nodes@[k].objects@.len()
                ==> self.nodes@[k].bounds.contains_spec(
                #[trigger] self.nodes@[k].objects@[j].bbox(),
            )
        &&& self.partitioned()
    }

    /// An empty tree.
    pub fn new() -> (r: QuadTree<T>)
        ensures
            r.wf(),
            r.partitioned(),
            r.items() == Seq::<T>::empty(),
    {
        QuadTree { nodes: Vec::new(), len: 0 }
    }

    /// Number of items in the tree.
    pub fn len(&self) -> (r: usize)
        requires
            self.wf(),
        ensures
            r == self.items().len(),
    {
        self.len
    }

    /// The rectangle of the root.
    pub fn get_bounds(&self) -> (r: Rect)
        requires
            self.wf(),
            self.items().len() > 0,
        ensures
            r == self.root_bounds(),
            forall|i: int| 0 <= i < self.items().len() ==> r.contains_spec(#[trigger] self.items()[i].bbox()),
    {
        proof {
            lemma_flat_contained(self.nodes@, self.nodes@[0].bounds);
        }
        self.nodes[0].bounds
    }

    /// A tree over `bounds` holding `objects`.
    #[verifier::spinoff_prover]
    pub fn with_bounds(objects: Vec<T>, bounds: Rect) -> (r: QuadTree<T>)
        requires
            bounds.valid(),
            forall|i: int| 0 <= i < objects@.len() ==> bounds.contains_spec(#[trigger] objects@[i].bbox()),
        ensures
            r.wf(),
            r.partitioned(),
            r.items().to_multiset() == objects@.to_multiset(),
            r.root_bounds() == bounds,
    {
        let mut tree = QuadTree { nodes: empty_nodes(bounds), len: 0 };
        let mut i: usize = 0;
        while i < objects.len()
            invariant
                tree.wf(),
                tree.nodes@.len() == NODE_COUNT,
                tree.root_bounds() == bounds,
                i <= objects@.len(),
                tree.items().to_multiset() == objects@.take(i as int).to_multiset(),
                tree.items().len() == i,
                forall|j: int| 0 <= j < objects@.len() ==> bounds.contains_spec(#[trigger] objects@[j].bbox()),
            decreases objects@.len() - i,
        {
            tree.place(objects[i]);
            proof {
                assert(objects@.take(i + 1) =~= objects@.take(i as int).push(objects@[i as int]));
            }
            i = i + 1;
        }
        assert(objects@.take(i as int) =~= objects@);
        tree
    }

    /// A tree over the tightest rectangle holding every item of `objects`.
    pub fn from(objects: Vec<T>) -> (r: QuadTree<T>)
        requires
            objects@.len() > 0,
            forall|i: int| 0 <= i < objects@.len() ==> (#[trigger] objects@[i].bbox()).valid(),
        ensures
            r.wf(),
            r.partitioned(),
            r.items().to_multiset() == objects@.to_multiset(),
            forall|i: int| 0 <= i < objects@.len() ==> r.root_bounds().contains_spec(#[trigger] objects@[i].bbox()),
            exists|i: int| 0 <= i < objects@.len() && objects@[i].bbox().x_min == r.root_bounds().x_min,
            exists|i: int| 0 <= i < objects@.len() && objects@[i].bbox().x_max == r.root_bounds().x_max,
            exists|i: int| 0 <= i < objects@.len() && objects@[i].bbox().y_min == r.root_bounds().y_min,
            exists|i: int| 0 <= i < objects@.len() && objects@[i].bbox().y_max == r.root_bounds().y_max,
    {
        let mut bounds = objects[0].bounding_box();
        let mut i: usize = 1;
        while i < objects.len()
            invariant
                1 <= i <= objects@.len(),
                bounds.valid(),
                forall|j: int| 0 <= j < objects@.len() ==> (#[trigger] objects@[j].bbox()).valid(),
                forall|j: int| 0 <= j < i ==> bounds.contains_spec(#[trigger] objects@[j].bbox()),
                exists|j: int| 0 <= j < i && objects@[j].bbox().x_min == bounds.x_min,
                exists|j: int| 0 <= j < i && objects@[j].bbox().x_max == bounds.x_max,
                exists|j: int| 0 <= j < i && objects@[j].bbox().y_min == bounds.y_min,
                exists|j: int| 0 <= j < i && objects@[j].bbox().y_max == bounds.y_max,
            decreases objects@.len() - i,
        {
            let b = objects[i].bounding_box();
            let ghost old_bounds = bounds;
            bounds = b.combine(bounds);
            proof {
                let ii = i as int;
                if b.x_min <= old_bounds.x_min {
                    assert(objects@[ii].bbox().x_min == bounds.x_min);
                }
                if b.x_max >= old_bounds.x_max {
                    assert(objects@[ii].bbox().x_max == bounds.x_max);
                }
                if b.y_min <= old_bounds.y_min {
                    assert(objects@[ii].bbox().y_min == bounds.y_min);
                }
                if b.y_max >= old_bounds.y_max {
                    assert(objects@[ii].bbox().y_max == bounds.y_max);
                }
            }
            i = i + 1;
        }
        QuadTree::with_bounds(objects, bounds)
    }

    /// Number of items held by the nodes of depth `d`.
    pub closed spec fn level_items(&self, d: int) -> nat {
        flat(self.nodes@.subrange(level_start(d), level_start(d + 1))).len()
    }

    /// Items per depth, root first, as the occupancy report lists them.
    pub fn level_counts(&self) -> (r: Vec<usize>)
        requires
            self.wf(),
        ensures
            r@.len() == MAX_DEPTH + 1,
            self.items().len() > 0 ==> forall|d: int| 0 <= d <= MAX_DEPTH ==> #[trigger] r@[d] == self.level_items(d),
            r@[0] + r@[1] + r@[2] + r@[3] == self.items().len(),
    {
        let mut r: Vec<usize> = Vec::new();
        if self.nodes.len() == 0 {
            r.push(0);
            r.push(0);
            r.push(0);
            r.push(0);
            return r;
        }
        proof {
            lemma_levels_split(self.nodes@);
        }
        let mut d: usize = 0;
        let mut start: usize = 0;
        while d <= MAX_DEPTH
            invariant
                self.wf(),
                self.nodes@.len() == NODE_COUNT,
                d <= MAX_DEPTH + 1,
                start == level_start(d as int),
                r@.len() == d,
                forall|e: int| 0 <= e < d ==> #[trigger] r@[e] == self.level_items(e),
                self.level_items(0) + self.level_items(1) + self.level_items(2) + self.level_items(3)
                    == self.items().len(),
            decreases MAX_DEPTH + 1 - d,
        {
            let stop = 4 * start + 1;
            let mut k: usize = start;
            let mut sum: usize = 0;
            proof {
                assert(self.nodes@.subrange(start as int, start as int) =~= Seq::<QNode<T>>::empty());
                lemma_level_bounded(self.nodes@, d as int);
            }
            while k < stop
                invariant
                    self.nodes@.len() == NODE_COUNT,
                    start <= k <= stop <= NODE_COUNT,
                    sum == flat(self.nodes@.subrange(start as int, k as int)).len(),
                    flat(self.nodes@.subrange(start as int, stop as int)).len() <= self.items().len(),
                    self.items().len() == self.len,
                decreases stop - k,
            {
                proof {
                    let a = self.nodes@.subrange(start as int, k as int + 1);
                    assert(a.drop_last() =~= self.nodes@.subrange(start as int, k as int));
                    lemma_flat_prefix_len(self.nodes@.subrange(start as int, stop as int), k - start + 1);
                    assert(self.nodes@.subrange(start as int, stop as int).take(k - start + 1) =~= a);
                }
                sum = sum + self.nodes[k].objects.len();
                k = k + 1;
            }
            r.push(sum);
            start = stop;
            d = d + 1;
        }
        r
    }

    /// Adds `val`. When it does not fit in the root, the tree is rebuilt over the
    /// union of the old root and its rectangle.
    #[verifier::spinoff_prover]
    pub fn insert(&mut self, val: T)
        requires
            old(self).wf(),
            val.bbox().valid(),
            old(self).items().len() + 1 < usize::MAX,
        ensures
            final(self).wf(),
            final(self).partitioned(),
            final(self).items().to_multiset() == old(self).items().to_multiset().insert(val),
            final(self).items().len() == old(self).items().len() + 1,
            old(self).items().len() == 0 ==> final(self).root_bounds() == val.bbox(),
            old(self).items().len() > 0 && old(self).root_bounds().contains_spec(val.bbox())
                ==> final(self).root_bounds() == old(self).root_bounds(),
            old(self).items().len() > 0 && !old(self).root_bounds().contains_spec(val.bbox())
                ==> final(self).root_bounds() == old(self).root_bounds().combine_spec(val.bbox()),
    {
        let b = val.bounding_box();
        if self.len == 0 {
            let mut objects: Vec<T> = Vec::new();
            objects.push(val);
            proof {
                lemma_flat_empty_len(self.nodes@);
                assert(objects@ =~= seq![val]);
                assert(seq![val].to_multiset() =~= Seq::<T>::empty().to_multiset().insert(val));
            }
            *self = QuadTree::with_bounds(objects, b);
            proof {
                lemma_len_matches_multiset(self.items());
            }
        } else if self.nodes[0].bounds.contains(&b) {
            self.place(val);
        } else {
            let root = self.nodes[0].bounds;
            let mut objects = self.iter();
            proof {
                lemma_flat_contained(self.nodes@, root);
            }
            let ghost before = objects@;
            objects.push(val);
            let bounds = root.combine(b);
            proof {
                assert forall|i: int| 0 <= i < objects@.len() implies bounds.contains_spec(
                    #[trigger] objects@[i].bbox(),
                ) by {
                    if i < before.len() {
                        assert(objects@[i] == self.items()[i]);
                    }
                }
            }
            *self = QuadTree::with_bounds(objects, bounds);
            proof {
                lemma_len_matches_multiset(self.items());
            }
        }
    }

    /// Every item, node by node.
    #[verifier::spinoff_prover]
    pub fn iter(&self) -> (r: Vec<T>)
        requires
            self.wf(),
        ensures
            r@ == self.items(),
    {
        let mut r: Vec<T> = Vec::new();
        let mut k: usize = 0;
        while k < self.nodes.len()
            invariant
                k <= self.nodes@.len(),
                r@ == flat(self.nodes@.take(k as int)),
            decreases self.nodes@.len() - k,
        {
            let ghost base = r@;
            let objects = &self.nodes[k].objects;
            let mut j: usize = 0;
            while j < objects.len()
                invariant
                    j <= objects@.len(),
                    r@ == base + objects@.take(j as int),
                decreases objects@.len() - j,
            {
                r.push(objects[j]);
                j = j + 1;
                assert(r@ =~= base + objects@.take(j as int));
            }
            proof {
                lemma_flat_take_step(self.nodes@, k as int);
                assert(objects@.take(j as int) =~= objects@);
            }
            k = k + 1;
        }
        assert(self.nodes@.take(k as int) =~= self.nodes@);
        r
    }

    /// Every item, consuming the tree.
    pub fn into_vec(self) -> (r: Vec<T>)
        requires
            self.wf(),
        ensures
            r@ == self.items(),
    {
        self.iter()
    }

    /// The items whose rectangle intersects `q`, each once, in the order of
    /// `items`. Nodes whose rectangle misses `q` are skipped whole.
    #[verifier::spinoff_prover]
    pub fn query_intersects(&self, q: Rect) -> (r: Vec<T>)
        requires
            self.wf(),
        ensures
            r@ == self.items().filter(hits::<T>(q)),
    {
        let mut r: Vec<T> = Vec::new();
        let mut k: usize = 0;
        while k < self.nodes.len()
            invariant
                self.wf(),
                k <= self.nodes@.len(),
                r@ == flat(self.nodes@.take(k as int)).filter(hits::<T>(q)),
            decreases self.nodes@.len() - k,
        {
            let ghost base = r@;
            let objects = &self.nodes[k].objects;
            proof {
                lemma_flat_take_step(self.nodes@, k as int);
                Seq::filter_distributes_over_add(flat(self.nodes@.take(k as int)), objects@, hits::<T>(q));
            }
            if self.nodes[k].bounds.intersects(&q) {
                let mut j: usize = 0;
                while j < objects.len()
                    invariant
                        j <= objects@.len(),
                        r@ == base + objects@.take(j as int).filter(hits::<T>(q)),
                    decreases objects@.len() - j,
                {
                    let t = objects[j];
                    proof {
                        reveal(Seq::filter);
                        assert(objects@.take(j + 1).drop_last() =~= objects@.take(j as int));
                    }
                    if t.bounding_box().intersects(&q) {
                        r.push(t);
                    }
                    j = j + 1;
                    assert(r@ =~= base + objects@.take(j as int).filter(hits::<T>(q)));
                }
                assert(objects@.take(j as int) =~= objects@);
            } else {
                proof {
                    lemma_filter_none(objects@, hits::<T>(q));
                }
            }
            k = k + 1;
        }
        assert(self.nodes@.take(k as int) =~= self.nodes@);
        r
    }

    /// Removes and returns the item at position `index` of `items`.
    #[verifier::spinoff_prover]
    pub fn pop(&mut self, index: usize) -> (r: T)
        requires
            old(self).wf(),
            index < old(self).items().len(),
        ensures
            final(self).wf(),
            final(self).partitioned(),
            final(self).root_bounds() == old(self).root_bounds(),
            r == old(self).items()[index as int],
            final(self).items().to_multiset() == old(self).items().to_multiset().remove(r),
            final(self).items().len() == old(self).items().len() - 1,
    {
        let mut k: usize = 0;
        let mut rem: usize = index;
        proof {
            assert(self.nodes@.take(0) =~= Seq::<QNode<T>>::empty());
        }
        while rem >= self.nodes[k].objects.len()
            invariant
                self.wf(),
                k < self.nodes@.len(),
                rem + flat(self.nodes@.take(k as int)).len() == index,
                index < flat(self.nodes@).len(),
            decreases self.nodes@.len() - k,
        {
            proof {
                lemma_flat_take_step(self.nodes@, k as int);
                if k + 1 == self.nodes@.len() {
                    assert(self.nodes@.take(k + 1) =~= self.nodes@);
                }
            }
            rem = rem - self.nodes[k].objects.len();
            k = k + 1;
        }
        proof {
            lemma_flat_index(self.nodes@, k as int, rem as int);
        }
        let ghost old_nodes = self.nodes@;
        let r = self.nodes[k].objects.remove(rem);
        proof {
            let n = self.nodes@[k as int];
            assert(self.nodes@ =~= old_nodes.update(k as int, n));
            lemma_flat_update(old_nodes, k as int, n);
            let a = flat(self.nodes@).to_multiset();
            let b = flat(old_nodes).to_multiset();
            let y = old_nodes[k as int].objects@.to_multiset();
            assert(y.remove(r).insert(r) =~= y);
            assert(a =~= b.remove(r)) by {
                assert forall|v: T| #[trigger] a.count(v) == b.remove(r).count(v) by {
                    assert(a.add(y).count(v) == b.add(y.remove(r)).count(v));
                }
            }
            assert forall|kk: int, j: int|
                0 <= kk < self.nodes@.len() && 0 <= j < self.nodes@[kk].objects@.len()
                    implies self.nodes@[kk].bounds.contains_spec(
                #[trigger] self.nodes@[kk].objects@[j].bbox(),
            ) && (kk < INNER_NODES ==> fits_no_child(self.nodes@, kk, self.nodes@[kk].objects@[j].bbox())) by {
                assert(forall|i: int| 0 <= i < self.nodes@.len() ==> #[trigger] self.nodes@[i].bounds == old_nodes[i].bounds);
                if kk == k {
                    if j < rem {
                        assert(self.nodes@[kk].objects@[j] == old_nodes[kk].objects@[j]);
                    } else {
                        assert(self.nodes@[kk].objects@[j] == old_nodes[kk].objects@[j + 1]);
                    }
                }
            }
        }
        self.len = self.len - 1;
        r
    }

    /// Removes and returns an item drawn uniformly from the tree.
    pub fn pop_random(&mut self, rng: &mut MyRng) -> (r: T)
        requires
            old(self).wf(),
            old(self).items().len() > 0,
        ensures
            final(self).wf(),
            final(self).partitioned(),
            final(self).root_bounds() == old(self).root_bounds(),
            old(self).items().contains(r),
            final(self).items().to_multiset() == old(self).items().to_multiset().remove(r),
            final(self).items().len() == old(self).items().len() - 1,
    {
        let index = random_below(rng, self.len);
        self.pop(index)
    }

    /// Puts `val` into the deepest node on the path from the root whose rectangle
    /// contains it.
    #[verifier::spinoff_prover]
    fn place(&mut self, val: T)
        requires
            old(self).wf(),
            old(self).nodes@.len() == NODE_COUNT,
            old(self).root_bounds().contains_spec(val.bbox()),
            old(self).items().len() < usize::MAX,
        ensures
            final(self).wf(),
            final(self).nodes@.len() == NODE_COUNT,
            final(self).root_bounds() == old(self).root_bounds(),
            final(self).items().to_multiset() == old(self).items().to_multiset().insert(val),
            final(self).items().len() == old(self).items().len() + 1,
    {
        let b = val.bounding_box();
        let mut k: usize = 0;
        loop
            invariant
                self.wf(),
                self.nodes@.len() == NODE_COUNT,
                k < NODE_COUNT,
                self.nodes@[k as int].bounds.contains_spec(b),
                b == val.bbox(),
            ensures
                self.wf(),
                self.nodes@.len() == NODE_COUNT,
                k < NODE_COUNT,
                self.nodes@[k as int].bounds.contains_spec(b),
                b == val.bbox(),
                k < INNER_NODES ==> fits_no_child(self.nodes@, k as int, b),
            decreases NODE_COUNT - k,
        {
            if k >= INNER_NODES {
                break;
            }
            let c = 4 * k + 1;
            if self.nodes[c].bounds.contains(&b) {
                k = c;
            } else if self.nodes[c + 1].bounds.contains(&b) {
                k = c + 1;
            } else if self.nodes[c + 2].bounds.contains(&b) {
                k = c + 2;
            } else if self.nodes[c + 3].bounds.contains(&b) {
                k = c + 3;
            } else {
                break;
            }
        }
        let ghost old_nodes = self.nodes@;
        self.nodes[k].objects.push(val);
        proof {
            let n = self.nodes@[k as int];
            assert(n.objects@ == old_nodes[k as int].objects@.push(val));
            assert(n.bounds == old_nodes[k as int].bounds);
            assert(self.nodes@ =~= old_nodes.update(k as int, n));
            lemma_flat_update(old_nodes, k as int, n);
            let a = flat(self.nodes@).to_multiset();
            let b = flat(old_nodes).to_multiset();
            let y = old_nodes[k as int].objects@.to_multiset();
            assert(n.objects@.to_multiset() =~= y.insert(val));
            assert(a =~= b.insert(val)) by {
                assert forall|v: T| #[trigger] a.count(v) == b.insert(val).count(v) by {
                    assert(a.add(y).count(v) == b.add(y.insert(val)).count(v));
                }
            }
            assert forall|kk: int, j: int|
                0 <= kk < self.nodes@.len() && 0 <= j < self.nodes@[kk].objects@.len()
                    implies self.nodes@[kk].bounds.contains_spec(
                #[trigger] self.nodes@[kk].objects@[j].bbox(),
            ) && (kk < INNER_NODES ==> fits_no_child(self.nodes@, kk, self.nodes@[kk].objects@[j].bbox())) by {
                assert(forall|i: int| 0 <= i < self.nodes@.len() ==> #[trigger] self.nodes@[i].bounds == old_nodes[i].bounds);
                if kk == k && j < old_nodes[kk].objects@.len() {
                    assert(self.nodes@[kk].objects@[j] == old_nodes[kk].objects@[j]);
                }
            }
        }
        self.len = self.len + 1;
    }
}

/// A fresh tree of empty nodes: the root covers `bounds`, every other node a
/// quadrant of its parent.
#[verifier::spinoff_prover]
fn empty_nodes<T>(bounds: Rect) -> (r: Vec<QNode<T>>)
    requires
        bounds.valid(),
    ensures
        r@.len() == NODE_COUNT,
        r@[0].bounds == bounds,
        flat(r@) == Seq::<T>::empty(),
        forall|k: int| 0 <= k < NODE_COUNT ==> (#[trigger] r@[k]).bounds.valid() && bounds.contains_spec(
            r@[k].bounds,
        ) && r@[k].objects@.len() == 0,
        forall|k: int| 1 <= k < NODE_COUNT ==> (#[trigger] r@[k]).bounds == r@[(k - 1) / 4].bounds.quadrant(
            (k - 1) % 4,
        ),
{
    let mut r: Vec<QNode<T>> = Vec::new();
    let mut k: usize = 0;
    while k < NODE_COUNT
        invariant
            bounds.valid(),
            k <= NODE_COUNT,
            r@.len() == k,
            k > 0 ==> r@[0].bounds == bounds,
            forall|i: int| 0 <= i < k ==> (#[trigger] r@[i]).bounds.valid() && bounds.contains_spec(
                r@[i].bounds,
            ) && r@[i].objects@.len() == 0,
            forall|i: int| 1 <= i < k ==> (#[trigger] r@[i]).bounds == r@[(i - 1) / 4].bounds.quadrant(
                (i - 1) % 4,
            ),
        decreases NODE_COUNT - k,
    {
        let rect = if k == 0 {
            bounds
        } else {
            let parent = (k - 1) / 4;
            assert(parent < k);
            let quadrants = r[parent].bounds.get_quadrants();
            let q = quadrants[(k - 1) % 4];
            assert(q == r@[parent as int].bounds.quadrant((k - 1) % 4));
            assert(r@[parent as int].bounds.contains_spec(q));
            assert(q.valid());
            assert(bounds.contains_spec(r@[parent as int].bounds));
            q
        };
        let objects: Vec<T> = Vec::new();
        let ghost before = r@;
        r.push(QNode { bounds: rect, objects });
        assert forall|i: int| 0 <= i <= k implies (#[trigger] r@[i]).bounds.valid() && bounds.contains_spec(
            r@[i].bounds,
        ) && r@[i].objects@.len() == 0 by {
            if i < k {
                assert(r@[i] == before[i]);
            }
        }
        assert forall|i: int| 1 <= i <= k implies (#[trigger] r@[i]).bounds == r@[(i - 1) / 4].bounds.quadrant(
            (i - 1) % 4,
        ) by {
            assert(r@[(i - 1) / 4] == before[(i - 1) / 4]);
            if i < k {
                assert(r@[i] == before[i]);
            }
        }
        k = k + 1;
    }
    proof {
        lemma_flat_empty(r@);
    }
    r
}

/// A query reports every item that meets the rectangle exactly as often as the
/// tree holds it, and no other item.
pub proof fn lemma_query_exactly_once<T>(items: Seq<T>, q: Rect, t: T)
    where
        T: Bounded,
    ensures
        items.filter(hits::<T>(q)).to_multiset().count(t) == if t.bbox().intersects_spec(q) {
            items.to_multiset().count(t)
        } else {
            0
        },
    decreases items.len(),
{
    reveal(Seq::filter);
    if items.len() > 0 {
        let d = items.drop_last();
        lemma_query_exactly_once(d, q, t);
        assert(items =~= d.push(items.last()));
    }
}

/// First node of depth `d` in heap order.
pub open spec fn level_start(d: int) -> int
    decreases d,
{
    if d <= 0 {
        0
    } else {
        4 * level_start(d - 1) + 1
    }
}

/// The depths together hold every item.
proof fn lemma_levels_split<T>(s: Seq<QNode<T>>)
    requires
        s.len() == NODE_COUNT,
    ensures
        flat(s.subrange(0, 1)).len() + flat(s.subrange(1, 5)).len() + flat(s.subrange(5, 21)).len()
            + flat(s.subrange(21, 85)).len() == flat(s).len(),
{
    reveal_with_fuel(level_start, 5);
    lemma_flat_concat(s.subrange(0, 1), s.subrange(1, 5));
    lemma_flat_concat(s.subrange(0, 1) + s.subrange(1, 5), s.subrange(5, 21));
    lemma_flat_concat(s.subrange(0, 1) + s.subrange(1, 5) + s.subrange(5, 21), s.subrange(21, 85));
    assert(s.subrange(0, 1) + s.subrange(1, 5) + s.subrange(5, 21) + s.subrange(21, 85) =~= s);
}

/// The items of one depth are no more than all items.
proof fn lemma_level_bounded<T>(s: Seq<QNode<T>>, d: int)
    requires
        s.len() == NODE_COUNT,
        0 <= d <= MAX_DEPTH,
    ensures
        level_start(d + 1) == 4 * level_start(d) + 1 <= NODE_COUNT,
        flat(s.subrange(level_start(d), level_start(d + 1))).len() <= flat(s).len(),
{
    reveal_with_fuel(level_start, 5);
    let a = level_start(d);
    let b = level_start(d + 1);
    lemma_flat_concat(s.subrange(0, a), s.subrange(a, b));
    lemma_flat_concat(s.subrange(0, a) + s.subrange(a, b), s.subrange(b, NODE_COUNT as int));
    assert(s.subrange(0, a) + s.subrange(a, b) + s.subrange(b, NODE_COUNT as int) =~= s);
}

/// A prefix of a list of nodes holds no more items than the whole list.
proof fn lemma_flat_prefix_len<T>(s: Seq<QNode<T>>, n: int)
    requires
        0 <= n <= s.len(),
    ensures
        flat(s.take(n)).len() <= flat(s).len(),
{
    lemma_flat_concat(s.take(n), s.skip(n));
    assert(s.take(n) + s.skip(n) =~= s);
}

proof fn lemma_flat_empty<T>(s: Seq<QNode<T>>)
    requires
        forall|k: int| 0 <= k < s.len() ==> (#[trigger] s[k]).objects@.len() == 0,
    ensures
        flat(s) == Seq::<T>::empty(),
    decreases s.len(),
{
    if s.len() > 0 {
        lemma_flat_empty(s.drop_last());
        assert(flat(s) =~= Seq::<T>::empty());
    }
}

/// Replacing node `k` changes the items by what the two versions of the node hold.
#[verifier::spinoff_prover]
proof fn lemma_flat_update<T>(s: Seq<QNode<T>>, k: int, n: QNode<T>)
    requires
        0 <= k < s.len(),
    ensures
        flat(s.update(k, n)).to_multiset().add(s[k].objects@.to_multiset()) == flat(
            s,
        ).to_multiset().add(n.objects@.to_multiset()),
        flat(s.update(k, n)).len() + s[k].objects@.len() == flat(s).len() + n.objects@.len(),
    decreases s.len(),
{
    broadcast use vstd::multiset::group_multiset_axioms;

    let u = s.update(k, n);
    let d = s.drop_last();
    let du = u.drop_last();
    assert(flat(s) == flat(d) + s.last().objects@);
    assert(flat(u) == flat(du) + u.last().objects@);
    vstd::seq_lib::lemma_multiset_commutative(flat(du), u.last().objects@);
    vstd::seq_lib::lemma_multiset_commutative(flat(d), s.last().objects@);
    if k == s.len() - 1 {
        assert(du =~= d);
        assert(u.last() == n);
        assert(flat(u).to_multiset() == flat(d).to_multiset().add(n.objects@.to_multiset()));
        assert(flat(s).to_multiset() == flat(d).to_multiset().add(s[k].objects@.to_multiset()));
        let a = flat(d).to_multiset();
        let x = n.objects@.to_multiset();
        let y = s[k].objects@.to_multiset();
        assert(a.add(x).add(y) =~= a.add(y).add(x));
    } else {
        assert(du =~= d.update(k, n));
        assert(u.last() == s.last());
        assert(d[k] == s[k]);
        lemma_flat_update(d, k, n);
        let a = flat(du).to_multiset();
        let b = flat(d).to_multiset();
        let l = s.last().objects@.to_multiset();
        let x = n.objects@.to_multiset();
        let y = s[k].objects@.to_multiset();
        assert(a.add(y) == b.add(x));
        assert(flat(u).to_multiset() == a.add(l));
        assert(flat(s).to_multiset() == b.add(l));
        assert(a.add(l).add(y) =~= b.add(l).add(x)) by {
            assert forall|v: T| #[trigger] a.add(l).add(y).count(v) == b.add(l).add(x).count(v) by {
                assert(a.add(y).count(v) == b.add(x).count(v));
            }
        }
    }
    assert(flat(u).to_multiset().add(s[k].objects@.to_multiset()) =~= flat(s).to_multiset().add(
        n.objects@.to_multiset(),
    ));
}

proof fn lemma_flat_empty_len<T>(s: Seq<QNode<T>>)
    requires
        flat(s).len() == 0,
    ensures
        flat(s) == Seq::<T>::empty(),
{
    assert(flat(s) =~= Seq::<T>::empty());
}

proof fn lemma_len_matches_multiset<T>(s: Seq<T>)
    ensures
        s.to_multiset().len() == s.len(),
{
}

proof fn lemma_flat_take_step<T>(s: Seq<QNode<T>>, k: int)
    requires
        0 <= k < s.len(),
    ensures
        flat(s.take(k + 1)) == flat(s.take(k)) + s[k].objects@,
{
    assert(s.take(k + 1).drop_last() =~= s.take(k));
}

proof fn lemma_flat_concat<T>(a: Seq<QNode<T>>, b: Seq<QNode<T>>)
    ensures
        flat(a + b) == flat(a) + flat(b),
    decreases b.len(),
{
    if b.len() == 0 {
        assert(a + b =~= a);
        assert(flat(a) + flat(b) =~= flat(a));
    } else {
        assert((a + b).drop_last() =~= a + b.drop_last());
        lemma_flat_concat(a, b.drop_last());
        assert(flat(a + b) =~= flat(a) + flat(b));
    }
}

/// Item `j` of node `k` sits in `flat(s)` after the items of the nodes before `k`.
proof fn lemma_flat_index<T>(s: Seq<QNode<T>>, k: int, j: int)
    requires
        0 <= k < s.len(),
        0 <= j < s[k].objects@.len(),
    ensures
        flat(s.take(k)).len() + j < flat(s).len(),
        flat(s)[flat(s.take(k)).len() + j] == s[k].objects@[j],
{
    lemma_flat_take_step(s, k);
    lemma_flat_concat(s.take(k + 1), s.skip(k + 1));
    assert(s.take(k + 1) + s.skip(k + 1) =~= s);
}

proof fn lemma_filter_none<T>(s: Seq<T>, p: spec_fn(T) -> bool)
    requires
        forall|i: int| 0 <= i < s.len() ==> !p(#[trigger] s[i]),
    ensures
        s.filter(p) == Seq::<T>::empty(),
    decreases s.len(),
{
    reveal(Seq::filter);
    if s.len() > 0 {
        lemma_filter_none(s.drop_last(), p);
        assert(!p(s[s.len() - 1]));
    }
}

/// Every item of a list of nodes lies in `r` when every node's items do.
#[verifier::spinoff_prover]
proof fn lemma_flat_contained<T: Bounded>(s: Seq<QNode<T>>, r: Rect)
    requires
        forall|k: int| 0 <= k < s.len() ==> r.contains_spec(#[trigger] s[k].bounds),
        forall|k: int, j: int|
            0 <= k < s.len() && 0 <= j < s[k].objects@.len() ==> s[k].bounds.contains_spec(
                #[trigger] s[k].objects@[j].bbox(),
            ),
    ensures
        forall|i: int| 0 <= i < flat(s).len() ==> r.contains_spec(#[trigger] flat(s)[i].bbox()),
    decreases s.len(),
{
    if s.len() > 0 {
        let d = s.drop_last();
        assert forall|k: int| 0 <= k < d.len() implies r.contains_spec(#[trigger] d[k].bounds) by {
            assert(d[k] == s[k]);
        }
        assert forall|k: int, j: int|
            0 <= k < d.len() && 0 <= j < d[k].objects@.len() implies d[k].bounds.contains_spec(
            #[trigger] d[k].objects@[j].bbox(),
        ) by {
            assert(d[k] == s[k]);
        }
        lemma_flat_contained(d, r);
        let last = s.len() - 1;
        assert forall|i: int| 0 <= i < flat(s).len() implies r.contains_spec(#[trigger] flat(s)[i].bbox()) by {
            if i >= flat(d).len() {
                let j = i - flat(d).len();
                assert(flat(s)[i] == s[last].objects@[j]);
                assert(r.contains_spec(s[last].bounds));
                assert(s[last].bounds.contains_spec(s[last].objects@[j].bbox()));
            } else {
                assert(flat(s)[i] == flat(d)[i]);
            }
        }
    }
}

} // verus!
