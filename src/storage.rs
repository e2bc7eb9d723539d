//! Arena storage of splines: one flat buffer of interleaved anchor/tangent pairs
//! `[A0, V0, A1, V1, ...]`, handles that locate a spline in it, and tables of
//! per-spline and per-segment data addressed by those handles.
use vstd::prelude::*;

use vstd::std_specs::iter::IteratorSpec;

use crate::rect::Rect;

verus! {

/// Opaque reference to a spline in a `SplineStorage`, with a snapshot of its
/// bounding rectangle taken when the handle was made.
#[derive(Clone, Copy, Debug)]
pub struct SplineRef {
    storage_idx: u32,
    segments: u32,
    list_idx: u32,
    bounds: Rect,
}

impl SplineRef {
    /// Offset of the spline's first anchor in the flat buffer.
    pub closed spec fn start(self) -> nat {
        self.storage_idx as nat
    }

    /// Number of segments of the spline.
    pub closed spec fn segs(self) -> nat {
        self.segments as nat
    }

    /// Ordinal of the spline among all splines of the arena.
    pub closed spec fn list(self) -> nat {
        self.list_idx as nat
    }

    pub closed spec fn bounds_spec(self) -> Rect {
        self.bounds
    }

    /// First slot of the spline in a per-segment table.
    pub open spec fn segment_slot(self) -> int {
        self.start() - self.list()
    }

    pub fn storage_index(&self) -> (r: u32)
        ensures
            r == self.start(),
    {
        self.storage_idx
    }

    pub fn count_segments(&self) -> (r: u32)
        ensures
            r == self.segs(),
    {
        self.segments
    }

    pub fn list_index(&self) -> (r: u32)
        ensures
            r == self.list(),
    {
        self.list_idx
    }

    pub fn bounds(&self) -> (r: Rect)
        ensures
            r == self.bounds_spec(),
    {
        self.bounds
    }

    /// Handles are ordered by their place in the arena.
    pub fn is_before(&self, other: &SplineRef) -> (r: bool)
        ensures
            r == (self.start() < other.start()),
    {
        self.storage_idx < other.storage_idx
    }
}

impl PartialEq for SplineRef {
    fn eq(&self, other: &SplineRef) -> (r: bool) {
        self.storage_idx == other.storage_idx
    }
}

impl vstd::std_specs::cmp::PartialEqSpecImpl for SplineRef {
    open spec fn obeys_eq_spec() -> bool {
        true
    }

    open spec fn eq_spec(&self, other: &SplineRef) -> bool {
        self.start() == other.start()
    }
}

impl Eq for SplineRef {}

/// The windows of four vectors `[A_k, V_k, A_{k+1}, V_{k+1}]` that make the
/// segments of one spline's anchor/tangent sequence.
pub open spec fn windows<V>(s: Seq<V>) -> Seq<Seq<V>> {
    Seq::new((s.len() / 2 - 1) as nat, |k: int| s.subrange(2 * k, 2 * k + 4))
}

/// The contents of a list of vectors.
pub open spec fn views<V>(r: Seq<Vec<V>>) -> Seq<Seq<V>> {
    r.map_values(|w: Vec<V>| w@)
}

/// The segments of a list of splines, spline after spline.
pub open spec fn all_windows<V>(splines: Seq<Seq<V>>) -> Seq<Seq<V>>
    decreases splines.len(),
{
    if splines.len() == 0 {
        Seq::empty()
    } else {
        all_windows(splines.drop_last()) + windows(splines.last())
    }
}

/// An append-only arena of splines. At most one spline is checked out at a time.
pub struct SplineStorage<V> {
    points_and_vecs: Vec<V>,
    spline_starts: Vec<usize>,
    empty_slot: Option<SplineRef>,
}

impl<V: Copy> SplineStorage<V> {
    pub closed spec fn flat(&self) -> Seq<V> {
        self.points_and_vecs@
    }

    pub closed spec fn starts(&self) -> Seq<usize> {
        self.spline_starts@
    }

    /// Number of splines stored.
    pub open spec fn count(&self) -> nat {
        self.starts().len()
    }

    /// Where spline `i` ends in the flat buffer.
    pub open spec fn end(&self, i: int) -> int {
        if i + 1 < self.count() {
            self.starts()[i + 1] as int
        } else {
            self.flat().len() as int
        }
    }

    /// The anchor/tangent sequence of every spline, in the order they were added.
    pub open spec fn splines(&self) -> Seq<Seq<V>> {
        Seq::new(self.count(), |i: int| self.flat().subrange(self.starts()[i] as int, self.end(i)))
    }

    /// The handle of the spline that is checked out, if any.
    pub closed spec fn checked_out(&self) -> Option<SplineRef> {
        self.empty_slot
    }

    /// `h` locates spline `h.list()` of this arena.
    pub open spec fn handle_valid(&self, h: SplineRef) -> bool {
        &&& h.list() < self.count()
        &&& self.starts()[h.list() as int] == h.start()
        &&& self.end(h.list() as int) == h.start() + 2 * (h.segs() + 1)
    }

    pub open spec fn wf(&self) -> bool {
        &&& self.flat().len() <= u32::MAX
        &&& self.flat().len() % 2 == 0
        &&& (self.count() == 0 <==> self.flat().len() == 0)
        &&& self.count() > 0 ==> self.starts()[0] == 0
        &&& forall|i: int|
            0 <= i < self.count() ==> #[trigger] self.starts()[i] % 2 == 0 && self.starts()[i] + 4
                <= self.end(i)
        &&& forall|i: int, j: int|
            0 <= i < j < self.count() ==> #[trigger] self.starts()[i] < #[trigger] self.starts()[j]
        &&& self.checked_out() matches Some(h) ==> self.handle_valid(h)
    }

    pub fn new() -> (r: SplineStorage<V>)
        ensures
            r.wf(),
            r.splines() == Seq::<Seq<V>>::empty(),
            r.flat().len() == 0,
            r.checked_out() is None,
    {
        let r = SplineStorage { points_and_vecs: Vec::new(), spline_starts: Vec::new(), empty_slot: None };
        assert(r.splines() =~= Seq::<Seq<V>>::empty());
        r
    }

    /// A copy of the arena with no spline checked out, for readers outside a step.
    pub fn snapshot(&self) -> (r: SplineStorage<V>)
        requires
            self.wf(),
        ensures
            r.wf(),
            r.splines() == self.splines(),
            r.flat() == self.flat(),
            r.checked_out() is None,
    {
        let mut points_and_vecs: Vec<V> = Vec::new();
        append_all(&mut points_and_vecs, &self.points_and_vecs);
        let mut spline_starts: Vec<usize> = Vec::new();
        append_all(&mut spline_starts, &self.spline_starts);
        assert(points_and_vecs@ =~= self.flat());
        assert(spline_starts@ =~= self.starts());
        let r = SplineStorage { points_and_vecs, spline_starts, empty_slot: None };
        assert(r.splines() =~= self.splines());
        r
    }

    /// Number of splines stored.
    pub fn len(&self) -> (r: usize)
        ensures
            r == self.count(),
    {
        self.spline_starts.len()
    }

    /// Appends a spline given as its anchor/tangent sequence `[A0, V0, A1, V1, ...]`
    /// with its bounding rectangle, and returns its handle.
    #[verifier::spinoff_prover]
    pub fn add_spline(&mut self, parts: Vec<V>, bounds: Rect) -> (r: SplineRef)
        requires
            old(self).wf(),
            parts@.len() >= 4,
            parts@.len() % 2 == 0,
            old(self).flat().len() + parts@.len() <= u32::MAX,
        ensures
            final(self).wf(),
            final(self).splines() == old(self).splines().push(parts@),
            final(self).flat() == old(self).flat() + parts@,
            final(self).starts() == old(self).starts().push(old(self).flat().len() as usize),
            final(self).flat().len() == old(self).flat().len() + parts@.len(),
            final(self).checked_out() == old(self).checked_out(),
            final(self).handle_valid(r),
            r.start() == old(self).flat().len(),
            r.list() == old(self).count(),
            r.segs() == parts@.len() / 2 - 1,
            r.bounds_spec() == bounds,
            forall|h: SplineRef| old(self).handle_valid(h) ==> #[trigger] final(self).handle_valid(h),
    {
        let ghost old_self = *self;
        let storage_idx = self.points_and_vecs.len();
        let list_idx = self.spline_starts.len();
        proof {
            lemma_count_below_flat(old_self);
        }
        self.spline_starts.push(storage_idx);
        let n = parts.len();
        append_all(&mut self.points_and_vecs, &parts);
        let r = SplineRef {
            storage_idx: storage_idx as u32,
            segments: (n / 2 - 1) as u32,
            list_idx: list_idx as u32,
            bounds,
        };
        proof {
            lemma_push_spline(old_self, *self, parts@);
        }
        r
    }

    /// Checks out the spline of `h`: returns a copy of its anchor/tangent sequence and
    /// marks its slot as the one being edited.
    #[verifier::spinoff_prover]
    pub fn read(&mut self, h: SplineRef) -> (r: Vec<V>)
        requires
            old(self).wf(),
            old(self).handle_valid(h),
            old(self).checked_out() is None,
        ensures
            final(self).wf(),
            r@ == old(self).splines()[h.list() as int],
            final(self).splines() == old(self).splines(),
            final(self).flat() == old(self).flat(),
            final(self).starts() == old(self).starts(),
            final(self).flat().len() == old(self).flat().len(),
            final(self).checked_out() == Some(h),
            forall|g: SplineRef| old(self).handle_valid(g) ==> #[trigger] final(self).handle_valid(g),
    {
        proof {
            lemma_end_bounded(*self, h.list() as int);
        }
        let start = h.storage_idx as usize;
        let stop = start + 2 * (h.segments as usize + 1);
        let mut r: Vec<V> = Vec::new();
        let mut k: usize = start;
        while k < stop
            invariant
                self.wf(),
                start <= k <= stop <= self.flat().len(),
                r@ == self.flat().subrange(start as int, k as int),
            decreases stop - k,
        {
            r.push(self.points_and_vecs[k]);
            k = k + 1;
            assert(r@ =~= self.flat().subrange(start as int, k as int));
        }
        self.empty_slot = Some(h);
        r
    }

    /// Whether `h` is the spline that is checked out.
    pub fn is_empty(&self, h: &SplineRef) -> (r: bool)
        ensures
            r == (self.checked_out() matches Some(s) && s.start() == h.start()),
    {
        match &self.empty_slot {
            Some(s) => s.storage_idx == h.storage_idx,
            None => false,
        }
    }

    /// Writes an edited spline back into the slot that is checked out, which it
    /// frees, and returns the slot's handle with the new bounds.
    #[verifier::spinoff_prover]
    #[verifier::rlimit(60)]
    pub fn overwrite_spline(&mut self, parts: Vec<V>, bounds: Rect) -> (r: SplineRef)
        requires
            old(self).wf(),
            old(self).checked_out() matches Some(s) && parts@.len() == 2 * (s.segs() + 1),
        ensures
            final(self).wf(),
            final(self).checked_out() is None,
            final(self).splines() == old(self).splines().update(r.list() as int, parts@),
            final(self).flat() == old(self).flat().subrange(0, r.start() as int) + parts@ + old(
                self,
            ).flat().subrange((r.start() + parts@.len()) as int, old(self).flat().len() as int),
            final(self).starts() == old(self).starts(),
            final(self).flat().len() == old(self).flat().len(),
            final(self).handle_valid(r),
            old(self).checked_out() matches Some(s) && r.start() == s.start() && r.segs()
                == s.segs() && r.list() == s.list(),
            r.bounds_spec() == bounds,
            forall|h: SplineRef| old(self).handle_valid(h) ==> #[trigger] final(self).handle_valid(h),
    {
        let ghost old_self = *self;
        let s = self.empty_slot.unwrap();
        proof {
            lemma_end_bounded(old_self, s.list() as int);
        }
        self.empty_slot = None;
        let start = s.storage_idx as usize;
        let n = parts.len();
        let mut k: usize = 0;
        while k < n
            invariant
                old_self.wf(),
                k <= n == parts@.len(),
                start + n <= old_self.flat().len(),
                start == old_self.starts()[s.list() as int],
                start + n == old_self.end(s.list() as int),
                self.spline_starts == old_self.spline_starts,
                self.empty_slot is None,
                self.points_and_vecs@.len() == old_self.flat().len(),
                forall|j: int|
                    0 <= j < self.points_and_vecs@.len() ==> #[trigger] self.points_and_vecs@[j]
                        == if start <= j < start + k {
                        parts@[j - start]
                    } else {
                        old_self.flat()[j]
                    },
            decreases n - k,
        {
            self.points_and_vecs.set(start + k, parts[k]);
            k = k + 1;
        }
        let r = SplineRef { bounds, ..s };
        proof {
            lemma_overwrite(old_self, *self, s.list() as int, parts@);
        }
        r
    }

    /// Frees the checked-out slot without writing, for a rejected edit, and returns
    /// the handle the spline was checked out with.
    pub fn revalidate_ref(&mut self, parts: Vec<V>) -> (r: SplineRef)
        requires
            old(self).wf(),
            old(self).checked_out() matches Some(s) && parts@.len() == 2 * (s.segs() + 1),
        ensures
            final(self).wf(),
            final(self).checked_out() is None,
            final(self).splines() == old(self).splines(),
            final(self).flat() == old(self).flat(),
            final(self).starts() == old(self).starts(),
            final(self).flat().len() == old(self).flat().len(),
            old(self).checked_out() == Some(r),
            final(self).handle_valid(r),
            forall|g: SplineRef| old(self).handle_valid(g) ==> #[trigger] final(self).handle_valid(g),
    {
        let s = self.empty_slot.unwrap();
        self.empty_slot = None;
        s
    }

    /// A copy of the anchor/tangent sequence of the spline of `h`.
    pub fn get_spline(&self, h: &SplineRef) -> (r: Vec<V>)
        requires
            self.wf(),
            self.handle_valid(*h),
        ensures
            r@ == self.splines()[h.list() as int],
    {
        proof {
            lemma_end_bounded(*self, h.list() as int);
        }
        self.copy_range(h.storage_idx as usize, h.storage_idx as usize + 2 * (h.segments as usize + 1))
    }

    fn copy_range(&self, start: usize, stop: usize) -> (r: Vec<V>)
        requires
            start <= stop <= self.flat().len(),
        ensures
            r@ == self.flat().subrange(start as int, stop as int),
    {
        let mut r: Vec<V> = Vec::new();
        let mut k: usize = start;
        while k < stop
            invariant
                start <= k <= stop <= self.flat().len(),
                r@ == self.flat().subrange(start as int, k as int),
            decreases stop - k,
        {
            r.push(self.points_and_vecs[k]);
            k = k + 1;
            assert(r@ =~= self.flat().subrange(start as int, k as int));
        }
        r
    }

    /// The anchor/tangent sequence of every spline, in arena order.
    #[verifier::spinoff_prover]
    pub fn all_splines(&self) -> (r: Vec<Vec<V>>)
        requires
            self.wf(),
        ensures
            r@.len() == self.count(),
            forall|i: int| 0 <= i < self.count() ==> #[trigger] r@[i]@ == self.splines()[i],
    {
        let mut r: Vec<Vec<V>> = Vec::new();
        let mut i: usize = 0;
        while i < self.spline_starts.len()
            invariant
                self.wf(),
                i <= self.count(),
                r@.len() == i,
                forall|j: int| 0 <= j < i ==> #[trigger] r@[j]@ == self.splines()[j],
            decreases self.count() - i,
        {
            proof {
                lemma_end_bounded(*self, i as int);
            }
            let stop = if i + 1 < self.spline_starts.len() {
                self.spline_starts[i + 1]
            } else {
                self.points_and_vecs.len()
            };
            r.push(self.copy_range(self.spline_starts[i], stop));
            i = i + 1;
        }
        r
    }

    /// Every segment of every spline as its window `[A_k, V_k, A_{k+1}, V_{k+1}]`,
    /// spline after spline; no window spans two splines.
    #[verifier::spinoff_prover]
    #[verifier::rlimit(60)]
    pub fn all_segments(&self) -> (r: Vec<Vec<V>>)
        requires
            self.wf(),
        ensures
            views(r@) == all_windows(self.splines()),
    {
        let mut r: Vec<Vec<V>> = Vec::new();
        let mut i: usize = 0;
        while i < self.spline_starts.len()
            invariant
                self.wf(),
                i <= self.count(),
                views(r@) == all_windows(self.splines().take(i as int)),
            decreases self.count() - i,
        {
            proof {
                lemma_spline_range(*self, i as int);
                lemma_all_windows_step(self.splines(), i as int);
            }
            let start = self.spline_starts[i];
            let stop = if i + 1 < self.spline_starts.len() {
                self.spline_starts[i + 1]
            } else {
                self.points_and_vecs.len()
            };
            self.push_windows(&mut r, start, stop);
            i = i + 1;
        }
        assert(self.splines().take(self.count() as int) =~= self.splines());
        r
    }

    #[verifier::spinoff_prover]
    fn push_windows(&self, r: &mut Vec<Vec<V>>, start: usize, stop: usize)
        requires
            start <= stop <= self.flat().len(),
            (stop - start) % 2 == 0,
            stop - start >= 4,
        ensures
            views(final(r)@) == views(old(r)@) + windows(
                self.flat().subrange(start as int, stop as int),
            ),
    {
        let ghost sp = self.flat().subrange(start as int, stop as int);
        let ghost base = views(old(r)@);
        let mut k: usize = start;
        while stop - k >= 4
            invariant
                start <= k <= stop <= self.flat().len(),
                k + 2 <= stop,
                (k - start) % 2 == 0,
                (stop - start) % 2 == 0,
                stop - start >= 4,
                sp == self.flat().subrange(start as int, stop as int),
                views(r@) == base + windows(sp).take((k - start) / 2),
            decreases stop - k,
        {
            let w = self.copy_range(k, k + 4);
            let ghost before = views(r@);
            r.push(w);
            proof {
                let kk = (k - start) / 2;
                assert(w@ =~= sp.subrange(2 * kk, 2 * kk + 4));
                assert(views(r@) =~= before.push(w@));
                assert(windows(sp).take(kk + 1) =~= windows(sp).take(kk).push(w@));
                assert(views(r@) =~= base + windows(sp).take(kk + 1));
            }
            k = k + 2;
        }
        assert(stop - k == 2);
        assert(windows(sp).take((k - start) / 2) =~= windows(sp));
    }

    /// A per-spline table holding `val` for every spline.
    pub fn new_spline_info<T: Copy>(&self, val: T) -> (r: SplineInfo<T>)
        ensures
            r@ == Seq::new(self.count(), |i: int| val),
    {
        SplineInfo { values: filled(val, self.spline_starts.len()) }
    }

    /// Number of slots of a per-segment table: one more than the segments per spline.
    pub open spec fn segment_slots(&self) -> int {
        self.flat().len() - self.count()
    }

    /// A per-segment table holding `val` in every slot.
    pub fn new_segment_info<T: Copy>(&self, val: T) -> (r: SegmentInfo<T>)
        requires
            self.wf(),
        ensures
            r@ == Seq::new(self.segment_slots() as nat, |i: int| val),
    {
        proof {
            lemma_count_below_flat(*self);
        }
        SegmentInfo { values: filled(val, self.points_and_vecs.len() - self.spline_starts.len()) }
    }
}

fn append_all<V: Copy>(dst: &mut Vec<V>, src: &Vec<V>)
    ensures
        final(dst)@ == old(dst)@ + src@,
{
    let n = src.len();
    let mut k: usize = 0;
    while k < n
        invariant
            k <= n == src@.len(),
            dst@ == old(dst)@ + src@.take(k as int),
        decreases n - k,
    {
        dst.push(src[k]);
        k = k + 1;
        assert(dst@ =~= old(dst)@ + src@.take(k as int));
    }
    assert(src@.take(n as int) =~= src@);
}

fn filled<T: Copy>(val: T, n: usize) -> (r: Vec<T>)
    ensures
        r@ == Seq::new(n as nat, |i: int| val),
{
    let mut r: Vec<T> = Vec::new();
    let mut i: usize = 0;
    while i < n
        invariant
            i <= n,
            r@ == Seq::new(i as nat, |j: int| val),
        decreases n - i,
    {
        r.push(val);
        i = i + 1;
        assert(r@ =~= Seq::new(i as nat, |j: int| val));
    }
    r
}

#[verifier::spinoff_prover]
proof fn lemma_push_spline<V: Copy>(old_st: SplineStorage<V>, st: SplineStorage<V>, parts: Seq<V>)
    requires
        old_st.wf(),
        parts.len() >= 4,
        parts.len() % 2 == 0,
        old_st.flat().len() + parts.len() <= u32::MAX,
        st.flat() == old_st.flat() + parts,
        st.starts() == old_st.starts().push(old_st.flat().len() as usize),
        st.checked_out() == old_st.checked_out(),
    ensures
        st.wf(),
        st.splines() == old_st.splines().push(parts),
        forall|h: SplineRef| old_st.handle_valid(h) ==> #[trigger] st.handle_valid(h),
{
    let c = old_st.count() as int;
    if c > 0 {
        lemma_end_bounded(old_st, c - 1);
    }
    assert forall|i: int| 0 <= i < c implies #[trigger] st.end(i) == old_st.end(i) by {}
    assert forall|i: int| 0 <= i < st.count() implies #[trigger] st.starts()[i] % 2 == 0
        && st.starts()[i] + 4 <= st.end(i) by {
        if i < c {
            assert(st.end(i) == old_st.end(i));
        }
    }
    assert forall|i: int, j: int| 0 <= i < j < st.count() implies #[trigger] st.starts()[i]
        < #[trigger] st.starts()[j] by {
        if j == c {
            lemma_end_bounded(old_st, i);
        }
    }
    assert forall|i: int| 0 <= i < c implies #[trigger] st.splines()[i] == old_st.splines()[i] by {
        lemma_end_bounded(old_st, i);
        assert(st.flat().subrange(st.starts()[i] as int, st.end(i)) =~= old_st.flat().subrange(
            old_st.starts()[i] as int,
            old_st.end(i),
        ));
    }
    assert(st.splines()[c] =~= parts);
    assert(st.splines() =~= old_st.splines().push(parts));
}

#[verifier::spinoff_prover]
proof fn lemma_spline_range<V: Copy>(st: SplineStorage<V>, i: int)
    requires
        st.wf(),
        0 <= i < st.count(),
    ensures
        st.starts()[i] % 2 == 0,
        (st.end(i) - st.starts()[i]) % 2 == 0,
        st.end(i) - st.starts()[i] >= 4,
        st.end(i) <= st.flat().len(),
        st.splines()[i] == st.flat().subrange(st.starts()[i] as int, st.end(i)),
{
    lemma_end_bounded(st, i);
    if i + 1 < st.count() {
        assert(st.starts()[i + 1] % 2 == 0 && st.starts()[i + 1] + 4 <= st.end(i + 1));
    }
}

proof fn lemma_all_windows_step<V>(splines: Seq<Seq<V>>, i: int)
    requires
        0 <= i < splines.len(),
    ensures
        all_windows(splines.take(i + 1)) == all_windows(splines.take(i)) + windows(splines[i]),
{
    let t = splines.take(i + 1);
    assert(t.drop_last() =~= splines.take(i));
    assert(t.last() == splines[i]);
}

/// Adding a spline, checking it out and writing back an edit leaves the edit in
/// the new spline's place: every other spline, and the count, stay as they were.
pub proof fn lemma_add_read_overwrite<V: Copy>(
    s0: SplineStorage<V>,
    s1: SplineStorage<V>,
    s2: SplineStorage<V>,
    s3: SplineStorage<V>,
    added: Seq<V>,
    edited: Seq<V>,
    h: SplineRef,
    h2: SplineRef,
)
    requires
        s0.wf(),
        s1.splines() == s0.splines().push(added),
        h.list() == s0.count(),
        s2.splines() == s1.splines(),
        s2.checked_out() == Some(h),
        s3.splines() == s2.splines().update(h2.list() as int, edited),
        h2.list() == h.list(),
    ensures
        s3.splines().len() == s0.count() + 1,
        s3.splines()[h.list() as int] == edited,
        forall|i: int| 0 <= i < s0.count() ==> #[trigger] s3.splines()[i] == s0.splines()[i],
{
}

#[verifier::spinoff_prover]
proof fn lemma_overwrite<V: Copy>(old_st: SplineStorage<V>, st: SplineStorage<V>, li: int, parts: Seq<V>)
    requires
        old_st.wf(),
        0 <= li < old_st.count(),
        st.starts() == old_st.starts(),
        st.checked_out() is None,
        st.flat().len() == old_st.flat().len(),
        old_st.starts()[li] + parts.len() == old_st.end(li),
        forall|j: int|
            0 <= j < st.flat().len() ==> #[trigger] st.flat()[j] == if old_st.starts()[li] <= j
                < old_st.starts()[li] + parts.len() {
                parts[j - old_st.starts()[li]]
            } else {
                old_st.flat()[j]
            },
    ensures
        st.wf(),
        st.splines() == old_st.splines().update(li, parts),
        st.flat() == old_st.flat().subrange(0, old_st.starts()[li] as int) + parts
            + old_st.flat().subrange(old_st.starts()[li] + parts.len(), old_st.flat().len() as int),
        forall|h: SplineRef| old_st.handle_valid(h) ==> #[trigger] st.handle_valid(h),
{
    let start = old_st.starts()[li] as int;
    lemma_end_bounded(old_st, li);
    assert forall|i: int| 0 <= i < st.count() implies #[trigger] st.splines()[i]
        == old_st.splines().update(li, parts)[i] by {
        lemma_end_bounded(old_st, i);
        if i == li {
            assert(st.splines()[i] =~= parts);
        } else {
            lemma_disjoint(old_st, i, li);
            assert(st.splines()[i] =~= old_st.splines()[i]);
        }
    }
    assert(st.splines() =~= old_st.splines().update(li, parts));
    assert(st.flat() =~= old_st.flat().subrange(0, start) + parts + old_st.flat().subrange(
        start + parts.len(),
        old_st.flat().len() as int,
    ));
}

#[verifier::spinoff_prover]
proof fn lemma_end_bounded<V: Copy>(st: SplineStorage<V>, i: int)
    requires
        st.wf(),
        0 <= i < st.count(),
    ensures
        st.starts()[i] + 4 <= st.end(i) <= st.flat().len(),
    decreases st.count() - i,
{
    assert(st.starts()[i] % 2 == 0 && st.starts()[i] + 4 <= st.end(i));
    if i + 1 < st.count() {
        lemma_end_bounded(st, i + 1);
    }
}

proof fn lemma_disjoint<V: Copy>(st: SplineStorage<V>, i: int, j: int)
    requires
        st.wf(),
        0 <= i < st.count(),
        0 <= j < st.count(),
        i != j,
    ensures
        st.end(i) <= st.starts()[j] || st.end(j) <= st.starts()[i],
{
    if i < j {
        if i + 1 < j {
            assert(st.starts()[i + 1] < st.starts()[j]);
        }
    } else {
        if j + 1 < i {
            assert(st.starts()[j + 1] < st.starts()[i]);
        }
    }
}

#[verifier::spinoff_prover]
pub(crate) proof fn lemma_count_below_flat<V: Copy>(st: SplineStorage<V>)
    requires
        st.wf(),
    ensures
        st.count() <= st.flat().len(),
{
    if st.count() > 0 {
        let n = st.count() as int;
        assert forall|i: int| 0 <= i < n implies #[trigger] st.starts()[i] >= 4 * i by {
            lemma_starts_grow(st, i);
        }
        lemma_end_bounded(st, n - 1);
    }
}

proof fn lemma_starts_grow<V: Copy>(st: SplineStorage<V>, i: int)
    requires
        st.wf(),
        0 <= i < st.count(),
    ensures
        st.starts()[i] >= 4 * i,
    decreases i,
{
    if i > 0 {
        lemma_starts_grow(st, i - 1);
        assert(st.starts()[i - 1] + 4 <= st.end(i - 1));
    }
}

/// Data kept for each spline, addressed by handle.
pub struct SplineInfo<T> {
    values: Vec<T>,
}

impl<T> View for SplineInfo<T> {
    type V = Seq<T>;

    closed spec fn view(&self) -> Seq<T> {
        self.values@
    }
}

impl<T> SplineInfo<T> {
    pub fn len(&self) -> (r: usize)
        ensures
            r == self@.len(),
    {
        self.values.len()
    }

    /// The entry of the spline of `h`.
    pub fn get(&self, h: &SplineRef) -> (r: &T)
        requires
            h.list() < self@.len(),
        ensures
            *r == self@[h.list() as int],
    {
        &self.values[h.list_idx as usize]
    }

    /// Replaces the entry of the spline of `h`.
    pub fn set(&mut self, h: &SplineRef, val: T)
        requires
            h.list() < old(self)@.len(),
        ensures
            final(self)@ == old(self)@.update(h.list() as int, val),
    {
        self.values.set(h.list_idx as usize, val);
    }

    /// The entries in spline order.
    pub fn iter(&self) -> (r: std::slice::Iter<'_, T>)
        ensures
            IteratorSpec::remaining(&r) == self@.as_ref(),
    {
        let s = self.values.as_slice();
        proof {
            vstd::std_specs::slice::axiom_spec_slice_iter(s);
        }
        s.iter()
    }

    /// The entries in spline order, for editing in place; the table keeps its
    /// length.
    pub fn iter_mut(&mut self) -> (r: &mut [T])
        ensures
            r@ == old(self)@,
            final(self)@ == final(r)@,
    {
        self.values.as_mut_slice()
    }
}

/// Data kept for each segment: the spline of handle `h` owns the `h.segs()` slots
/// from `h.segment_slot()` on.
pub struct SegmentInfo<T> {
    values: Vec<T>,
}

impl<T> View for SegmentInfo<T> {
    type V = Seq<T>;

    closed spec fn view(&self) -> Seq<T> {
        self.values@
    }
}

impl<T> SegmentInfo<T> {
    pub fn len(&self) -> (r: usize)
        ensures
            r == self@.len(),
    {
        self.values.len()
    }

    /// The entry of segment `k` of the spline of `h`.
    pub fn get(&self, h: &SplineRef, k: u32) -> (r: &T)
        requires
            h.list() <= h.start(),
            k < h.segs(),
            h.segment_slot() + k < self@.len(),
        ensures
            *r == self@[h.segment_slot() + k],
    {
        // the table's length bounds the index computed below
        let _len = self.values.len();
        let slot = (h.storage_idx - h.list_idx) as usize;
        &self.values[slot + k as usize]
    }

    /// Replaces the entry of segment `k` of the spline of `h`.
    pub fn set(&mut self, h: &SplineRef, k: u32, val: T)
        requires
            h.list() <= h.start(),
            k < h.segs(),
            h.segment_slot() + k < old(self)@.len(),
        ensures
            final(self)@ == old(self)@.update(h.segment_slot() + k, val),
    {
        // the table's length bounds the index computed below
        let _len = self.values.len();
        let slot = (h.storage_idx - h.list_idx) as usize;
        self.values.set(slot + k as usize, val);
    }
}

} // verus!
