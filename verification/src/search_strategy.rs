//! The recursive best-first search over the sample series.
//!
//! The search seeds its result collector with the two path anchors, then
//! repeatedly expands the geometrically most promising pending segment via a
//! work queue: each popped candidate is scored against the recipient's
//! transmission history, possibly collected, and its segment split in two
//! around it for further exploration. An optional threshold ratio stops the
//! search early once pending work is geometrically unpromising.

use vstd::prelude::*;
use vstd::slice::slice_index_get;

use crate::coordinate::norm_sq_spec;
use crate::coordinate::Coordinate;
use crate::coordinate::SCALE;
use crate::geometric_novelty::displacement_spec;
use crate::geometric_novelty::max_entry_index;
use crate::geometric_novelty::max_entry_upto;
use crate::geometric_novelty::segment_coordinates_valid;
use crate::geometric_novelty::GeometricNovelty;
use crate::geometric_novelty::HeapEntry;
use crate::geometric_novelty::MaxHeap;
use crate::math::sqrt_floor;
use crate::novelty::Novelty;
use crate::positions::distinct_ids;
use crate::positions::Datum;
use crate::segment::Segment;
use crate::transmission_history::TransmissionHistory;
use crate::NodeId;

verus! {

/// An exact ratio, used as the optional early-stop threshold of [`Search`].
#[derive(Clone, Copy, Debug, PartialEq, Eq, Structural, Hash)]
pub struct Ratio {
    /// Numerator of the ratio.
    pub num: u64,
    /// Denominator of the ratio; a ratio only means anything when this is
    /// not zero.
    pub den: u64,
}

/// What the shared raw importance of the two path anchors is: the
/// fixed-point length of the chord between them.
pub open spec fn chord_novelty_spec(start: Coordinate, end: Coordinate) -> nat {
    sqrt_floor((norm_sq_spec(displacement_spec(end, start)) * SCALE * SCALE) as nat)
}

/// The raw geometric importance assigned to the two anchors of the whole
/// path: the chord length between them, shared by both. Each anchor's final
/// novelty still differs through its own transmission probability.
fn start_and_end_point_novelty(start: &Datum, end: &Datum) -> (r: (u64, u64))
    requires
        start.coordinate.valid(),
        end.coordinate.valid(),
    ensures
        r.0 as nat == chord_novelty_spec(start.coordinate, end.coordinate),
        r.1 == r.0,
{
    let distance = start.coordinate.minus(&end.coordinate).magnitude();
    (distance, distance)
}

/// No two collected entries stand for the same sample.
pub open spec fn distinct_result_ids(items: Seq<(Novelty, Datum)>) -> bool {
    forall|k1: int, k2: int|
        #![trigger items[k1], items[k2]]
        0 <= k1 < k2 < items.len() ==> items[k1].1.id != items[k2].1.id
}

/// Entries are strictly descending in the novelty order.
pub open spec fn items_sorted(items: Seq<(Novelty, Datum)>) -> bool {
    forall|i: int, j: int|
        #![trigger items[i], items[j]]
        0 <= i < j < items.len() ==> Novelty::lt_spec(items[j].0, items[i].0)
}

/// Where a novelty ranks within a collection sorted most-novel-first: the
/// number of entries that rank strictly above it.
pub open spec fn insert_pos(items: Seq<(Novelty, Datum)>, novelty: Novelty) -> int
    decreases items.len(),
{
    if items.len() == 0 {
        0
    } else if Novelty::lt_spec(novelty, items[0].0) {
        1 + insert_pos(items.drop_first(), novelty)
    } else {
        0
    }
}

/// What collecting one sample does: an exactly tying entry of the same
/// identity is replaced; otherwise the pair is ranked in and, above
/// capacity, the least novel entry is evicted.
pub open spec fn insert_spec(
    items: Seq<(Novelty, Datum)>,
    novelty: Novelty,
    datum: Datum,
    n_max: int,
) -> Seq<(Novelty, Datum)> {
    let p = insert_pos(items, novelty);
    if p < items.len() && Novelty::ranks_with(items[p].0, novelty) {
        items.update(p, (novelty, datum))
    } else {
        let grown = items.insert(p, (novelty, datum));
        if grown.len() > n_max {
            grown.drop_last()
        } else {
            grown
        }
    }
}

/// A position with everything before it ranking strictly above the novelty,
/// and the entry at it (if any) not ranking above, is where the novelty
/// ranks.
proof fn lemma_insert_pos_from_prefix(items: Seq<(Novelty, Datum)>, novelty: Novelty, p: int)
    requires
        0 <= p <= items.len(),
        forall|k: int| 0 <= k < p ==> Novelty::lt_spec(novelty, (#[trigger] items[k]).0),
        p == items.len() || !Novelty::lt_spec(novelty, items[p].0),
    ensures
        insert_pos(items, novelty) == p,
    decreases p,
{
    if p > 0 {
        assert(Novelty::lt_spec(novelty, items[0].0));
        assert(forall|k: int|
            0 <= k < items.len() - 1 ==> #[trigger] items.drop_first()[k] == items[k + 1]);
        lemma_insert_pos_from_prefix(items.drop_first(), novelty, p - 1);
    }
}

/// A bounded collector of the most novel samples seen so far, most novel
/// first, strictly ordered, evicting the least novel entry on overflow.
struct Results {
    n_max: usize,
    items: Vec<(Novelty, Datum)>,
}

impl Results {
    /// The collector never exceeds its capacity, stays strictly descending
    /// in the novelty order, and keys every entry by its sample's identity.
    spec fn wf(self) -> bool {
        &&& self.items@.len() <= self.n_max
        &&& items_sorted(self.items@)
        &&& forall|k: int|
            0 <= k < self.items@.len() ==> (#[trigger] self.items@[k]).0.id
                == self.items@[k].1.id
    }

    /// Creates an empty collector that will keep at most `n_max` samples.
    fn new(n_max: usize) -> (r: Self)
        ensures
            r.wf(),
            r.items@.len() == 0,
            r.n_max == n_max,
    {
        Self { n_max, items: Vec::new() }
    }

    /// The novelty of the least novel collected sample, if any.
    fn min_novelty(&self) -> (r: Option<Novelty>)
        ensures
            r is Some <==> self.items@.len() > 0,
            (r matches Some(k) ==> k == self.items@.last().0),
    {
        let n = self.items.len();
        if n == 0 {
            None
        } else {
            Some(self.items[n - 1].0)
        }
    }

    /// Collects a sample with its novelty, keeping the `n_max` most novel.
    ///
    /// A sample that ties exactly with a collected entry of the same
    /// identity replaces it. Otherwise the sample is ranked in; when the
    /// collector is over capacity the least novel entry is evicted, so an
    /// insertion below a full collector's minimum is a no-op.
    fn insert(&mut self, datum: Datum, novelty: Novelty)
        requires
            old(self).wf(),
            novelty.id == datum.id,
            forall|k: int|
                0 <= k < old(self).items@.len() && (#[trigger] old(self).items@[k]).1.id
                    == datum.id ==> Novelty::ranks_with(old(self).items@[k].0, novelty),
        ensures
            final(self).wf(),
            final(self).n_max == old(self).n_max,
            forall|k: int|
                0 <= k < final(self).items@.len() ==> old(self).items@.contains(
                    #[trigger] final(self).items@[k],
                ) || final(self).items@[k] == (novelty, datum),
            old(self).items@.len() < old(self).n_max ==> final(self).items@.contains(
                (novelty, datum),
            ),
            distinct_result_ids(old(self).items@) ==> distinct_result_ids(final(self).items@),
            final(self).items@ == insert_spec(
                old(self).items@,
                novelty,
                datum,
                old(self).n_max as int,
            ),
    {
        let n = self.items.len();
        let mut p: usize = 0;
        loop
            invariant
                self == old(self),
                n == self.items@.len(),
                0 <= p <= n,
                forall|k: int|
                    0 <= k < p ==> Novelty::lt_spec(novelty, (#[trigger] self.items@[k]).0),
            ensures
                self == old(self),
                0 <= p <= n,
                forall|k: int|
                    0 <= k < p ==> Novelty::lt_spec(novelty, (#[trigger] self.items@[k]).0),
                p == n || !Novelty::lt_spec(novelty, self.items@[p as int].0),
            decreases n - p,
        {
            if p == n {
                break;
            }
            if !novelty.lt(&self.items[p].0) {
                break;
            }
            p = p + 1;
        }
        proof {
            lemma_insert_pos_from_prefix(self.items@, novelty, p as int);
        }
        let tie = p < n && self.items[p].0.ties_with(&novelty);
        if tie {
            proof {
                old(self).items@.remove_ensures(p as int);
                old(self).items@.remove(p as int).insert_ensures(p as int, (novelty, datum));
            }
            self.items.remove(p);
            self.items.insert(p, (novelty, datum));
            proof {
                lemma_replace_keeps_sorted(old(self).items@, self.items@, p as int, novelty);
                assert forall|k: int| 0 <= k < self.items@.len() implies old(self).items@.contains(
                    #[trigger] self.items@[k],
                ) || self.items@[k] == (novelty, datum) by {
                    if k != p {
                        assert(self.items@[k] == old(self).items@[k]);
                        assert(old(self).items@.contains(old(self).items@[k]));
                    }
                }
                assert(self.items@[p as int] == (novelty, datum));
                assert(self.items@.contains(self.items@[p as int]));
                assert(self.items@ =~= old(self).items@.update(p as int, (novelty, datum)));
                assert(old(self).items@[p as int].1.id == datum.id);
                assert forall|k1: int, k2: int|
                    #![trigger self.items@[k1], self.items@[k2]]
                    distinct_result_ids(old(self).items@) && 0 <= k1 < k2 < self.items@.len()
                    implies self.items@[k1].1.id != self.items@[k2].1.id by {
                    assert(self.items@[k1].1.id == old(self).items@[k1].1.id);
                    assert(self.items@[k2].1.id == old(self).items@[k2].1.id);
                }
            }
        } else {
            proof {
                assert forall|k: int| p <= k < n implies Novelty::lt_spec(
                    (#[trigger] self.items@[k]).0,
                    novelty,
                ) by {
                    crate::novelty::lemma_novelty_order_total(self.items@[p as int].0, novelty);
                    if k > p {
                        assert(Novelty::lt_spec(self.items@[k].0, self.items@[p as int].0));
                        crate::novelty::lemma_novelty_order_trans(
                            self.items@[k].0,
                            self.items@[p as int].0,
                            novelty,
                        );
                    }
                }
                old(self).items@.insert_ensures(p as int, (novelty, datum));
                assert forall|k: int| 0 <= k < n implies (#[trigger] old(self).items@[k]).1.id
                    != datum.id by {
                    if old(self).items@[k].1.id == datum.id {
                        crate::novelty::lemma_novelty_order_total(
                            old(self).items@[k].0,
                            novelty,
                        );
                        if k > p {
                            crate::novelty::lemma_novelty_order_total(
                                old(self).items@[p as int].0,
                                novelty,
                            );
                            crate::novelty::lemma_novelty_order_trans(
                                old(self).items@[k].0,
                                old(self).items@[p as int].0,
                                novelty,
                            );
                        }
                    }
                }
            }
            self.items.insert(p, (novelty, datum));
            let ghost grown = self.items@;
            proof {
                assert(items_sorted(grown));
                assert forall|k: int| 0 <= k < grown.len() implies old(self).items@.contains(
                    #[trigger] grown[k],
                ) || grown[k] == (novelty, datum) by {
                    if k < p {
                        assert(grown[k] == old(self).items@[k]);
                        assert(old(self).items@.contains(old(self).items@[k]));
                    } else if k > p {
                        assert(grown[k] == old(self).items@[k - 1]);
                        assert(old(self).items@.contains(old(self).items@[k - 1]));
                    }
                }
            }
            proof {
                assert forall|k1: int, k2: int|
                    #![trigger grown[k1], grown[k2]]
                    distinct_result_ids(old(self).items@) && 0 <= k1 < k2 < grown.len()
                    implies grown[k1].1.id != grown[k2].1.id by {
                    let pi = p as int;
                    if k1 < pi && k2 < pi {
                    } else if k1 > pi && k2 > pi {
                        assert(grown[k1] == old(self).items@[k1 - 1]);
                        assert(grown[k2] == old(self).items@[k2 - 1]);
                    } else if k1 < pi && k2 > pi {
                        assert(grown[k1] == old(self).items@[k1]);
                        assert(grown[k2] == old(self).items@[k2 - 1]);
                    } else if k1 == pi {
                        assert(grown[k2] == old(self).items@[k2 - 1]);
                    } else if k2 == pi {
                        assert(grown[k1] == old(self).items@[k1]);
                    }
                }
            }
            if self.items.len() > self.n_max {
                let _ = self.items.pop();
                proof {
                    assert forall|k: int| 0 <= k < self.items@.len() implies #[trigger] self
                        .items@[k] == grown[k] by {}
                    assert(self.items@.len() == grown.len() - 1);
                    assert(self.items@ =~= grown.drop_last());
                    if old(self).items@.len() < old(self).n_max {
                        assert(p < grown.len() - 1);
                        assert(self.items@[p as int] == (novelty, datum));
                        assert(self.items@.contains(self.items@[p as int]));
                    }
                }
            } else {
                proof {
                    assert(self.items@[p as int] == (novelty, datum));
                    assert(self.items@.contains(self.items@[p as int]));
                }
            }
        }
    }

    /// Hands out the collected samples, most novel first.
    fn into_vec(self) -> (r: Vec<Datum>)
        ensures
            r@.len() == self.items@.len(),
            forall|k: int| 0 <= k < r@.len() ==> #[trigger] r@[k] == self.items@[k].1,
    {
        let n = self.items.len();
        let mut out: Vec<Datum> = Vec::new();
        let mut i: usize = 0;
        while i < n
            invariant
                n == self.items@.len(),
                0 <= i <= n,
                out@.len() == i,
                forall|k: int| 0 <= k < i ==> #[trigger] out@[k] == self.items@[k].1,
            decreases n - i,
        {
            out.push(self.items[i].1);
            i = i + 1;
        }
        out
    }
}

/// Replacing an entry with one that ranks identically keeps the collection
/// strictly sorted.
proof fn lemma_replace_keeps_sorted(
    before: Seq<(Novelty, Datum)>,
    after: Seq<(Novelty, Datum)>,
    p: int,
    novelty: Novelty,
)
    requires
        items_sorted(before),
        0 <= p < before.len(),
        after.len() == before.len(),
        Novelty::ranks_with(before[p].0, novelty),
        after[p].0 == novelty,
        forall|k: int| 0 <= k < before.len() && k != p ==> #[trigger] after[k] == before[k],
    ensures
        items_sorted(after),
{
    assert forall|i: int, j: int|
        #![trigger after[i], after[j]]
        0 <= i < j < after.len() implies Novelty::lt_spec(after[j].0, after[i].0) by {
        assert(Novelty::lt_spec(before[j].0, before[i].0));
    }
}


/// How much pending work one queued entry stands for: the number of interior
/// samples its segment still covers.
pub open spec fn entry_measure(e: HeapEntry) -> nat {
    if e.segment@.len() >= 2 {
        (e.segment@.len() - 2) as nat
    } else {
        0
    }
}

/// How much pending work the whole queue stands for.
pub open spec fn heap_measure(h: Seq<HeapEntry>) -> nat
    decreases h.len(),
{
    if h.len() == 0 {
        0
    } else {
        entry_measure(h[0]) + heap_measure(h.drop_first())
    }
}

proof fn lemma_heap_measure_push(h: Seq<HeapEntry>, e: HeapEntry)
    ensures
        heap_measure(h.push(e)) == heap_measure(h) + entry_measure(e),
    decreases h.len(),
{
    if h.len() == 0 {
        assert(h.push(e).drop_first() =~= Seq::<HeapEntry>::empty());
        assert(h.push(e)[0] == e);
        assert(heap_measure(h) == 0);
        assert(heap_measure(h.push(e).drop_first()) == 0);
        assert(heap_measure(h.push(e)) == entry_measure(h.push(e)[0]) + heap_measure(
            h.push(e).drop_first(),
        ));
        assert(heap_measure(h.push(e)) == entry_measure(e));
    } else {
        assert(h.push(e).drop_first() =~= h.drop_first().push(e));
        lemma_heap_measure_push(h.drop_first(), e);
        assert(h.push(e)[0] == h[0]);
        assert(heap_measure(h.push(e)) == entry_measure(h.push(e)[0]) + heap_measure(
            h.push(e).drop_first(),
        ));
        assert(heap_measure(h) == entry_measure(h[0]) + heap_measure(h.drop_first()));
    }
}

proof fn lemma_heap_measure_remove(h: Seq<HeapEntry>, i: int)
    requires
        0 <= i < h.len(),
    ensures
        heap_measure(h.remove(i)) + entry_measure(h[i]) == heap_measure(h),
    decreases i,
{
    if i == 0 {
        assert(h.remove(0) =~= h.drop_first());
    } else {
        assert(h.remove(i).drop_first() =~= h.drop_first().remove(i - 1));
        lemma_heap_measure_remove(h.drop_first(), i - 1);
        assert(h.remove(i)[0] == h[0]);
        assert(h.drop_first()[i - 1] == h[i]);
    }
}

/// A queued entry is a faithful unit of work over the series `data`: it
/// covers at least three samples of the series, all with sound coordinates
/// and pairwise distinct identities, and its candidate really is the interior
/// sample at its recorded position.
pub open spec fn entry_wf(e: HeapEntry, data: Seq<Datum>) -> bool {
    &&& e.segment@.len() >= 3
    &&& 1 <= e.index < e.segment@.len() - 1
    &&& e.datum == e.segment@[e.index as int]
    &&& forall|k: int| 0 <= k < e.segment@.len() ==> data.contains(#[trigger] e.segment@[k])
    &&& segment_coordinates_valid(e.segment@)
    &&& distinct_ids(e.segment@)
}

/// The sample with identity `id` is an interior sample of the entry's
/// segment, still eligible to be scored and collected.
pub open spec fn in_interior(e: HeapEntry, id: u64) -> bool {
    exists|k: int| 1 <= k < e.segment@.len() - 1 && (#[trigger] e.segment@[k]).id == id
}

/// Every queued entry is faithful to the series and no sample is an interior
/// candidate of two entries at once, so no sample can be collected twice.
pub open spec fn heap_wf(h: Seq<HeapEntry>, data: Seq<Datum>) -> bool {
    &&& forall|i: int| 0 <= i < h.len() ==> entry_wf(#[trigger] h[i], data)
    &&& forall|i: int, j: int, id: u64|
        #![trigger in_interior(h[i], id), in_interior(h[j], id)]
        0 <= i < h.len() && 0 <= j < h.len() && i != j ==> !(in_interior(h[i], id)
            && in_interior(h[j], id))
}

/// No already-collected sample is still an interior candidate of any queued
/// entry.
pub open spec fn separated(h: Seq<HeapEntry>, items: Seq<(Novelty, Datum)>) -> bool {
    forall|i: int, k: int|
        #![trigger in_interior(h[i], items[k].1.id)]
        0 <= i < h.len() && 0 <= k < items.len() ==> !in_interior(h[i], items[k].1.id)
}

/// An ordered list of samples together with the strictly descending novelty
/// ranking that justifies the order.
pub open spec fn novelty_ordered(keys: Seq<Novelty>, out: Seq<Datum>) -> bool {
    &&& keys.len() == out.len()
    &&& forall|k: int| 0 <= k < out.len() ==> (#[trigger] keys[k]).id == out[k].id
    &&& forall|i: int, j: int|
        #![trigger keys[i], keys[j]]
        0 <= i < j < keys.len() ==> Novelty::lt_spec(keys[j], keys[i])
}


/// One unit of pending search work, abstracted to plain values: the run the
/// segment spans, its chosen candidate, the candidate's importance, and the
/// candidate's position within the run.
pub type SegmentTask = (Seq<Datum>, Datum, u64, usize);

/// The abstract form of a queued entry.
pub open spec fn abs_entry(e: HeapEntry) -> SegmentTask {
    (e.segment@, e.datum, e.distance, e.index)
}

/// The abstract form of the whole work queue.
pub open spec fn abs_heap(h: Seq<HeapEntry>) -> Seq<SegmentTask> {
    h.map_values(|e: HeapEntry| abs_entry(e))
}

/// A task over a run long enough to split, with its candidate strictly in
/// the interior.
pub open spec fn task_wf(t: SegmentTask) -> bool {
    t.0.len() >= 3 && 1 <= t.3 < t.0.len() - 1
}

/// Every pending task can be split further.
pub open spec fn tasks_wf(q: Seq<SegmentTask>) -> bool {
    forall|i: int| 0 <= i < q.len() ==> task_wf(#[trigger] q[i])
}

/// How much pending work one task stands for.
pub open spec fn task_measure(t: SegmentTask) -> nat {
    if t.0.len() >= 2 {
        (t.0.len() - 2) as nat
    } else {
        0
    }
}

/// How much pending work a queue of tasks stands for.
pub open spec fn tasks_measure(q: Seq<SegmentTask>) -> nat
    decreases q.len(),
{
    if q.len() == 0 {
        0
    } else {
        task_measure(q[0]) + tasks_measure(q.drop_first())
    }
}

proof fn lemma_tasks_measure_concat(a: Seq<SegmentTask>, b: Seq<SegmentTask>)
    ensures
        tasks_measure(a + b) == tasks_measure(a) + tasks_measure(b),
    decreases a.len(),
{
    if a.len() == 0 {
        assert(a + b =~= b);
    } else {
        assert((a + b).drop_first() =~= a.drop_first() + b);
        lemma_tasks_measure_concat(a.drop_first(), b);
        assert((a + b)[0] == a[0]);
    }
}

proof fn lemma_tasks_measure_remove(q: Seq<SegmentTask>, i: int)
    requires
        0 <= i < q.len(),
    ensures
        tasks_measure(q.remove(i)) + task_measure(q[i]) == tasks_measure(q),
    decreases i,
{
    if i == 0 {
        assert(q.remove(0) =~= q.drop_first());
    } else {
        assert(q.remove(i).drop_first() =~= q.drop_first().remove(i - 1));
        lemma_tasks_measure_remove(q.drop_first(), i - 1);
        assert(q.remove(i)[0] == q[0]);
        assert(q.drop_first()[i - 1] == q[i]);
    }
}

/// A well-formed queue of pending tasks stands for at least one unit of
/// work per task.
proof fn lemma_tasks_measure_positive(q: Seq<SegmentTask>)
    requires
        tasks_wf(q),
        q.len() > 0,
    ensures
        tasks_measure(q) >= 1,
{
    assert(task_wf(q[0]));
}

/// The position, among the first `k` tasks, of the task with the greatest
/// distance; the earliest such task when the maximum is not unique.
pub open spec fn task_max_upto(q: Seq<SegmentTask>, k: int) -> int
    decreases k,
{
    if k <= 1 {
        0
    } else {
        let p = task_max_upto(q, k - 1);
        if q[k - 1].2 > q[p].2 {
            k - 1
        } else {
            p
        }
    }
}

/// The position of the task a search expands next: the earliest pending
/// task of greatest distance.
pub open spec fn task_max_index(q: Seq<SegmentTask>) -> int {
    task_max_upto(q, q.len() as int)
}

proof fn lemma_task_max_bounds(q: Seq<SegmentTask>, k: int)
    requires
        1 <= k <= q.len(),
    ensures
        0 <= task_max_upto(q, k) < k,
    decreases k,
{
    if k > 1 {
        lemma_task_max_bounds(q, k - 1);
    }
}

/// The abstract queue selects the same task as the concrete one.
proof fn lemma_task_max_abs(h: Seq<HeapEntry>, k: int)
    requires
        0 <= k <= h.len(),
    ensures
        task_max_upto(abs_heap(h), k) == max_entry_upto(h, k),
    decreases k,
{
    if k > 1 {
        lemma_task_max_abs(h, k - 1);
        let p = max_entry_upto(h, k - 1);
        crate::geometric_novelty::lemma_max_entry_upto_props(h, k - 1);
        assert(abs_heap(h)[k - 1] == abs_entry(h[k - 1]));
        assert(abs_heap(h)[p] == abs_entry(h[p]));
    }
}

/// The two halves a split task queues for further exploration, each with
/// its own most novel interior candidate; a half too short to have an
/// interior candidate in range queues nothing.
pub open spec fn children_of<S: GeometricNovelty>(
    strategy: S,
    seg: Seq<Datum>,
    index: int,
) -> Seq<SegmentTask> {
    let left_seg = seg.subrange(0, index + 1);
    let right_seg = seg.subrange(index, seg.len() as int);
    let left = match strategy.most_novel_spec(left_seg) {
        Some(f) => if 1 <= f.2 < left_seg.len() - 1 {
            seq![(left_seg, f.0, f.1, f.2)]
        } else {
            Seq::<SegmentTask>::empty()
        },
        None => Seq::<SegmentTask>::empty(),
    };
    let right = match strategy.most_novel_spec(right_seg) {
        Some(f) => if 1 <= f.2 < right_seg.len() - 1 {
            seq![(right_seg, f.0, f.1, f.2)]
        } else {
            Seq::<SegmentTask>::empty()
        },
        None => Seq::<SegmentTask>::empty(),
    };
    left + right
}

/// Splitting strictly shrinks the pending work: the two halves together
/// stand for less work than the split task, and both are well formed.
proof fn lemma_children_of<S: GeometricNovelty>(strategy: S, seg: Seq<Datum>, index: int)
    requires
        seg.len() >= 3,
        1 <= index < seg.len() - 1,
    ensures
        tasks_measure(children_of(strategy, seg, index)) < (seg.len() - 2) as nat,
        tasks_wf(children_of(strategy, seg, index)),
{
    let left_seg = seg.subrange(0, index + 1);
    let right_seg = seg.subrange(index, seg.len() as int);
    let c = children_of(strategy, seg, index);
    let left = match strategy.most_novel_spec(left_seg) {
        Some(f) => if 1 <= f.2 < left_seg.len() - 1 {
            seq![(left_seg, f.0, f.1, f.2)]
        } else {
            Seq::<SegmentTask>::empty()
        },
        None => Seq::<SegmentTask>::empty(),
    };
    let right = match strategy.most_novel_spec(right_seg) {
        Some(f) => if 1 <= f.2 < right_seg.len() - 1 {
            seq![(right_seg, f.0, f.1, f.2)]
        } else {
            Seq::<SegmentTask>::empty()
        },
        None => Seq::<SegmentTask>::empty(),
    };
    lemma_tasks_measure_concat(left, right);
    reveal_with_fuel(tasks_measure, 2);
    if left.len() > 0 {
        assert(left.drop_first() =~= Seq::<SegmentTask>::empty());
        assert(tasks_measure(left) == task_measure(left[0]));
    }
    if right.len() > 0 {
        assert(right.drop_first() =~= Seq::<SegmentTask>::empty());
        assert(tasks_measure(right) == task_measure(right[0]));
    }
    assert forall|i: int| 0 <= i < c.len() implies task_wf(#[trigger] c[i]) by {
        if i < left.len() {
            assert(c[i] == left[i]);
        } else {
            assert(c[i] == right[i - left.len()]);
        }
    }
}

/// One expansion step of the search, in the logic: pop the most promising
/// pending task, weigh its candidate, stop early or collect it, and queue
/// the two halves. The result is the final collection, most novel first.
pub open spec fn run_search<S: GeometricNovelty>(
    strategy: S,
    threshold: Option<Ratio>,
    history: TransmissionHistory,
    recipient: NodeId,
    n_max: int,
    queue: Seq<SegmentTask>,
    items: Seq<(Novelty, Datum)>,
    fuel: nat,
) -> Seq<(Novelty, Datum)>
    decreases fuel,
{
    if queue.len() == 0 || fuel == 0 {
        items
    } else {
        let at = task_max_index(queue);
        let e = queue[at];
        let rest = queue.remove(at);
        let p = history.probability_spec(recipient, e.1.id).complement_spec();
        let novelty = Novelty { distance: e.2, probability_not_transmitted: p, id: e.1.id };
        let stop = match threshold {
            Some(t) => items.len() > 0 && Novelty::lt_spec(novelty, items.last().0) && e.2
                * t.den < t.num * items.last().0.distance,
            None => false,
        };
        if stop {
            items
        } else {
            let collected = if p.value > 0 {
                insert_spec(items, novelty, e.1, n_max)
            } else {
                items
            };
            run_search(
                strategy,
                threshold,
                history,
                recipient,
                n_max,
                rest + children_of(strategy, e.0, e.3 as int),
                collected,
                (fuel - 1) as nat,
            )
        }
    }
}

/// Any fuel at least the pending measure is enough: the search runs to its
/// natural end, so the exact fuel does not matter.
proof fn lemma_run_search_fuel<S: GeometricNovelty>(
    strategy: S,
    threshold: Option<Ratio>,
    history: TransmissionHistory,
    recipient: NodeId,
    n_max: int,
    queue: Seq<SegmentTask>,
    items: Seq<(Novelty, Datum)>,
    fuel1: nat,
    fuel2: nat,
)
    requires
        tasks_wf(queue),
        fuel1 >= tasks_measure(queue),
        fuel2 >= tasks_measure(queue),
    ensures
        run_search(strategy, threshold, history, recipient, n_max, queue, items, fuel1)
            == run_search(strategy, threshold, history, recipient, n_max, queue, items, fuel2),
    decreases fuel1,
{
    if queue.len() > 0 {
        lemma_tasks_measure_positive(queue);
        let at = task_max_index(queue);
        lemma_task_max_bounds(queue, queue.len() as int);
        let e = queue[at];
        let rest = queue.remove(at);
        lemma_tasks_measure_remove(queue, at);
        assert(task_wf(e));
        lemma_children_of(strategy, e.0, e.3 as int);
        let queue2 = rest + children_of(strategy, e.0, e.3 as int);
        lemma_tasks_measure_concat(rest, children_of(strategy, e.0, e.3 as int));
        assert(tasks_measure(queue2) < tasks_measure(queue));
        queue.remove_ensures(at);
        assert forall|i: int| 0 <= i < queue2.len() implies task_wf(#[trigger] queue2[i]) by {
            if i < rest.len() {
                assert(queue2[i] == rest[i]);
                let i0 = if i < at { i } else { i + 1 };
                assert(rest[i] == queue[i0]);
            } else {
                assert(queue2[i] == children_of(strategy, e.0, e.3 as int)[i - rest.len()]);
            }
        }
        lemma_run_search_fuel(
            strategy,
            threshold,
            history,
            recipient,
            n_max,
            queue2,
            items,
            (fuel1 - 1) as nat,
            (fuel2 - 1) as nat,
        );
        let p = history.probability_spec(recipient, e.1.id).complement_spec();
        let novelty = Novelty { distance: e.2, probability_not_transmitted: p, id: e.1.id };
        let stop = match threshold {
            Some(t) => items.len() > 0 && Novelty::lt_spec(novelty, items.last().0) && e.2
                * t.den < t.num * items.last().0.distance,
            None => false,
        };
        if !stop && p.value > 0 {
            lemma_run_search_fuel(
                strategy,
                threshold,
                history,
                recipient,
                n_max,
                queue2,
                insert_spec(items, novelty, e.1, n_max),
                (fuel1 - 1) as nat,
                (fuel2 - 1) as nat,
            );
        }
    }
}

/// The collector seeded with the two path anchors, each carrying the chord
/// length between them as raw importance and weighted by its own
/// transmission probability.
pub open spec fn seeded_items(
    history: TransmissionHistory,
    recipient: NodeId,
    data: Seq<Datum>,
    n_max: int,
) -> Seq<(Novelty, Datum)> {
    let first = data[0];
    let last = data[data.len() - 1];
    let chord = chord_novelty_spec(first.coordinate, last.coordinate) as u64;
    let first_novelty = Novelty {
        distance: chord,
        probability_not_transmitted: history.probability_spec(
            recipient,
            first.id,
        ).complement_spec(),
        id: first.id,
    };
    let last_novelty = Novelty {
        distance: chord,
        probability_not_transmitted: history.probability_spec(
            recipient,
            last.id,
        ).complement_spec(),
        id: last.id,
    };
    insert_spec(
        insert_spec(Seq::<(Novelty, Datum)>::empty(), first_novelty, first, n_max),
        last_novelty,
        last,
        n_max,
    )
}

/// The queue primed with the whole series as one task, when the series is
/// long enough to have an interior candidate.
pub open spec fn initial_queue<S: GeometricNovelty>(strategy: S, data: Seq<Datum>) -> Seq<
    SegmentTask,
> {
    if data.len() >= 3 {
        match strategy.most_novel_spec(data) {
            Some(f) => if 1 <= f.2 < data.len() - 1 {
                seq![(data, f.0, f.1, f.2)]
            } else {
                Seq::<SegmentTask>::empty()
            },
            None => Seq::<SegmentTask>::empty(),
        }
    } else {
        Seq::<SegmentTask>::empty()
    }
}

/// What the recursive best-first search returns: a pure function of the
/// measure strategy, the threshold, the history, the series, the bound and
/// the recipient.
pub open spec fn search_result_spec<S: GeometricNovelty>(
    strategy: S,
    threshold: Option<Ratio>,
    history: TransmissionHistory,
    data: Seq<Datum>,
    n_max: int,
    recipient: NodeId,
) -> Seq<Datum> {
    let queue = initial_queue(strategy, data);
    run_search(
        strategy,
        threshold,
        history,
        recipient,
        n_max,
        queue,
        seeded_items(history, recipient, data, n_max),
        tasks_measure(queue),
    ).map_values(|pair: (Novelty, Datum)| pair.1)
}

/// A strategy for traversing the sample series and returning its most novel
/// samples for one recipient.
///
/// Every strategy returns at most `n_max` samples of the series, free of
/// duplicates and ordered most novel first: a witness ranking of strictly
/// descending novelties justifies the order.
pub trait SearchStrategy {
    /// What the strategy returns: a function of the history, the series,
    /// the bound and the recipient alone. Searching twice with identical
    /// inputs therefore gives identical ordered output.
    spec fn search_spec(
        &self,
        history: TransmissionHistory,
        data: Seq<Datum>,
        n_max: int,
        recipient: NodeId,
    ) -> Seq<Datum>;

    /// Finds the at most `n_max` samples of the series most worth sending
    /// to `recipient`, most novel first.
    fn search(
        &self,
        transmission_history: &TransmissionHistory,
        data: &[Datum],
        n_max: usize,
        recipient: &NodeId,
    ) -> (r: Vec<Datum>)
        requires
            data@.len() >= 1,
            segment_coordinates_valid(data@),
            distinct_ids(data@),
        ensures
            r@ == self.search_spec(*transmission_history, data@, n_max as int, *recipient),
            r@.len() <= n_max,
            forall|k: int| 0 <= k < r@.len() ==> data@.contains(#[trigger] r@[k]),
            forall|k1: int, k2: int|
                #![trigger r@[k1], r@[k2]]
                0 <= k1 < k2 < r@.len() ==> r@[k1].id != r@[k2].id,
            exists|keys: Seq<Novelty>| novelty_ordered(keys, r@),
    ;
}

/// The recursive best-first search strategy.
///
/// Expands segments most-geometrically-novel first, weighs each candidate by
/// the probability that the recipient still lacks it, and optionally stops
/// early once every pending candidate's raw importance has fallen below
/// `threshold` times the raw importance of the least novel result while the
/// candidate no longer beats that result.
pub struct Search<S> where S: GeometricNovelty {
    strategy: S,
    threshold: Option<Ratio>,
}

impl<S> Search<S> where S: GeometricNovelty {
    /// The configured measure strategy.
    pub closed spec fn strategy_spec(&self) -> S {
        self.strategy
    }

    /// The configured early-stop threshold ratio.
    pub closed spec fn threshold_spec(&self) -> Option<Ratio> {
        self.threshold
    }

    /// Creates a new search strategy around a geometric novelty measure.
    ///
    /// With `threshold` absent the search always runs to exhaustion of its
    /// work queue; with a ratio present it may stop early.
    pub fn new(strategy: S, threshold: Option<Ratio>) -> (r: Self)
        requires
            (threshold matches Some(t) ==> t.den > 0),
        ensures
            r.strategy_spec() == strategy,
            r.threshold_spec() == threshold,
    {
        Self { strategy, threshold }
    }
}


/// Removing one entry keeps the queue well formed and separated, and no
/// remaining entry shares an interior sample with the removed one.
proof fn lemma_heap_remove(
    h: Seq<HeapEntry>,
    data: Seq<Datum>,
    items: Seq<(Novelty, Datum)>,
    at: int,
)
    requires
        heap_wf(h, data),
        separated(h, items),
        0 <= at < h.len(),
    ensures
        heap_wf(h.remove(at), data),
        separated(h.remove(at), items),
        forall|i: int, id: u64|
            #![trigger in_interior(h.remove(at)[i], id)]
            0 <= i < h.remove(at).len() && in_interior(h[at], id) ==> !in_interior(
                h.remove(at)[i],
                id,
            ),
{
    h.remove_ensures(at);
    let g = h.remove(at);
    assert forall|i: int| 0 <= i < g.len() implies entry_wf(#[trigger] g[i], data) by {
        if i < at {
            assert(g[i] == h[i]);
        } else {
            assert(g[i] == h[i + 1]);
        }
    }
    assert forall|i: int, j: int, id: u64|
        #![trigger in_interior(g[i], id), in_interior(g[j], id)]
        0 <= i < g.len() && 0 <= j < g.len() && i != j implies !(in_interior(g[i], id)
        && in_interior(g[j], id)) by {
        let i0 = if i < at { i } else { i + 1 };
        let j0 = if j < at { j } else { j + 1 };
        assert(g[i] == h[i0]);
        assert(g[j] == h[j0]);
        assert(!(in_interior(h[i0], id) && in_interior(h[j0], id)));
    }
    assert forall|i: int, k: int|
        #![trigger in_interior(g[i], items[k].1.id)]
        0 <= i < g.len() && 0 <= k < items.len() implies !in_interior(g[i], items[k].1.id) by {
        let i0 = if i < at { i } else { i + 1 };
        assert(g[i] == h[i0]);
        assert(!in_interior(h[i0], items[k].1.id));
    }
    assert forall|i: int, id: u64|
        #![trigger in_interior(g[i], id)]
        0 <= i < g.len() && in_interior(h[at], id) implies !in_interior(g[i], id) by {
        let i0 = if i < at { i } else { i + 1 };
        assert(g[i] == h[i0]);
        assert(i0 != at);
        assert(!(in_interior(h[at], id) && in_interior(h[i0], id)));
    }
}

/// Queueing an entry whose interior overlaps no queued entry, and holds no
/// collected sample, keeps the queue well formed and separated.
proof fn lemma_heap_push(
    h: Seq<HeapEntry>,
    data: Seq<Datum>,
    items: Seq<(Novelty, Datum)>,
    c: HeapEntry,
)
    requires
        heap_wf(h, data),
        separated(h, items),
        entry_wf(c, data),
        forall|i: int, id: u64|
            #![trigger in_interior(h[i], id), in_interior(c, id)]
            0 <= i < h.len() ==> !(in_interior(h[i], id) && in_interior(c, id)),
        forall|k: int| 0 <= k < items.len() ==> !in_interior(c, (#[trigger] items[k]).1.id),
    ensures
        heap_wf(h.push(c), data),
        separated(h.push(c), items),
{
    let g = h.push(c);
    assert forall|i: int| 0 <= i < g.len() implies entry_wf(#[trigger] g[i], data) by {
        if i < h.len() {
            assert(g[i] == h[i]);
        } else {
            assert(g[i] == c);
        }
    }
    assert forall|i: int, j: int, id: u64|
        #![trigger in_interior(g[i], id), in_interior(g[j], id)]
        0 <= i < g.len() && 0 <= j < g.len() && i != j implies !(in_interior(g[i], id)
        && in_interior(g[j], id)) by {
        if i < h.len() && j < h.len() {
            assert(g[i] == h[i]);
            assert(g[j] == h[j]);
            assert(!(in_interior(h[i], id) && in_interior(h[j], id)));
        } else if i < h.len() {
            assert(g[i] == h[i]);
            assert(g[j] == c);
            assert(!(in_interior(h[i], id) && in_interior(c, id)));
        } else {
            assert(g[i] == c);
            assert(g[j] == h[j]);
            assert(!(in_interior(h[j], id) && in_interior(c, id)));
        }
    }
    assert forall|i: int, k: int|
        #![trigger in_interior(g[i], items[k].1.id)]
        0 <= i < g.len() && 0 <= k < items.len() implies !in_interior(g[i], items[k].1.id) by {
        if i < h.len() {
            assert(g[i] == h[i]);
            assert(!in_interior(h[i], items[k].1.id));
        } else {
            assert(g[i] == c);
        }
    }
}

/// A half of a split segment is itself a faithful unit of work, and its
/// interior samples all come from the parent's interior, away from the split
/// position.
proof fn lemma_child_entry(e: HeapEntry, data: Seq<Datum>, c: HeapEntry, lo: int, index: int)
    requires
        entry_wf(e, data),
        1 <= index < e.segment@.len() - 1,
        0 <= lo,
        lo + c.segment@.len() <= e.segment@.len(),
        c.segment@ == e.segment@.subrange(lo, lo + c.segment@.len()),
        3 <= c.segment@.len(),
        1 <= c.index < c.segment@.len() - 1,
        c.datum == c.segment@[c.index as int],
        lo + c.segment@.len() <= index + 1 || lo >= index,
    ensures
        entry_wf(c, data),
        forall|id: u64|
            #[trigger] in_interior(c, id) ==> exists|m: int|
                1 <= m < e.segment@.len() - 1 && m != index && (#[trigger] e.segment@[m]).id
                    == id,
        forall|id: u64| #[trigger] in_interior(c, id) ==> in_interior(e, id) && id
            != e.segment@[index].id,
{
    assert forall|k: int| 0 <= k < c.segment@.len() implies #[trigger] c.segment@[k]
        == e.segment@[lo + k] by {}
    assert forall|k: int| 0 <= k < c.segment@.len() implies data.contains(
        #[trigger] c.segment@[k],
    ) by {
        assert(c.segment@[k] == e.segment@[lo + k]);
    }
    assert forall|k: int| 0 <= k < c.segment@.len() implies (#[trigger] c.segment@[k]).coordinate
        .valid() by {
        assert(c.segment@[k] == e.segment@[lo + k]);
    }
    assert forall|k1: int, k2: int| 0 <= k1 < k2 < c.segment@.len() implies (
    #[trigger] c.segment@[k1]).id != (#[trigger] c.segment@[k2]).id by {
        assert(c.segment@[k1] == e.segment@[lo + k1]);
        assert(c.segment@[k2] == e.segment@[lo + k2]);
    }
    assert(distinct_ids(c.segment@));
    assert(entry_wf(c, data));
    assert forall|id: u64| #[trigger] in_interior(c, id) implies exists|m: int|
        1 <= m < e.segment@.len() - 1 && m != index && (#[trigger] e.segment@[m]).id == id by {
        let k = choose|k: int|
            1 <= k < c.segment@.len() - 1 && (#[trigger] c.segment@[k]).id == id;
        assert(c.segment@[k] == e.segment@[lo + k]);
        assert(1 <= lo + k < e.segment@.len() - 1 && lo + k != index && e.segment@[lo + k].id
            == id);
    }
    assert forall|id: u64| #[trigger] in_interior(c, id) implies in_interior(e, id) && id
        != e.segment@[index].id by {
        let m = choose|m: int|
            1 <= m < e.segment@.len() - 1 && m != index && (#[trigger] e.segment@[m]).id == id;
        assert(in_interior(e, id));
        if m < index {
            assert(e.segment@[m].id != e.segment@[index].id);
        } else {
            assert(e.segment@[index].id != e.segment@[m].id);
        }
    }
}

impl<S> SearchStrategy for Search<S> where S: GeometricNovelty {
    closed spec fn search_spec(
        &self,
        history: TransmissionHistory,
        data: Seq<Datum>,
        n_max: int,
        recipient: NodeId,
    ) -> Seq<Datum> {
        search_result_spec(self.strategy, self.threshold, history, data, n_max, recipient)
    }

    fn search(
        &self,
        transmission_history: &TransmissionHistory,
        data: &[Datum],
        n_max: usize,
        recipient: &NodeId,
    ) -> (r: Vec<Datum>) {
        let n = data.len();
        let first: Datum = *slice_index_get(data, 0);
        let last: Datum = *slice_index_get(data, n - 1);
        let anchors = start_and_end_point_novelty(&first, &last);

        // Seed the collector with the two path anchors, each weighted by its
        // own transmission probability.
        let mut results = Results::new(n_max);
        let p_first = transmission_history.probability_recipient_has_datum(
            recipient,
            &first.id,
        ).complement();
        let first_novelty = Novelty {
            distance: anchors.0,
            probability_not_transmitted: p_first,
            id: first.id,
        };
        results.insert(first, first_novelty);
        let ghost seeded_once = results.items@;
        proof {
            assert forall|k: int| 0 <= k < seeded_once.len() implies #[trigger] seeded_once[k]
                == (first_novelty, first) by {
                if seeded_once[k] != (first_novelty, first) {
                    let j = choose|j: int|
                        0 <= j < Seq::<(Novelty, Datum)>::empty().len()
                            && Seq::<(Novelty, Datum)>::empty()[j] == seeded_once[k];
                    assert(false);
                }
            }
        }
        let p_last = transmission_history.probability_recipient_has_datum(
            recipient,
            &last.id,
        ).complement();
        let last_novelty = Novelty {
            distance: anchors.1,
            probability_not_transmitted: p_last,
            id: last.id,
        };
        proof {
            if n > 1 {
                assert(data@[0].id != data@[n - 1].id);
            }
        }
        results.insert(last, last_novelty);
        proof {
            assert forall|k: int| 0 <= k < results.items@.len() implies ((#[trigger] results
                .items@[k]) == (first_novelty, first) || results.items@[k] == (
            last_novelty,
            last,
            )) by {
                if results.items@[k] != (last_novelty, last) {
                    assert(seeded_once.contains(results.items@[k]));
                    let j = choose|j: int|
                        0 <= j < seeded_once.len() && seeded_once[j] == results.items@[k];
                }
            }
            assert(data@.contains(data@[0]));
            assert(data@.contains(data@[n - 1]));
        }

        // Prime the queue with the whole series as one segment, when the
        // series is long enough to have an interior at all.
        let mut heap: MaxHeap = MaxHeap::new();
        match Segment::try_from(data) {
            Ok(segment) => {
                let found = self.strategy.most_novel_coordinate(segment.as_slice());
                if let Some(f) = found {
                    let (datum0, distance0, index0) = f;
                    heap.push(segment, datum0, distance0, index0);
                    proof {
                        let e0 = HeapEntry {
                            segment,
                            datum: datum0,
                            distance: distance0,
                            index: index0,
                        };
                        assert(heap@ =~= seq![e0]);
                        assert forall|k: int| 0 <= k < e0.segment@.len() implies data@.contains(
                            #[trigger] e0.segment@[k],
                        ) by {
                            assert(e0.segment@[k] == data@[k]);
                            assert(data@.contains(data@[k]));
                        }
                        assert(entry_wf(e0, data@));
                        assert(heap_wf(heap@, data@));
                        assert forall|i: int, k: int|
                            #![trigger in_interior(heap@[i], results.items@[k].1.id)]
                            0 <= i < heap@.len() && 0 <= k < results.items@.len()
                            implies !in_interior(heap@[i], results.items@[k].1.id) by {
                            if in_interior(heap@[i], results.items@[k].1.id) {
                                let m = choose|m: int|
                                    1 <= m < e0.segment@.len() - 1 && (#[trigger] e0
                                        .segment@[m]).id == results.items@[k].1.id;
                                assert(data@[m].id == results.items@[k].1.id);
                                assert(results.items@[k].1.id == data@[0].id || results
                                    .items@[k].1.id == data@[n - 1].id);
                                assert(data@[0].id != data@[m].id);
                                assert(data@[m].id != data@[n - 1].id);
                            }
                        }
                        assert(separated(heap@, results.items@));
                        assert(segment@ == data@);
                        assert(abs_heap(heap@) =~= initial_queue(self.strategy, data@));
                    }
                } else {
                    proof {
                        assert(abs_heap(heap@) =~= initial_queue(self.strategy, data@));
                    }
                }
            },
            Err(_) => {
                proof {
                    assert(abs_heap(heap@) =~= initial_queue(self.strategy, data@));
                }
            },
        }

        let ghost items0 = results.items@;
        let ghost queue0 = abs_heap(heap@);
        let ghost goal = run_search(
            self.strategy,
            self.threshold,
            *transmission_history,
            *recipient,
            n_max as int,
            queue0,
            items0,
            tasks_measure(queue0),
        );
        proof {
            // The seeded collector is exactly the one the specification
            // starts from.
            assert(first == data@[0]);
            assert(last == data@[n - 1]);
            assert(anchors.0 == chord_novelty_spec(first.coordinate, last.coordinate) as u64);
            assert(p_first == transmission_history.probability_spec(
                *recipient,
                first.id,
            ).complement_spec());
            assert(p_last == transmission_history.probability_spec(
                *recipient,
                last.id,
            ).complement_spec());
            assert(seeded_once == insert_spec(
                Seq::<(Novelty, Datum)>::empty(),
                first_novelty,
                first,
                n_max as int,
            ));
            assert(items0 == seeded_items(
                *transmission_history,
                *recipient,
                data@,
                n_max as int,
            ));
        }

        // Expand pending segments, most geometrically promising first.
        loop
            invariant_except_break
                run_search(
                    self.strategy,
                    self.threshold,
                    *transmission_history,
                    *recipient,
                    n_max as int,
                    abs_heap(heap@),
                    results.items@,
                    tasks_measure(abs_heap(heap@)),
                ) == goal,
            invariant
                n == data@.len(),
                1 <= n,
                segment_coordinates_valid(data@),
                distinct_ids(data@),
                results.wf(),
                results.n_max == n_max,
                distinct_result_ids(results.items@),
                forall|k: int|
                    0 <= k < results.items@.len() ==> data@.contains(
                        (#[trigger] results.items@[k]).1,
                    ),
                heap_wf(heap@, data@),
                separated(heap@, results.items@),
            ensures
                results.wf(),
                results.n_max == n_max,
                distinct_result_ids(results.items@),
                forall|k: int|
                    0 <= k < results.items@.len() ==> data@.contains(
                        (#[trigger] results.items@[k]).1,
                    ),
                results.items@ == goal,
            decreases heap_measure(heap@),
        {
            let ghost h0 = heap@;
            let ghost items_entry = results.items@;
            let popped = heap.pop();
            let (segment, datum, distance, index) = match popped {
                Some(entry) => entry,
                None => {
                    proof {
                        assert(abs_heap(h0).len() == 0);
                    }
                    break;
                },
            };
            let ghost at = max_entry_index(h0);
            let ghost e = h0[at];
            proof {
                assert(h0.len() > 0);
                crate::geometric_novelty::lemma_max_entry_upto_props(h0, h0.len() as int);
                lemma_heap_remove(h0, data@, results.items@, at);
                lemma_heap_measure_remove(h0, at);
                assert(e.segment@[e.index as int].id == datum.id);
                assert(in_interior(e, datum.id));
                // The abstract queue pops the same task.
                lemma_task_max_abs(h0, h0.len() as int);
                assert(abs_heap(h0)[at] == abs_entry(e));
                assert forall|i: int| 0 <= i < abs_heap(h0).len() implies task_wf(
                    #[trigger] abs_heap(h0)[i],
                ) by {
                    assert(abs_heap(h0)[i] == abs_entry(h0[i]));
                    assert(entry_wf(h0[i], data@));
                }
                lemma_tasks_measure_positive(abs_heap(h0));
                h0.remove_ensures(at);
                abs_heap(h0).remove_ensures(at);
                assert forall|i: int| 0 <= i < abs_heap(heap@).len() implies #[trigger] abs_heap(
                    heap@,
                )[i] == abs_heap(h0).remove(at)[i] by {
                    let i0 = if i < at { i } else { i + 1 };
                    assert(abs_heap(heap@)[i] == abs_entry(heap@[i]));
                    assert(heap@[i] == h0[i0]);
                    assert(abs_heap(h0)[i0] == abs_entry(h0[i0]));
                }
                assert(abs_heap(heap@) =~= abs_heap(h0).remove(at));
            }

            let ghost spec_p = transmission_history.probability_spec(
                *recipient,
                datum.id,
            ).complement_spec();

            let p = transmission_history.probability_recipient_has_datum(
                recipient,
                &datum.id,
            ).complement();
            let novelty = Novelty { distance, probability_not_transmitted: p, id: datum.id };

            // Early stop: pending work has become geometrically unpromising
            // and this candidate no longer beats the current worst result.
            let ghost spec_stop = match self.threshold {
                Some(t) => items_entry.len() > 0 && Novelty::lt_spec(
                    novelty,
                    items_entry.last().0,
                ) && distance * t.den < t.num * items_entry.last().0.distance,
                None => false,
            };
            let current_min = results.min_novelty();
            let mut stop_now = false;
            if let Some(threshold) = self.threshold {
                if let Some(min_novelty) = current_min {
                    proof {
                        assert((distance as int) * (threshold.den as int) <= (u64::MAX as int)
                            * (u64::MAX as int)) by (nonlinear_arith)
                            requires distance <= u64::MAX, threshold.den <= u64::MAX;
                        assert((threshold.num as int) * (min_novelty.distance as int)
                            <= (u64::MAX as int) * (u64::MAX as int)) by (nonlinear_arith)
                            requires threshold.num <= u64::MAX, min_novelty.distance <= u64::MAX;
                    }
                    if novelty.lt(&min_novelty) && (distance as u128) * (threshold.den as u128)
                        < (threshold.num as u128) * (min_novelty.distance as u128) {
                        stop_now = true;
                    }
                }
            }
            proof {
                assert(p == spec_p);
                assert(stop_now == spec_stop);
            }
            if stop_now {
                proof {
                    // The specification search stops at this very task,
                    // leaving exactly what has been collected.
                    assert(run_search(
                        self.strategy,
                        self.threshold,
                        *transmission_history,
                        *recipient,
                        n_max as int,
                        abs_heap(h0),
                        items_entry,
                        tasks_measure(abs_heap(h0)),
                    ) == items_entry);
                }
                break;
            }

            // The candidate sits in the popped interior, so it is not among
            // the results and not in any remaining pending interior.
            proof {
                assert forall|k: int| 0 <= k < results.items@.len() implies (#[trigger] results
                    .items@[k]).1.id != datum.id by {
                    assert(!in_interior(h0[at], results.items@[k].1.id));
                }
            }
            let ghost items_before = results.items@;
            if p.value > 0 {
                results.insert(datum, novelty);
                proof {
                    assert forall|k: int| 0 <= k < results.items@.len() implies data@.contains(
                        (#[trigger] results.items@[k]).1,
                    ) by {
                        if results.items@[k] == (novelty, datum) {
                            assert(data@.contains(e.segment@[e.index as int]));
                        } else {
                            assert(items_before.contains(results.items@[k]));
                            let j = choose|j: int|
                                0 <= j < items_before.len() && items_before[j] == results
                                    .items@[k];
                        }
                    }
                    assert forall|i: int, k: int|
                        #![trigger in_interior(heap@[i], results.items@[k].1.id)]
                        0 <= i < heap@.len() && 0 <= k < results.items@.len()
                        implies !in_interior(heap@[i], results.items@[k].1.id) by {
                        if results.items@[k] == (novelty, datum) {
                            assert(in_interior(e, datum.id));
                            assert(!in_interior(heap@[i], datum.id));
                        } else {
                            assert(items_before.contains(results.items@[k]));
                            let j = choose|j: int|
                                0 <= j < items_before.len() && items_before[j] == results
                                    .items@[k];
                            assert(!in_interior(heap@[i], items_before[j].1.id));
                        }
                    }
                    assert(separated(heap@, results.items@));
                }
            }
            // Each collected identity is now either the candidate's or was
            // collected before, so it is not interior to the popped segment
            // except at the split position itself.
            proof {
                assert forall|k: int| 0 <= k < results.items@.len() implies ((#[trigger] results
                    .items@[k]).1.id == e.segment@[index as int].id || !in_interior(
                    e,
                    results.items@[k].1.id,
                )) by {
                    if results.items@[k] != (novelty, datum) {
                        if p.value > 0 {
                            assert(items_before.contains(results.items@[k]));
                            let j = choose|j: int|
                                0 <= j < items_before.len() && items_before[j] == results
                                    .items@[k];
                            assert(!in_interior(h0[at], items_before[j].1.id));
                        } else {
                            assert(!in_interior(h0[at], results.items@[k].1.id));
                        }
                    }
                }
            }

            // Split around the candidate and queue each half that still has
            // an interior, keyed by its own best interior candidate.
            let (left, right) = segment.split_at(index);
            proof {
                if let Some(ls) = left {
                    assert forall|k: int| 0 <= k < ls@.len() implies (#[trigger] ls@[k])
                        .coordinate.valid() by {
                        assert(ls@[k] == e.segment@[k]);
                    }
                }
                if let Some(rs) = right {
                    assert forall|k: int| 0 <= k < rs@.len() implies (#[trigger] rs@[k])
                        .coordinate.valid() by {
                        assert(rs@[k] == e.segment@[index + k]);
                    }
                }
            }
            let ghost h1 = heap@;
            if let Some(ls) = left {
                if let Some(lf) = self.strategy.most_novel_coordinate(ls.as_slice()) {
                    let (ld, ldist, lidx) = lf;
                    proof {
                        let cl = HeapEntry {
                            segment: ls,
                            datum: ld,
                            distance: ldist,
                            index: lidx,
                        };
                        lemma_child_entry(e, data@, cl, 0, index as int);
                        assert forall|i: int, id: u64|
                            #![trigger in_interior(heap@[i], id), in_interior(cl, id)]
                            0 <= i < heap@.len() implies !(in_interior(heap@[i], id)
                            && in_interior(cl, id)) by {
                            if in_interior(cl, id) {
                                assert(in_interior(e, id));
                            }
                        }
                        assert forall|k: int| 0 <= k < results.items@.len()
                            implies !in_interior(cl, (#[trigger] results.items@[k]).1.id) by {
                            if in_interior(cl, results.items@[k].1.id) {
                                assert(in_interior(e, results.items@[k].1.id));
                                assert(results.items@[k].1.id != e.segment@[index as int].id);
                            }
                        }
                        lemma_heap_push(heap@, data@, results.items@, cl);
                        lemma_heap_measure_push(heap@, cl);
                    }
                    heap.push(ls, ld, ldist, lidx);
                }
            }
            if let Some(rs) = right {
                if let Some(rf) = self.strategy.most_novel_coordinate(rs.as_slice()) {
                    let (rd, rdist, ridx) = rf;
                    proof {
                        let cr = HeapEntry {
                            segment: rs,
                            datum: rd,
                            distance: rdist,
                            index: ridx,
                        };
                        lemma_child_entry(e, data@, cr, index as int, index as int);
                        assert forall|i: int, id: u64|
                            #![trigger in_interior(heap@[i], id), in_interior(cr, id)]
                            0 <= i < heap@.len() implies !(in_interior(heap@[i], id)
                            && in_interior(cr, id)) by {
                            if in_interior(cr, id) && in_interior(heap@[i], id) {
                                assert(in_interior(e, id));
                                if i < h1.len() {
                                    assert(heap@[i] == h1[i]);
                                    assert(!in_interior(h1[i], id));
                                } else {
                                    // The other queued half: its interior
                                    // samples sit strictly before the split
                                    // position, this one's strictly after.
                                    let m1 = choose|m: int|
                                        1 <= m < e.segment@.len() - 1 && m != index && (
                                        #[trigger] e.segment@[m]).id == id
                                            && in_interior(heap@[i], id);
                                    assert(false);
                                }
                            }
                        }
                        assert forall|k: int| 0 <= k < results.items@.len()
                            implies !in_interior(cr, (#[trigger] results.items@[k]).1.id) by {
                            if in_interior(cr, results.items@[k].1.id) {
                                assert(in_interior(e, results.items@[k].1.id));
                                assert(results.items@[k].1.id != e.segment@[index as int].id);
                            }
                        }
                        lemma_heap_push(heap@, data@, results.items@, cr);
                        lemma_heap_measure_push(heap@, cr);
                    }
                    heap.push(rs, rd, rdist, ridx);
                }
            }
            proof {
                assert(heap_measure(heap@) < heap_measure(h0));
                // The specification search takes the very same step.
                let q0 = abs_heap(h0);
                let m0 = tasks_measure(q0);
                let rest = q0.remove(at);
                let cs = children_of(self.strategy, e.segment@, e.index as int);
                lemma_tasks_measure_remove(q0, at);
                lemma_children_of(self.strategy, e.segment@, e.index as int);
                lemma_tasks_measure_concat(rest, cs);
                // The exec queue now holds exactly the rest plus the halves.
                assert(abs_heap(heap@) =~= rest + cs);
                assert(tasks_measure(abs_heap(heap@)) < m0);
                assert forall|i: int| 0 <= i < abs_heap(heap@).len() implies task_wf(
                    #[trigger] abs_heap(heap@)[i],
                ) by {
                    assert(abs_heap(heap@)[i] == abs_entry(heap@[i]));
                    assert(entry_wf(heap@[i], data@));
                }
                let collected = if spec_p.value > 0 {
                    insert_spec(items_entry, novelty, datum, n_max as int)
                } else {
                    items_entry
                };
                assert(results.items@ == collected);
                assert(run_search(
                    self.strategy,
                    self.threshold,
                    *transmission_history,
                    *recipient,
                    n_max as int,
                    q0,
                    items_entry,
                    m0,
                ) == run_search(
                    self.strategy,
                    self.threshold,
                    *transmission_history,
                    *recipient,
                    n_max as int,
                    rest + cs,
                    collected,
                    (m0 - 1) as nat,
                ));
                lemma_run_search_fuel(
                    self.strategy,
                    self.threshold,
                    *transmission_history,
                    *recipient,
                    n_max as int,
                    rest + cs,
                    collected,
                    (m0 - 1) as nat,
                    tasks_measure((rest + cs)),
                );
                assert(run_search(
                    self.strategy,
                    self.threshold,
                    *transmission_history,
                    *recipient,
                    n_max as int,
                    abs_heap(heap@),
                    results.items@,
                    tasks_measure(abs_heap(heap@)),
                ) == goal);
            }
        }

        let keep = results.into_vec();
        proof {
            let keys = results.items@.map_values(|pair: (Novelty, Datum)| pair.0);
            assert(novelty_ordered(keys, keep@));
            assert(keep@ =~= results.items@.map_values(|pair: (Novelty, Datum)| pair.1));
            assert(queue0 == initial_queue(self.strategy, data@));
            assert(keep@ == self.search_spec(
                *transmission_history,
                data@,
                n_max as int,
                *recipient,
            ));
        }
        keep
    }
}

/// Searching twice with identical inputs gives identical ordered output:
/// every strategy's result is pinned to a function of the history, the
/// series, the bound and the recipient.
pub proof fn lemma_search_idempotent<S: SearchStrategy>(
    strategy: &S,
    history: TransmissionHistory,
    data: Seq<Datum>,
    n_max: int,
    recipient: NodeId,
    once: Seq<Datum>,
    twice: Seq<Datum>,
)
    requires
        once == strategy.search_spec(history, data, n_max, recipient),
        twice == strategy.search_spec(history, data, n_max, recipient),
    ensures
        once == twice,
{
}

} // verus!
