//! Geometric novelty: how important a sample is in describing the path.
//!
//! A novelty measure judges one candidate sample against the chord between a
//! segment's anchors; the hierarchical search built on it generalises the
//! Ramer-Douglas-Peucker path simplification. Two measures are provided:
//! the classical perpendicular distance from the chord, and the area of the
//! triangle the candidate spans with the anchors. Both are exact fixed-point
//! functions of the three coordinates alone.

use vstd::prelude::*;
use vstd::slice::slice_index_get;

use crate::coordinate::cross_spec;
use crate::coordinate::norm_sq_spec;
use crate::coordinate::Coordinate;
use crate::coordinate::SCALE;
use crate::math::isqrt;
use crate::math::sqrt_floor;
use crate::positions::Datum;
use crate::segment::Segment;

verus! {

/// The integer displacement from `a` to `b`.
pub open spec fn displacement_spec(a: Coordinate, b: Coordinate) -> (int, int, int) {
    (b.x - a.x, b.y - a.y, b.z - a.z)
}

/// What the perpendicular-distance measure computes: the fixed-point
/// distance from `candidate` to the line through `start` and `end`,
/// which is `|chord x offset| / |chord|` scaled by [`SCALE`].
///
/// When `start` and `end` coincide there is no line; the measure is then
/// the distance from `candidate` to that single point.
pub open spec fn perpendicular_novelty_spec(
    start: Coordinate,
    candidate: Coordinate,
    end: Coordinate,
) -> nat {
    let line = displacement_spec(start, end);
    let offset = displacement_spec(start, candidate);
    let lsq = norm_sq_spec(line);
    if lsq == 0 {
        sqrt_floor((norm_sq_spec(offset) * SCALE * SCALE) as nat)
    } else {
        sqrt_floor((norm_sq_spec(cross_spec(line, offset)) * SCALE * SCALE / lsq) as nat)
    }
}

/// What the triangle-area measure computes: the fixed-point area of the
/// triangle spanned by the three coordinates, `|(candidate - start) x
/// (end - start)| / 2` scaled by [`SCALE`].
pub open spec fn triangle_area_novelty_spec(
    start: Coordinate,
    candidate: Coordinate,
    end: Coordinate,
) -> nat {
    let ab = displacement_spec(start, candidate);
    let ac = displacement_spec(start, end);
    sqrt_floor((norm_sq_spec(cross_spec(ab, ac)) * SCALE * SCALE) as nat) / 2
}

/// All three components of an integer triple lie within `bound`.
pub open spec fn triple_bounded(u: (int, int, int), bound: int) -> bool {
    &&& -bound <= u.0 <= bound
    &&& -bound <= u.1 <= bound
    &&& -bound <= u.2 <= bound
}

/// Componentwise bound on a cross product of bounded triples.
proof fn lemma_cross_spec_bound(u: (int, int, int), v: (int, int, int), bound: int)
    requires
        triple_bounded(u, bound),
        triple_bounded(v, bound),
        0 <= bound,
    ensures
        triple_bounded(cross_spec(u, v), 2 * bound * bound),
{
    crate::coordinate::lemma_product_bound(u.1, v.2, bound);
    crate::coordinate::lemma_product_bound(u.2, v.1, bound);
    crate::coordinate::lemma_product_bound(u.2, v.0, bound);
    crate::coordinate::lemma_product_bound(u.0, v.2, bound);
    crate::coordinate::lemma_product_bound(u.0, v.1, bound);
    crate::coordinate::lemma_product_bound(u.1, v.0, bound);
    assert(2 * bound * bound == (bound * bound) + (bound * bound)) by (nonlinear_arith);
}

/// The squared norm of a bounded triple is at most three times the square
/// of the bound, and never negative.
proof fn lemma_norm_sq_spec_bound(u: (int, int, int), bound: int)
    requires
        triple_bounded(u, bound),
        0 <= bound,
    ensures
        0 <= norm_sq_spec(u) <= 3 * bound * bound,
{
    crate::coordinate::lemma_product_bound(u.0, u.0, bound);
    crate::coordinate::lemma_product_bound(u.1, u.1, bound);
    crate::coordinate::lemma_product_bound(u.2, u.2, bound);
    crate::coordinate::lemma_square_nonneg(u.0);
    crate::coordinate::lemma_square_nonneg(u.1);
    crate::coordinate::lemma_square_nonneg(u.2);
    assert(3 * bound * bound == (bound * bound) + (bound * bound) + (bound * bound))
        by (nonlinear_arith);
}

/// Computes the perpendicular distance from `coordinate` to the line through
/// `start` and `end`, as a fixed-point length scaled by [`SCALE`].
pub fn distance_from_line(start: &Coordinate, end: &Coordinate, coordinate: &Coordinate) -> (r:
    u64)
    requires
        start.valid(),
        end.valid(),
        coordinate.valid(),
    ensures
        r as nat == perpendicular_novelty_spec(*start, *coordinate, *end),
{
    let line_vector = end.minus(start);
    let point_vector = coordinate.minus(start);
    proof {
        lemma_cross_spec_bound(line_vector.triple(), point_vector.triple(), 2097152int);
        lemma_norm_sq_spec_bound(line_vector.triple(), 2097152int);
        lemma_norm_sq_spec_bound(point_vector.triple(), 2097152int);
        lemma_norm_sq_spec_bound(
            cross_spec(line_vector.triple(), point_vector.triple()),
            8796093022208int,
        );
    }
    let cross = line_vector.cross_product(&point_vector);
    let line_norm_sq = line_vector.norm_sq();
    if line_norm_sq == 0 {
        let point_norm_sq = point_vector.norm_sq();
        proof {
            crate::coordinate::lemma_scale_no_overflow(point_norm_sq as int);
        }
        isqrt(point_norm_sq * SCALE as u128 * SCALE as u128)
    } else {
        let cross_norm_sq = cross.norm_sq();
        proof {
            crate::coordinate::lemma_scale_no_overflow(cross_norm_sq as int);
        }
        isqrt(cross_norm_sq * SCALE as u128 * SCALE as u128 / line_norm_sq)
    }
}

/// Computes the area of the triangle formed by three coordinates, as a
/// fixed-point area scaled by [`SCALE`].
pub fn triangle_area(a: &Coordinate, b: &Coordinate, c: &Coordinate) -> (r: u64)
    requires
        a.valid(),
        b.valid(),
        c.valid(),
    ensures
        r as nat == triangle_area_novelty_spec(*a, *b, *c),
{
    let ab = b.minus(a);
    let ac = c.minus(a);
    proof {
        lemma_cross_spec_bound(ab.triple(), ac.triple(), 2097152int);
        lemma_norm_sq_spec_bound(cross_spec(ab.triple(), ac.triple()), 8796093022208int);
    }
    let cross = ab.cross_product(&ac);
    let cross_norm_sq = cross.norm_sq();
    proof {
        crate::coordinate::lemma_scale_no_overflow(cross_norm_sq as int);
    }
    isqrt(cross_norm_sq * SCALE as u128 * SCALE as u128) / 2
}

/// A measure of how novel one candidate sample is relative to the two
/// anchors of its segment: a pure, exact function of the three coordinates.
pub trait NoveltyMeasure {
    /// The measured fixed-point importance of `candidate` between the
    /// anchors `start` and `end`.
    spec fn novelty_spec(start: Coordinate, candidate: Coordinate, end: Coordinate) -> nat;

    /// Computes the measure.
    fn calculate_novelty(start: &Coordinate, candidate: &Coordinate, end: &Coordinate) -> (r:
        u64)
        requires
            start.valid(),
            candidate.valid(),
            end.valid(),
        ensures
            r as nat == Self::novelty_spec(*start, *candidate, *end),
    ;
}

/// The classical path-simplification measure: perpendicular distance from
/// the candidate to the chord.
pub struct PerpendicularDistance;

impl NoveltyMeasure for PerpendicularDistance {
    open spec fn novelty_spec(start: Coordinate, candidate: Coordinate, end: Coordinate) -> nat {
        perpendicular_novelty_spec(start, candidate, end)
    }

    fn calculate_novelty(start: &Coordinate, candidate: &Coordinate, end: &Coordinate) -> u64 {
        distance_from_line(start, end, candidate)
    }
}

/// An area-based measure: rewards candidates that span a large triangle
/// with the anchors rather than a pure perpendicular offset.
pub struct TriangleArea;

impl NoveltyMeasure for TriangleArea {
    open spec fn novelty_spec(start: Coordinate, candidate: Coordinate, end: Coordinate) -> nat {
        triangle_area_novelty_spec(start, candidate, end)
    }

    fn calculate_novelty(start: &Coordinate, candidate: &Coordinate, end: &Coordinate) -> u64 {
        triangle_area(start, candidate, end)
    }
}

/// All samples of a run have coordinates the geometry can handle.
pub open spec fn segment_coordinates_valid(seg: Seq<Datum>) -> bool {
    forall|i: int| 0 <= i < seg.len() ==> (#[trigger] seg[i]).coordinate.valid()
}

/// The most novel interior candidate among the first `k` interior samples
/// of the run, judging by measure `T` and preferring the leftmost maximum.
///
/// The result is the candidate itself, its measured importance, and its
/// position within the run.
pub open spec fn rdp_best_spec<T: NoveltyMeasure>(seg: Seq<Datum>, k: int) -> (Datum, u64, usize)
    decreases k,
{
    let dk = T::novelty_spec(
        seg[0].coordinate,
        seg[k].coordinate,
        seg[seg.len() - 1].coordinate,
    ) as u64;
    if k <= 1 {
        (seg[1], dk, 1usize)
    } else {
        let prev = rdp_best_spec::<T>(seg, k - 1);
        if dk > prev.1 {
            (seg[k], dk, k as usize)
        } else {
            prev
        }
    }
}

/// What `rdp_generic` returns: nothing for a run too short to have an
/// interior, otherwise the leftmost most-novel interior candidate.
pub open spec fn rdp_spec<T: NoveltyMeasure>(seg: Seq<Datum>) -> Option<(Datum, u64, usize)> {
    if seg.len() < 3 {
        None
    } else {
        Some(rdp_best_spec::<T>(seg, seg.len() - 2))
    }
}

/// Finds the most novel interior sample of a run under measure `T`.
///
/// Returns `None` exactly when the run has fewer than 3 samples. Otherwise
/// returns the interior sample of greatest measured importance (the
/// leftmost of them when the maximum is not unique), its importance, and
/// its position within the run.
pub fn rdp_generic<T: NoveltyMeasure>(segment: &[Datum]) -> (r: Option<(Datum, u64, usize)>)
    requires
        segment_coordinates_valid(segment@),
    ensures
        r == rdp_spec::<T>(segment@),
        r is Some <==> segment@.len() >= 3,
        (r matches Some((datum, distance, index)) ==> {
            &&& 1 <= index < segment@.len() - 1
            &&& datum == segment@[index as int]
            &&& distance as nat == T::novelty_spec(
                segment@[0].coordinate,
                datum.coordinate,
                segment@[segment@.len() - 1].coordinate,
            )
            &&& forall|j: int|
                1 <= j < segment@.len() - 1 ==> T::novelty_spec(
                    segment@[0].coordinate,
                    (#[trigger] segment@[j]).coordinate,
                    segment@[segment@.len() - 1].coordinate,
                ) <= distance
        }),
{
    let n = segment.len();
    if n < 3 {
        return None;
    }
    let start = *slice_index_get(segment, 0);
    let end = *slice_index_get(segment, n - 1);
    let first = *slice_index_get(segment, 1);
    let mut best_datum: Datum = first;
    let mut best_distance: u64 = T::calculate_novelty(
        &start.coordinate,
        &first.coordinate,
        &end.coordinate,
    );
    let mut best_index: usize = 1;
    let mut i: usize = 2;
    while i < n - 1
        invariant
            segment_coordinates_valid(segment@),
            segment@.len() == n,
            3 <= n,
            2 <= i <= n - 1,
            start == segment@[0],
            end == segment@[n - 1],
            (best_datum, best_distance, best_index) == rdp_best_spec::<T>(segment@, i - 1),
            1 <= best_index < i,
            best_datum == segment@[best_index as int],
            best_distance as nat == T::novelty_spec(
                segment@[0].coordinate,
                best_datum.coordinate,
                segment@[n - 1].coordinate,
            ),
            forall|j: int|
                1 <= j < i ==> T::novelty_spec(
                    segment@[0].coordinate,
                    (#[trigger] segment@[j]).coordinate,
                    segment@[n - 1].coordinate,
                ) <= best_distance,
        decreases n - i,
    {
        let candidate = *slice_index_get(segment, i);
        let distance = T::calculate_novelty(
            &start.coordinate,
            &candidate.coordinate,
            &end.coordinate,
        );
        if distance > best_distance {
            best_datum = candidate;
            best_distance = distance;
            best_index = i;
        }
        i = i + 1;
    }
    Some((best_datum, best_distance, best_index))
}

/// A strategy for picking the most novel interior sample of a segment.
///
/// The search engine depends only on this capability, never on a concrete
/// measure; swap in a different implementation to change how geometric
/// importance is judged.
pub trait GeometricNovelty {
    /// What the strategy picks on a given run of samples.
    spec fn most_novel_spec(&self, segment: Seq<Datum>) -> Option<(Datum, u64, usize)>;

    /// Picks the most novel interior sample of the run, returning it with
    /// its measured importance and its position within the run. Returns
    /// `None` exactly when the run is too short to have an interior.
    fn most_novel_coordinate(&self, segment: &[Datum]) -> (r: Option<(Datum, u64, usize)>)
        requires
            segment_coordinates_valid(segment@),
        ensures
            r == self.most_novel_spec(segment@),
            r is Some <==> segment@.len() >= 3,
            (r matches Some((datum, distance, index)) ==> 1 <= index < segment@.len() - 1
                && datum == segment@[index as int]),
    ;
}

impl GeometricNovelty for PerpendicularDistance {
    open spec fn most_novel_spec(&self, segment: Seq<Datum>) -> Option<(Datum, u64, usize)> {
        rdp_spec::<PerpendicularDistance>(segment)
    }

    fn most_novel_coordinate(&self, segment: &[Datum]) -> Option<(Datum, u64, usize)> {
        rdp_generic::<PerpendicularDistance>(segment)
    }
}

impl GeometricNovelty for TriangleArea {
    open spec fn most_novel_spec(&self, segment: Seq<Datum>) -> Option<(Datum, u64, usize)> {
        rdp_spec::<TriangleArea>(segment)
    }

    fn most_novel_coordinate(&self, segment: &[Datum]) -> Option<(Datum, u64, usize)> {
        rdp_generic::<TriangleArea>(segment)
    }
}

/// One pending unit of search work: a segment of the series, its most novel
/// interior sample, that sample's measured importance, and its position
/// within the segment's run.
#[derive(Clone, Copy, Debug)]
pub struct HeapEntry<'a> {
    /// The segment still awaiting expansion.
    pub segment: Segment<'a, Datum>,
    /// The most novel interior sample of `segment`.
    pub datum: Datum,
    /// The measured geometric importance of `datum` within `segment`.
    pub distance: u64,
    /// The position of `datum` within the run `segment` spans.
    pub index: usize,
}

/// The position, among the first `k` entries, of the entry with the greatest
/// distance; the earliest such entry when the maximum is not unique.
pub open spec fn max_entry_upto(s: Seq<HeapEntry>, k: int) -> int
    decreases k,
{
    if k <= 1 {
        0
    } else {
        let p = max_entry_upto(s, k - 1);
        if s[k - 1].distance > s[p].distance {
            k - 1
        } else {
            p
        }
    }
}

/// The position of the pending entry that `pop` removes: the earliest entry
/// of greatest distance.
pub open spec fn max_entry_index(s: Seq<HeapEntry>) -> int {
    max_entry_upto(s, s.len() as int)
}

/// `max_entry_upto` points at an entry whose distance no earlier entry
/// exceeds.
pub proof fn lemma_max_entry_upto_props(s: Seq<HeapEntry>, k: int)
    requires
        1 <= k <= s.len(),
    ensures
        0 <= max_entry_upto(s, k) < k,
        forall|j: int| 0 <= j < k ==> (#[trigger] s[j]).distance <= s[max_entry_upto(s, k)].distance,
    decreases k,
{
    if k > 1 {
        lemma_max_entry_upto_props(s, k - 1);
    }
}

/// A queue of pending search work, served most-geometrically-novel first.
///
/// Replaces a binary heap with a plain vector: `push` appends and `pop`
/// removes the earliest entry of greatest distance, so the order served is
/// deterministic even among ties.
#[derive(Debug)]
pub struct MaxHeap<'a> {
    entries: Vec<HeapEntry<'a>>,
}

impl<'a> View for MaxHeap<'a> {
    type V = Seq<HeapEntry<'a>>;

    closed spec fn view(&self) -> Seq<HeapEntry<'a>> {
        self.entries@
    }
}

impl<'a> Default for MaxHeap<'a> {
    /// An empty queue.
    fn default() -> (r: Self)
        ensures
            r@ == Seq::<HeapEntry<'a>>::empty(),
    {
        Self { entries: Vec::new() }
    }
}

impl<'a> MaxHeap<'a> {
    /// Creates an empty queue.
    pub fn new() -> (r: Self)
        ensures
            r@ == Seq::<HeapEntry<'a>>::empty(),
    {
        Self { entries: Vec::new() }
    }

    /// How many units of work are pending.
    pub fn len(&self) -> (r: usize)
        ensures
            r == self@.len(),
    {
        self.entries.len()
    }

    /// Queues one unit of search work.
    pub fn push(&mut self, segment: Segment<'a, Datum>, datum: Datum, distance: u64, index: usize)
        ensures
            final(self)@ == old(self)@.push(HeapEntry { segment, datum, distance, index }),
    {
        self.entries.push(HeapEntry { segment, datum, distance, index });
    }

    /// Removes and returns the pending entry of greatest distance, or
    /// `None` when no work is pending. Among entries of equal distance the
    /// earliest queued is served first.
    pub fn pop(&mut self) -> (r: Option<(Segment<'a, Datum>, Datum, u64, usize)>)
        ensures
            old(self)@.len() == 0 ==> r is None && final(self)@ == old(self)@,
            old(self)@.len() > 0 ==> {
                let at = max_entry_index(old(self)@);
                let e = old(self)@[at];
                &&& r == Some((e.segment, e.datum, e.distance, e.index))
                &&& final(self)@ == old(self)@.remove(at)
                &&& forall|j: int|
                    0 <= j < old(self)@.len() ==> (#[trigger] old(self)@[j]).distance
                        <= e.distance
            },
    {
        let n = self.entries.len();
        if n == 0 {
            return None;
        }
        let mut best: usize = 0;
        let mut i: usize = 1;
        while i < n
            invariant
                self@.len() == n,
                1 <= i <= n,
                0 <= best < i,
                best == max_entry_upto(self@, i as int),
            decreases n - i,
        {
            if self.entries[i].distance > self.entries[best].distance {
                best = i;
            }
            i = i + 1;
        }
        proof {
            lemma_max_entry_upto_props(self@, n as int);
        }
        let entry = self.entries.remove(best);
        Some((entry.segment, entry.datum, entry.distance, entry.index))
    }
}

/// The standard simplification search: most novel interior sample by
/// perpendicular distance.
pub fn rdp(segment: &[Datum]) -> (r: Option<(Datum, u64, usize)>)
    requires
        segment_coordinates_valid(segment@),
    ensures
        r == rdp_spec::<PerpendicularDistance>(segment@),
{
    rdp_generic::<PerpendicularDistance>(segment)
}

/// The area-based simplification search: most novel interior sample by
/// triangle area.
pub fn rdp_area(segment: &[Datum]) -> (r: Option<(Datum, u64, usize)>)
    requires
        segment_coordinates_valid(segment@),
    ensures
        r == rdp_spec::<TriangleArea>(segment@),
{
    rdp_generic::<TriangleArea>(segment)
}


/// On three colinear points both measures vanish.
///
/// Colinearity is expressed exactly: the displacement from `start` to
/// `candidate` is parallel to the chord from `start` to `end`, that is,
/// their cross product is the zero vector. The triangle-area measure is then
/// exactly 0, and the perpendicular-distance measure is exactly 0 whenever
/// the chord is not degenerate (the degenerate case measures the distance to
/// the coincident anchors instead).
pub proof fn lemma_colinear_measures_zero(
    start: Coordinate,
    candidate: Coordinate,
    end: Coordinate,
)
    requires
        cross_spec(displacement_spec(start, end), displacement_spec(start, candidate)) == (
            0int,
            0int,
            0int,
        ),
    ensures
        norm_sq_spec(displacement_spec(start, end)) != 0 ==> perpendicular_novelty_spec(
            start,
            candidate,
            end,
        ) == 0,
        triangle_area_novelty_spec(start, candidate, end) == 0,
{
    let line = displacement_spec(start, end);
    let offset = displacement_spec(start, candidate);
    let lsq = norm_sq_spec(line);
    assert(norm_sq_spec(cross_spec(line, offset)) == 0);
    if lsq != 0 {
        vstd::arithmetic::div_mod::lemma_div_of0(lsq);
        assert(sqrt_floor(0) == 0);
        assert(perpendicular_novelty_spec(start, candidate, end) == 0);
    }
    assert(cross_spec(offset, line) == (0int, 0int, 0int)) by (nonlinear_arith)
        requires
            cross_spec(line, offset) == (0int, 0int, 0int);
    assert(norm_sq_spec(cross_spec(offset, line)) == 0);
    assert(sqrt_floor(0) == 0);
    assert(triangle_area_novelty_spec(start, candidate, end) == 0);
}

/// Two scalar multiples of one direction vector have a vanishing cross
/// product: sample points laid out along a single line are colinear in the
/// sense of [`lemma_colinear_measures_zero`].
pub proof fn lemma_scaled_direction_cross_zero(d: (int, int, int), s: int, t: int)
    ensures
        cross_spec((s * d.0, s * d.1, s * d.2), (t * d.0, t * d.1, t * d.2)) == (
            0int,
            0int,
            0int,
        ),
{
    assert(cross_spec((s * d.0, s * d.1, s * d.2), (t * d.0, t * d.1, t * d.2)) == (
        0int,
        0int,
        0int,
    )) by (nonlinear_arith);
}

} // verus!
