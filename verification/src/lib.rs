//! Sharing positional data between nodes in a network over extremely limited
//! bandwidth.
//!
//! The library decides, for a time-ordered series of 3D position samples and a
//! specific recipient, which bounded subset of samples is most valuable to
//! transmit next. Value ("novelty") combines how much a sample geometrically
//! distinguishes the path from a straight-line simplification with the
//! estimated probability that the recipient does not already have the sample.
//!
//! All arithmetic is exact: coordinates are fixed-point integers, distances
//! are scaled integers produced by an integer square root, and probabilities
//! are integer fractions of a fixed maximum. This makes every comparison
//! drift-free and the ranking a genuine total order.

use vstd::prelude::*;

mod coordinate;
mod geometric_novelty;
mod math;
mod novelty;
mod positions;
mod probability;
mod search_strategy;
mod segment;
mod transmission_history;

pub use coordinate::cross_spec;
pub use coordinate::norm_sq_spec;
pub use coordinate::Coordinate;
pub use coordinate::Vector;
pub use coordinate::COORD_LIMIT;
pub use coordinate::CROSS_INPUT_LIMIT;
pub use coordinate::MAGNITUDE_LIMIT;
pub use coordinate::SCALE;
pub use geometric_novelty::displacement_spec;
pub use geometric_novelty::distance_from_line;
pub use geometric_novelty::lemma_colinear_measures_zero;
pub use geometric_novelty::lemma_scaled_direction_cross_zero;
pub use geometric_novelty::max_entry_index;
pub use geometric_novelty::max_entry_upto;
pub use geometric_novelty::perpendicular_novelty_spec;
pub use geometric_novelty::rdp_best_spec;
pub use geometric_novelty::rdp_spec;
pub use geometric_novelty::segment_coordinates_valid;
pub use geometric_novelty::triangle_area_novelty_spec;
pub use geometric_novelty::rdp;
pub use geometric_novelty::rdp_area;
pub use geometric_novelty::rdp_generic;
pub use geometric_novelty::triangle_area;
pub use geometric_novelty::GeometricNovelty;
pub use geometric_novelty::HeapEntry;
pub use geometric_novelty::MaxHeap;
pub use geometric_novelty::NoveltyMeasure;
pub use geometric_novelty::PerpendicularDistance;
pub use geometric_novelty::TriangleArea;
pub use math::lemma_sqrt_floor_bounds;
pub use math::lemma_sqrt_floor_unique;
pub use math::sqrt_floor;
pub use novelty::lemma_novelty_order_total;
pub use novelty::lemma_novelty_order_trans;
pub use novelty::Novelty;
pub use positions::distinct_ids;
pub use positions::sorted_by_key;
pub use positions::Datum;
pub use positions::Positions;
pub use probability::lemma_centipercent_round_trip;
pub use probability::lemma_complement_extremes;
pub use probability::lemma_complement_involution;
pub use probability::Probability;
pub use search_strategy::chord_novelty_spec;
pub use search_strategy::children_of;
pub use search_strategy::initial_queue;
pub use search_strategy::insert_pos;
pub use search_strategy::insert_spec;
pub use search_strategy::lemma_search_idempotent;
pub use search_strategy::novelty_ordered;
pub use search_strategy::run_search;
pub use search_strategy::search_result_spec;
pub use search_strategy::seeded_items;
pub use search_strategy::task_max_index;
pub use search_strategy::task_max_upto;
pub use search_strategy::task_measure;
pub use search_strategy::task_wf;
pub use search_strategy::tasks_measure;
pub use search_strategy::tasks_wf;
pub use search_strategy::Ratio;
pub use search_strategy::SegmentTask;
pub use search_strategy::Search;
pub use search_strategy::SearchStrategy;
pub use segment::Segment;
pub use transmission_history::TransmissionHistory;

verus! {

/// Identity of a network node (a recipient of position data).
///
/// Nodes are identified by opaque 128-bit values; callers that use UUIDs can
/// pass the UUID's 128-bit representation.
pub type NodeId = u128;

/// The ways a request to this library can fail.
#[derive(Clone, Copy, Debug, PartialEq, Eq, Structural)]
pub enum Error {
    /// A percentage outside the accepted range was offered as a probability.
    RangeError,
    /// A segment was requested over fewer than 3 samples, which would leave
    /// it without an interior point.
    InsufficientPoints,
    /// A search was requested over a series with no samples at all.
    EmptySeries,
}

} // verus!
