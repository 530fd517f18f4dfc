//! The time-ordered series of position samples.

use vstd::prelude::*;

use crate::coordinate::Coordinate;
use crate::geometric_novelty::segment_coordinates_valid;
use crate::novelty::Novelty;
use crate::probability::Probability;
use crate::search_strategy::novelty_ordered;
use crate::search_strategy::SearchStrategy;
use crate::transmission_history::TransmissionHistory;
use crate::Error;
use crate::NodeId;

verus! {

/// A single sample: a uniquely identified, timestamped 3D position.
///
/// Immutable once created. The canonical order of samples is by timestamp,
/// with ties broken by identity, so every series has one deterministic
/// arrangement even when timestamps collide.
#[derive(Clone, Copy, Debug, PartialEq, Eq, Structural, Hash)]
pub struct Datum {
    /// Identity of the sample, unique within its series.
    pub id: u64,
    /// When the sample was taken, in integer clock ticks of the caller's
    /// choosing.
    pub timestamp: i64,
    /// Where the tracked object was at that time.
    pub coordinate: Coordinate,
}

/// No two samples of the run share an identity.
pub open spec fn distinct_ids(s: Seq<Datum>) -> bool {
    forall|i: int, j: int| 0 <= i < j < s.len() ==> s[i].id != s[j].id
}

impl Datum {
    /// The canonical sort order: by timestamp, ties broken by identity.
    pub open spec fn key_lt(a: Datum, b: Datum) -> bool {
        a.timestamp < b.timestamp || (a.timestamp == b.timestamp && a.id < b.id)
    }
}

/// The samples stand in canonical order: ascending by timestamp, ties broken
/// by identity.
pub open spec fn sorted_by_key(s: Seq<Datum>) -> bool {
    forall|i: int, j: int|
        #![trigger s[i], s[j]]
        0 <= i < j < s.len() ==> Datum::key_lt(s[i], s[j])
}

/// The long-lived store of samples: an ordered series plus the transmission
/// history consulted when searching.
///
/// The view of a `Positions` value is its sample sequence in canonical
/// order. Identities are assigned by the store itself and are unique.
#[derive(Debug, Clone)]
pub struct Positions {
    data: Vec<Datum>,
    next_id: u64,
    transmission_history: TransmissionHistory,
}

impl View for Positions {
    type V = Seq<Datum>;

    closed spec fn view(&self) -> Seq<Datum> {
        self.data@
    }
}

impl Positions {
    /// Identities already handed out are all below the next fresh one.
    pub closed spec fn ids_fresh(self) -> bool {
        &&& self.next_id == self.data@.len()
        &&& forall|k: int| 0 <= k < self.data@.len() ==> (#[trigger] self.data@[k]).id
            < self.next_id
    }

    /// The store is sound: samples in canonical order, identities unique,
    /// coordinates within the exact-arithmetic range, fresh identities
    /// available.
    pub open spec fn wf(self) -> bool {
        &&& sorted_by_key(self@)
        &&& distinct_ids(self@)
        &&& segment_coordinates_valid(self@)
        &&& self.ids_fresh()
    }

    /// The transmission history the store consults when searching.
    pub closed spec fn history_spec(self) -> TransmissionHistory {
        self.transmission_history
    }

    /// Creates an empty store with an empty transmission history.
    pub fn new() -> (r: Self)
        ensures
            r.wf(),
            r@.len() == 0,
            forall|recipient: NodeId, datum_id: u64|
                (#[trigger] r.history_spec().probability_spec(recipient, datum_id)).value == 0,
    {
        Self { data: Vec::new(), next_id: 0, transmission_history: TransmissionHistory::new() }
    }

    /// How many samples the store holds.
    pub fn len(&self) -> (r: usize)
        ensures
            r == self@.len(),
    {
        self.data.len()
    }

    /// Adds a sample, assigning it a fresh unique identity and keeping the
    /// canonical (timestamp, identity) order no matter in which order
    /// samples arrive. Returns the new identity.
    pub fn add(&mut self, timestamp: i64, coordinate: Coordinate) -> (id: u64)
        requires
            old(self).wf(),
            coordinate.valid(),
            old(self)@.len() < u64::MAX,
        ensures
            final(self).wf(),
            final(self)@.len() == old(self)@.len() + 1,
            forall|k: int| 0 <= k < old(self)@.len() ==> (#[trigger] old(self)@[k]).id != id,
            exists|pos: int|
                0 <= pos <= old(self)@.len() && final(self)@ == old(self)@.insert(
                    pos,
                    Datum { id, timestamp, coordinate },
                ),
            final(self).history_spec() == old(self).history_spec(),
    {
        let id = self.next_id;
        let datum = Datum { id, timestamp, coordinate };
        let n = self.data.len();
        let mut pos: usize = 0;
        loop
            invariant
                self == old(self),
                n == self.data@.len(),
                datum == (Datum { id, timestamp, coordinate }),
                0 <= pos <= n,
                forall|k: int| 0 <= k < pos ==> Datum::key_lt(#[trigger] self.data@[k], datum),
            ensures
                self == old(self),
                0 <= pos <= n,
                forall|k: int| 0 <= k < pos ==> Datum::key_lt(#[trigger] self.data@[k], datum),
                pos == n || !Datum::key_lt(self.data@[pos as int], datum),
            decreases n - pos,
        {
            if pos == n {
                break;
            }
            let current = self.data[pos];
            if !(current.timestamp < timestamp || (current.timestamp == timestamp && current.id
                < id)) {
                break;
            }
            pos = pos + 1;
        }
        proof {
            old(self).data@.insert_ensures(pos as int, datum);
        }
        self.data.insert(pos, datum);
        self.next_id = self.next_id + 1;
        proof {
            let new_seq = self.data@;
            assert forall|i: int, j: int|
                #![trigger new_seq[i], new_seq[j]]
                0 <= i < j < new_seq.len() implies Datum::key_lt(new_seq[i], new_seq[j]) by {
                let pi = pos as int;
                if i < pi && j < pi {
                } else if i < pi && j == pi {
                } else if i < pi && j > pi {
                    assert(new_seq[j] == old(self).data@[j - 1]);
                } else if i == pi {
                    assert(new_seq[j] == old(self).data@[j - 1]);
                    // The new key is below the key at the insertion point,
                    // which is below everything after it.
                    assert(old(self).data@[pi].id != id);
                    if j - 1 > pi {
                        assert(Datum::key_lt(old(self).data@[pi], old(self).data@[j - 1]));
                    }
                } else {
                    assert(new_seq[i] == old(self).data@[i - 1]);
                    assert(new_seq[j] == old(self).data@[j - 1]);
                }
            }
            assert forall|i: int, j: int| 0 <= i < j < new_seq.len() implies new_seq[i].id
                != new_seq[j].id by {
                let pi = pos as int;
                if i != pi && j != pi {
                    let i0 = if i < pi { i } else { i - 1 };
                    let j0 = if j < pi { j } else { j - 1 };
                    assert(new_seq[i] == old(self).data@[i0]);
                    assert(new_seq[j] == old(self).data@[j0]);
                } else if i == pi {
                    assert(new_seq[j] == old(self).data@[j - 1]);
                } else {
                    assert(new_seq[i] == old(self).data@[i]);
                }
            }
            assert forall|k: int| 0 <= k < new_seq.len() implies (
            #[trigger] new_seq[k]).coordinate.valid() by {
                let pi = pos as int;
                if k < pi {
                    assert(new_seq[k] == old(self).data@[k]);
                } else if k > pi {
                    assert(new_seq[k] == old(self).data@[k - 1]);
                }
            }
            assert forall|k: int| 0 <= k < new_seq.len() implies (#[trigger] new_seq[k]).id
                < self.next_id by {
                let pi = pos as int;
                if k < pi {
                    assert(new_seq[k] == old(self).data@[k]);
                } else if k > pi {
                    assert(new_seq[k] == old(self).data@[k - 1]);
                }
            }
            assert(final(self)@ == old(self)@.insert(pos as int, datum));
        }
        id
    }

    /// The samples whose timestamp lies in the inclusive range
    /// `[start, end]`, in canonical order.
    pub fn filter_by_time(&self, start: i64, end: i64) -> (r: Vec<Datum>)
        ensures
            r@ == self@.filter(|d: Datum| start <= d.timestamp && d.timestamp <= end),
    {
        let n = self.data.len();
        let mut out: Vec<Datum> = Vec::new();
        let mut i: usize = 0;
        proof {
            reveal(Seq::filter);
            assert(self@.take(0) =~= Seq::<Datum>::empty());
        }
        while i < n
            invariant
                n == self@.len(),
                0 <= i <= n,
                out@ == self@.take(i as int).filter(
                    |d: Datum| start <= d.timestamp && d.timestamp <= end,
                ),
            decreases n - i,
        {
            let datum = self.data[i];
            proof {
                reveal(Seq::filter);
                assert(self@.take(i + 1).drop_last() =~= self@.take(i as int));
                assert(self@.take(i + 1).last() == self@[i as int]);
            }
            if start <= datum.timestamp && datum.timestamp <= end {
                out.push(datum);
            }
            i = i + 1;
        }
        proof {
            assert(self@.take(n as int) =~= self@);
        }
        out
    }

    /// Records the estimate that `recipient` already has the sample
    /// `datum_id` with probability `probability`. The sample series itself
    /// is untouched.
    pub fn record_transmission(
        &mut self,
        recipient: NodeId,
        datum_id: u64,
        probability: Probability,
    )
        requires
            old(self).wf(),
        ensures
            final(self).wf(),
            final(self)@ == old(self)@,
            forall|r: NodeId, d: u64|
                #[trigger] final(self).history_spec().probability_spec(r, d) == if r == recipient
                    && d == datum_id {
                    probability
                } else {
                    old(self).history_spec().probability_spec(r, d)
                },
    {
        self.transmission_history.record(recipient, datum_id, probability);
    }

    /// Finds the at most `n_max` samples most worth sending to `recipient`,
    /// most novel first: the samples that best distinguish the path from a
    /// straight-line simplification, weighted by the probability that the
    /// recipient does not have them yet.
    ///
    /// Fails with [`Error::EmptySeries`] exactly when the store holds no
    /// samples at all.
    pub fn most_novel_coordinates<S: SearchStrategy>(
        &self,
        strategy: &S,
        recipient: &NodeId,
        n_max: usize,
    ) -> (r: Result<Vec<Datum>, Error>)
        requires
            self.wf(),
        ensures
            self@.len() == 0 <==> r is Err,
            (r matches Err(e) ==> e == Error::EmptySeries),
            (r matches Ok(v) ==> {
                &&& v@ == strategy.search_spec(
                    self.history_spec(),
                    self@,
                    n_max as int,
                    *recipient,
                )
                &&& v@.len() <= n_max
                &&& forall|k: int| 0 <= k < v@.len() ==> self@.contains(#[trigger] v@[k])
                &&& forall|k1: int, k2: int|
                    #![trigger v@[k1], v@[k2]]
                    0 <= k1 < k2 < v@.len() ==> v@[k1].id != v@[k2].id
                &&& exists|keys: Seq<Novelty>| novelty_ordered(keys, v@)
            }),
    {
        if self.data.len() == 0 {
            return Err(Error::EmptySeries);
        }
        let slice = self.data.as_slice();
        let out = strategy.search(&self.transmission_history, slice, n_max, recipient);
        proof {
            assert(slice@ == self@);
            assert(out@ == strategy.search_spec(
                self.history_spec(),
                self@,
                n_max as int,
                *recipient,
            ));
            assert(out@.len() <= n_max);
            assert(forall|k: int| 0 <= k < out@.len() ==> self@.contains(#[trigger] out@[k]));
            assert(forall|k1: int, k2: int|
                #![trigger out@[k1], out@[k2]]
                0 <= k1 < k2 < out@.len() ==> out@[k1].id != out@[k2].id);
            assert(exists|keys: Seq<Novelty>| novelty_ordered(keys, out@));
        }
        Ok(out)
    }
}

impl Default for Positions {
    /// An empty store with an empty transmission history.
    fn default() -> (r: Self)
        ensures
            r.wf(),
            r@.len() == 0,
            forall|recipient: NodeId, datum_id: u64|
                (#[trigger] r.history_spec().probability_spec(recipient, datum_id)).value == 0,
    {
        Self { data: Vec::new(), next_id: 0, transmission_history: TransmissionHistory::new() }
    }
}

} // verus!
