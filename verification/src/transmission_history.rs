//! Per-recipient, per-sample transmission estimates.

use vstd::prelude::*;

use crate::probability::Probability;
use crate::NodeId;

verus! {

/// The first recorded probability for the pair, or 0% when the pair was
/// never recorded. Later records are prepended, so they shadow earlier ones.
spec fn lookup(entries: Seq<(NodeId, u64, Probability)>, recipient: NodeId, datum_id: u64)
    -> Probability
    decreases entries.len(),
{
    if entries.len() == 0 {
        Probability { value: 0 }
    } else if entries[0].0 == recipient && entries[0].1 == datum_id {
        entries[0].2
    } else {
        lookup(entries.drop_first(), recipient, datum_id)
    }
}

/// If no entry among the first `i` matches the pair, the lookup result is
/// decided by the remaining entries.
proof fn lemma_lookup_skip(
    entries: Seq<(NodeId, u64, Probability)>,
    recipient: NodeId,
    datum_id: u64,
    i: int,
)
    requires
        0 <= i <= entries.len(),
        forall|j: int|
            0 <= j < i ==> !((#[trigger] entries[j]).0 == recipient && entries[j].1 == datum_id),
    ensures
        lookup(entries.skip(i), recipient, datum_id) == lookup(entries, recipient, datum_id),
    decreases i,
{
    if i > 0 {
        assert(!(entries[0].0 == recipient && entries[0].1 == datum_id));
        assert(entries.drop_first() =~= entries.skip(1));
        assert(forall|j: int|
            0 <= j < i - 1 ==> #[trigger] entries.skip(1)[j] == entries[j + 1]);
        lemma_lookup_skip(entries.skip(1), recipient, datum_id, i - 1);
        assert(entries.skip(1).skip(i - 1) =~= entries.skip(i));
    } else {
        assert(entries.skip(0) =~= entries);
    }
}

/// What each recipient is estimated to already have.
///
/// Records, for a recipient and a sample, the probability that the sample
/// has already reached that recipient. A pair that was never recorded is
/// estimated at exactly 0%: the sample is assumed not transmitted. The core
/// search only reads the history; recording is left to an external
/// acknowledgment or loss-estimation mechanism.
#[derive(Debug, Clone)]
pub struct TransmissionHistory {
    entries: Vec<(NodeId, u64, Probability)>,
}

impl Default for TransmissionHistory {
    /// A history with nothing recorded.
    fn default() -> (r: Self)
        ensures
            forall|recipient: NodeId, datum_id: u64|
                (#[trigger] r.probability_spec(recipient, datum_id)).value == 0,
    {
        Self { entries: Vec::new() }
    }
}

impl TransmissionHistory {
    /// What the history answers for a recipient and a sample: the recorded
    /// probability, or exactly 0% for a pair never recorded.
    pub closed spec fn probability_spec(self, recipient: NodeId, datum_id: u64) -> Probability {
        lookup(self.entries@, recipient, datum_id)
    }

    /// Creates a history with nothing recorded.
    pub fn new() -> (r: Self)
        ensures
            forall|recipient: NodeId, datum_id: u64|
                (#[trigger] r.probability_spec(recipient, datum_id)).value == 0,
    {
        Self { entries: Vec::new() }
    }

    /// The probability that `recipient` already has the sample `datum_id`.
    ///
    /// Exactly 0% for any pair that was never recorded.
    pub fn probability_recipient_has_datum(&self, recipient: &NodeId, datum_id: &u64) -> (r:
        Probability)
        ensures
            r == self.probability_spec(*recipient, *datum_id),
    {
        let n = self.entries.len();
        let mut i: usize = 0;
        while i < n
            invariant
                n == self.entries@.len(),
                0 <= i <= n,
                forall|j: int|
                    0 <= j < i ==> !((#[trigger] self.entries@[j]).0 == *recipient
                        && self.entries@[j].1 == *datum_id),
            decreases n - i,
        {
            let entry = self.entries[i];
            if entry.0 == *recipient && entry.1 == *datum_id {
                proof {
                    lemma_lookup_skip(self.entries@, *recipient, *datum_id, i as int);
                    assert(self.entries@.skip(i as int)[0] == self.entries@[i as int]);
                }
                return entry.2;
            }
            i = i + 1;
        }
        proof {
            lemma_lookup_skip(self.entries@, *recipient, *datum_id, n as int);
            assert(self.entries@.skip(n as int) =~= Seq::<(NodeId, u64, Probability)>::empty());
        }
        Probability::zero()
    }

    /// Records the estimate that `recipient` has the sample `datum_id` with
    /// probability `probability`, superseding any earlier estimate for the
    /// pair and leaving every other pair unchanged.
    pub fn record(&mut self, recipient: NodeId, datum_id: u64, probability: Probability)
        ensures
            forall|r: NodeId, d: u64|
                #[trigger] final(self).probability_spec(r, d) == if r == recipient && d
                    == datum_id {
                    probability
                } else {
                    old(self).probability_spec(r, d)
                },
    {
        self.entries.insert(0, (recipient, datum_id, probability));
        proof {
            assert(self.entries@.drop_first() =~= old(self).entries@);
        }
    }
}

} // verus!
