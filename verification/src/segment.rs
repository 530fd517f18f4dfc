//! Non-owning views over a contiguous run of samples.
//!
//! A segment borrows a run of at least three samples: a `start` anchor, a
//! non-empty `middle` of interior candidates, and an `end` anchor. Splitting
//! a segment at an interior position yields up to two shorter segments that
//! share the split sample as their new boundary anchor; a side that would be
//! left without an interior is omitted.

use vstd::prelude::*;
use vstd::slice::slice_index_get;
use vstd::slice::slice_subrange;

use crate::Error;

verus! {

/// A non-owning view over a contiguous run of at least three samples.
#[derive(Clone, Copy, Debug, PartialEq, Eq)]
pub struct Segment<'a, T> {
    data: &'a [T],
}

impl<'a, T> View for Segment<'a, T> {
    type V = Seq<T>;

    closed spec fn view(&self) -> Seq<T> {
        self.data@
    }
}

impl<'a, T> Segment<'a, T> {
    /// A segment always spans at least three samples, so its interior is
    /// never empty.
    pub open spec fn wf(self) -> bool {
        self@.len() >= 3
    }

    /// Wraps a run of samples as a segment.
    ///
    /// Fails with [`Error::InsufficientPoints`] exactly when the run has
    /// fewer than 3 samples, which would leave the segment without an
    /// interior point.
    pub fn try_from(data: &'a [T]) -> (r: Result<Self, Error>)
        ensures
            data@.len() >= 3 <==> r is Ok,
            (r matches Ok(s) ==> s@ == data@ && s.wf()),
            (r matches Err(e) ==> e == Error::InsufficientPoints),
    {
        if data.len() < 3 {
            Err(Error::InsufficientPoints)
        } else {
            Ok(Self { data })
        }
    }

    /// The first sample of the segment.
    pub fn start(&self) -> (r: &'a T)
        requires
            self.wf(),
        ensures
            *r == self@[0],
    {
        slice_index_get(self.data, 0)
    }

    /// The interior samples, in order: everything but the two anchors.
    pub fn middle(&self) -> (r: &'a [T])
        requires
            self.wf(),
        ensures
            r@ == self@.subrange(1, self@.len() - 1),
    {
        slice_subrange(self.data, 1, self.data.len() - 1)
    }

    /// The last sample of the segment.
    pub fn end(&self) -> (r: &'a T)
        requires
            self.wf(),
        ensures
            *r == self@[self@.len() - 1],
    {
        slice_index_get(self.data, self.data.len() - 1)
    }

    /// The whole run the segment spans, anchors included.
    pub fn as_slice(&self) -> (r: &'a [T])
        ensures
            r@ == self@,
    {
        self.data
    }

    /// Splits the segment at position `index` of the spanned run.
    ///
    /// The sample at `index` becomes the end anchor of the left result and
    /// the start anchor of the right result, so both remain simplifications
    /// whose boundaries are real samples. A side whose interior would be
    /// empty is omitted: the left side exactly when `index < 2`, the right
    /// side exactly when `index > len - 3`.
    ///
    /// Splitting at a position outside the spanned run is a programming
    /// error, which the precondition rules out.
    pub fn split_at(self, index: usize) -> (r: (Option<Self>, Option<Self>))
        requires
            self.wf(),
            index < self@.len(),
        ensures
            r.0 is Some <==> index >= 2,
            r.1 is Some <==> index + 3 <= self@.len(),
            (r.0 matches Some(s) ==> s@ == self@.subrange(0, index + 1) && s.wf()),
            (r.1 matches Some(s) ==> s@ == self@.subrange(index as int, self@.len() as int)
                && s.wf()),
    {
        let n = self.data.len();
        assert(index + 1 <= n);
        let left = slice_subrange(self.data, 0, index + 1);
        let right = slice_subrange(self.data, index, n);
        let left_segment = match Self::try_from(left) {
            Ok(s) => Some(s),
            Err(_) => None,
        };
        let right_segment = match Self::try_from(right) {
            Ok(s) => Some(s),
            Err(_) => None,
        };
        (left_segment, right_segment)
    }
}

} // verus!
