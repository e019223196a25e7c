//! Runs of binomial samples from consecutive pseudorandom streams.

use vstd::prelude::*;

use super::binomial::cbd_spec;
use crate::algebraic::{RqElement, RqVector};
use crate::functions::{prf_spec, PRF_x2, PRF_x4, PrfBatch, PrfOutput, PRF};
use crate::parameters::{Eta, ParameterSet};
use crate::wipe::wipe_bytes;

verus! {

/// The noise element of a seed and a stream number.
pub open spec fn noise_spec(eta: Eta, seed: Seq<u8>, stream: int) -> Seq<int> {
    cbd_spec(eta, prf_spec(eta, seed, (stream % 256) as u8))
}

/// The noise elements of `count` consecutive streams from stream `first` on.
pub open spec fn noise_vector(eta: Eta, seed: Seq<u8>, first: int, count: nat) -> Seq<Seq<int>> {
    Seq::new(count, |i: int| noise_spec(eta, seed, first + i))
}

/// The streams of one squeeze, as many as were worth squeezing together.
pub enum PrfLanes {
    /// Four streams.
    Four(PrfBatch<4>),
    /// Two streams.
    Two(PrfBatch<2>),
    /// One stream.
    One(PrfOutput),
}

impl PrfLanes {
    /// How many streams there are.
    pub open spec fn count(&self) -> int {
        match self {
            PrfLanes::Four(_) => 4,
            PrfLanes::Two(_) => 2,
            PrfLanes::One(_) => 1,
        }
    }

    /// The bytes of a stream.
    pub open spec fn lane_view(&self, i: int) -> Seq<u8> {
        match self {
            PrfLanes::Four(batch) => batch.lane_view(i),
            PrfLanes::Two(batch) => batch.lane_view(i),
            PrfLanes::One(output) => output@,
        }
    }

    /// How many streams there are.
    pub fn len(&self) -> (r: usize)
        ensures
            r == self.count(),
    {
        match self {
            PrfLanes::Four(_) => 4,
            PrfLanes::Two(_) => 2,
            PrfLanes::One(_) => 1,
        }
    }

    /// The bytes of stream `index`.
    pub fn lane(&self, index: usize) -> (r: &[u8])
        requires
            index < self.count(),
        ensures
            r@ == self.lane_view(index as int),
    {
        match self {
            PrfLanes::Four(batch) => batch.lane(index),
            PrfLanes::Two(batch) => batch.lane(index),
            PrfLanes::One(output) => output.as_slice(),
        }
    }
}

/// A sampler that yields the noise elements of a run of consecutive streams.
///
/// The number of streams is given at the start, so that every squeeze can be as
/// wide as the streams that are left allow.
pub struct CbdSampler {
    eta: Eta,
    seed: [u8; 32],
    next: u8,
    remaining: u8,
    batch: PrfLanes,
    taken: usize,
}

impl CbdSampler {
    /// The streams that are held are those before the next squeeze.
    pub closed spec fn well_formed(&self) -> bool {
        &&& self.taken <= self.batch.count()
        &&& forall|i: int|
            0 <= i < self.batch.count() ==> #[trigger] self.batch.lane_view(i) == prf_spec(
                self.eta,
                self.seed@,
                ((self.next - self.batch.count() + i) % 256) as u8,
            )
    }

    /// The parameter of the distribution.
    pub closed spec fn eta(&self) -> Eta {
        self.eta
    }

    /// The seed of the streams.
    pub closed spec fn seed(&self) -> Seq<u8> {
        self.seed@
    }

    /// The stream whose element is yielded next.
    pub closed spec fn position(&self) -> int {
        (self.next - self.batch.count() + self.taken) % 256
    }

    /// How many streams are left.
    pub closed spec fn remaining(&self) -> int {
        self.remaining as int
    }

    /// Starts a run of `count` streams from stream `first` on.
    pub fn new(eta: Eta, seed: &[u8; 32], first: u8, count: u8) -> (r: Self)
        ensures
            r.well_formed(),
            r.eta() == eta,
            r.seed() == seed@,
            r.position() == first,
            r.remaining() == count,
    {
        let batch: PrfLanes = Self::squeeze(eta, seed, first, count);
        let next: u8 = first.wrapping_add(batch.len() as u8);
        let r: Self = CbdSampler { eta, seed: *seed, next, remaining: count, batch, taken: 0 };
        proof {
            assert forall|i: int|
                0 <= i < r.batch.count() implies #[trigger] r.batch.lane_view(i) == prf_spec(
                eta,
                seed@,
                ((r.next - r.batch.count() + i) % 256) as u8,
            ) by {
                assert((r.next - r.batch.count() + i) % 256 == (first + i) % 256);
            }
        }
        r
    }

    /// Squeezes as many streams at once as are worth it: three streams are left
    /// to a squeeze of four.
    fn squeeze(eta: Eta, seed: &[u8; 32], b: u8, remaining: u8) -> (r: PrfLanes)
        ensures
            r.count() == if remaining <= 1 {
                1int
            } else if remaining == 2 {
                2
            } else {
                4
            },
            forall|i: int|
                0 <= i < r.count() ==> #[trigger] r.lane_view(i) == prf_spec(
                    eta,
                    seed@,
                    ((b + i) % 256) as u8,
                ),
    {
        if remaining <= 1 {
            PrfLanes::One(PRF(eta, seed, b))
        } else if remaining == 2 {
            PrfLanes::Two(PRF_x2(eta, seed, b))
        } else {
            PrfLanes::Four(PRF_x4(eta, seed, b))
        }
    }

    /// Samples the element of the next stream.
    pub fn sample_element(&mut self) -> (r: RqElement)
        requires
            old(self).well_formed(),
            old(self).remaining() > 0,
        ensures
            final(self).well_formed(),
            final(self).eta() == old(self).eta(),
            final(self).seed() == old(self).seed(),
            final(self).position() == (old(self).position() + 1) % 256,
            final(self).remaining() == old(self).remaining() - 1,
            r@ == noise_spec(old(self).eta(), old(self).seed(), old(self).position()),
            r.bounded(3),
    {
        let ghost position = self.position();
        if self.taken == self.batch.len() {
            let first: u8 = self.next;
            self.batch = Self::squeeze(self.eta, &self.seed, first, self.remaining);
            self.next = first.wrapping_add(self.batch.len() as u8);
            self.taken = 0;
            proof {
                assert forall|i: int|
                    0 <= i < self.batch.count() implies #[trigger] self.batch.lane_view(i)
                    == prf_spec(
                    self.eta,
                    self.seed@,
                    ((self.next - self.batch.count() + i) % 256) as u8,
                ) by {
                    assert((self.next - self.batch.count() + i) % 256 == (first + i) % 256);
                }
            }
        }
        assert(self.position() == position);
        let lane: &[u8] = self.batch.lane(self.taken);
        let r: RqElement = RqElement::sample_cbd(self.eta, lane);
        self.taken = self.taken + 1;
        self.remaining = self.remaining - 1;
        r
    }

    /// Samples the elements of the next `K` streams.
    pub fn sample_vector<P: ParameterSet>(&mut self) -> (r: RqVector<P>)
        requires
            old(self).well_formed(),
            old(self).remaining() >= P::K,
        ensures
            final(self).well_formed(),
            final(self).eta() == old(self).eta(),
            final(self).seed() == old(self).seed(),
            final(self).position() == (old(self).position() + P::K) % 256,
            final(self).remaining() == old(self).remaining() - P::K,
            r@ == noise_vector(
                old(self).eta(),
                old(self).seed(),
                old(self).position(),
                P::K as nat,
            ),
            r.bounded(3),
    {
        let ghost start = *self;
        let mut polys: Vec<RqElement> = Vec::new();
        let mut i: usize = 0;
        while i < P::K
            invariant
                i <= P::K,
                start.remaining() >= P::K,
                self.well_formed(),
                self.eta() == start.eta(),
                self.seed() == start.seed(),
                self.position() == (start.position() + i) % 256,
                self.remaining() == start.remaining() - i,
                polys@.len() == i,
                forall|k: int|
                    0 <= k < i ==> (#[trigger] polys@[k])@ == noise_spec(
                        start.eta(),
                        start.seed(),
                        start.position() + k,
                    ) && polys@[k].bounded(3),
            decreases P::K - i,
        {
            let element: RqElement = self.sample_element();
            polys.push(element);
            i = i + 1;
        }
        let r: RqVector<P> = RqVector::from_vec(polys);
        proof {
            assert(r@ =~= noise_vector(
                start.eta(),
                start.seed(),
                start.position(),
                P::K as nat,
            ));
        }
        r
    }

    /// Overwrites the copy of the seed with zeros.
    pub fn zeroize(&mut self)
        ensures
            forall|i: int| 0 <= i < 32 ==> #[trigger] final(self).seed()[i] == 0,
            final(self).eta() == old(self).eta(),
            final(self).position() == old(self).position(),
            final(self).remaining() == old(self).remaining(),
        opens_invariants none
        no_unwind
    {
        wipe_bytes(&mut self.seed);
    }
}

impl Drop for CbdSampler {
    /// Overwrites the copy of the seed with zeros.
    fn drop(&mut self)
        ensures
            forall|i: int| 0 <= i < 32 ==> #[trigger] final(self).seed()[i] == 0,
        opens_invariants none
        no_unwind
    {
        self.zeroize();
    }
}

} // verus!
