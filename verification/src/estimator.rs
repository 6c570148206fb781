//! Throughput estimator: a bounded moving window of per-file transfer
//! speeds, exponentially smoothed once the window is full, and a derived
//! remaining-time estimate.
//!
//! Speeds are whole numbers of bytes per millisecond, and the smoothing
//! weight of 0.6 on the newest sample is kept as the exact integer ratio
//! 3/5, so no floating point is involved and the smoothing is reproducible.

use vstd::prelude::*;
use std::collections::VecDeque;

verus! {

/// How many speed samples the window holds at most.
pub const ESTIMATE_CAPACITY: usize = 10000;

/// Sum of a sequence of speed samples.
pub open spec fn seq_sum(s: Seq<u64>) -> int
    decreases s.len(),
{
    if s.len() == 0 {
        0
    } else {
        seq_sum(s.drop_last()) + s.last()
    }
}

pub proof fn lemma_seq_sum_bounds(s: Seq<u64>)
    ensures
        0 <= seq_sum(s) <= s.len() * u64::MAX,
    decreases s.len(),
{
    if s.len() == 0 {
    } else {
        lemma_seq_sum_bounds(s.drop_last());
        assert((s.len() - 1) * u64::MAX + u64::MAX == s.len() * u64::MAX) by (nonlinear_arith);
    }
}

/// Sum of a constant sequence.
pub proof fn lemma_seq_sum_constant(s: Seq<u64>, v: u64)
    requires
        forall|i: int| 0 <= i < s.len() ==> s[i] == v,
    ensures
        seq_sum(s) == s.len() * v,
    decreases s.len(),
{
    if s.len() == 0 {
    } else {
        lemma_seq_sum_constant(s.drop_last(), v);
        assert((s.len() - 1) * v + v == s.len() * v) by (nonlinear_arith);
    }
}

/// The plain average of a window, rounded down.
pub open spec fn spec_average(s: Seq<u64>) -> int
    recommends
        s.len() > 0,
{
    seq_sum(s) / s.len() as int
}

/// What one update does to the window: append while below capacity; once
/// full, drop the oldest sample and push the new one smoothed against the
/// prior plain average with weight 3/5.
pub open spec fn spec_update(s: Seq<u64>, speed: u64, capacity: nat) -> Seq<u64>
    recommends
        capacity > 0,
{
    if s.len() < capacity {
        s.push(speed)
    } else {
        s.subrange(1, s.len() as int).push(
            (((3 * speed + 2 * spec_average(s)) / 5) as u64),
        )
    }
}

/// The moving window of observed per-file speeds (bytes per millisecond).
pub struct SpeedEstimator {
    samples: VecDeque<u64>,
    capacity: usize,
}

impl SpeedEstimator {
    pub closed spec fn window(self) -> Seq<u64> {
        self.samples@
    }

    pub closed spec fn capacity(self) -> nat {
        self.capacity as nat
    }

    pub open spec fn wf(self) -> bool {
        self.capacity() > 0 && self.window().len() <= self.capacity()
    }

    /// An empty window with the default capacity.
    pub fn new() -> (r: SpeedEstimator)
        ensures
            r.wf(),
            r.window() == Seq::<u64>::empty(),
            r.capacity() == ESTIMATE_CAPACITY as nat,
    {
        SpeedEstimator { samples: VecDeque::new(), capacity: ESTIMATE_CAPACITY }
    }

    /// An empty window with a chosen capacity.
    pub fn with_capacity(capacity: usize) -> (r: SpeedEstimator)
        requires
            capacity > 0,
        ensures
            r.wf(),
            r.window() == Seq::<u64>::empty(),
            r.capacity() == capacity as nat,
    {
        SpeedEstimator { samples: VecDeque::new(), capacity }
    }

    pub fn len(&self) -> (r: usize)
        ensures
            r == self.window().len(),
    {
        self.samples.len()
    }

    /// The plain average of the window, rounded down.
    pub fn average_speed(&self) -> (r: u64)
        requires
            self.window().len() > 0,
        ensures
            r == spec_average(self.window()),
    {
        let len = self.samples.len();
        let mut sum: u128 = 0;
        let mut i: usize = 0;
        proof {
            assert(self.window().subrange(0, 0) =~= Seq::<u64>::empty());
        }
        while i < len
            invariant
                i <= len,
                len == self.window().len(),
                self.window() == self.samples@,
                sum == seq_sum(self.window().subrange(0, i as int)),
                sum <= i * u64::MAX,
            decreases len - i,
        {
            let v = self.samples[i];
            proof {
                assert(self.window().subrange(0, i + 1).drop_last() =~= self.window().subrange(
                    0,
                    i as int,
                ));
                assert((i + 1) * u64::MAX == i * u64::MAX + u64::MAX) by (nonlinear_arith);
            }
            sum = sum + v as u128;
            i = i + 1;
        }
        proof {
            assert(self.window().subrange(0, len as int) =~= self.window());
            lemma_seq_sum_bounds(self.window());
            assert(seq_sum(self.window()) / len as int <= u64::MAX as int) by {
                vstd::arithmetic::div_mod::lemma_div_is_ordered(
                    seq_sum(self.window()),
                    len as int * u64::MAX as int,
                    len as int,
                );
                vstd::arithmetic::div_mod::lemma_div_multiples_vanish(
                    u64::MAX as int,
                    len as int,
                );
            }
        }
        (sum / len as u128) as u64
    }

    /// Feeds one observed speed into the window.
    pub fn update(&mut self, speed: u64)
        requires
            old(self).wf(),
        ensures
            final(self).wf(),
            final(self).capacity() == old(self).capacity(),
            final(self).window() == spec_update(old(self).window(), speed, old(self).capacity()),
    {
        if self.samples.len() < self.capacity {
            self.samples.push_back(speed);
        } else {
            let old_average = self.average_speed();
            self.samples.pop_front();
            proof {
                assert(3 * speed + 2 * spec_average(old(self).window()) <= 5 * u64::MAX);
                assert((3 * speed + 2 * spec_average(old(self).window())) / 5 <= u64::MAX as int);
            }
            let adjusted: u64 = (((3 as u128) * (speed as u128) + (2 as u128) * (old_average
                as u128)) / 5) as u64;
            self.samples.push_back(adjusted);
        }
    }
}

/// Estimated whole seconds remaining, from an average speed in bytes per
/// millisecond and the bytes still to transfer. The division by 1000
/// converts milliseconds to seconds.
pub fn estimate_time_left(speed: u64, bytes_left: u64) -> (r: u64)
    requires
        speed > 0,
    ensures
        r == bytes_left as int / speed as int / 1000,
{
    bytes_left / speed / 1000
}

/// A window made only of one value updates to a window made only of that
/// value: smoothing a constant speed against its own average changes
/// nothing.
pub proof fn lemma_update_keeps_constant(s: Seq<u64>, v: u64, capacity: nat)
    requires
        capacity > 0,
        forall|i: int| 0 <= i < s.len() ==> s[i] == v,
    ensures
        forall|i: int|
            0 <= i < spec_update(s, v, capacity).len() ==> spec_update(s, v, capacity)[i] == v,
{
    if s.len() < capacity {
    } else {
        lemma_seq_sum_constant(s, v);
        assert(s.len() * v as int / s.len() as int == v) by {
            vstd::arithmetic::div_mod::lemma_div_multiples_vanish(
                v as int,
                s.len() as int,
            );
        }
        assert(spec_average(s) == v);
        assert((3 * v + 2 * v) / 5 == v as int) by {
            vstd::arithmetic::div_mod::lemma_div_multiples_vanish(v as int, 5);
        }
    }
}

/// Feeding a constant speed `n` times from an empty window.
pub open spec fn spec_feed_constant(v: u64, n: nat, capacity: nat) -> Seq<u64>
    decreases n,
{
    if n == 0 {
        Seq::<u64>::empty()
    } else {
        spec_update(spec_feed_constant(v, (n - 1) as nat, capacity), v, capacity)
    }
}

/// Throughput estimator convergence: feeding a constant speed converges the
/// smoothed average exactly to that speed — after at least one sample, and
/// in particular after more samples than the window holds, the average
/// equals the constant with no error at all.
pub proof fn lemma_constant_speed_converges(v: u64, n: nat, capacity: nat)
    requires
        capacity > 0,
        n > 0,
    ensures
        spec_feed_constant(v, n, capacity).len() > 0,
        spec_average(spec_feed_constant(v, n, capacity)) == v,
    decreases n,
{
    lemma_feed_constant_all_v(v, n, capacity);
    let s = spec_feed_constant(v, n, capacity);
    lemma_seq_sum_constant(s, v);
    vstd::arithmetic::div_mod::lemma_div_multiples_vanish(v as int, s.len() as int);
}

proof fn lemma_feed_constant_all_v(v: u64, n: nat, capacity: nat)
    requires
        capacity > 0,
    ensures
        n > 0 ==> spec_feed_constant(v, n, capacity).len() > 0,
        forall|i: int|
            0 <= i < spec_feed_constant(v, n, capacity).len() ==> spec_feed_constant(
                v,
                n,
                capacity,
            )[i] == v,
    decreases n,
{
    if n == 0 {
    } else {
        lemma_feed_constant_all_v(v, (n - 1) as nat, capacity);
        lemma_update_keeps_constant(spec_feed_constant(v, (n - 1) as nat, capacity), v, capacity);
    }
}

} // verus!
