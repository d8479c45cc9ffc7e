//! The accumulator: one unsigned running sum.

use vstd::prelude::*;

verus! {

/// The sum after adding `value` to `sum`, wrapping at 2^64.
pub open spec fn sum_after(sum: u64, value: u32) -> u64 {
    ((sum as nat + value as nat) % 0x10000000000000000nat) as u64
}

/// An accumulator. Counters keep theirs in an arena and refer to one by its
/// index, so that several attribute orderings can share it.
pub struct MetricPoint {
    inner: MetricPointInner,
}

impl View for MetricPoint {
    type V = u64;

    closed spec fn view(&self) -> u64 {
        self.inner@
    }
}

impl MetricPoint {
    /// A new accumulator, at zero.
    pub fn new() -> (r: MetricPoint)
        ensures
            r@ == 0,
    {
        MetricPoint { inner: MetricPointInner::new() }
    }

    /// Adds `value` to the sum.
    pub fn add(&mut self, value: u32)
        ensures
            final(self)@ == sum_after(old(self)@, value),
    {
        self.inner.add(value);
    }

    /// The current sum.
    pub fn get_sum(&self) -> (r: u64)
        ensures
            r == self@,
    {
        self.inner.get_sum()
    }

    /// Sets the sum back to zero.
    pub fn reset(&mut self)
        ensures
            final(self)@ == 0,
    {
        self.inner.reset();
    }

    /// Returns the sum and sets it back to zero.
    pub fn take_sum(&mut self) -> (r: u64)
        ensures
            r == old(self)@,
            final(self)@ == 0,
    {
        let r = self.inner.get_sum();
        self.inner.reset();
        r
    }
}

/// The sum itself. It is 64 bits wide and is reported at that width, so a
/// reported sum is exact until it passes 2^64 - 1, where it wraps.
pub struct MetricPointInner {
    sum: u64,
}

impl View for MetricPointInner {
    type V = u64;

    closed spec fn view(&self) -> u64 {
        self.sum
    }
}

impl MetricPointInner {
    fn new() -> (r: MetricPointInner)
        ensures
            r@ == 0,
    {
        MetricPointInner { sum: 0 }
    }

    fn get_sum(&self) -> (r: u64)
        ensures
            r == self@,
    {
        self.sum
    }

    fn add(&mut self, value: u32)
        ensures
            final(self)@ == sum_after(old(self)@, value),
    {
        self.sum = self.sum.wrapping_add(value as u64);
    }

    /// Sets the sum back to zero.
    pub fn reset(&mut self)
        ensures
            final(self)@ == 0,
    {
        self.sum = 0;
    }
}

} // verus!
