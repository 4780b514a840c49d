//! A counter that many workers may bump through a shared reference.

use std::sync::atomic::AtomicU64;
use std::sync::atomic::Ordering;
use vstd::prelude::*;

verus! {

/// A sequentially consistent 64-bit counter.
///
/// Other holders of a shared reference may change the value between any two
/// calls, so nothing is promised about the numbers read back.
pub struct SimpleAtomicU64(AtomicU64);

impl SimpleAtomicU64 {
    /// A counter that starts at `value`.
    pub fn new(value: u64) -> Self {
        SimpleAtomicU64(AtomicU64::new(value))
    }

    /// The value at some moment during the call.
    pub fn as_u64(&self) -> u64 {
        self.0.load(Ordering::SeqCst)
    }

    /// Adds `value`, wrapping on overflow, and returns the value that the
    /// counter held just before.
    pub fn fetch_add(&self, value: u64) -> u64 {
        self.0.fetch_add(value, Ordering::SeqCst)
    }
}

impl Default for SimpleAtomicU64 {
    fn default() -> Self {
        SimpleAtomicU64::new(0)
    }
}

} // verus!
