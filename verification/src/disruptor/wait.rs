//! How a consumer waits.
use vstd::prelude::*;

use crate::disruptor::sequence::Sequence;

verus! {

/// What a waiting thread does before it looks again.
#[derive(Debug, Clone, Copy, PartialEq, Eq, Structural)]
pub enum Pause {
    /// Spins.
    Spin,
    /// Lets other threads run.
    Yield,
}

/// A way of waiting for a sequence to reach a target.
pub trait WaitStrategy {
    /// The pause between two looks.
    spec fn rest(&self) -> Pause;

    /// One look: the sequence that is available, which may lie beyond the target,
    /// or none where the target is not reached.
    fn poll(&self, target: i64, dependency: &Sequence) -> (r: Option<i64>)
        ensures
            r.is_some() == (dependency@ >= target),
            r matches Some(n) ==> n == dependency@,
    ;

    /// The sequence that is available once the target is reached.
    fn wait_for(&self, target: i64, dependency: &Sequence) -> (r: i64)
        requires
            dependency@ >= target,
        ensures
            r == dependency@,
    ;

    /// What to do between two looks.
    fn pause(&self) -> (r: Pause)
        ensures
            r == self.rest(),
    ;
}

fn look(target: i64, dependency: &Sequence) -> (r: Option<i64>)
    ensures
        r.is_some() == (dependency@ >= target),
        r matches Some(n) ==> n == dependency@,
{
    let available: i64 = dependency.get();
    if available >= target {
        Some(available)
    } else {
        None
    }
}

/// Spins. The lowest latency, at the price of a core.
#[derive(Debug, Clone, Copy, Default)]
pub struct BusySpinStrategy;

impl WaitStrategy for BusySpinStrategy {
    open spec fn rest(&self) -> Pause {
        Pause::Spin
    }

    fn poll(&self, target: i64, dependency: &Sequence) -> (r: Option<i64>) {
        look(target, dependency)
    }

    fn wait_for(&self, target: i64, dependency: &Sequence) -> (r: i64) {
        dependency.get()
    }

    fn pause(&self) -> (r: Pause) {
        Pause::Spin
    }
}

/// Lets other threads run between two looks.
#[derive(Debug, Clone, Copy, Default)]
pub struct YieldingStrategy;

impl WaitStrategy for YieldingStrategy {
    open spec fn rest(&self) -> Pause {
        Pause::Yield
    }

    fn poll(&self, target: i64, dependency: &Sequence) -> (r: Option<i64>) {
        look(target, dependency)
    }

    fn wait_for(&self, target: i64, dependency: &Sequence) -> (r: i64) {
        dependency.get()
    }

    fn pause(&self) -> (r: Pause) {
        Pause::Yield
    }
}

} // verus!
