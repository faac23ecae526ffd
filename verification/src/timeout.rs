//! Wall-clock budgets for evaluations.
use vstd::prelude::*;
use std::time::Instant;

verus! {

/// `std::time::Instant`, carried through as an opaque clock reading.
#[verifier::external_type_specification]
#[verifier::external_body]
pub struct ExInstant(Instant);

/// Default evaluation budget in milliseconds.
pub const DEFAULT_TIMEOUT_MS: u64 = 50;

/// `Instant::now()`. Nothing is claimed of the reading: it is the clock.
#[verifier::external_body]
pub(crate) fn instant_now() -> (r: Instant) {
    Instant::now()
}

/// `start.elapsed().as_micros()`, truncated to `u64` as `as` does. Nothing
/// is claimed of the value: it is the clock.
#[verifier::external_body]
pub(crate) fn micros_since(start: &Instant) -> (r: u64) {
    start.elapsed().as_micros() as u64
}

/// `start.elapsed().as_millis()`, truncated to `u64` as `as` does. Nothing
/// is claimed of the value: it is the clock.
#[verifier::external_body]
pub(crate) fn millis_since(start: &Instant) -> (r: u64) {
    start.elapsed().as_millis() as u64
}

/// A deadline: a start instant and a budget in microseconds.
pub struct Deadline {
    start: Instant,
    budget_us: u64,
}

/// A budget of `elapsed_us` microseconds spent out of `budget_us` is used up.
pub fn budget_exceeded(elapsed_us: u64, budget_us: u64) -> (r: bool)
    ensures
        r == (elapsed_us >= budget_us),
{
    elapsed_us >= budget_us
}

/// Whole milliseconds left of a budget after `elapsed_ms` milliseconds, or
/// `None` once the budget is overdrawn.
pub fn remaining_after(budget_us: u64, elapsed_ms: u64) -> (r: Option<u64>)
    ensures
        match r {
            Some(x) => elapsed_ms <= budget_us / 1000 && x == budget_us / 1000 - elapsed_ms,
            None => elapsed_ms > budget_us / 1000,
        },
{
    let budget_ms = budget_us / 1000;
    budget_ms.checked_sub(elapsed_ms)
}

impl Deadline {
    /// The budget in microseconds.
    pub closed spec fn budget(&self) -> nat {
        self.budget_us as nat
    }

    /// A deadline `budget_ms` milliseconds from now.
    pub fn new(budget_ms: u64) -> (r: Deadline)
        requires
            budget_ms * 1000 <= u64::MAX,
        ensures
            r.budget() == budget_ms * 1000,
    {
        Deadline { start: instant_now(), budget_us: budget_ms * 1000 }
    }

    /// Microseconds since the deadline was set (a clock reading).
    pub fn elapsed_us(&self) -> (r: u64) {
        micros_since(&self.start)
    }

    /// The budget is used up: the elapsed time read from the clock is at
    /// least the budget (see `budget_exceeded`); a zero budget always is.
    pub fn is_exceeded(&self) -> (r: bool)
        ensures
            self.budget() == 0 ==> r,
    {
        let e = self.elapsed_us();
        budget_exceeded(e, self.budget_us)
    }

    /// Whole milliseconds left, or `None` once overdrawn (a clock reading).
    pub fn remaining_ms(&self) -> (r: Option<u64>)
        ensures
            r matches Some(x) ==> x <= self.budget() / 1000,
    {
        let e = millis_since(&self.start);
        remaining_after(self.budget_us, e)
    }
}


} // verus!
