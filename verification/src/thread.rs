use vstd::prelude::*;
use crate::registers_state::RegistersState;
use crate::process::ProcessHandle;

verus! {

/// The life-cycle state of a thread. A sleeping thread carries the number
/// of scheduling rounds it still has to sleep.
#[derive(Clone, Copy, PartialEq, Eq, Structural, Debug)]
pub enum ThreadState {
    NotStarted,
    Ready,
    Running,
    Sleeping(u64),
    Terminated,
}

/// Names a thread held by a scheduler. Two handles are the same thread
/// exactly when they are equal.
#[derive(Clone, Copy, PartialEq, Eq, Structural, Debug)]
pub struct ThreadHandle(pub usize);

/// A thread of execution and its accounting.
#[derive(Clone, Copy, PartialEq, Eq, Structural, Debug)]
pub struct Thread {
    /// The thread's ID (in-process).
    pub id: u64,
    /// The thread's current state.
    pub state: ThreadState,
    /// The state of the registers.
    pub registers_state: RegistersState,
    /// Total ticks the thread has been running for.
    pub total_ticks: u64,
    /// The tick the thread has been created on.
    pub start_tick: u64,
    /// The tick the thread has been last ran on.
    pub last_tick: u64,
    /// The process the thread is running for.
    pub process: ProcessHandle,
}

/// The share of ticks, in percent, spent running out of the ticks elapsed
/// since `start_tick`; an elapsed time of zero counts as one tick.
pub open spec fn tick_density_of(total_ticks: u64, start_tick: u64, current_tick: u64) -> int {
    let elapsed: int = if current_tick >= start_tick { current_tick - start_tick } else { 0 };
    let ticks_maximum: int = if elapsed >= 1 { elapsed } else { 1 };
    (total_ticks * 100) / ticks_maximum
}

/// Computes `tick_density_of`; the multiplication by 100 must not overflow.
pub fn density(total_ticks: u64, start_tick: u64, current_tick: u64) -> (r: u64)
    requires
        total_ticks * 100 <= u64::MAX,
    ensures
        r == tick_density_of(total_ticks, start_tick, current_tick),
{
    let elapsed = current_tick.saturating_sub(start_tick);
    let ticks_maximum = if elapsed >= 1 { elapsed } else { 1 };
    (total_ticks * 100) / ticks_maximum
}

/// The number of rounds a thread in this state still sleeps (zero unless it
/// sleeps).
pub open spec fn sleep_ticks(state: ThreadState) -> u64 {
    match state {
        ThreadState::Sleeping(n) => n,
        _ => 0,
    }
}

impl Thread {
    /// Returns the percentage of ticks the thread spent running, calculated
    /// from the creation time of the thread.
    pub fn tick_density(&self, current_tick: u64) -> (r: u64)
        requires
            self.total_ticks * 100 <= u64::MAX,
        ensures
            r == tick_density_of(self.total_ticks, self.start_tick, current_tick),
    {
        density(self.total_ticks, self.start_tick, current_tick)
    }
}

} // verus!
