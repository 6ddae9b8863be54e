use vstd::prelude::*;
use crate::thread::{ThreadHandle, tick_density_of, density};

verus! {

/// Names a process held by a scheduler. Two handles are the same process
/// exactly when they are equal.
#[derive(Clone, Copy, PartialEq, Eq, Structural, Debug)]
pub struct ProcessHandle(pub usize);

/// A process: its address space, accounting and thread queues.
pub struct Process {
    /// The process's ID.
    pub id: u64,
    /// The page table the process is using: the start address of its
    /// top-level frame and the CR3 flags.
    pub cr3: (u64, u16),
    /// Total ticks the process has been running for.
    pub total_ticks: u64,
    /// The tick the process has been created on.
    pub start_tick: u64,
    /// The tick the process has been last ran on.
    pub last_tick: u64,
    /// Is the process a kernel process (should it run in ring 0 or 3?).
    pub kernel_process: bool,
    /// A count of all threads ever created by this process.
    pub total_threads_created: u64,
    /// The threads of the process that have not started yet.
    pub not_started_threads: Vec<ThreadHandle>,
    /// The threads of the process that are eligible to run.
    pub ready_threads: Vec<ThreadHandle>,
    /// The threads of the process that are sleeping.
    pub sleeping_threads: Vec<ThreadHandle>,
}

/// A process as a mathematical value: its queues are sequences.
#[verifier::ext_equal]
pub struct ProcessView {
    pub id: u64,
    pub cr3: (u64, u16),
    pub total_ticks: u64,
    pub start_tick: u64,
    pub last_tick: u64,
    pub kernel_process: bool,
    pub total_threads_created: u64,
    pub not_started_threads: Seq<ThreadHandle>,
    pub ready_threads: Seq<ThreadHandle>,
    pub sleeping_threads: Seq<ThreadHandle>,
}

impl View for Process {
    type V = ProcessView;

    open spec fn view(&self) -> ProcessView {
        ProcessView {
            id: self.id,
            cr3: self.cr3,
            total_ticks: self.total_ticks,
            start_tick: self.start_tick,
            last_tick: self.last_tick,
            kernel_process: self.kernel_process,
            total_threads_created: self.total_threads_created,
            not_started_threads: self.not_started_threads@,
            ready_threads: self.ready_threads@,
            sleeping_threads: self.sleeping_threads@,
        }
    }
}

impl Process {
    /// Returns the percentage of ticks the process spent running, calculated
    /// from the creation time of the process.
    pub fn tick_density(&self, current_tick: u64) -> (r: u64)
        requires
            self.total_ticks * 100 <= u64::MAX,
        ensures
            r == tick_density_of(self.total_ticks, self.start_tick, current_tick),
    {
        density(self.total_ticks, self.start_tick, current_tick)
    }

    /// Creates a new kernel process with the page table `cr3`, created at
    /// `current_tick`, with no threads.
    pub fn create_blank(id: u64, cr3: (u64, u16), current_tick: u64) -> (r: Process)
        ensures
            r@ == (ProcessView {
                id,
                cr3,
                total_ticks: 0,
                start_tick: current_tick,
                last_tick: 0,
                kernel_process: true,
                total_threads_created: 0,
                not_started_threads: Seq::empty(),
                ready_threads: Seq::empty(),
                sleeping_threads: Seq::empty(),
            }),
    {
        Process {
            id,
            cr3,
            total_ticks: 0,
            start_tick: current_tick,
            last_tick: 0,
            total_threads_created: 0,
            kernel_process: true,
            not_started_threads: Vec::new(),
            ready_threads: Vec::new(),
            sleeping_threads: Vec::new(),
        }
    }
}

} // verus!
