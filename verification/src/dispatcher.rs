use vstd::prelude::*;
use crate::registers_state::{RegistersState, spec_dispatch_flags, dispatch_flags};
use crate::scheduler::FirstComeFirstServedScheduler;
use crate::thread::ThreadHandle;

verus! {

/// The segment selectors of the global descriptor table, by index.
pub struct Selectors {
    pub kernel_code_selector: u16,
    pub kernel_data_selector: u16,
    pub user_code_selector: u16,
    pub user_data_selector: u16,
    pub tss_selector: u16,
}

/// What the processor needs to switch to a thread.
pub struct DispatchContext {
    /// The code segment selector to return to.
    pub code_selector_id: u16,
    /// The stack segment selector to return to.
    pub data_selector_id: u16,
    /// The page table to load: the frame's start address and the CR3 flags.
    pub cr3: (u64, u16),
    /// The registers to restore.
    pub registers_state: RegistersState,
    /// The flags to restore: the saved ones with interrupts enabled and the
    /// nested-task bit cleared.
    pub rflags: u64,
}

/// Prepares to run the thread immediately: the thread and its process record
/// `tick` as the tick they last ran on, and the returned context holds the
/// ring's selectors (kernel ones for a kernel process, user ones otherwise),
/// the process's page table, and the thread's registers and flags to
/// restore.
pub fn dispatch_thread(
    scheduler: &mut FirstComeFirstServedScheduler,
    thread: ThreadHandle,
    tick: u64,
    selectors: &Selectors,
) -> (r: DispatchContext)
    requires
        old(scheduler)@.wf(),
        old(scheduler)@.has_thread(thread),
    ensures
        final(scheduler)@.wf(),
        final(scheduler)@ == old(scheduler)@.stamp_last_tick(thread, tick),
        ({
            let th = old(scheduler)@.thread(thread);
            let pv = old(scheduler)@.process(th.process);
            &&& r.code_selector_id == if pv.kernel_process {
                selectors.kernel_code_selector
            } else {
                selectors.user_code_selector
            }
            &&& r.data_selector_id == if pv.kernel_process {
                selectors.kernel_data_selector
            } else {
                selectors.user_data_selector
            }
            &&& r.cr3 == pv.cr3
            &&& r.registers_state == th.registers_state
            &&& r.rflags == spec_dispatch_flags(th.registers_state.rflags)
        }),
{
    proof {
        assert(old(scheduler)@.has_process(old(scheduler)@.thread_table[thread.0 as int].process));
    }
    scheduler.set_last_tick(thread, tick);
    let th = scheduler.thread(thread);
    let process = scheduler.process(th.process);
    let code_selector_id = if process.kernel_process {
        selectors.kernel_code_selector
    } else {
        selectors.user_code_selector
    };
    let data_selector_id = if process.kernel_process {
        selectors.kernel_data_selector
    } else {
        selectors.user_data_selector
    };
    let state = th.registers_state;
    DispatchContext {
        code_selector_id,
        data_selector_id,
        cr3: process.cr3,
        registers_state: state,
        rflags: dispatch_flags(state.rflags),
    }
}

} // verus!
