use vstd::prelude::*;
use std::collections::VecDeque;
use crate::thread::{Thread, ThreadHandle, ThreadState, sleep_ticks};
use crate::process::{Process, ProcessHandle, ProcessView};
use crate::model::{SchedulerView, remove_first, without_process, after_sleep_round, lemma_process_wf_frame, lemma_without_process,
    lemma_sleep_round, lemma_scan, lemma_scan_bounds, lemma_scan_from_front, lemma_thread_to_run,
    lemma_schedule, lemma_remove_first, lemma_remove_from_queues, lemma_change_state,
    lemma_add_to_queues, lemma_change_state_middle, lemma_accounting_change, lemma_new_thread, lemma_exit_thread, lemma_on_tick};
use crate::registers_state::{RegistersState, is_canonical, initial_flags};
use crate::scheduler_table::{SchedulerTable, loads_fit};

verus! {

/// Runs the processes in turn, first come first served: each decision takes
/// the first process of the queue that has a thread to run and puts it at
/// the back.
pub struct FirstComeFirstServedScheduler {
    /// The currently running thread.
    running_thread: Option<ThreadHandle>,
    /// The list of processes that are registered.
    processes: VecDeque<ProcessHandle>,
    /// Every process ever added, indexed by its handle.
    process_table: Vec<Process>,
    /// Every thread ever created, indexed by its handle.
    thread_table: Vec<Thread>,
}

/// What a scheduler offers the kernel: it picks the thread to run next, keeps
/// the processes it runs, and accounts the ticks the running thread uses.
pub trait Scheduler: Send {
    /// The invariant that every operation keeps.
    spec fn is_well_formed(&self) -> bool;

    /// Some thread can be picked to run.
    spec fn has_thread_to_run(&self) -> bool;

    /// One more process fits.
    spec fn has_room_for_process(&self) -> bool;

    /// A tick at `tick` can be accounted to the running thread.
    spec fn accepts_tick(&self, tick: u64) -> bool;

    /// The loads of the scheduled processes and threads can be reported.
    spec fn reports_loads(&self) -> bool;

    /// The thread that runs now, if any.
    spec fn current_thread(&self) -> Option<ThreadHandle>;

    /// Returns the thread that should be ran next, and sets that thread as
    /// currently running.
    fn schedule(&mut self) -> (r: ThreadHandle)
        requires
            old(self).is_well_formed(),
            old(self).has_thread_to_run(),
        ensures
            final(self).is_well_formed(),
            final(self).current_thread() == Some(r),
    ;

    /// Adds a process, which has no thread yet, to the scheduling queue so it
    /// will be ran.
    fn add_process(&mut self, process: Process) -> (r: ProcessHandle)
        requires
            old(self).is_well_formed(),
            old(self).has_room_for_process(),
            process.not_started_threads@.len() == 0,
            process.ready_threads@.len() == 0,
            process.sleeping_threads@.len() == 0,
        ensures
            final(self).is_well_formed(),
            final(self).current_thread() == old(self).current_thread(),
    ;

    /// Removes the process from the scheduling queue.
    fn remove_process(&mut self, process: ProcessHandle)
        requires
            old(self).is_well_formed(),
        ensures
            final(self).is_well_formed(),
            final(self).current_thread() == old(self).current_thread(),
    ;

    /// Keeps accounting of the thread ran in a tick.
    fn on_tick(&mut self, registers_state: RegistersState, tick: u64)
        requires
            old(self).is_well_formed(),
            old(self).accepts_tick(tick),
        ensures
            final(self).is_well_formed(),
            final(self).current_thread() == old(self).current_thread(),
    ;

    fn get_running_thread(&self) -> (r: Option<ThreadHandle>)
        ensures
            r == self.current_thread(),
    ;

    fn clear_running_thread(&mut self)
        requires
            old(self).is_well_formed(),
        ensures
            final(self).is_well_formed(),
            final(self).current_thread() is None,
    ;

    /// A snapshot of the scheduled processes and their threads, with their
    /// loads at `current_tick`.
    fn get_processes_and_threads(&self, current_tick: u64) -> (r: SchedulerTable)
        requires
            self.is_well_formed(),
            self.reports_loads(),
    ;
}

impl Scheduler for FirstComeFirstServedScheduler {
    open spec fn is_well_formed(&self) -> bool {
        self@.wf()
    }

    open spec fn has_thread_to_run(&self) -> bool {
        self@.can_schedule()
    }

    open spec fn has_room_for_process(&self) -> bool {
        self@.process_table.len() < usize::MAX
    }

    open spec fn accepts_tick(&self, tick: u64) -> bool {
        self@.can_account_tick(tick)
    }

    open spec fn reports_loads(&self) -> bool {
        loads_fit(self@)
    }

    open spec fn current_thread(&self) -> Option<ThreadHandle> {
        self@.running_thread
    }

    fn schedule(&mut self) -> (r: ThreadHandle)
        ensures
            (final(self)@, r) == old(self)@.schedule(),
    {
        FirstComeFirstServedScheduler::schedule(self)
    }

    fn add_process(&mut self, process: Process) -> (r: ProcessHandle)
        ensures
            r.0 == old(self)@.process_table.len(),
            final(self)@ == (SchedulerView {
                processes: old(self)@.processes.push(r),
                process_table: old(self)@.process_table.push(process@),
                ..old(self)@
            }),
    {
        FirstComeFirstServedScheduler::add_process(self, process)
    }

    fn remove_process(&mut self, process: ProcessHandle)
        ensures
            final(self)@ == (SchedulerView {
                processes: without_process(old(self)@.processes, process),
                ..old(self)@
            }),
    {
        FirstComeFirstServedScheduler::remove_process(self, process)
    }

    fn on_tick(&mut self, registers_state: RegistersState, tick: u64)
        ensures
            final(self)@ == old(self)@.on_tick(registers_state, tick),
    {
        FirstComeFirstServedScheduler::on_tick(self, registers_state, tick)
    }

    fn get_running_thread(&self) -> (r: Option<ThreadHandle>) {
        FirstComeFirstServedScheduler::get_running_thread(self)
    }

    fn clear_running_thread(&mut self)
        ensures
            final(self)@ == (SchedulerView { running_thread: None, ..old(self)@ }),
    {
        FirstComeFirstServedScheduler::clear_running_thread(self)
    }

    fn get_processes_and_threads(&self, current_tick: u64) -> (r: SchedulerTable)
        ensures
            r.0@.len() == self@.processes.len(),
            forall|i: int|
                0 <= i < self@.processes.len() ==> crate::scheduler_table::describes_process(
                    #[trigger] r.0@[i],
                    self@,
                    self@.processes[i],
                    current_tick,
                ),
    {
        FirstComeFirstServedScheduler::get_processes_and_threads(self, current_tick)
    }
}

impl Default for FirstComeFirstServedScheduler {
    /// A scheduler with no process and no running thread.
    fn default() -> (r: FirstComeFirstServedScheduler)
        ensures
            r@.wf(),
            r@.running_thread is None,
            r@.processes == Seq::<ProcessHandle>::empty(),
            r@.process_table == Seq::<ProcessView>::empty(),
            r@.thread_table == Seq::<Thread>::empty(),
    {
        FirstComeFirstServedScheduler::new()
    }
}

impl View for FirstComeFirstServedScheduler {
    type V = SchedulerView;

    closed spec fn view(&self) -> SchedulerView {
        SchedulerView {
            running_thread: self.running_thread,
            processes: self.processes@,
            process_table: self.process_table@.map_values(|p: Process| p@),
            thread_table: self.thread_table@,
        }
    }
}

impl FirstComeFirstServedScheduler {
    /// A scheduler with no process and no running thread.
    pub fn new() -> (r: FirstComeFirstServedScheduler)
        ensures
            r@.wf(),
            r@.running_thread is None,
            r@.processes == Seq::<ProcessHandle>::empty(),
            r@.process_table == Seq::<ProcessView>::empty(),
            r@.thread_table == Seq::<Thread>::empty(),
    {
        let r = FirstComeFirstServedScheduler {
            running_thread: None,
            processes: VecDeque::new(),
            process_table: Vec::new(),
            thread_table: Vec::new(),
        };
        assert(r@.process_table =~= Seq::<ProcessView>::empty());
        r
    }

    /// The thread that runs now, if any.
    pub fn get_running_thread(&self) -> (r: Option<ThreadHandle>)
        ensures
            r == self@.running_thread,
    {
        self.running_thread
    }

    /// Forgets the running thread.
    pub fn clear_running_thread(&mut self)
        ensures
            final(self)@ == (SchedulerView { running_thread: None, ..old(self)@ }),
            old(self)@.wf() ==> final(self)@.wf(),
    {
        self.running_thread = None;
        proof {
            let v0 = old(self)@;
            if v0.wf() {
                assert forall|p: ProcessHandle| self@.has_process(p) implies #[trigger] self@.process_wf(p) by {
                    assert(v0.process_wf(p));
                    lemma_process_wf_frame(v0, self@, p);
                }
            }
        }
    }

    /// The scheduling queue, in order.
    pub fn queued_processes(&self) -> (r: &VecDeque<ProcessHandle>)
        ensures
            r@ == self@.processes,
    {
        &self.processes
    }

    /// The number of threads ever created.
    pub fn thread_count(&self) -> (r: usize)
        ensures
            r == self@.thread_table.len(),
    {
        self.thread_table.len()
    }

    /// The number of processes ever added.
    pub fn process_count(&self) -> (r: usize)
        ensures
            r == self@.process_table.len(),
    {
        self.process_table.len()
    }

    /// A copy of thread `t`.
    pub fn thread(&self, t: ThreadHandle) -> (r: Thread)
        requires
            self@.has_thread(t),
        ensures
            r == self@.thread(t),
    {
        self.thread_table[t.0]
    }

    /// Process `p`.
    pub fn process(&self, p: ProcessHandle) -> (r: &Process)
        requires
            self@.has_process(p),
        ensures
            r@ == self@.process(p),
    {
        &self.process_table[p.0]
    }

    /// Adds a process to the scheduling queue so it will be ran. The process
    /// comes with no thread: threads are created for it once it is added.
    pub fn add_process(&mut self, process: Process) -> (r: ProcessHandle)
        requires
            old(self)@.wf(),
            old(self)@.process_table.len() < usize::MAX,
            process.not_started_threads@.len() == 0,
            process.ready_threads@.len() == 0,
            process.sleeping_threads@.len() == 0,
        ensures
            final(self)@.wf(),
            r.0 == old(self)@.process_table.len(),
            final(self)@ == (SchedulerView {
                processes: old(self)@.processes.push(r),
                process_table: old(self)@.process_table.push(process@),
                ..old(self)@
            }),
    {
        let r = ProcessHandle(self.process_table.len());
        let ghost pv = process@;
        self.process_table.push(process);
        self.processes.push_back(r);
        let ghost old_v = old(self)@;
        assert(self@.process_table =~= old_v.process_table.push(pv));
        assert(self@.processes =~= old_v.processes.push(r));
        proof {
            let v = self@;
            assert forall|h: ProcessHandle| v.has_process(h) implies #[trigger] v.process_wf(h) by {
                if h.0 < old_v.process_table.len() {
                    assert(old_v.process_wf(h));
                    lemma_process_wf_frame(old_v, v, h);
                } else {
                    assert(v.process(h) == pv);
                    assert(pv.not_started_threads.len() == 0);
                    assert(pv.ready_threads.len() == 0);
                    assert(pv.sleeping_threads.len() == 0);
                }
            }
            assert forall|i: int| 0 <= i < v.processes.len() implies v.has_process(
                #[trigger] v.processes[i],
            ) by {
                if i < old_v.processes.len() {
                    assert(old_v.has_process(old_v.processes[i]));
                }
            }
            assert(!old_v.processes.contains(r)) by {
                if old_v.processes.contains(r) {
                    let j = choose|j: int| 0 <= j < old_v.processes.len() && old_v.processes[j] == r;
                    assert(old_v.has_process(old_v.processes[j]));
                }
            }
            assert forall|i: int, j: int|
                0 <= i < v.processes.len() && 0 <= j < v.processes.len() && i != j implies v.processes[i]
                != v.processes[j] by {
                if i < old_v.processes.len() && j < old_v.processes.len() {
                } else if i < old_v.processes.len() {
                    assert(old_v.processes.contains(old_v.processes[i]));
                } else {
                    assert(old_v.processes.contains(old_v.processes[j]));
                }
            }
        }
        r
    }

    /// Removes the process from the scheduling queue.
    pub fn remove_process(&mut self, process: ProcessHandle)
        requires
            old(self)@.wf(),
        ensures
            final(self)@.wf(),
            final(self)@ == (SchedulerView {
                processes: without_process(old(self)@.processes, process),
                ..old(self)@
            }),
    {
        let ghost q = self.processes@;
        let mut kept: VecDeque<ProcessHandle> = VecDeque::new();
        let mut i: usize = 0;
        while i < self.processes.len()
            invariant
                i <= self.processes@.len(),
                self.processes@ == q,
                kept@ == without_process(q.take(i as int), process),
            decreases self.processes@.len() - i,
        {
            let h = self.processes[i];
            assert(q.take(i as int + 1).drop_last() =~= q.take(i as int));
            if h != process {
                kept.push_back(h);
            }
            i = i + 1;
        }
        assert(q.take(q.len() as int) =~= q);
        let ghost old_v = self@;
        self.processes = kept;
        proof {
            lemma_without_process(q, process);
            let v = self@;
            assert forall|h: ProcessHandle| v.has_process(h) implies #[trigger] v.process_wf(h) by {
                lemma_process_wf_frame(old_v, v, h);
            }
            assert forall|i: int| 0 <= i < v.processes.len() implies v.has_process(
                #[trigger] v.processes[i],
            ) by {
                assert(v.processes.contains(v.processes[i]));
                assert(q.contains(v.processes[i]));
            }
        }
    }

    /// Returns the thread from the process that should be ran next: the
    /// first ready thread, or else the first thread not started, which
    /// becomes ready. The thread moves to the back of the ready queue.
    fn get_thread_to_run(&mut self, process: ProcessHandle) -> (r: ThreadHandle)
        requires
            old(self)@.wf(),
            old(self)@.has_process(process),
            old(self)@.has_runnable_thread(process),
        ensures
            (final(self)@, r) == old(self)@.thread_to_run(process),
    {
        let ghost v0 = self@;
        proof {
            lemma_thread_to_run(v0, process);
            assert(v0.process_wf(process));
        }
        let pi = process.0;
        let thread = if self.process_table[pi].ready_threads.len() > 0 {
            self.process_table[pi].ready_threads.remove(0)
        } else {
            let t = self.process_table[pi].not_started_threads.remove(0);
            proof {
                assert(v0.has_thread(v0.process(process).not_started_threads[0]));
            }
            let th = self.thread_table[t.0];
            self.thread_table.set(t.0, Thread { state: ThreadState::Ready, ..th });
            t
        };
        self.process_table[pi].ready_threads.push(thread);
        proof {
            let (w, t) = v0.thread_to_run(process);
            assert(thread == t);
            assert(self@.thread_table =~= w.thread_table);
            assert forall|j: int| 0 <= j < w.process_table.len() implies self@.process_table[j] == w.process_table[j] by {
                if j == pi as int {
                    assert(self@.process_table[j].ready_threads =~= w.process_table[j].ready_threads);
                    assert(self@.process_table[j].not_started_threads =~= w.process_table[j].not_started_threads);
                    assert(self@.process_table[j] =~= w.process_table[j]);
                }
            }
            assert(self@.process_table =~= w.process_table);
        }
        thread
    }

    /// Returns the thread that should be ran next, and sets that thread as
    /// currently running. The first process of the queue that has a thread
    /// to run once its sleeping threads had their round gives that thread
    /// and moves to the back of the queue; the thread that ran before, if
    /// it is another one, goes back to the ready queue of its process.
    /// Some queued process must be runnable (see `can_schedule`).
    pub fn schedule(&mut self) -> (r: ThreadHandle)
        requires
            old(self)@.wf(),
            old(self)@.can_schedule(),
        ensures
            final(self)@.wf(),
            (final(self)@, r) == old(self)@.schedule(),
            final(self)@.running_thread == Some(r),
            old(self)@.first_runnable(old(self)@.scan(0).1),
            final(self)@.processes == old(self)@.processes.remove(old(self)@.scan(0).1).push(
                old(self)@.processes[old(self)@.scan(0).1],
            ),
    {
        let ghost v0 = self@;
        proof {
            lemma_scan_from_front(v0);
            lemma_scan(v0, 0);
            lemma_schedule(v0);
        }
        let ghost k0 = v0.scan(0).1;
        let mut k: usize = 0;
        let mut found = false;
        while !found
            invariant
                v0.wf(),
                0 <= k0 < v0.processes.len(),
                k0 == v0.scan(0).1,
                self@.wf(),
                self@.processes == v0.processes,
                self@.running_thread == v0.running_thread,
                !found ==> k <= k0 && self@.scan(k as int) == v0.scan(0),
                found ==> k == k0 && self@ == v0.scan(0).0,
            decreases (if found { 0int } else { 1int }) + v0.processes.len() - k,
        {
            let p = self.processes[k];
            proof {
                assert(self@.has_process(self@.processes[k as int]));
            }
            let ghost before = self@;
            assert(before.scan(k as int) == v0.scan(0));
            Process::update_sleeping_threads(self, p);
            if self.process_table[p.0].ready_threads.len() > 0 || self.process_table[p.0].not_started_threads.len() > 0 {
                found = true;
                proof {
                    assert(self@.has_runnable_thread(p));
                    assert(self@ == before.sleep_round(before.processes[k as int]));
                    assert(before.scan(k as int) == (self@, k as int));
                }
            } else {
                proof {
                    assert(!self@.has_runnable_thread(p));
                    assert(self@ == before.sleep_round(before.processes[k as int]));
                    assert(before.scan(k as int) == self@.scan(k as int + 1));
                    lemma_scan_bounds(self@, k as int + 1);
                    assert(before.scan(k as int).1 == k0);
                    assert(self@.scan(k as int + 1).1 == k0);
                    assert(k < k0);
                    assert(self.processes.len() == self.processes@.len());
                }
                k = k + 1;
            }
        }
        let p = self.processes[k];
        let thread = self.get_thread_to_run(p);
        match self.processes.remove(k) {
            Some(removed) => self.processes.push_back(removed),
            None => {},
        }
        let ghost v3 = self@;
        match self.running_thread {
            Some(prev) => {
                if prev != thread {
                    proof {
                        assert(v3.has_thread(prev));
                        assert(v3.has_process(v3.thread_table[prev.0 as int].process));
                    }
                    let pp = self.thread_table[prev.0].process;
                    self.process_table[pp.0].ready_threads.push(prev);
                    proof {
                        let w = v3.requeue_ready(prev);
                        assert forall|j: int| 0 <= j < w.process_table.len() implies self@.process_table[j] == w.process_table[j] by {
                            if j == pp.0 as int {
                                assert(self@.process_table[j] =~= w.process_table[j]);
                            }
                        }
                        assert(self@.process_table =~= w.process_table);
                    }
                }
            },
            None => {},
        }
        self.running_thread = Some(thread);
        proof {
            let (w, t) = v0.schedule();
            assert(self@.processes =~= w.processes);
            assert(self@ =~= w);
        }
        thread
    }

    /// Whether some queued process is runnable: it has a ready thread, one
    /// not started, or a sleeping one with no round left. `schedule` needs
    /// one.
    pub fn has_runnable_process(&self) -> (r: bool)
        requires
            self@.wf(),
        ensures
            r == self@.can_schedule(),
    {
        let ghost v = self@;
        let mut k: usize = 0;
        while k < self.processes.len()
            invariant
                v == self@,
                v.wf(),
                k <= v.processes.len(),
                forall|j: int| 0 <= j < k ==> !v.runnable(#[trigger] v.processes[j]),
            decreases v.processes.len() - k,
        {
            let p = self.processes[k];
            proof {
                assert(v.has_process(v.processes[k as int]));
                assert(v.process_wf(p));
            }
            let pr = &self.process_table[p.0];
            if pr.ready_threads.len() > 0 || pr.not_started_threads.len() > 0 {
                proof {
                    assert(v.runnable(v.processes[k as int]));
                }
                return true;
            }
            let mut m: usize = 0;
            while m < pr.sleeping_threads.len()
                invariant
                    v == self@,
                    v.wf(),
                    v.has_process(p),
                    k < v.processes.len(),
                    p == v.processes[k as int],
                    pr@ == v.process(p),
                    v.process_wf(p),
                    m <= pr.sleeping_threads@.len(),
                    forall|i: int| 0 <= i < m ==> sleep_ticks(#[trigger] v.thread(pr.sleeping_threads@[i]).state) != 0,
                decreases pr.sleeping_threads@.len() - m,
            {
                let t = pr.sleeping_threads[m];
                proof {
                    assert(v.has_thread(pr.sleeping_threads@[m as int]));
                }
                match self.thread_table[t.0].state {
                    ThreadState::Sleeping(0) => {
                        proof {
                            assert(sleep_ticks(v.thread(pr.sleeping_threads@[m as int]).state) == 0);
                            assert(v.runnable(v.processes[k as int]));
                        }
                        return true;
                    },
                    _ => {},
                }
                m = m + 1;
            }
            proof {
                assert(!v.runnable(v.processes[k as int]));
            }
            k = k + 1;
        }
        false
    }

    /// Whether the running thread, if any, and its process can account for
    /// the ticks up to `tick` (see `on_tick`).
    pub fn can_account_tick(&self, tick: u64) -> (r: bool)
        requires
            self@.wf(),
        ensures
            r == self@.can_account_tick(tick),
    {
        match self.running_thread {
            Some(t) => {
                proof {
                    assert(self@.has_process(self@.thread_table[t.0 as int].process));
                }
                let th = self.thread_table[t.0];
                let pr = &self.process_table[th.process.0];
                th.last_tick <= tick && th.total_ticks <= u64::MAX - (tick - th.last_tick) && pr.last_tick <= tick
                    && pr.total_ticks <= u64::MAX - (tick - pr.last_tick)
            },
            None => true,
        }
    }

    /// Keeps accounting of the thread ran in a tick: the running thread
    /// saves `registers_state`, and it and its process add the ticks since
    /// they last ran to their totals and record `tick` as the last one.
    pub fn on_tick(&mut self, registers_state: RegistersState, tick: u64)
        requires
            old(self)@.wf(),
            old(self)@.can_account_tick(tick),
        ensures
            final(self)@.wf(),
            final(self)@ == old(self)@.on_tick(registers_state, tick),
    {
        let ghost v0 = self@;
        if let Some(t) = self.running_thread {
            proof {
                assert(v0.has_process(v0.thread_table[t.0 as int].process));
            }
            let th = self.thread_table[t.0];
            self.thread_table.set(
                t.0,
                Thread { registers_state, total_ticks: th.total_ticks + (tick - th.last_tick), last_tick: tick, ..th },
            );
            let pi = th.process.0;
            let pt = self.process_table[pi].total_ticks;
            let pl = self.process_table[pi].last_tick;
            self.process_table[pi].total_ticks = pt + (tick - pl);
            self.process_table[pi].last_tick = tick;
            proof {
                let w = v0.on_tick(registers_state, tick);
                assert(self@.thread_table =~= w.thread_table);
                assert forall|j: int| 0 <= j < w.process_table.len() implies self@.process_table[j] == w.process_table[j] by {
                    if j == pi as int {
                        assert(self@.process_table[j] =~= w.process_table[j]);
                    }
                }
                assert(self@.process_table =~= w.process_table);
                assert(self@ =~= w);
                lemma_accounting_change(v0, w);
            }
        }
    }

    /// Records `tick` as the tick thread `thread` and its process last ran on.
    pub fn set_last_tick(&mut self, thread: ThreadHandle, tick: u64)
        requires
            old(self)@.wf(),
            old(self)@.has_thread(thread),
        ensures
            final(self)@.wf(),
            final(self)@ == old(self)@.stamp_last_tick(thread, tick),
    {
        let ghost v0 = self@;
        proof {
            assert(v0.has_process(v0.thread_table[thread.0 as int].process));
        }
        let th = self.thread_table[thread.0];
        self.thread_table.set(thread.0, Thread { last_tick: tick, ..th });
        let pi = th.process.0;
        self.process_table[pi].last_tick = tick;
        proof {
            let w = v0.stamp_last_tick(thread, tick);
            assert(self@.thread_table =~= w.thread_table);
            assert forall|j: int| 0 <= j < w.process_table.len() implies self@.process_table[j] == w.process_table[j] by {
                if j == pi as int {
                    assert(self@.process_table[j] =~= w.process_table[j]);
                }
            }
            assert(self@.process_table =~= w.process_table);
            assert(self@ =~= w);
            lemma_accounting_change(v0, w);
        }
    }
}

impl Process {
    /// Updates the sleeping threads, waking them up if they are sleeping for
    /// too long: each sleeping thread of `this` sleeps one round less, and
    /// those with no round left become ready and join, in order, the back
    /// of the ready queue.
    pub fn update_sleeping_threads(scheduler: &mut FirstComeFirstServedScheduler, this: ProcessHandle)
        requires
            old(scheduler)@.wf(),
            old(scheduler)@.has_process(this),
        ensures
            final(scheduler)@.wf(),
            final(scheduler)@ == old(scheduler)@.sleep_round(this),
    {
        let ghost v0 = scheduler@;
        proof {
            lemma_sleep_round(v0, this);
            assert(v0.process_wf(this));
        }
        let pi = this.0;
        let ghost s = v0.process(this).sleeping_threads;
        let n = scheduler.process_table[pi].sleeping_threads.len();
        if n == 0 {
            proof {
                let w = v0.sleep_round(this);
                assert(s =~= Seq::<ThreadHandle>::empty());
                assert(w.thread_table =~= v0.thread_table);
                assert(v0.process(this).ready_threads + v0.waking(s) =~= v0.process(this).ready_threads);
                assert(w.process_table =~= v0.process_table);
            }
            return;
        }
        let mut kept: Vec<ThreadHandle> = Vec::new();
        let mut drained: Vec<ThreadHandle> = Vec::new();
        let mut i: usize = 0;
        while i < n
            invariant
                v0.wf(),
                v0.has_process(this),
                this.0 == pi,
                s == v0.process(this).sleeping_threads,
                n == s.len(),
                i <= n,
                scheduler.process_table@ == old(scheduler).process_table@,
                scheduler.processes@ == v0.processes,
                scheduler.running_thread == v0.running_thread,
                scheduler@ == (SchedulerView { thread_table: scheduler.thread_table@, ..v0 }),
                scheduler.thread_table@.len() == v0.thread_table.len(),
                forall|j: int|
                    0 <= j < v0.thread_table.len() ==> #[trigger] scheduler.thread_table@[j] == if s.take(
                        i as int,
                    ).contains(ThreadHandle(j as usize)) {
                        after_sleep_round(v0.thread_table[j])
                    } else {
                        v0.thread_table[j]
                    },
                kept@ == v0.still_sleeping(s.take(i as int)),
                drained@ == v0.waking(s.take(i as int)),
            decreases n - i,
        {
            let t = scheduler.process_table[pi].sleeping_threads[i];
            proof {
                assert(v0.process_wf(this));
                assert(t == s[i as int]);
                assert(v0.has_thread(s[i as int]));
                assert(!s.take(i as int).contains(t)) by {
                    if s.take(i as int).contains(t) {
                        let m = choose|m: int| 0 <= m < i && s.take(i as int)[m] == t;
                        assert(s[m] == s[i as int]);
                    }
                }
                assert(ThreadHandle(t.0 as int as usize) == t);
                assert(s.take(i as int + 1).drop_last() =~= s.take(i as int));
                assert(v0.thread(s[i as int]).state is Sleeping);
            }
            let th = scheduler.thread_table[t.0];
            let ghost before = scheduler.thread_table@;
            proof {
                assert(th == v0.thread_table[t.0 as int]);
            }
            match th.state {
                ThreadState::Sleeping(k) => {
                    if k > 0 {
                        scheduler.thread_table.set(t.0, Thread { state: ThreadState::Sleeping(k - 1), ..th });
                        kept.push(t);
                    } else {
                        scheduler.thread_table.set(t.0, Thread { state: ThreadState::Ready, ..th });
                        drained.push(t);
                    }
                },
                _ => {
                    proof {
                        assert(false);
                    }
                },
            }
            proof {
                assert(scheduler.thread_table.len() == scheduler.thread_table@.len());
                assert(scheduler.thread_table@ == before.update(t.0 as int, after_sleep_round(v0.thread_table[t.0 as int])));
                assert forall|j: int| 0 <= j < v0.thread_table.len() implies #[trigger] scheduler.thread_table@[j]
                    == if s.take(i as int + 1).contains(ThreadHandle(j as usize)) {
                    after_sleep_round(v0.thread_table[j])
                } else {
                    v0.thread_table[j]
                } by {
                    assert(before[j] == if s.take(i as int).contains(ThreadHandle(j as usize)) {
                        after_sleep_round(v0.thread_table[j])
                    } else {
                        v0.thread_table[j]
                    });
                    if j == t.0 as int {
                        assert(ThreadHandle(j as usize) == t);
                    } else {
                        assert(ThreadHandle(j as usize) != t);
                    }
                    assert(s.take(i as int + 1) =~= s.take(i as int).push(t));
                    assert(s.take(i as int).push(t).contains(ThreadHandle(j as usize)) <==> (s.take(i as int).contains(
                        ThreadHandle(j as usize),
                    ) || ThreadHandle(j as usize) == t)) by {
                        let x = ThreadHandle(j as usize);
                        let tk = s.take(i as int);
                        if tk.push(t).contains(x) {
                            let m = choose|m: int| 0 <= m < tk.push(t).len() && tk.push(t)[m] == x;
                            if m < tk.len() {
                                assert(tk[m] == x);
                            }
                        }
                        if tk.contains(x) {
                            let m = choose|m: int| 0 <= m < tk.len() && tk[m] == x;
                            assert(tk.push(t)[m] == x);
                        }
                        if x == t {
                            assert(tk.push(t)[tk.len() as int] == x);
                        }
                    }
                }
            }
            i = i + 1;
        }
        proof {
            assert(s.take(n as int) =~= s);
        }
        scheduler.process_table[pi].sleeping_threads = kept;
        scheduler.process_table[pi].ready_threads.append(&mut drained);
        proof {
            let w = v0.sleep_round(this);
            assert(scheduler.thread_table@ =~= w.thread_table);
            assert(scheduler@.process_table =~= w.process_table) by {
                assert forall|j: int| 0 <= j < w.process_table.len() implies scheduler@.process_table[j] == w.process_table[j] by {
                    if j == pi as int {
                        assert(scheduler@.process_table[j] =~= w.process_table[j]);
                    }
                }
            }
        }
    }
}

/// Takes the first occurrence of `t` out of `v`, if any.
fn remove_first_occurrence(v: &mut Vec<ThreadHandle>, t: ThreadHandle)
    ensures
        final(v)@ == remove_first(old(v)@, t),
{
    let ghost s = v@;
    proof {
        lemma_remove_first(s, t);
    }
    let mut i: usize = 0;
    while i < v.len()
        invariant
            v@ == s,
            s == old(v)@,
            i <= s.len(),
            forall|j: int| 0 <= j < i ==> s[j] != t,
        decreases s.len() - i,
    {
        if v[i] == t {
            proof {
                lemma_remove_first(s, t);
                assert(remove_first(s, t) == s.remove(i as int));
            }
            v.remove(i);
            return;
        }
        i = i + 1;
    }
    proof {
        assert(!s.contains(t));
        lemma_remove_first(s, t);
    }
}

/// Removes the thread from the respective queue of the process, depending on
/// the thread state; a running thread that is the running one stops being it.
pub fn remove_thread_from_process_queues(
    scheduler: &mut FirstComeFirstServedScheduler,
    process: ProcessHandle,
    changed_thread: ThreadHandle,
    state: ThreadState,
)
    requires
        old(scheduler)@.wf(),
        old(scheduler)@.has_process(process),
    ensures
        final(scheduler)@.wf(),
        final(scheduler)@ == old(scheduler)@.remove_from_queues(process, changed_thread, state),
{
    let ghost v0 = scheduler@;
    proof {
        lemma_remove_from_queues(v0, process, changed_thread, state);
    }
    let pi = process.0;
    match state {
        ThreadState::Running => {
            let running = scheduler.get_running_thread();
            if running == Some(changed_thread) {
                scheduler.clear_running_thread();
            }
        },
        ThreadState::NotStarted => {
            remove_first_occurrence(&mut scheduler.process_table[pi].not_started_threads, changed_thread);
        },
        ThreadState::Ready => {
            remove_first_occurrence(&mut scheduler.process_table[pi].ready_threads, changed_thread);
        },
        ThreadState::Sleeping(_) => {
            remove_first_occurrence(&mut scheduler.process_table[pi].sleeping_threads, changed_thread);
        },
        ThreadState::Terminated => {},
    }
    proof {
        let w = v0.remove_from_queues(process, changed_thread, state);
        assert forall|j: int| 0 <= j < w.process_table.len() implies scheduler@.process_table[j] == w.process_table[j] by {
            if j == pi as int {
                assert(scheduler@.process_table[j] =~= w.process_table[j]);
            }
        }
        assert(scheduler@.process_table =~= w.process_table);
        assert(scheduler@ =~= w);
    }
}

/// Appends the thread to the queue of the process that matches `state`; a
/// terminated thread joins no queue. A thread cannot be put in the running
/// state this way. Any thread is appended; the scheduler stays well-formed
/// when the thread belongs to the process, is already in `state`, and is not
/// in that queue yet (the queues of threads not started and of sleeping ones
/// hold each thread once, and the sleeping queue holds sleeping threads only:
/// the next sleeping round has no way to count down any other thread).
pub fn add_thread_to_process_queues(
    scheduler: &mut FirstComeFirstServedScheduler,
    process: ProcessHandle,
    thread: ThreadHandle,
    state: ThreadState,
)
    requires
        old(scheduler)@.has_process(process),
        !(state is Running),
    ensures
        final(scheduler)@ == old(scheduler)@.add_to_queues(process, thread, state),
        ({
            let v = old(scheduler)@;
            &&& v.wf()
            &&& v.has_thread(thread)
            &&& v.thread(thread).process == process
            &&& v.thread(thread).state == state
            &&& state is NotStarted ==> !v.process(process).not_started_threads.contains(thread)
            &&& state is Sleeping ==> !v.process(process).sleeping_threads.contains(thread)
        }) ==> final(scheduler)@.wf(),
{
    let ghost v0 = scheduler@;
    proof {
        if v0.wf() && v0.has_thread(thread) && v0.thread(thread).process == process && v0.thread(thread).state
            == state && (state is NotStarted ==> !v0.process(process).not_started_threads.contains(thread)) && (
        state is Sleeping ==> !v0.process(process).sleeping_threads.contains(thread)) {
            lemma_add_to_queues(v0, process, thread, state);
        }
    }
    let pi = process.0;
    match state {
        ThreadState::NotStarted => scheduler.process_table[pi].not_started_threads.push(thread),
        ThreadState::Ready => scheduler.process_table[pi].ready_threads.push(thread),
        ThreadState::Sleeping(_) => scheduler.process_table[pi].sleeping_threads.push(thread),
        _ => {},
    }
    proof {
        let w = v0.add_to_queues(process, thread, state);
        assert forall|j: int| 0 <= j < w.process_table.len() implies scheduler@.process_table[j] == w.process_table[j] by {
            if j == pi as int {
                assert(scheduler@.process_table[j] =~= w.process_table[j]);
            }
        }
        assert(scheduler@.process_table =~= w.process_table);
        assert(scheduler@ =~= w);
    }
}

impl Thread {
    /// Moves the thread into `state`: out of the queue of its old state and
    /// into the queue of the new one. A thread cannot be put in the running
    /// state this way.
    pub fn change_state(scheduler: &mut FirstComeFirstServedScheduler, thread: ThreadHandle, state: ThreadState)
        requires
            old(scheduler)@.wf(),
            old(scheduler)@.has_thread(thread),
            !(state is Running),
        ensures
            final(scheduler)@.wf(),
            final(scheduler)@ == old(scheduler)@.change_state(thread, state),
            final(scheduler)@.thread(thread) == (Thread { state, ..old(scheduler)@.thread(thread) }),
    {
        let ghost v0 = scheduler@;
        proof {
            lemma_change_state(v0, thread, state);
            assert(v0.has_process(v0.thread_table[thread.0 as int].process));
        }
        let th = scheduler.thread_table[thread.0];
        let process = th.process;
        remove_thread_from_process_queues(scheduler, process, thread, th.state);
        let ghost v1 = scheduler@;
        scheduler.thread_table.set(thread.0, Thread { state, ..th });
        proof {
            let v2 = v1.with_thread(thread, Thread { state, ..th });
            assert(scheduler@.thread_table =~= v2.thread_table);
            assert(scheduler@ =~= v2);
            lemma_change_state_middle(v0, thread, state);
        }
        add_thread_to_process_queues(scheduler, process, thread, state);
    }
}

impl Thread {
    /// Creates a new thread of `process` that starts at `address` with the
    /// stack pointer `stack_pointer`, created at `current_tick`. Its id is
    /// the process's count of created threads, after that count goes up by
    /// one; it has not started and joins the back of the process's queue of
    /// threads not started. Both addresses must be canonical.
    pub fn new_native(
        scheduler: &mut FirstComeFirstServedScheduler,
        address: usize,
        stack_pointer: usize,
        process: ProcessHandle,
        current_tick: u64,
    ) -> (r: ThreadHandle)
        requires
            old(scheduler)@.wf(),
            old(scheduler)@.has_process(process),
            old(scheduler)@.process(process).total_threads_created < u64::MAX,
            old(scheduler)@.thread_table.len() < usize::MAX,
            is_canonical(address as u64),
            is_canonical(stack_pointer as u64),
        ensures
            final(scheduler)@.wf(),
            (final(scheduler)@, r) == old(scheduler)@.new_thread(
                address as u64,
                stack_pointer as u64,
                process,
                current_tick,
            ),
    {
        let ghost v0 = scheduler@;
        proof {
            lemma_new_thread(v0, address as u64, stack_pointer as u64, process, current_tick);
        }
        let pi = process.0;
        let created = scheduler.process_table[pi].total_threads_created + 1;
        scheduler.process_table[pi].total_threads_created = created;
        let registers_state = RegistersState::new(address as u64, initial_flags(), stack_pointer as u64);
        let thread = Thread {
            id: created,
            state: ThreadState::NotStarted,
            total_ticks: 0,
            start_tick: current_tick,
            last_tick: 0,
            process,
            registers_state,
        };
        let r = ThreadHandle(scheduler.thread_table.len());
        scheduler.thread_table.push(thread);
        scheduler.process_table[pi].not_started_threads.push(r);
        proof {
            let (w, t) = v0.new_thread(address as u64, stack_pointer as u64, process, current_tick);
            assert(r == t);
            assert(scheduler@.thread_table =~= w.thread_table);
            assert forall|j: int| 0 <= j < w.process_table.len() implies scheduler@.process_table[j] == w.process_table[j] by {
                if j == pi as int {
                    assert(scheduler@.process_table[j] =~= w.process_table[j]);
                }
            }
            assert(scheduler@.process_table =~= w.process_table);
            assert(scheduler@ =~= w);
        }
        r
    }
}

/// Checks if the process has no threads and can be safely removed; if so,
/// removes it from the scheduling queue and returns the frame of its page
/// table, whose user-mode mapping the caller clears.
fn check_should_remove_process(scheduler: &mut FirstComeFirstServedScheduler, process: ProcessHandle) -> (r: Option<u64>)
    requires
        old(scheduler)@.wf(),
        old(scheduler)@.has_process(process),
    ensures
        final(scheduler)@.wf(),
        old(scheduler)@.has_no_threads(process) ==> final(scheduler)@ == (SchedulerView {
            processes: without_process(old(scheduler)@.processes, process),
            ..old(scheduler)@
        }) && r == Some(old(scheduler)@.process(process).cr3.0),
        !old(scheduler)@.has_no_threads(process) ==> final(scheduler)@ == old(scheduler)@ && r is None,
{
    let pi = process.0;
    let pr = &scheduler.process_table[pi];
    if pr.not_started_threads.len() == 0 && pr.ready_threads.len() == 0 && pr.sleeping_threads.len() == 0 {
        let frame = pr.cr3.0;
        scheduler.remove_process(process);
        Some(frame)
    } else {
        None
    }
}

/// Removes the thread from its process: it leaves the queue of its state.
/// If this thread is the last one, the process is cleaned up: it leaves the
/// scheduling queue, and the frame of its page table is returned so that
/// the caller clears its user-mode mapping.
pub fn exit_thread(scheduler: &mut FirstComeFirstServedScheduler, thread: ThreadHandle) -> (r: Option<u64>)
    requires
        old(scheduler)@.wf(),
        old(scheduler)@.has_thread(thread),
    ensures
        final(scheduler)@.wf(),
        (final(scheduler)@, r) == old(scheduler)@.exit_thread(thread),
{
    let ghost v0 = scheduler@;
    proof {
        assert(v0.has_process(v0.thread_table[thread.0 as int].process));
        lemma_exit_thread(v0, thread);
    }
    let th = scheduler.thread_table[thread.0];
    remove_thread_from_process_queues(scheduler, th.process, thread, th.state);
    check_should_remove_process(scheduler, th.process)
}

/// Runs the scheduler, giving it control of the CPU: returns the thread to
/// dispatch, chosen as `schedule` does, or nothing, leaving the scheduler
/// as it is, when no thread at all can run.
pub fn run_processes(scheduler: &mut FirstComeFirstServedScheduler) -> (r: Option<ThreadHandle>)
    requires
        old(scheduler)@.wf(),
    ensures
        final(scheduler)@.wf(),
        r is None <==> !old(scheduler)@.can_schedule(),
        r is None ==> final(scheduler)@ == old(scheduler)@,
        r matches Some(t) ==> (final(scheduler)@, t) == old(scheduler)@.schedule(),
{
    if !scheduler.has_runnable_process() {
        return None;
    }
    Some(scheduler.schedule())
}

/// Handles a timer tick: the running thread's registers and ticks are
/// accounted for at `tick`, then the next thread to dispatch is chosen.
pub fn timer_handler(scheduler: &mut FirstComeFirstServedScheduler, registers_state: RegistersState, tick: u64) -> (r:
    ThreadHandle)
    requires
        old(scheduler)@.wf(),
        old(scheduler)@.can_account_tick(tick),
        old(scheduler)@.can_schedule(),
    ensures
        final(scheduler)@.wf(),
        (final(scheduler)@, r) == old(scheduler)@.on_tick(registers_state, tick).schedule(),
{
    proof {
        lemma_on_tick(old(scheduler)@, registers_state, tick);
    }
    scheduler.on_tick(registers_state, tick);
    scheduler.schedule()
}

} // verus!
