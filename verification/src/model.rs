use vstd::prelude::*;
use crate::thread::{Thread, ThreadHandle, ThreadState, sleep_ticks};
use crate::process::{ProcessHandle, ProcessView};
use crate::registers_state::{RegistersState, spec_initial_flags};

verus! {

/// A scheduler as a mathematical value.
#[verifier::ext_equal]
pub struct SchedulerView {
    /// The thread that runs now, if any.
    pub running_thread: Option<ThreadHandle>,
    /// The scheduling queue: the processes that are registered, in order.
    pub processes: Seq<ProcessHandle>,
    /// Every process ever added, indexed by its handle.
    pub process_table: Seq<ProcessView>,
    /// Every thread ever created, indexed by its handle.
    pub thread_table: Seq<Thread>,
}

/// `s` without its first occurrence of `t` (unchanged if `t` does not occur).
pub open spec fn remove_first(s: Seq<ThreadHandle>, t: ThreadHandle) -> Seq<ThreadHandle>
    decreases s.len(),
{
    if s.len() == 0 {
        s
    } else if s[0] == t {
        s.drop_first()
    } else {
        seq![s[0]] + remove_first(s.drop_first(), t)
    }
}

/// The entries of `s` that satisfy `f`, in order.
pub open spec fn keep<A>(s: Seq<A>, f: spec_fn(A) -> bool) -> Seq<A>
    decreases s.len(),
{
    if s.len() == 0 {
        s
    } else if f(s.last()) {
        keep(s.drop_last(), f).push(s.last())
    } else {
        keep(s.drop_last(), f)
    }
}

/// `q` without any occurrence of `p`, order kept.
pub open spec fn without_process(q: Seq<ProcessHandle>, p: ProcessHandle) -> Seq<ProcessHandle>
    decreases q.len(),
{
    if q.len() == 0 {
        q
    } else if q.last() != p {
        without_process(q.drop_last(), p).push(q.last())
    } else {
        without_process(q.drop_last(), p)
    }
}

/// A thread after one sleeping round: it sleeps one round less, or wakes up
/// ready when no round is left.
pub open spec fn after_sleep_round(th: Thread) -> Thread {
    if sleep_ticks(th.state) > 0 {
        Thread { state: ThreadState::Sleeping((sleep_ticks(th.state) - 1) as u64), ..th }
    } else {
        Thread { state: ThreadState::Ready, ..th }
    }
}

/// The human-readable name of a thread state.
pub open spec fn state_name(state: ThreadState) -> Seq<char> {
    match state {
        ThreadState::NotStarted => "not started"@,
        ThreadState::Ready => "ready"@,
        ThreadState::Running => "running"@,
        ThreadState::Sleeping(_) => "sleeping"@,
        ThreadState::Terminated => "terminated"@,
    }
}

impl SchedulerView {
    pub open spec fn has_thread(self, t: ThreadHandle) -> bool {
        t.0 < self.thread_table.len()
    }

    pub open spec fn has_process(self, p: ProcessHandle) -> bool {
        p.0 < self.process_table.len()
    }

    pub open spec fn thread(self, t: ThreadHandle) -> Thread {
        self.thread_table[t.0 as int]
    }

    pub open spec fn process(self, p: ProcessHandle) -> ProcessView {
        self.process_table[p.0 as int]
    }

    /// Every thread of `s` exists and belongs to process `p`.
    pub open spec fn owned_by(self, s: Seq<ThreadHandle>, p: ProcessHandle) -> bool {
        forall|i: int|
            0 <= i < s.len() ==> #[trigger] self.has_thread(s[i]) && self.thread(s[i]).process == p
    }

    /// Every thread of `s` exists.
    pub open spec fn valid_handles(self, s: Seq<ThreadHandle>) -> bool {
        forall|i: int| 0 <= i < s.len() ==> #[trigger] self.has_thread(s[i])
    }

    /// Every thread of `s` has not started.
    pub open spec fn all_not_started(self, s: Seq<ThreadHandle>) -> bool {
        forall|i: int| 0 <= i < s.len() ==> #[trigger] self.thread(s[i]).state == ThreadState::NotStarted
    }

    /// Every thread of `s` sleeps.
    pub open spec fn all_sleeping(self, s: Seq<ThreadHandle>) -> bool {
        forall|i: int| 0 <= i < s.len() ==> (#[trigger] self.thread(s[i]).state is Sleeping)
    }

    /// The queues of process `p` hold existing threads; the threads that
    /// have not started, and the sleeping ones, belong to `p`, each occur
    /// once and are in the state of their queue.
    pub open spec fn process_wf(self, p: ProcessHandle) -> bool {
        let pv = self.process(p);
        &&& self.owned_by(pv.not_started_threads, p)
        &&& self.valid_handles(pv.ready_threads)
        &&& self.owned_by(pv.sleeping_threads, p)
        &&& pv.not_started_threads.no_duplicates()
        &&& pv.sleeping_threads.no_duplicates()
        &&& self.all_not_started(pv.not_started_threads)
        &&& self.all_sleeping(pv.sleeping_threads)
    }

    /// The invariant of a scheduler.
    pub open spec fn wf(self) -> bool {
        &&& forall|i: int|
            0 <= i < self.thread_table.len() ==> self.has_process(
                #[trigger] self.thread_table[i].process,
            )
        &&& (self.running_thread matches Some(t) ==> self.has_thread(t))
        &&& self.processes.no_duplicates()
        &&& forall|i: int| 0 <= i < self.processes.len() ==> self.has_process(#[trigger] self.processes[i])
        &&& forall|p: ProcessHandle| self.has_process(p) ==> #[trigger] self.process_wf(p)
    }

    pub open spec fn with_process(self, p: ProcessHandle, pv: ProcessView) -> SchedulerView {
        SchedulerView { process_table: self.process_table.update(p.0 as int, pv), ..self }
    }

    pub open spec fn with_thread(self, t: ThreadHandle, th: Thread) -> SchedulerView {
        SchedulerView { thread_table: self.thread_table.update(t.0 as int, th), ..self }
    }

    /// The sleeping threads of `s` that still sleep after this round.
    pub open spec fn still_sleeping(self, s: Seq<ThreadHandle>) -> Seq<ThreadHandle>
        decreases s.len(),
    {
        if s.len() == 0 {
            s
        } else if sleep_ticks(self.thread(s.last()).state) > 0 {
            self.still_sleeping(s.drop_last()).push(s.last())
        } else {
            self.still_sleeping(s.drop_last())
        }
    }

    /// The sleeping threads of `s` that wake up in this round, in order.
    pub open spec fn waking(self, s: Seq<ThreadHandle>) -> Seq<ThreadHandle>
        decreases s.len(),
    {
        if s.len() == 0 {
            s
        } else if sleep_ticks(self.thread(s.last()).state) == 0 {
            self.waking(s.drop_last()).push(s.last())
        } else {
            self.waking(s.drop_last())
        }
    }

    /// One sleeping round of process `p`: each of its sleeping threads
    /// sleeps one round less; those with no round left become ready and move,
    /// in order, to the back of the ready queue.
    pub open spec fn sleep_round(self, p: ProcessHandle) -> SchedulerView {
        let pv = self.process(p);
        let s = pv.sleeping_threads;
        SchedulerView {
            process_table: self.process_table.update(
                p.0 as int,
                ProcessView {
                    sleeping_threads: self.still_sleeping(s),
                    ready_threads: pv.ready_threads + self.waking(s),
                    ..pv
                },
            ),
            thread_table: Seq::new(
                self.thread_table.len(),
                |i: int|
                    if s.contains(ThreadHandle(i as usize)) {
                        after_sleep_round(self.thread_table[i])
                    } else {
                        self.thread_table[i]
                    },
            ),
            ..self
        }
    }

    /// Process `p` has a thread to run: a ready one or one not started.
    pub open spec fn has_runnable_thread(self, p: ProcessHandle) -> bool {
        self.process(p).ready_threads.len() > 0 || self.process(p).not_started_threads.len() > 0
    }

    /// Process `p` has a thread to run once its sleeping round is done:
    /// a ready one, one not started, or a sleeping one with no round left.
    pub open spec fn runnable(self, p: ProcessHandle) -> bool {
        let pv = self.process(p);
        ||| pv.ready_threads.len() > 0
        ||| pv.not_started_threads.len() > 0
        ||| exists|i: int|
            0 <= i < pv.sleeping_threads.len() && sleep_ticks(
                #[trigger] self.thread(pv.sleeping_threads[i]).state,
            ) == 0
    }

    /// Some queued process is runnable.
    pub open spec fn can_schedule(self) -> bool {
        exists|k: int| 0 <= k < self.processes.len() && self.runnable(#[trigger] self.processes[k])
    }

    /// The position in the queue of the first runnable process.
    pub open spec fn first_runnable(self, k: int) -> bool {
        &&& 0 <= k < self.processes.len()
        &&& self.runnable(self.processes[k])
        &&& forall|j: int| 0 <= j < k ==> !self.runnable(#[trigger] self.processes[j])
    }

    /// Scans the queue from position `j`: each visited process does its
    /// sleeping round, and the scan stops at the first one that then has a
    /// thread to run. Returns the state after the scan and the position
    /// where it stopped, or -1.
    pub open spec fn scan(self, j: int) -> (SchedulerView, int)
        decreases self.processes.len() - j,
    {
        if j < 0 || j >= self.processes.len() {
            (self, -1)
        } else {
            let v1 = self.sleep_round(self.processes[j]);
            if v1.has_runnable_thread(self.processes[j]) {
                (v1, j)
            } else {
                v1.scan(j + 1)
            }
        }
    }

    /// Takes the thread of process `p` to run: the first ready thread, or
    /// else the first one not started (which becomes ready); the thread
    /// goes to the back of the ready queue.
    pub open spec fn thread_to_run(self, p: ProcessHandle) -> (SchedulerView, ThreadHandle) {
        let pv = self.process(p);
        if pv.ready_threads.len() > 0 {
            let t = pv.ready_threads[0];
            (self.with_process(p, ProcessView { ready_threads: pv.ready_threads.drop_first().push(t), ..pv }), t)
        } else {
            let t = pv.not_started_threads[0];
            let v1 = self.with_process(
                p,
                ProcessView {
                    not_started_threads: pv.not_started_threads.drop_first(),
                    ready_threads: pv.ready_threads.push(t),
                    ..pv
                },
            );
            (v1.with_thread(t, Thread { state: ThreadState::Ready, ..self.thread(t) }), t)
        }
    }

    /// Pushes thread `t` to the back of the ready queue of its process.
    pub open spec fn requeue_ready(self, t: ThreadHandle) -> SchedulerView {
        let p = self.thread(t).process;
        let pv = self.process(p);
        self.with_process(p, ProcessView { ready_threads: pv.ready_threads.push(t), ..pv })
    }

    /// One scheduling decision: the first process of the queue that has a
    /// thread to run (after its sleeping round) gives its thread and moves
    /// to the back of the queue; the thread that ran before, if it is
    /// another one, goes back to its process's ready queue; the chosen
    /// thread runs.
    pub open spec fn schedule(self) -> (SchedulerView, ThreadHandle) {
        let (v1, k) = self.scan(0);
        let p = self.processes[k];
        let (v2, t) = v1.thread_to_run(p);
        let v3 = SchedulerView { processes: self.processes.remove(k).push(p), ..v2 };
        let v4 = match self.running_thread {
            Some(prev) => if prev != t { v3.requeue_ready(prev) } else { v3 },
            None => v3,
        };
        (SchedulerView { running_thread: Some(t), ..v4 }, t)
    }

    /// Takes thread `t` out of the queue of process `p` for `state` (its first
    /// occurrence); a running thread stops being the running one.
    pub open spec fn remove_from_queues(self, p: ProcessHandle, t: ThreadHandle, state: ThreadState) -> SchedulerView {
        let pv = self.process(p);
        match state {
            ThreadState::Running => if self.running_thread == Some(t) {
                SchedulerView { running_thread: None, ..self }
            } else {
                self
            },
            ThreadState::NotStarted => self.with_process(
                p,
                ProcessView { not_started_threads: remove_first(pv.not_started_threads, t), ..pv },
            ),
            ThreadState::Ready => self.with_process(
                p,
                ProcessView { ready_threads: remove_first(pv.ready_threads, t), ..pv },
            ),
            ThreadState::Sleeping(_) => self.with_process(
                p,
                ProcessView { sleeping_threads: remove_first(pv.sleeping_threads, t), ..pv },
            ),
            ThreadState::Terminated => self,
        }
    }

    /// Appends thread `t` to the queue of process `p` for `state`; running
    /// and terminated threads have no queue.
    pub open spec fn add_to_queues(self, p: ProcessHandle, t: ThreadHandle, state: ThreadState) -> SchedulerView {
        let pv = self.process(p);
        match state {
            ThreadState::NotStarted => self.with_process(
                p,
                ProcessView { not_started_threads: pv.not_started_threads.push(t), ..pv },
            ),
            ThreadState::Ready => self.with_process(p, ProcessView { ready_threads: pv.ready_threads.push(t), ..pv }),
            ThreadState::Sleeping(_) => self.with_process(
                p,
                ProcessView { sleeping_threads: pv.sleeping_threads.push(t), ..pv },
            ),
            _ => self,
        }
    }

    /// Moves thread `t` into `state`: out of the queue of its old state, into
    /// the queue of the new one.
    pub open spec fn change_state(self, t: ThreadHandle, state: ThreadState) -> SchedulerView {
        let th = self.thread(t);
        let v1 = self.remove_from_queues(th.process, t, th.state);
        let v2 = v1.with_thread(t, Thread { state, ..th });
        v2.add_to_queues(th.process, t, state)
    }

    /// A new thread of process `p`, created at `tick`: it takes the next
    /// handle, its id is the process's count of created threads plus one,
    /// it has not started, its registers start at `address` with the stack
    /// pointer `stack_pointer` and the initial flags, and it joins the back
    /// of the queue of threads not started.
    pub open spec fn new_thread(self, address: u64, stack_pointer: u64, p: ProcessHandle, tick: u64) -> (
        SchedulerView,
        ThreadHandle,
    ) {
        let pv = self.process(p);
        let t = ThreadHandle(self.thread_table.len() as usize);
        let th = Thread {
            id: (pv.total_threads_created + 1) as u64,
            state: ThreadState::NotStarted,
            registers_state: RegistersState::initial(address, spec_initial_flags(), stack_pointer),
            total_ticks: 0,
            start_tick: tick,
            last_tick: 0,
            process: p,
        };
        (
            SchedulerView {
                thread_table: self.thread_table.push(th),
                process_table: self.process_table.update(
                    p.0 as int,
                    ProcessView {
                        total_threads_created: (pv.total_threads_created + 1) as u64,
                        not_started_threads: pv.not_started_threads.push(t),
                        ..pv
                    },
                ),
                ..self
            },
            t,
        )
    }

    /// Process `p` has no thread left in its queues.
    pub open spec fn has_no_threads(self, p: ProcessHandle) -> bool {
        let pv = self.process(p);
        pv.not_started_threads.len() == 0 && pv.ready_threads.len() == 0 && pv.sleeping_threads.len() == 0
    }

    /// Thread `t` leaves the queue of its state; if its process then has no
    /// thread left, the process leaves the scheduling queue and the frame of
    /// its page table is returned for its user-mode mapping to be cleared.
    pub open spec fn exit_thread(self, t: ThreadHandle) -> (SchedulerView, Option<u64>) {
        let th = self.thread(t);
        let v1 = self.remove_from_queues(th.process, t, th.state);
        if v1.has_no_threads(th.process) {
            (
                SchedulerView { processes: without_process(v1.processes, th.process), ..v1 },
                Some(v1.process(th.process).cr3.0),
            )
        } else {
            (v1, None)
        }
    }

    /// The running thread, if any, and its process can account for the
    /// ticks up to `tick`: neither last ran after `tick`, and their totals
    /// stay within 64 bits.
    pub open spec fn can_account_tick(self, tick: u64) -> bool {
        match self.running_thread {
            Some(t) => {
                let th = self.thread(t);
                let pv = self.process(th.process);
                &&& th.last_tick <= tick
                &&& th.total_ticks + (tick - th.last_tick) <= u64::MAX
                &&& pv.last_tick <= tick
                &&& pv.total_ticks + (tick - pv.last_tick) <= u64::MAX
            },
            None => true,
        }
    }

    /// Accounting of a tick: the running thread, if any, saves its
    /// registers, and it and its process add the ticks since they last ran
    /// to their totals and record `tick` as the last one.
    pub open spec fn on_tick(self, registers_state: RegistersState, tick: u64) -> SchedulerView {
        match self.running_thread {
            Some(t) => {
                let th = self.thread(t);
                let pv = self.process(th.process);
                self.with_thread(
                    t,
                    Thread {
                        registers_state,
                        total_ticks: (th.total_ticks + (tick - th.last_tick)) as u64,
                        last_tick: tick,
                        ..th
                    },
                ).with_process(
                    th.process,
                    ProcessView { total_ticks: (pv.total_ticks + (tick - pv.last_tick)) as u64, last_tick: tick, ..pv },
                )
            },
            None => self,
        }
    }

    /// Thread `t` and its process record `tick` as the tick they last ran on.
    pub open spec fn stamp_last_tick(self, t: ThreadHandle, tick: u64) -> SchedulerView {
        let th = self.thread(t);
        let pv = self.process(th.process);
        self.with_thread(t, Thread { last_tick: tick, ..th }).with_process(
            th.process,
            ProcessView { last_tick: tick, ..pv },
        )
    }
}

/// Process well-formedness depends only on the process and the thread table.
pub proof fn lemma_process_wf_frame(a: SchedulerView, b: SchedulerView, p: ProcessHandle)
    requires
        a.process_wf(p),
        a.thread_table == b.thread_table,
        a.process(p) == b.process(p),
    ensures
        b.process_wf(p),
{
    let pv = b.process(p);
    assert forall|i: int| 0 <= i < pv.not_started_threads.len() implies #[trigger] b.has_thread(
        pv.not_started_threads[i],
    ) && b.thread(pv.not_started_threads[i]).process == p by {
        assert(a.has_thread(pv.not_started_threads[i]));
    }
    assert forall|i: int| 0 <= i < pv.ready_threads.len() implies #[trigger] b.has_thread(
        pv.ready_threads[i],
    ) by {
        assert(a.has_thread(pv.ready_threads[i]));
    }
    assert forall|i: int| 0 <= i < pv.sleeping_threads.len() implies #[trigger] b.has_thread(
        pv.sleeping_threads[i],
    ) && b.thread(pv.sleeping_threads[i]).process == p by {
        assert(a.has_thread(pv.sleeping_threads[i]));
    }
    assert forall|i: int| 0 <= i < pv.not_started_threads.len() implies #[trigger] b.thread(
        pv.not_started_threads[i],
    ).state == ThreadState::NotStarted by {
        assert(a.thread(pv.not_started_threads[i]).state == ThreadState::NotStarted);
    }
    assert forall|i: int| 0 <= i < pv.sleeping_threads.len() implies (#[trigger] b.thread(
        pv.sleeping_threads[i],
    ).state is Sleeping) by {
        assert(a.thread(pv.sleeping_threads[i]).state is Sleeping);
    }
}

/// Process well-formedness survives a change of the ready queue alone, as
/// long as the new ready queue holds only existing threads.
pub proof fn lemma_process_wf_new_ready(a: SchedulerView, b: SchedulerView, p: ProcessHandle)
    requires
        a.process_wf(p),
        b.has_process(p),
        a.thread_table == b.thread_table,
        b.process(p) == (ProcessView { ready_threads: b.process(p).ready_threads, ..a.process(p) }),
        b.valid_handles(b.process(p).ready_threads),
    ensures
        b.process_wf(p),
{
    let c = SchedulerView { process_table: b.process_table.update(p.0 as int, a.process(p)), ..b };
    lemma_process_wf_frame(a, c, p);
    let pv = b.process(p);
    assert(c.owned_by(pv.not_started_threads, p));
    assert(c.owned_by(pv.sleeping_threads, p));
    assert forall|i: int| 0 <= i < pv.not_started_threads.len() implies #[trigger] b.has_thread(
        pv.not_started_threads[i],
    ) && b.thread(pv.not_started_threads[i]).process == p by {
        assert(c.has_thread(pv.not_started_threads[i]));
    }
    assert forall|i: int| 0 <= i < pv.sleeping_threads.len() implies #[trigger] b.has_thread(
        pv.sleeping_threads[i],
    ) && b.thread(pv.sleeping_threads[i]).process == p by {
        assert(c.has_thread(pv.sleeping_threads[i]));
    }
    assert forall|i: int| 0 <= i < pv.not_started_threads.len() implies #[trigger] b.thread(
        pv.not_started_threads[i],
    ).state == ThreadState::NotStarted by {
        assert(c.thread(pv.not_started_threads[i]).state == ThreadState::NotStarted);
    }
    assert forall|i: int| 0 <= i < pv.sleeping_threads.len() implies (#[trigger] b.thread(
        pv.sleeping_threads[i],
    ).state is Sleeping) by {
        assert(c.thread(pv.sleeping_threads[i]).state is Sleeping);
    }
}

/// A part of a queue of threads of `p` holds threads of `p`.
pub proof fn lemma_owned_subset(v: SchedulerView, w: SchedulerView, s: Seq<ThreadHandle>, r: Seq<ThreadHandle>, p: ProcessHandle)
    requires
        v.owned_by(s, p),
        w.thread_table == v.thread_table,
        forall|x: ThreadHandle| #[trigger] r.contains(x) ==> s.contains(x),
    ensures
        w.owned_by(r, p),
{
    assert forall|i: int| 0 <= i < r.len() implies #[trigger] w.has_thread(r[i]) && w.thread(r[i]).process == p by {
        assert(r.contains(r[i]));
        let m = choose|m: int| 0 <= m < s.len() && s[m] == r[i];
        assert(v.has_thread(s[m]));
    }
}

/// A queue of threads of `p`, and a thread of `p` after it, hold threads of
/// `p`; the queue by itself too.
pub proof fn lemma_owned_push(v: SchedulerView, w: SchedulerView, s: Seq<ThreadHandle>, t: ThreadHandle, p: ProcessHandle)
    requires
        v.owned_by(s, p),
        w.has_thread(t),
        w.thread(t).process == p,
        w.thread_table.len() >= v.thread_table.len(),
        forall|x: ThreadHandle| v.has_thread(x) ==> (#[trigger] w.thread(x)).process == v.thread(x).process,
    ensures
        w.owned_by(s.push(t), p),
        w.owned_by(s, p),
{
    lemma_owned_same(v, w, s, p);
    assert forall|i: int| 0 <= i < s.push(t).len() implies #[trigger] w.has_thread(s.push(t)[i]) && w.thread(
        s.push(t)[i],
    ).process == p by {
        if i < s.len() {
            assert(v.has_thread(s[i]));
            assert(w.thread(s[i]).process == v.thread(s[i]).process);
        }
    }
    assert forall|i: int| 0 <= i < s.len() implies #[trigger] w.has_thread(s[i]) && w.thread(s[i]).process == p by {
        assert(v.has_thread(s[i]));
        assert(w.thread(s[i]).process == v.thread(s[i]).process);
    }
}

/// A queue of threads of `p` still holds threads of `p` when threads keep
/// their process.
pub proof fn lemma_owned_same(v: SchedulerView, w: SchedulerView, s: Seq<ThreadHandle>, p: ProcessHandle)
    requires
        v.owned_by(s, p),
        w.thread_table.len() >= v.thread_table.len(),
        forall|x: ThreadHandle| v.has_thread(x) ==> (#[trigger] w.thread(x)).process == v.thread(x).process,
    ensures
        w.owned_by(s, p),
{
    assert forall|i: int| 0 <= i < s.len() implies #[trigger] w.has_thread(s[i]) && w.thread(s[i]).process == p by {
        assert(v.has_thread(s[i]));
        assert(w.thread(s[i]).process == v.thread(s[i]).process);
    }
}

/// A part of a queue of existing threads holds existing threads.
pub proof fn lemma_valid_subset(v: SchedulerView, w: SchedulerView, s: Seq<ThreadHandle>, r: Seq<ThreadHandle>)
    requires
        v.valid_handles(s),
        w.thread_table.len() >= v.thread_table.len(),
        forall|x: ThreadHandle| #[trigger] r.contains(x) ==> s.contains(x),
    ensures
        w.valid_handles(r),
{
    assert forall|i: int| 0 <= i < r.len() implies #[trigger] w.has_thread(r[i]) by {
        assert(r.contains(r[i]));
        let m = choose|m: int| 0 <= m < s.len() && s[m] == r[i];
        assert(v.has_thread(s[m]));
    }
}

/// A queue of existing threads, and an existing thread after it, hold
/// existing threads; the queue by itself too, in a table at least as long.
pub proof fn lemma_valid_push(v: SchedulerView, w: SchedulerView, s: Seq<ThreadHandle>, t: ThreadHandle)
    requires
        v.valid_handles(s),
        w.has_thread(t),
        w.thread_table.len() >= v.thread_table.len(),
    ensures
        w.valid_handles(s.push(t)),
        w.valid_handles(s),
        s.len() > 0 ==> w.valid_handles(s.drop_first().push(t)),
{
    assert forall|i: int| 0 <= i < s.push(t).len() implies #[trigger] w.has_thread(s.push(t)[i]) by {
        if i < s.len() {
            assert(v.has_thread(s[i]));
        }
    }
    assert forall|i: int| 0 <= i < s.len() implies #[trigger] w.has_thread(s[i]) by {
        assert(v.has_thread(s[i]));
    }
    if s.len() > 0 {
        assert forall|i: int| 0 <= i < s.drop_first().push(t).len() implies #[trigger] w.has_thread(
            s.drop_first().push(t)[i],
        ) by {
            if i < s.len() - 1 {
                assert(s.drop_first().push(t)[i] == s[i + 1]);
                assert(v.has_thread(s[i + 1]));
            }
        }
    }
}

/// Two queues of existing threads, one after the other, hold existing
/// threads.
pub proof fn lemma_valid_concat(v: SchedulerView, a: Seq<ThreadHandle>, b: Seq<ThreadHandle>)
    requires
        v.valid_handles(a),
        v.valid_handles(b),
    ensures
        v.valid_handles(a + b),
{
    assert forall|i: int| 0 <= i < (a + b).len() implies #[trigger] v.has_thread((a + b)[i]) by {
        if i < a.len() {
            assert((a + b)[i] == a[i]);
            assert(v.has_thread(a[i]));
        } else {
            assert((a + b)[i] == b[i - a.len()]);
            assert(v.has_thread(b[i - a.len()]));
        }
    }
}

/// Appending a value that is not there adds no duplicate.
pub proof fn lemma_push_no_duplicates<A>(s: Seq<A>, t: A)
    ensures
        s.no_duplicates() && !s.contains(t) ==> s.push(t).no_duplicates(),
{
    if s.no_duplicates() && !s.contains(t) {
        assert forall|a: int, b: int| 0 <= a < s.push(t).len() && 0 <= b < s.push(t).len() && a != b implies s.push(t)[a]
            != s.push(t)[b] by {
            if a < s.len() && b < s.len() {
            } else if a < s.len() {
                assert(s.contains(s[a]));
            } else {
                assert(s.contains(s[b]));
            }
        }
    }
}

/// `s` with `a` appended holds the entries of `s` and `a`, nothing else.
proof fn lemma_push_contains<A>(s: Seq<A>, a: A, x: A)
    ensures
        s.push(a).contains(x) <==> (s.contains(x) || x == a),
{
    if s.push(a).contains(x) {
        let i = choose|i: int| 0 <= i < s.push(a).len() && s.push(a)[i] == x;
        if i < s.len() {
            assert(s[i] == x);
        }
    }
    if s.contains(x) {
        let i = choose|i: int| 0 <= i < s.len() && s[i] == x;
        assert(s.push(a)[i] == x);
    }
    if x == a {
        assert(s.push(a)[s.len() as int] == x);
    }
}

/// A sequence is its prefix followed by its last entry.
proof fn lemma_drop_last_contains<A>(s: Seq<A>, x: A)
    requires
        s.len() > 0,
    ensures
        s.contains(x) <==> (s.drop_last().contains(x) || x == s.last()),
{
    assert(s =~= s.drop_last().push(s.last()));
    lemma_push_contains(s.drop_last(), s.last(), x);
}

/// Keeping entries keeps exactly those that satisfy `f`, never adds a
/// duplicate, and never lengthens the sequence.
pub proof fn lemma_keep<A>(s: Seq<A>, f: spec_fn(A) -> bool)
    ensures
        forall|x: A| #[trigger] keep(s, f).contains(x) <==> (s.contains(x) && f(x)),
        s.no_duplicates() ==> keep(s, f).no_duplicates(),
        keep(s, f).len() <= s.len(),
    decreases s.len(),
{
    if s.len() > 0 {
        let r = keep(s.drop_last(), f);
        lemma_keep(s.drop_last(), f);
        assert forall|x: A| #[trigger] keep(s, f).contains(x) <==> (s.contains(x) && f(x)) by {
            lemma_drop_last_contains(s, x);
            assert(r.contains(x) <==> (s.drop_last().contains(x) && f(x)));
            if f(s.last()) {
                lemma_push_contains(r, s.last(), x);
            }
        }
        if s.no_duplicates() {
            assert(s.drop_last().no_duplicates()) by {
                assert forall|i: int, j: int|
                    0 <= i < s.drop_last().len() && 0 <= j < s.drop_last().len() && i != j implies s.drop_last()[i]
                    != s.drop_last()[j] by {
                    assert(s[i] != s[j]);
                }
            }
            if f(s.last()) {
                assert(!r.contains(s.last())) by {
                    if s.drop_last().contains(s.last()) {
                        let i = choose|i: int| 0 <= i < s.drop_last().len() && s.drop_last()[i] == s.last();
                        assert(s[i] == s[s.len() - 1]);
                    }
                }
                assert forall|i: int, j: int|
                    0 <= i < r.push(s.last()).len() && 0 <= j < r.push(s.last()).len() && i != j implies r.push(
                    s.last(),
                )[i] != r.push(s.last())[j] by {
                    if i < r.len() && j < r.len() {
                    } else if i < r.len() {
                        assert(r.contains(r[i]));
                    } else {
                        assert(r.contains(r[j]));
                    }
                }
            }
        }
    }
}

proof fn lemma_without_is_keep(q: Seq<ProcessHandle>, p: ProcessHandle, f: spec_fn(ProcessHandle) -> bool)
    requires
        forall|x: ProcessHandle| #[trigger] f(x) == (x != p),
    ensures
        without_process(q, p) == keep(q, f),
    decreases q.len(),
{
    if q.len() > 0 {
        lemma_without_is_keep(q.drop_last(), p, f);
    }
}

/// Removing `p` keeps exactly the other entries: no duplicates appear and no
/// entry is new.
pub proof fn lemma_without_process(q: Seq<ProcessHandle>, p: ProcessHandle)
    ensures
        !without_process(q, p).contains(p),
        forall|x: ProcessHandle| #[trigger] without_process(q, p).contains(x) <==> (q.contains(x) && x != p),
        q.no_duplicates() ==> without_process(q, p).no_duplicates(),
        without_process(q, p).len() <= q.len(),
{
    let f = |x: ProcessHandle| x != p;
    lemma_without_is_keep(q, p, f);
    lemma_keep(q, f);
    assert forall|x: ProcessHandle| #[trigger] without_process(q, p).contains(x) <==> (q.contains(x) && x != p) by {
        assert(keep(q, f).contains(x) <==> (q.contains(x) && f(x)));
    }
}

proof fn lemma_still_is_keep(v: SchedulerView, s: Seq<ThreadHandle>, f: spec_fn(ThreadHandle) -> bool)
    requires
        forall|t: ThreadHandle| #[trigger] f(t) == (sleep_ticks(v.thread(t).state) > 0),
    ensures
        v.still_sleeping(s) == keep(s, f),
    decreases s.len(),
{
    if s.len() > 0 {
        lemma_still_is_keep(v, s.drop_last(), f);
    }
}

proof fn lemma_waking_is_keep(v: SchedulerView, s: Seq<ThreadHandle>, f: spec_fn(ThreadHandle) -> bool)
    requires
        forall|t: ThreadHandle| #[trigger] f(t) == (sleep_ticks(v.thread(t).state) == 0),
    ensures
        v.waking(s) == keep(s, f),
    decreases s.len(),
{
    if s.len() > 0 {
        lemma_waking_is_keep(v, s.drop_last(), f);
    }
}

/// The sleeping round splits the sleeping threads: those with rounds left
/// stay, the others wake; neither part holds a duplicate or a new thread.
pub proof fn lemma_split_sleeping(v: SchedulerView, s: Seq<ThreadHandle>)
    ensures
        forall|t: ThreadHandle| #[trigger] v.still_sleeping(s).contains(t) <==> (s.contains(t) && sleep_ticks(v.thread(t).state) > 0),
        forall|t: ThreadHandle| #[trigger] v.waking(s).contains(t) <==> (s.contains(t) && sleep_ticks(v.thread(t).state) == 0),
        s.no_duplicates() ==> v.still_sleeping(s).no_duplicates() && v.waking(s).no_duplicates(),
{
    let f = |t: ThreadHandle| sleep_ticks(v.thread(t).state) > 0;
    let g = |t: ThreadHandle| sleep_ticks(v.thread(t).state) == 0;
    lemma_still_is_keep(v, s, f);
    lemma_waking_is_keep(v, s, g);
    lemma_keep(s, f);
    lemma_keep(s, g);
    assert forall|t: ThreadHandle| #[trigger] v.still_sleeping(s).contains(t) <==> (s.contains(t) && sleep_ticks(v.thread(t).state) > 0) by {
        assert(keep(s, f).contains(t) <==> (s.contains(t) && f(t)));
    }
    assert forall|t: ThreadHandle| #[trigger] v.waking(s).contains(t) <==> (s.contains(t) && sleep_ticks(v.thread(t).state) == 0) by {
        assert(keep(s, g).contains(t) <==> (s.contains(t) && g(t)));
    }
}

/// A sleeping round of a process keeps the scheduler well-formed; it
/// touches only that process and its sleeping threads.
#[verifier::spinoff_prover]
#[verifier::rlimit(40)]
pub proof fn lemma_sleep_round(v: SchedulerView, p: ProcessHandle)
    requires
        v.wf(),
        v.has_process(p),
    ensures
        v.sleep_round(p).wf(),
        v.sleep_round(p).processes == v.processes,
        v.sleep_round(p).running_thread == v.running_thread,
        v.sleep_round(p).process_table.len() == v.process_table.len(),
        v.sleep_round(p).thread_table.len() == v.thread_table.len(),
        v.sleep_round(p).has_runnable_thread(p) == v.runnable(p),
        forall|q: ProcessHandle| #![trigger v.sleep_round(p).process(q)]
            q != p && v.has_process(q) ==> v.sleep_round(p).process(q) == v.process(q)
                && v.sleep_round(p).runnable(q) == v.runnable(q),
{
    let w = v.sleep_round(p);
    let pv = v.process(p);
    let s = pv.sleeping_threads;
    assert(v.process_wf(p));
    lemma_split_sleeping(v, s);
    // threads keep their process
    assert forall|i: int| 0 <= i < w.thread_table.len() implies #[trigger] w.thread_table[i].process
        == v.thread_table[i].process by {}
    assert forall|i: int| 0 <= i < w.thread_table.len() implies w.has_process(
        #[trigger] w.thread_table[i].process,
    ) by {
        assert(v.has_process(v.thread_table[i].process));
    }
    // a thread that does not sleep in p is untouched
    assert forall|t: ThreadHandle| v.has_thread(t) && !s.contains(t) implies #[trigger] w.thread(t) == v.thread(t) by {}
    assert forall|q: ProcessHandle| w.has_process(q) implies #[trigger] w.process_wf(q) by {
        assert(v.process_wf(q));
        let qv = v.process(q);
        // threads of q are not sleeping threads of p, unless q == p
        if q != p {
            assert forall|t: ThreadHandle| v.has_thread(t) && v.thread(t).process == q implies !s.contains(t) by {
                if s.contains(t) {
                    let k = choose|k: int| 0 <= k < s.len() && s[k] == t;
                    assert(v.has_thread(s[k]));
                }
            }
            assert(w.process(q) == qv);
            assert forall|k: int| 0 <= k < qv.not_started_threads.len() implies #[trigger] w.thread(
                qv.not_started_threads[k],
            ).state == ThreadState::NotStarted by {
                assert(v.has_thread(qv.not_started_threads[k]));
            }
            assert forall|k: int| 0 <= k < qv.sleeping_threads.len() implies (#[trigger] w.thread(
                qv.sleeping_threads[k],
            ).state is Sleeping) by {
                assert(v.has_thread(qv.sleeping_threads[k]));
            }
            assert(w.owned_by(qv.not_started_threads, q)) by {
                assert forall|k: int| 0 <= k < qv.not_started_threads.len() implies #[trigger] w.has_thread(
                    qv.not_started_threads[k],
                ) && w.thread(qv.not_started_threads[k]).process == q by {
                    assert(v.has_thread(qv.not_started_threads[k]));
                }
            }
            assert(w.valid_handles(qv.ready_threads)) by {
                assert forall|k: int| 0 <= k < qv.ready_threads.len() implies #[trigger] w.has_thread(
                    qv.ready_threads[k],
                ) by {
                    assert(v.has_thread(qv.ready_threads[k]));
                }
            }
            assert(w.owned_by(qv.sleeping_threads, q)) by {
                assert forall|k: int| 0 <= k < qv.sleeping_threads.len() implies #[trigger] w.has_thread(
                    qv.sleeping_threads[k],
                ) && w.thread(qv.sleeping_threads[k]).process == q by {
                    assert(v.has_thread(qv.sleeping_threads[k]));
                }
            }
        } else {
            let wv = w.process(p);
            assert(wv.not_started_threads == pv.not_started_threads);
            assert forall|k: int| 0 <= k < pv.not_started_threads.len() implies #[trigger] w.thread(
                pv.not_started_threads[k],
            ).state == ThreadState::NotStarted by {
                let t = pv.not_started_threads[k];
                assert(v.thread(t).state == ThreadState::NotStarted);
                if s.contains(t) {
                    let m = choose|m: int| 0 <= m < s.len() && s[m] == t;
                    assert(v.thread(s[m]).state is Sleeping);
                }
            }
            let st = v.still_sleeping(s);
            assert forall|k: int| 0 <= k < st.len() implies (#[trigger] w.thread(st[k]).state is Sleeping) by {
                assert(st.contains(st[k]));
                assert(s.contains(st[k]));
                let m = choose|m: int| 0 <= m < s.len() && s[m] == st[k];
                assert(v.has_thread(s[m]));
                assert(sleep_ticks(v.thread(st[k]).state) > 0);
            }
            let wk = v.waking(s);
            let rd = pv.ready_threads + wk;
            assert(w.owned_by(pv.not_started_threads, p)) by {
                assert forall|k: int| 0 <= k < pv.not_started_threads.len() implies #[trigger] w.has_thread(
                    pv.not_started_threads[k],
                ) && w.thread(pv.not_started_threads[k]).process == p by {
                    assert(v.has_thread(pv.not_started_threads[k]));
                }
            }
            assert(w.owned_by(st, p)) by {
                assert forall|k: int| 0 <= k < st.len() implies #[trigger] w.has_thread(st[k]) && w.thread(
                    st[k],
                ).process == p by {
                    assert(st.contains(st[k]));
                    let m = choose|m: int| 0 <= m < s.len() && s[m] == st[k];
                    assert(v.has_thread(s[m]));
                }
            }
            assert(w.valid_handles(pv.ready_threads)) by {
                assert forall|k: int| 0 <= k < pv.ready_threads.len() implies #[trigger] w.has_thread(
                    pv.ready_threads[k],
                ) by {
                    assert(v.has_thread(pv.ready_threads[k]));
                }
            }
            assert(w.owned_by(wk, p)) by {
                assert forall|k: int| 0 <= k < wk.len() implies #[trigger] w.has_thread(wk[k]) && w.thread(
                    wk[k],
                ).process == p by {
                    assert(wk.contains(wk[k]));
                    let m = choose|m: int| 0 <= m < s.len() && s[m] == wk[k];
                    assert(v.has_thread(s[m]));
                }
            }
            lemma_valid_concat(w, pv.ready_threads, wk);
        }
    }
    // runnable after the round
    let wk = v.waking(s);
    if v.runnable(p) {
        if pv.ready_threads.len() == 0 && pv.not_started_threads.len() == 0 {
            let m = choose|m: int| 0 <= m < s.len() && sleep_ticks(v.thread(s[m]).state) == 0;
            assert(s.contains(s[m]));
            assert(wk.contains(s[m]));
        }
    }
    if w.has_runnable_thread(p) {
        if pv.ready_threads.len() == 0 && pv.not_started_threads.len() == 0 {
            assert(wk.len() > 0);
            assert(wk.contains(wk[0]));
            let m = choose|m: int| 0 <= m < s.len() && s[m] == wk[0];
            assert(sleep_ticks(v.thread(s[m]).state) == 0);
        }
    }
    // other processes
    assert forall|q: ProcessHandle| #![trigger w.process(q)] q != p && v.has_process(q) implies w.process(q) == v.process(q)
        && w.runnable(q) == v.runnable(q) by {
        assert(v.process_wf(q));
        let qs = v.process(q).sleeping_threads;
        assert forall|k: int| 0 <= k < qs.len() implies #[trigger] w.thread(qs[k]) == v.thread(qs[k]) by {
            assert(v.has_thread(qs[k]));
            if s.contains(qs[k]) {
                let m = choose|m: int| 0 <= m < s.len() && s[m] == qs[k];
                assert(v.has_thread(s[m]));
            }
        }
        if v.runnable(q) {
            if v.process(q).ready_threads.len() == 0 && v.process(q).not_started_threads.len() == 0 {
                let m = choose|m: int| 0 <= m < qs.len() && sleep_ticks(v.thread(qs[m]).state) == 0;
                assert(w.thread(qs[m]) == v.thread(qs[m]));
            }
        }
        if w.runnable(q) {
            if v.process(q).ready_threads.len() == 0 && v.process(q).not_started_threads.len() == 0 {
                let m = choose|m: int| 0 <= m < qs.len() && sleep_ticks(w.thread(qs[m]).state) == 0;
                assert(w.thread(qs[m]) == v.thread(qs[m]));
            }
        }
    }
}

/// The scan from position `j` stops at the first process, from `j` on, that
/// is runnable, when there is one; it keeps the scheduler well-formed and
/// leaves the queue and the running thread alone.
pub proof fn lemma_scan(v: SchedulerView, j: int)
    requires
        v.wf(),
        0 <= j,
    ensures
        v.scan(j).0.wf(),
        v.scan(j).0.processes == v.processes,
        v.scan(j).0.running_thread == v.running_thread,
        v.scan(j).0.process_table.len() == v.process_table.len(),
        v.scan(j).0.thread_table.len() == v.thread_table.len(),
        (exists|i: int| j <= i < v.processes.len() && v.runnable(#[trigger] v.processes[i])) ==> {
            let k = v.scan(j).1;
            &&& j <= k < v.processes.len()
            &&& v.runnable(v.processes[k])
            &&& forall|i: int| j <= i < k ==> !v.runnable(#[trigger] v.processes[i])
            &&& v.scan(j).0.has_runnable_thread(v.processes[k])
        },
    decreases v.processes.len() - j,
{
    if j < v.processes.len() {
        let p = v.processes[j];
        assert(v.has_process(p));
        lemma_sleep_round(v, p);
        let v1 = v.sleep_round(p);
        if !v1.has_runnable_thread(p) {
            lemma_scan(v1, j + 1);
            if exists|i: int| j <= i < v.processes.len() && v.runnable(#[trigger] v.processes[i]) {
                let i0 = choose|i: int| j <= i < v.processes.len() && v.runnable(#[trigger] v.processes[i]);
                assert(i0 != j);
                assert(v.processes[i0] != p);
                assert(v.has_process(v.processes[i0]));
                assert(v1.process(v.processes[i0]) == v.process(v.processes[i0]));
                assert(v1.runnable(v1.processes[i0]));
                let k = v1.scan(j + 1).1;
                assert(v.processes[k] != p);
                assert(v.has_process(v.processes[k]));
                assert(v1.process(v.processes[k]) == v.process(v.processes[k]));
                assert forall|i: int| j <= i < k implies !v.runnable(#[trigger] v.processes[i]) by {
                    if i > j {
                        assert(v.processes[i] != p);
                        assert(v.has_process(v.processes[i]));
                        assert(v1.process(v.processes[i]) == v.process(v.processes[i]));
                        assert(!v1.runnable(v1.processes[i]));
                    }
                }
            }
        }
    }
}

/// When some queued process is runnable, the scan from the front stops at
/// the first runnable one.
pub proof fn lemma_scan_from_front(v: SchedulerView)
    requires
        v.wf(),
        v.can_schedule(),
    ensures
        v.first_runnable(v.scan(0).1),
        v.scan(0).0.has_runnable_thread(v.processes[v.scan(0).1]),
{
    lemma_scan(v, 0);
}

/// Taking the thread to run keeps the scheduler well-formed; the thread
/// belongs to the process.
pub proof fn lemma_thread_to_run(v: SchedulerView, p: ProcessHandle)
    requires
        v.wf(),
        v.has_process(p),
        v.has_runnable_thread(p),
    ensures
        v.thread_to_run(p).0.wf(),
        v.thread_to_run(p).0.processes == v.processes,
        v.thread_to_run(p).0.running_thread == v.running_thread,
        v.thread_to_run(p).0.process_table.len() == v.process_table.len(),
        v.thread_to_run(p).0.thread_table.len() == v.thread_table.len(),
        v.has_thread(v.thread_to_run(p).1),
        v.thread_to_run(p).0.process(p).ready_threads.last() == v.thread_to_run(p).1,
{
    let pv = v.process(p);
    assert(v.process_wf(p));
    let (w, t) = v.thread_to_run(p);
    if pv.ready_threads.len() > 0 {
        assert(v.has_thread(pv.ready_threads[0]));
        assert forall|q: ProcessHandle| w.has_process(q) implies #[trigger] w.process_wf(q) by {
            assert(v.process_wf(q));
            if q != p {
                lemma_process_wf_frame(v, w, q);
            } else {
                let rd = pv.ready_threads.drop_first().push(t);
                assert(w.valid_handles(rd)) by {
                    assert forall|k: int| 0 <= k < rd.len() implies #[trigger] w.has_thread(rd[k]) by {
                        if k + 1 < pv.ready_threads.len() {
                            assert(rd[k] == pv.ready_threads[k + 1]);
                            assert(v.has_thread(pv.ready_threads[k + 1]));
                        }
                    }
                }
                lemma_process_wf_new_ready(v, w, p);
            }
        }
    } else {
        let ns = pv.not_started_threads;
        assert(v.has_thread(ns[0]));
        assert(v.thread(t).state == ThreadState::NotStarted);
        assert forall|q: ProcessHandle| w.has_process(q) implies #[trigger] w.process_wf(q) by {
            assert(v.process_wf(q));
            let qv = w.process(q);
            assert(w.owned_by(qv.not_started_threads, q)) by {
                assert forall|k: int| 0 <= k < qv.not_started_threads.len() implies #[trigger] w.has_thread(
                    qv.not_started_threads[k],
                ) && w.thread(qv.not_started_threads[k]).process == q by {
                    if q == p {
                        assert(qv.not_started_threads[k] == ns[k + 1]);
                        assert(v.has_thread(ns[k + 1]));
                    } else {
                        assert(v.has_thread(qv.not_started_threads[k]));
                    }
                }
            }
            assert(w.valid_handles(qv.ready_threads)) by {
                assert forall|k: int| 0 <= k < qv.ready_threads.len() implies #[trigger] w.has_thread(
                    qv.ready_threads[k],
                ) by {
                    if q == p {
                        if k < pv.ready_threads.len() {
                            assert(v.has_thread(pv.ready_threads[k]));
                        }
                    } else {
                        assert(v.has_thread(qv.ready_threads[k]));
                    }
                }
            }
            assert(w.owned_by(qv.sleeping_threads, q)) by {
                assert forall|k: int| 0 <= k < qv.sleeping_threads.len() implies #[trigger] w.has_thread(
                    qv.sleeping_threads[k],
                ) && w.thread(qv.sleeping_threads[k]).process == q by {
                    assert(v.has_thread(qv.sleeping_threads[k]));
                }
            }
            assert forall|k: int| 0 <= k < qv.not_started_threads.len() implies #[trigger] w.thread(
                qv.not_started_threads[k],
            ).state == ThreadState::NotStarted by {
                let x = qv.not_started_threads[k];
                if q == p {
                    assert(x == ns[k + 1]);
                    assert(ns[k + 1] != ns[0]);
                    assert(v.thread(ns[k + 1]).state == ThreadState::NotStarted);
                    assert(v.has_thread(ns[k + 1]));
                    assert(w.thread(x) == v.thread(x));
                } else {
                    assert(v.has_thread(x));
                    assert(x != t);
                }
            }
            assert forall|k: int| 0 <= k < qv.sleeping_threads.len() implies (#[trigger] w.thread(
                qv.sleeping_threads[k],
            ).state is Sleeping) by {
                let x = qv.sleeping_threads[k];
                assert(v.thread(x).state is Sleeping);
                assert(v.has_thread(x));
                assert(x != t);
                assert(w.thread(x) == v.thread(x));
            }
            if q == p {
                assert(qv.not_started_threads.no_duplicates()) by {
                    assert forall|a: int, b: int|
                        0 <= a < qv.not_started_threads.len() && 0 <= b < qv.not_started_threads.len() && a != b implies qv.not_started_threads[a]
                        != qv.not_started_threads[b] by {
                        assert(ns[a + 1] != ns[b + 1]);
                    }
                }
            }
        }
    }
}

/// Putting a thread back on the ready queue of its process keeps the
/// scheduler well-formed.
pub proof fn lemma_requeue_ready(v: SchedulerView, t: ThreadHandle)
    requires
        v.wf(),
        v.has_thread(t),
    ensures
        v.requeue_ready(t).wf(),
        v.requeue_ready(t).processes == v.processes,
        v.requeue_ready(t).running_thread == v.running_thread,
        v.requeue_ready(t).process_table.len() == v.process_table.len(),
        v.requeue_ready(t).thread_table == v.thread_table,
{
    let p = v.thread(t).process;
    assert(v.has_process(v.thread_table[t.0 as int].process));
    let w = v.requeue_ready(t);
    let pv = v.process(p);
    assert forall|q: ProcessHandle| w.has_process(q) implies #[trigger] w.process_wf(q) by {
        assert(v.process_wf(q));
        if q != p {
            lemma_process_wf_frame(v, w, q);
        } else {
            let rd = pv.ready_threads.push(t);
            assert(w.valid_handles(rd)) by {
                assert forall|k: int| 0 <= k < rd.len() implies #[trigger] w.has_thread(rd[k]) by {
                    if k < pv.ready_threads.len() {
                        assert(v.has_thread(pv.ready_threads[k]));
                    }
                }
            }
            lemma_process_wf_new_ready(v, w, p);
        }
    }
}

/// The scan stops at `j` or later, or nowhere.
pub proof fn lemma_scan_bounds(v: SchedulerView, j: int)
    ensures
        v.scan(j).1 == -1 || (j <= v.scan(j).1 < v.processes.len()),
    decreases v.processes.len() - j,
{
    if 0 <= j < v.processes.len() {
        let v1 = v.sleep_round(v.processes[j]);
        if !v1.has_runnable_thread(v.processes[j]) {
            lemma_scan_bounds(v1, j + 1);
        }
    }
}

/// Moving the entry at `k` to the back keeps the entries and adds no
/// duplicate.
pub proof fn lemma_rotate(q: Seq<ProcessHandle>, k: int)
    requires
        0 <= k < q.len(),
        q.no_duplicates(),
    ensures
        q.remove(k).push(q[k]).no_duplicates(),
        q.remove(k).push(q[k]).len() == q.len(),
        forall|x: ProcessHandle| #[trigger] q.remove(k).push(q[k]).contains(x) <==> q.contains(x),
        q.remove(k).push(q[k]).to_multiset() =~= q.to_multiset(),
{
    let r = q.remove(k).push(q[k]);
    assert forall|i: int, j: int| 0 <= i < r.len() && 0 <= j < r.len() && i != j implies r[i] != r[j] by {
        let qi = if i < k { i } else if i < q.len() - 1 { i + 1 } else { k };
        let qj = if j < k { j } else if j < q.len() - 1 { j + 1 } else { k };
        assert(r[i] == q[qi]);
        assert(r[j] == q[qj]);
    }
    assert forall|x: ProcessHandle| #[trigger] r.contains(x) <==> q.contains(x) by {
        if r.contains(x) {
            let i = choose|i: int| 0 <= i < r.len() && r[i] == x;
            let qi = if i < k { i } else if i < q.len() - 1 { i + 1 } else { k };
            assert(q[qi] == x);
        }
        if q.contains(x) {
            let i = choose|i: int| 0 <= i < q.len() && q[i] == x;
            let ri = if i < k { i } else if i > k { i - 1 } else { q.len() - 1 };
            assert(r[ri] == x);
        }
    }
    assert(r.to_multiset() =~= q.to_multiset()) by {
        vstd::seq_lib::to_multiset_build(q.remove(k), q[k]);
        vstd::seq_lib::to_multiset_remove(q, k);
        q.to_multiset_ensures();
        assert(q.to_multiset().count(q[k]) > 0) by {
            assert(q.contains(q[k]));
        }
    }
}

/// A scheduling decision keeps the scheduler well-formed. It takes the
/// first runnable process of the queue, moves it to the back, and runs one of
/// its threads; the queue holds the same processes as before.
pub proof fn lemma_schedule(v: SchedulerView)
    requires
        v.wf(),
        v.can_schedule(),
    ensures
        ({
            let (w, t) = v.schedule();
            let k = v.scan(0).1;
            &&& w.wf()
            &&& v.first_runnable(k)
            &&& w.running_thread == Some(t)
            &&& w.processes == v.processes.remove(k).push(v.processes[k])
            &&& w.processes.to_multiset() == v.processes.to_multiset()
            &&& w.has_thread(t)
            &&& w.process_table.len() == v.process_table.len()
            &&& w.thread_table.len() == v.thread_table.len()
        }),
{
    lemma_scan_from_front(v);
    lemma_scan(v, 0);
    let (v1, k) = v.scan(0);
    let p = v.processes[k];
    assert(v.has_process(p));
    lemma_thread_to_run(v1, p);
    let (v2, t) = v1.thread_to_run(p);
    lemma_rotate(v.processes, k);
    let v3 = SchedulerView { processes: v.processes.remove(k).push(p), ..v2 };
    assert(v3.wf()) by {
        assert forall|i: int| 0 <= i < v3.processes.len() implies v3.has_process(#[trigger] v3.processes[i]) by {
            assert(v3.processes.contains(v3.processes[i]));
            assert(v.processes.contains(v3.processes[i]));
            let m = choose|m: int| 0 <= m < v.processes.len() && v.processes[m] == v3.processes[i];
            assert(v.has_process(v.processes[m]));
        }
        assert forall|q: ProcessHandle| v3.has_process(q) implies #[trigger] v3.process_wf(q) by {
            assert(v2.process_wf(q));
            lemma_process_wf_frame(v2, v3, q);
        }
    }
    match v.running_thread {
        Some(prev) => {
            if prev != t {
                lemma_requeue_ready(v3, prev);
                let v4 = v3.requeue_ready(prev);
                assert(SchedulerView { running_thread: Some(t), ..v4 }.wf()) by {
                    assert forall|q: ProcessHandle| v4.has_process(q) implies #[trigger] SchedulerView { running_thread: Some(t), ..v4 }.process_wf(q) by {
                        assert(v4.process_wf(q));
                        lemma_process_wf_frame(v4, SchedulerView { running_thread: Some(t), ..v4 }, q);
                    }
                }
            } else {
                assert(SchedulerView { running_thread: Some(t), ..v3 }.wf()) by {
                    assert forall|q: ProcessHandle| v3.has_process(q) implies #[trigger] SchedulerView { running_thread: Some(t), ..v3 }.process_wf(q) by {
                        assert(v3.process_wf(q));
                        lemma_process_wf_frame(v3, SchedulerView { running_thread: Some(t), ..v3 }, q);
                    }
                }
            }
        },
        None => {
            assert(SchedulerView { running_thread: Some(t), ..v3 }.wf()) by {
                assert forall|q: ProcessHandle| v3.has_process(q) implies #[trigger] SchedulerView { running_thread: Some(t), ..v3 }.process_wf(q) by {
                    assert(v3.process_wf(q));
                    lemma_process_wf_frame(v3, SchedulerView { running_thread: Some(t), ..v3 }, q);
                }
            }
        },
    }
}

/// Removing the first occurrence of `t` removes at the first index that
/// holds it, or nothing; it adds nothing and, without duplicates, leaves no
/// `t` behind.
#[verifier::spinoff_prover]
#[verifier::rlimit(60)]
pub proof fn lemma_remove_first(s: Seq<ThreadHandle>, t: ThreadHandle)
    ensures
        forall|x: ThreadHandle| #[trigger] remove_first(s, t).contains(x) ==> s.contains(x),
        s.no_duplicates() ==> remove_first(s, t).no_duplicates() && !remove_first(s, t).contains(t),
        !s.contains(t) ==> remove_first(s, t) == s,
        forall|i: int|
            0 <= i < s.len() && s[i] == t && (forall|j: int| 0 <= j < i ==> s[j] != t) ==> remove_first(s, t)
                == s.remove(i),
    decreases s.len(),
{
    if s.len() > 0 {
        let d = s.drop_first();
        lemma_remove_first(d, t);
        assert forall|x: ThreadHandle| s.contains(x) <==> (x == s[0] || d.contains(x)) by {
            if s.contains(x) {
                let i = choose|i: int| 0 <= i < s.len() && s[i] == x;
                if i > 0 {
                    assert(d[i - 1] == x);
                }
            }
            if d.contains(x) {
                let i = choose|i: int| 0 <= i < d.len() && d[i] == x;
                assert(s[i + 1] == x);
            }
        }
        if s[0] != t {
            let r = seq![s[0]] + remove_first(d, t);
            assert forall|x: ThreadHandle| #[trigger] r.contains(x) implies s.contains(x) by {
                let i = choose|i: int| 0 <= i < r.len() && r[i] == x;
                if i > 0 {
                    assert(remove_first(d, t)[i - 1] == x);
                    assert(remove_first(d, t).contains(x));
                }
            }
            if s.no_duplicates() {
                assert(d.no_duplicates()) by {
                    assert forall|a: int, b: int| 0 <= a < d.len() && 0 <= b < d.len() && a != b implies d[a] != d[b] by {
                        assert(s[a + 1] != s[b + 1]);
                    }
                }
                assert(!d.contains(s[0])) by {
                    if d.contains(s[0]) {
                        let i = choose|i: int| 0 <= i < d.len() && d[i] == s[0];
                        assert(s[i + 1] == s[0]);
                    }
                }
                assert forall|a: int, b: int| 0 <= a < r.len() && 0 <= b < r.len() && a != b implies r[a] != r[b] by {
                    if a > 0 && b > 0 {
                        assert(r[a] == remove_first(d, t)[a - 1]);
                        assert(r[b] == remove_first(d, t)[b - 1]);
                    } else if a == 0 {
                        assert(r[b] == remove_first(d, t)[b - 1]);
                        assert(remove_first(d, t).contains(r[b]));
                    } else {
                        assert(r[a] == remove_first(d, t)[a - 1]);
                        assert(remove_first(d, t).contains(r[a]));
                    }
                }
                assert(!r.contains(t)) by {
                    if r.contains(t) {
                        let i = choose|i: int| 0 <= i < r.len() && r[i] == t;
                        if i > 0 {
                            assert(remove_first(d, t)[i - 1] == t);
                            assert(remove_first(d, t).contains(t));
                        }
                    }
                }
            }
            if !s.contains(t) {
                assert(!d.contains(t));
                assert(r =~= s);
            }
            assert forall|i: int|
                0 <= i < s.len() && s[i] == t && (forall|j: int| 0 <= j < i ==> s[j] != t) implies r == s.remove(i) by {
                assert(i > 0);
                assert(d[i - 1] == t);
                assert forall|j: int| 0 <= j < i - 1 implies d[j] != t by {
                    assert(s[j + 1] != t);
                }
                assert(remove_first(d, t) == d.remove(i - 1));
                assert(r =~= s.remove(i));
            }
        } else {
            assert forall|x: ThreadHandle| #[trigger] d.contains(x) implies s.contains(x) by {}
            if s.no_duplicates() {
                assert(d.no_duplicates()) by {
                    assert forall|a: int, b: int| 0 <= a < d.len() && 0 <= b < d.len() && a != b implies d[a] != d[b] by {
                        assert(s[a + 1] != s[b + 1]);
                    }
                }
                assert(!d.contains(t)) by {
                    if d.contains(t) {
                        let i = choose|i: int| 0 <= i < d.len() && d[i] == t;
                        assert(s[i + 1] == s[0]);
                    }
                }
            }
            assert forall|i: int|
                0 <= i < s.len() && s[i] == t && (forall|j: int| 0 <= j < i ==> s[j] != t) implies d == s.remove(i) by {
                if i > 0 {
                    assert(s[0] != t);
                }
                assert(d =~= s.remove(0));
            }
        }
    }
}

/// Taking a thread out of a queue keeps the scheduler well-formed; the
/// thread table does not change.
pub proof fn lemma_remove_from_queues(v: SchedulerView, p: ProcessHandle, t: ThreadHandle, state: ThreadState)
    requires
        v.wf(),
        v.has_process(p),
    ensures
        v.remove_from_queues(p, t, state).wf(),
        v.remove_from_queues(p, t, state).thread_table == v.thread_table,
        v.remove_from_queues(p, t, state).processes == v.processes,
        v.remove_from_queues(p, t, state).process_table.len() == v.process_table.len(),
        state is NotStarted ==> !v.remove_from_queues(p, t, state).process(p).not_started_threads.contains(t),
        state is Sleeping ==> !v.remove_from_queues(p, t, state).process(p).sleeping_threads.contains(t),
{
    let w = v.remove_from_queues(p, t, state);
    let pv = v.process(p);
    assert(v.process_wf(p));
    lemma_remove_first(pv.not_started_threads, t);
    lemma_remove_first(pv.ready_threads, t);
    lemma_remove_first(pv.sleeping_threads, t);
    assert forall|q: ProcessHandle| w.has_process(q) implies #[trigger] w.process_wf(q) by {
        assert(v.process_wf(q));
        if q != p {
            lemma_process_wf_frame(v, w, q);
        } else {
            let wv = w.process(p);
            lemma_owned_subset(v, w, pv.not_started_threads, wv.not_started_threads, p);
            lemma_valid_subset(v, w, pv.ready_threads, wv.ready_threads);
            lemma_owned_subset(v, w, pv.sleeping_threads, wv.sleeping_threads, p);
            assert forall|i: int| 0 <= i < wv.not_started_threads.len() implies #[trigger] w.thread(
                wv.not_started_threads[i],
            ).state == ThreadState::NotStarted by {
                let x = wv.not_started_threads[i];
                assert(wv.not_started_threads.contains(x));
                let m = choose|m: int| 0 <= m < pv.not_started_threads.len() && pv.not_started_threads[m] == x;
                assert(v.thread(pv.not_started_threads[m]).state == ThreadState::NotStarted);
            }
            assert forall|i: int| 0 <= i < wv.sleeping_threads.len() implies (#[trigger] w.thread(
                wv.sleeping_threads[i],
            ).state is Sleeping) by {
                let x = wv.sleeping_threads[i];
                assert(wv.sleeping_threads.contains(x));
                let m = choose|m: int| 0 <= m < pv.sleeping_threads.len() && pv.sleeping_threads[m] == x;
                assert(v.thread(pv.sleeping_threads[m]).state is Sleeping);
            }
        }
    }
}

/// Appending a thread of `p`, already in `state`, to the queue of `p` for
/// `state` keeps the scheduler well-formed when the thread is not in that
/// queue yet.
pub proof fn lemma_add_to_queues(v: SchedulerView, p: ProcessHandle, t: ThreadHandle, state: ThreadState)
    requires
        v.wf(),
        v.has_process(p),
        v.has_thread(t),
        v.thread(t).process == p,
        v.thread(t).state == state,
        state is NotStarted ==> !v.process(p).not_started_threads.contains(t),
        state is Sleeping ==> !v.process(p).sleeping_threads.contains(t),
    ensures
        v.add_to_queues(p, t, state).wf(),
        v.add_to_queues(p, t, state).processes == v.processes,
        v.add_to_queues(p, t, state).thread_table == v.thread_table,
        v.add_to_queues(p, t, state).process_table.len() == v.process_table.len(),
{
    let w = v.add_to_queues(p, t, state);
    assert(v.process_wf(p));
    let pv = v.process(p);
    assert forall|q: ProcessHandle| w.has_process(q) implies #[trigger] w.process_wf(q) by {
        if q != p {
            assert(v.process_wf(q));
            lemma_process_wf_frame(v, w, q);
        } else {
            let wv = w.process(p);
            lemma_valid_push(v, w, pv.ready_threads, t);
            if !(state is Ready) {
                lemma_owned_push(v, w, pv.not_started_threads, t, p);
                lemma_owned_push(v, w, pv.sleeping_threads, t, p);
            } else {
                lemma_owned_same(v, w, pv.not_started_threads, p);
                lemma_owned_same(v, w, pv.sleeping_threads, p);
            }
            lemma_push_no_duplicates(pv.not_started_threads, t);
            lemma_push_no_duplicates(pv.sleeping_threads, t);
            assert forall|i: int| 0 <= i < wv.not_started_threads.len() implies #[trigger] w.thread(
                wv.not_started_threads[i],
            ).state == ThreadState::NotStarted by {
                if i < pv.not_started_threads.len() {
                    assert(wv.not_started_threads[i] == pv.not_started_threads[i]);
                    assert(v.thread(pv.not_started_threads[i]).state == ThreadState::NotStarted);
                }
            }
            assert forall|i: int| 0 <= i < wv.sleeping_threads.len() implies (#[trigger] w.thread(
                wv.sleeping_threads[i],
            ).state is Sleeping) by {
                if i < pv.sleeping_threads.len() {
                    assert(wv.sleeping_threads[i] == pv.sleeping_threads[i]);
                    assert(v.thread(pv.sleeping_threads[i]).state is Sleeping);
                }
            }
        }
    }
}

/// Halfway through a change of state: the thread is out of the queue of its
/// old state and carries the new one; the scheduler is well-formed and the
/// thread is in no queue of threads not started or sleeping.
pub proof fn lemma_change_state_middle(v: SchedulerView, t: ThreadHandle, state: ThreadState)
    requires
        v.wf(),
        v.has_thread(t),
    ensures
        ({
            let th = v.thread(t);
            let v2 = v.remove_from_queues(th.process, t, th.state).with_thread(t, Thread { state, ..th });
            &&& v2.wf()
            &&& v2.processes == v.processes
            &&& v2.has_process(th.process)
            &&& !v2.process(th.process).not_started_threads.contains(t)
            &&& !v2.process(th.process).sleeping_threads.contains(t)
        }),
{
    let th = v.thread(t);
    let p = th.process;
    assert(v.has_process(v.thread_table[t.0 as int].process));
    lemma_remove_from_queues(v, p, t, th.state);
    let v1 = v.remove_from_queues(p, t, th.state);
    let v2 = v1.with_thread(t, Thread { state, ..th });
    assert forall|q: ProcessHandle| v2.has_process(q) implies #[trigger] v2.process_wf(q) by {
        assert(v1.process_wf(q));
        let qv = v1.process(q);
        assert(v2.process(q) == qv);
        assert forall|i: int| 0 <= i < qv.not_started_threads.len() implies #[trigger] v2.has_thread(
            qv.not_started_threads[i],
        ) && v2.thread(qv.not_started_threads[i]).process == q by {
            assert(v1.has_thread(qv.not_started_threads[i]));
        }
        assert forall|i: int| 0 <= i < qv.ready_threads.len() implies #[trigger] v2.has_thread(
            qv.ready_threads[i],
        ) by {
            assert(v1.has_thread(qv.ready_threads[i]));
        }
        assert forall|i: int| 0 <= i < qv.sleeping_threads.len() implies #[trigger] v2.has_thread(
            qv.sleeping_threads[i],
        ) && v2.thread(qv.sleeping_threads[i]).process == q by {
            assert(v1.has_thread(qv.sleeping_threads[i]));
        }
        assert forall|i: int| 0 <= i < qv.not_started_threads.len() implies #[trigger] v2.thread(
            qv.not_started_threads[i],
        ).state == ThreadState::NotStarted by {
            let x = qv.not_started_threads[i];
            assert(v1.thread(x).state == ThreadState::NotStarted);
            assert(v1.has_thread(x));
            if x == t {
                assert(q == p);
                assert(qv.not_started_threads.contains(x));
            }
        }
        assert forall|i: int| 0 <= i < qv.sleeping_threads.len() implies (#[trigger] v2.thread(
            qv.sleeping_threads[i],
        ).state is Sleeping) by {
            let x = qv.sleeping_threads[i];
            assert(v1.thread(x).state is Sleeping);
            assert(v1.has_thread(x));
            if x == t {
                assert(q == p);
                assert(qv.sleeping_threads.contains(x));
            }
        }
    }
    assert(v2.wf()) by {
        assert forall|i: int| 0 <= i < v2.thread_table.len() implies v2.has_process(#[trigger] v2.thread_table[i].process) by {
            assert(v1.has_process(v1.thread_table[i].process));
        }
    }
    assert(v1.process_wf(p));
    let pv1 = v1.process(p);
    assert(!pv1.not_started_threads.contains(t)) by {
        if pv1.not_started_threads.contains(t) && !(th.state is NotStarted) {
            let m = choose|m: int| 0 <= m < pv1.not_started_threads.len() && pv1.not_started_threads[m] == t;
            assert(v1.thread(pv1.not_started_threads[m]).state == ThreadState::NotStarted);
        }
    }
    assert(!pv1.sleeping_threads.contains(t)) by {
        if pv1.sleeping_threads.contains(t) && !(th.state is Sleeping) {
            let m = choose|m: int| 0 <= m < pv1.sleeping_threads.len() && pv1.sleeping_threads[m] == t;
            assert(v1.thread(pv1.sleeping_threads[m]).state is Sleeping);
        }
    }
}

/// Moving a thread into a state other than running keeps the scheduler
/// well-formed and gives the thread its new state.
pub proof fn lemma_change_state(v: SchedulerView, t: ThreadHandle, state: ThreadState)
    requires
        v.wf(),
        v.has_thread(t),
        !(state is Running),
    ensures
        v.change_state(t, state).wf(),
        v.change_state(t, state).processes == v.processes,
        v.change_state(t, state).process_table.len() == v.process_table.len(),
        v.change_state(t, state).thread_table.len() == v.thread_table.len(),
        v.change_state(t, state).thread(t) == (Thread { state, ..v.thread(t) }),
{
    let th = v.thread(t);
    lemma_change_state_middle(v, t, state);
    let v2 = v.remove_from_queues(th.process, t, th.state).with_thread(t, Thread { state, ..th });
    lemma_remove_from_queues(v, th.process, t, th.state);
    lemma_add_to_queues(v2, th.process, t, state);
}

/// Changing the fields of a thread other than its state and process, or the
/// accounting fields of a process, keeps the scheduler well-formed.
pub proof fn lemma_accounting_change(v: SchedulerView, w: SchedulerView)
    requires
        v.wf(),
        w.running_thread == v.running_thread,
        w.processes == v.processes,
        w.process_table.len() == v.process_table.len(),
        w.thread_table.len() == v.thread_table.len(),
        forall|i: int| 0 <= i < v.thread_table.len() ==> (#[trigger] w.thread_table[i]).state == v.thread_table[i].state
            && w.thread_table[i].process == v.thread_table[i].process,
        forall|i: int| 0 <= i < v.process_table.len() ==> {
            &&& (#[trigger] w.process_table[i]).not_started_threads == v.process_table[i].not_started_threads
            &&& w.process_table[i].ready_threads == v.process_table[i].ready_threads
            &&& w.process_table[i].sleeping_threads == v.process_table[i].sleeping_threads
        },
    ensures
        w.wf(),
{
    assert forall|i: int| 0 <= i < w.thread_table.len() implies w.has_process(#[trigger] w.thread_table[i].process) by {
        assert(v.has_process(v.thread_table[i].process));
    }
    assert forall|i: int| 0 <= i < w.processes.len() implies w.has_process(#[trigger] w.processes[i]) by {
        assert(v.has_process(v.processes[i]));
    }
    assert forall|q: ProcessHandle| w.has_process(q) implies #[trigger] w.process_wf(q) by {
        assert(v.process_wf(q));
        let pv = v.process(q);
        let wv = w.process(q);
        assert(w.process_table[q.0 as int].not_started_threads == v.process_table[q.0 as int].not_started_threads);
        assert forall|k: int| 0 <= k < wv.not_started_threads.len() implies #[trigger] w.has_thread(
            wv.not_started_threads[k],
        ) && w.thread(wv.not_started_threads[k]).process == q by {
            assert(v.has_thread(pv.not_started_threads[k]));
            assert(w.thread_table[pv.not_started_threads[k].0 as int].process == v.thread_table[pv.not_started_threads[k].0 as int].process);
        }
        assert forall|k: int| 0 <= k < wv.ready_threads.len() implies #[trigger] w.has_thread(wv.ready_threads[k]) by {
            assert(v.has_thread(pv.ready_threads[k]));
        }
        assert forall|k: int| 0 <= k < wv.sleeping_threads.len() implies #[trigger] w.has_thread(
            wv.sleeping_threads[k],
        ) && w.thread(wv.sleeping_threads[k]).process == q by {
            assert(v.has_thread(pv.sleeping_threads[k]));
            assert(w.thread_table[pv.sleeping_threads[k].0 as int].process == v.thread_table[pv.sleeping_threads[k].0 as int].process);
        }
        assert forall|k: int| 0 <= k < wv.not_started_threads.len() implies #[trigger] w.thread(
            wv.not_started_threads[k],
        ).state == ThreadState::NotStarted by {
            assert(v.has_thread(pv.not_started_threads[k]));
            assert(v.thread(pv.not_started_threads[k]).state == ThreadState::NotStarted);
            assert(w.thread_table[pv.not_started_threads[k].0 as int].state == v.thread_table[pv.not_started_threads[k].0 as int].state);
        }
        assert forall|k: int| 0 <= k < wv.sleeping_threads.len() implies (#[trigger] w.thread(
            wv.sleeping_threads[k],
        ).state is Sleeping) by {
            assert(v.has_thread(pv.sleeping_threads[k]));
            assert(v.thread(pv.sleeping_threads[k]).state is Sleeping);
            assert(w.thread_table[pv.sleeping_threads[k].0 as int].state == v.thread_table[pv.sleeping_threads[k].0 as int].state);
        }
    }
}

/// Creating a thread keeps the scheduler well-formed.
pub proof fn lemma_new_thread(v: SchedulerView, address: u64, stack_pointer: u64, p: ProcessHandle, tick: u64)
    requires
        v.wf(),
        v.has_process(p),
        v.thread_table.len() < usize::MAX,
    ensures
        v.new_thread(address, stack_pointer, p, tick).0.wf(),
        v.new_thread(address, stack_pointer, p, tick).0.processes == v.processes,
        v.new_thread(address, stack_pointer, p, tick).1.0 == v.thread_table.len(),
{
    let (w, t) = v.new_thread(address, stack_pointer, p, tick);
    assert(!v.has_thread(t));
    assert forall|x: ThreadHandle| v.has_thread(x) implies #[trigger] w.thread(x) == v.thread(x) by {}
    assert forall|i: int| 0 <= i < w.thread_table.len() implies w.has_process(#[trigger] w.thread_table[i].process) by {
        if i < v.thread_table.len() {
            assert(v.has_process(v.thread_table[i].process));
        }
    }
    assert forall|i: int| 0 <= i < w.processes.len() implies w.has_process(#[trigger] w.processes[i]) by {
        assert(v.has_process(v.processes[i]));
    }
    assert forall|q: ProcessHandle| w.has_process(q) implies #[trigger] w.process_wf(q) by {
        assert(v.process_wf(q));
        let pv = v.process(q);
        let wv = w.process(q);
        lemma_owned_same(v, w, pv.not_started_threads, q);
        lemma_valid_subset(v, w, pv.ready_threads, pv.ready_threads);
        lemma_owned_same(v, w, pv.sleeping_threads, q);
        if q == p {
            lemma_owned_push(v, w, pv.not_started_threads, t, q);
            assert(!pv.not_started_threads.contains(t)) by {
                if pv.not_started_threads.contains(t) {
                    let m = choose|m: int| 0 <= m < pv.not_started_threads.len() && pv.not_started_threads[m] == t;
                    assert(v.has_thread(pv.not_started_threads[m]));
                }
            }
            lemma_push_no_duplicates(pv.not_started_threads, t);
            assert forall|k: int| 0 <= k < wv.not_started_threads.len() implies #[trigger] w.thread(
                wv.not_started_threads[k],
            ).state == ThreadState::NotStarted by {
                if k < pv.not_started_threads.len() {
                    assert(v.has_thread(pv.not_started_threads[k]));
                    assert(v.thread(pv.not_started_threads[k]).state == ThreadState::NotStarted);
                }
            }
        } else {
            assert(wv == pv);
            assert forall|k: int| 0 <= k < wv.not_started_threads.len() implies #[trigger] w.thread(
                wv.not_started_threads[k],
            ).state == ThreadState::NotStarted by {
                assert(v.has_thread(pv.not_started_threads[k]));
                assert(v.thread(pv.not_started_threads[k]).state == ThreadState::NotStarted);
            }
        }
        assert forall|k: int| 0 <= k < wv.sleeping_threads.len() implies (#[trigger] w.thread(
            wv.sleeping_threads[k],
        ).state is Sleeping) by {
            assert(v.has_thread(pv.sleeping_threads[k]));
            assert(v.thread(pv.sleeping_threads[k]).state is Sleeping);
        }
    }
}

/// A thread leaving its process keeps the scheduler well-formed.
pub proof fn lemma_exit_thread(v: SchedulerView, t: ThreadHandle)
    requires
        v.wf(),
        v.has_thread(t),
    ensures
        v.exit_thread(t).0.wf(),
{
    let th = v.thread(t);
    assert(v.has_process(v.thread_table[t.0 as int].process));
    lemma_remove_from_queues(v, th.process, t, th.state);
    let v1 = v.remove_from_queues(th.process, t, th.state);
    if v1.has_no_threads(th.process) {
        let w = SchedulerView { processes: without_process(v1.processes, th.process), ..v1 };
        lemma_without_process(v1.processes, th.process);
        assert forall|i: int| 0 <= i < w.processes.len() implies w.has_process(#[trigger] w.processes[i]) by {
            assert(w.processes.contains(w.processes[i]));
            let m = choose|m: int| 0 <= m < v1.processes.len() && v1.processes[m] == w.processes[i];
            assert(v1.has_process(v1.processes[m]));
        }
        assert forall|q: ProcessHandle| w.has_process(q) implies #[trigger] w.process_wf(q) by {
            assert(v1.process_wf(q));
            lemma_process_wf_frame(v1, w, q);
        }
    }
}

/// The accounting of a tick changes no queue and no thread state, so it
/// keeps every process as runnable as it was.
pub proof fn lemma_on_tick(v: SchedulerView, registers_state: RegistersState, tick: u64)
    requires
        v.wf(),
        v.can_account_tick(tick),
    ensures
        v.on_tick(registers_state, tick).wf(),
        v.on_tick(registers_state, tick).processes == v.processes,
        v.on_tick(registers_state, tick).can_schedule() == v.can_schedule(),
{
    let w = v.on_tick(registers_state, tick);
    if let Some(t) = v.running_thread {
        assert(v.has_process(v.thread_table[t.0 as int].process));
    }
    assert forall|i: int| 0 <= i < v.thread_table.len() implies (#[trigger] w.thread_table[i]).state == v.thread_table[i].state
        && w.thread_table[i].process == v.thread_table[i].process by {}
    assert forall|i: int| 0 <= i < v.process_table.len() implies {
        &&& (#[trigger] w.process_table[i]).not_started_threads == v.process_table[i].not_started_threads
        &&& w.process_table[i].ready_threads == v.process_table[i].ready_threads
        &&& w.process_table[i].sleeping_threads == v.process_table[i].sleeping_threads
    } by {}
    lemma_accounting_change(v, w);
    assert forall|q: ProcessHandle| v.has_process(q) implies #[trigger] w.runnable(q) == v.runnable(q) by {
        assert(v.process_wf(q));
        let qs = v.process(q).sleeping_threads;
        assert(w.process(q).sleeping_threads == qs);
        assert forall|k: int| 0 <= k < qs.len() implies #[trigger] w.thread(qs[k]).state == v.thread(qs[k]).state by {
            assert(v.has_thread(qs[k]));
        }
        if v.runnable(q) && v.process(q).ready_threads.len() == 0 && v.process(q).not_started_threads.len() == 0 {
            let m = choose|m: int| 0 <= m < qs.len() && sleep_ticks(v.thread(qs[m]).state) == 0;
            assert(w.thread(qs[m]).state == v.thread(qs[m]).state);
        }
        if w.runnable(q) && v.process(q).ready_threads.len() == 0 && v.process(q).not_started_threads.len() == 0 {
            let m = choose|m: int| 0 <= m < qs.len() && sleep_ticks(w.thread(qs[m]).state) == 0;
            assert(w.thread(qs[m]).state == v.thread(qs[m]).state);
        }
    }
    if v.can_schedule() {
        let k = choose|k: int| 0 <= k < v.processes.len() && v.runnable(#[trigger] v.processes[k]);
        assert(v.has_process(v.processes[k]));
        assert(w.runnable(w.processes[k]));
    }
    if w.can_schedule() {
        let k = choose|k: int| 0 <= k < w.processes.len() && w.runnable(#[trigger] w.processes[k]);
        assert(v.has_process(v.processes[k]));
        assert(v.runnable(v.processes[k]));
    }
}

} // verus!
