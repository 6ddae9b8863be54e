use vstd::prelude::*;
use crate::model::{SchedulerView, state_name};
use crate::process::ProcessHandle;
use crate::scheduler::FirstComeFirstServedScheduler;
use crate::text::{decimal, pad_left, push_padded, push_padded_decimal};
use crate::thread::{Thread, ThreadHandle, ThreadState, tick_density_of};

verus! {

/// A snapshot of the scheduled processes and their threads.
pub struct SchedulerTable(pub Vec<ProcessInfo>);

/// A process in a scheduler table.
pub struct ProcessInfo {
    pub id: u64,
    pub kernel_process: bool,
    /// The percentage of ticks the process spent running.
    pub load: u64,
    pub threads: Vec<ThreadInfo>,
}

/// A thread in a scheduler table.
pub struct ThreadInfo {
    pub id: u64,
    /// The name of the thread's state.
    pub state: &'static str,
    /// The percentage of ticks the thread spent running.
    pub load: u64,
}

/// The threads of process `p` in the order a table lists them: the ready
/// ones, then those not started, then the sleeping ones.
pub open spec fn listed_threads(v: SchedulerView, p: ProcessHandle) -> Seq<ThreadHandle> {
    v.process(p).ready_threads + v.process(p).not_started_threads + v.process(p).sleeping_threads
}

/// The loads of the queued processes and of their listed threads can be
/// computed: no total of ticks overflows when multiplied by 100.
pub open spec fn loads_fit(v: SchedulerView) -> bool {
    forall|i: int| 0 <= i < v.processes.len() ==> {
        let p = #[trigger] v.processes[i];
        &&& v.process(p).total_ticks * 100 <= u64::MAX
        &&& forall|j: int|
            0 <= j < listed_threads(v, p).len() ==> (#[trigger] v.thread(listed_threads(v, p)[j])).total_ticks * 100
                <= u64::MAX
    }
}

/// `info` describes thread `th` at `tick`.
pub open spec fn describes_thread(info: ThreadInfo, th: Thread, tick: u64) -> bool {
    &&& info.id == th.id
    &&& info.state@ == state_name(th.state)
    &&& info.load == tick_density_of(th.total_ticks, th.start_tick, tick)
}

/// `info` describes process `p` and its listed threads at `tick`.
pub open spec fn describes_process(info: ProcessInfo, v: SchedulerView, p: ProcessHandle, tick: u64) -> bool {
    let pv = v.process(p);
    let ts = listed_threads(v, p);
    &&& info.id == pv.id
    &&& info.kernel_process == pv.kernel_process
    &&& info.load == tick_density_of(pv.total_ticks, pv.start_tick, tick)
    &&& info.threads@.len() == ts.len()
    &&& forall|j: int| 0 <= j < ts.len() ==> describes_thread(#[trigger] info.threads@[j], v.thread(ts[j]), tick)
}

/// The first line of a rendered table.
pub open spec fn header_line() -> Seq<char> {
    " Process   | Thread    | CPU Usage | State     "@
}

/// The line of a process: its id, its load and its ring.
pub open spec fn process_line(info: ProcessInfo) -> Seq<char> {
    pad_left(decimal(info.id as nat), 10) + " |           | "@ + pad_left(decimal(info.load as nat), 8) + "% | "@
        + pad_left(if info.kernel_process { "ring 0"@ } else { "ring 3"@ }, 9) + " "@
}

/// The line of a thread: its id, its load and its state.
pub open spec fn thread_line(info: ThreadInfo) -> Seq<char> {
    "           | "@ + pad_left(decimal(info.id as nat), 9) + " | "@ + pad_left(decimal(info.load as nat), 8) + "% |"@
        + pad_left(info.state@, 11)
}

/// The lines of the threads, in order.
pub open spec fn thread_lines(threads: Seq<ThreadInfo>) -> Seq<Seq<char>>
    decreases threads.len(),
{
    if threads.len() == 0 {
        Seq::empty()
    } else {
        thread_lines(threads.drop_last()).push(thread_line(threads.last()))
    }
}

/// The lines of a table: the header, then each process followed by its
/// threads.
pub open spec fn table_lines(processes: Seq<ProcessInfo>) -> Seq<Seq<char>>
    decreases processes.len(),
{
    if processes.len() == 0 {
        seq![header_line()]
    } else {
        table_lines(processes.drop_last()).push(process_line(processes.last())) + thread_lines(
            processes.last().threads@,
        )
    }
}

/// The name of a thread state.
pub fn state_str(state: ThreadState) -> (r: &'static str)
    ensures
        r@ == state_name(state),
{
    match state {
        ThreadState::NotStarted => "not started",
        ThreadState::Ready => "ready",
        ThreadState::Running => "running",
        ThreadState::Sleeping(_) => "sleeping",
        ThreadState::Terminated => "terminated",
    }
}

impl FirstComeFirstServedScheduler {
    /// Whether the loads of the queued processes and of their threads can
    /// be computed (see `get_processes_and_threads`).
    pub fn can_report_loads(&self) -> (r: bool)
        requires
            self@.wf(),
        ensures
            r == loads_fit(self@),
    {
        let ghost v = self@;
        let queue = self.queued_processes();
        let mut i: usize = 0;
        while i < queue.len()
            invariant
                v == self@,
                v.wf(),
                queue@ == v.processes,
                i <= queue@.len(),
                forall|k: int| 0 <= k < i ==> {
                    let p = #[trigger] v.processes[k];
                    &&& v.process(p).total_ticks * 100 <= u64::MAX
                    &&& forall|j: int|
                        0 <= j < listed_threads(v, p).len() ==> (#[trigger] v.thread(listed_threads(v, p)[j])).total_ticks
                            * 100 <= u64::MAX
                },
            decreases queue@.len() - i,
        {
            let p = queue[i];
            proof {
                assert(v.has_process(v.processes[i as int]));
                assert(v.process_wf(p));
            }
            let pr = self.process(p);
            if pr.total_ticks > u64::MAX / 100 {
                return false;
            }
            let mut part: usize = 0;
            while part < 3
                invariant
                    v == self@,
                    v.wf(),
                    v.has_process(p),
                    v.process_wf(p),
                    pr@ == v.process(p),
                    i < v.processes.len(),
                    p == v.processes[i as int],
                    part <= 3,
                    forall|j: int|
                        0 <= j < (if part == 0 { 0 } else if part == 1 { pr.ready_threads@.len() } else if part == 2 {
                            pr.ready_threads@.len() + pr.not_started_threads@.len()
                        } else {
                            listed_threads(v, p).len()
                        }) ==> (#[trigger] v.thread(listed_threads(v, p)[j])).total_ticks * 100 <= u64::MAX,
                decreases 3 - part,
            {
                let list = if part == 0 {
                    &pr.ready_threads
                } else if part == 1 {
                    &pr.not_started_threads
                } else {
                    &pr.sleeping_threads
                };
                let ghost offset: int = if part == 0 { 0 } else if part == 1 { pr.ready_threads@.len() as int } else {
                    (pr.ready_threads@.len() + pr.not_started_threads@.len()) as int
                };
                proof {
                    assert forall|m: int| 0 <= m < list@.len() implies listed_threads(v, p)[offset + m] == list@[m] by {}
                    assert(v.valid_handles(list@));
                }
                let mut m: usize = 0;
                while m < list.len()
                    invariant
                        v == self@,
                        v.valid_handles(list@),
                        i < v.processes.len(),
                        p == v.processes[i as int],
                        0 <= offset,
                        offset + list@.len() <= listed_threads(v, p).len(),
                        forall|k: int| 0 <= k < list@.len() ==> listed_threads(v, p)[offset + k] == list@[k],
                        m <= list@.len(),
                        forall|j: int|
                            0 <= j < offset ==> (#[trigger] v.thread(listed_threads(v, p)[j])).total_ticks * 100
                                <= u64::MAX,
                        forall|j: int|
                            offset <= j < offset + m ==> (#[trigger] v.thread(listed_threads(v, p)[j])).total_ticks
                                * 100 <= u64::MAX,
                    decreases list@.len() - m,
                {
                    let t = list[m];
                    proof {
                        assert(v.has_thread(list@[m as int]));
                    }
                    if self.thread(t).total_ticks > u64::MAX / 100 {
                        proof {
                            assert(listed_threads(v, p)[offset + m] == t);
                            assert(v.thread(listed_threads(v, p)[offset + m]).total_ticks * 100 > u64::MAX);
                            assert(!loads_fit(v));
                        }
                        return false;
                    }
                    proof {
                        assert(listed_threads(v, p)[offset + m] == t);
                    }
                    m = m + 1;
                }
                part = part + 1;
            }
            i = i + 1;
        }
        true
    }

    /// Appends to `out` a description of each thread of `list` at `tick`.
    fn push_thread_infos(&self, list: &Vec<ThreadHandle>, tick: u64, out: &mut Vec<ThreadInfo>)
        requires
            forall|j: int| 0 <= j < list@.len() ==> self@.has_thread(#[trigger] list@[j]),
            forall|j: int| 0 <= j < list@.len() ==> (#[trigger] self@.thread(list@[j])).total_ticks * 100 <= u64::MAX,
        ensures
            final(out)@.len() == old(out)@.len() + list@.len(),
            forall|j: int| 0 <= j < old(out)@.len() ==> final(out)@[j] == old(out)@[j],
            forall|j: int|
                0 <= j < list@.len() ==> describes_thread(
                    #[trigger] final(out)@[old(out)@.len() + j],
                    self@.thread(list@[j]),
                    tick,
                ),
    {
        let mut m: usize = 0;
        while m < list.len()
            invariant
                forall|j: int| 0 <= j < list@.len() ==> self@.has_thread(#[trigger] list@[j]),
                forall|j: int| 0 <= j < list@.len() ==> (#[trigger] self@.thread(list@[j])).total_ticks * 100 <= u64::MAX,
                m <= list@.len(),
                out@.len() == old(out)@.len() + m,
                forall|j: int| 0 <= j < old(out)@.len() ==> out@[j] == old(out)@[j],
                forall|j: int|
                    0 <= j < m ==> describes_thread(#[trigger] out@[old(out)@.len() + j], self@.thread(list@[j]), tick),
            decreases list@.len() - m,
        {
            let th = self.thread(list[m]);
            proof {
                assert(self@.has_thread(list@[m as int]));
                assert(self@.thread(list@[m as int]).total_ticks * 100 <= u64::MAX);
            }
            out.push(ThreadInfo { id: th.id, state: state_str(th.state), load: th.tick_density(tick) });
            m = m + 1;
        }
    }

    /// A snapshot of the queued processes, in queue order, each with its
    /// threads (ready, then not started, then sleeping) and the loads at
    /// `current_tick`.
    pub fn get_processes_and_threads(&self, current_tick: u64) -> (r: SchedulerTable)
        requires
            self@.wf(),
            loads_fit(self@),
        ensures
            r.0@.len() == self@.processes.len(),
            forall|i: int|
                0 <= i < self@.processes.len() ==> describes_process(
                    #[trigger] r.0@[i],
                    self@,
                    self@.processes[i],
                    current_tick,
                ),
    {
        let ghost v = self@;
        let queue = self.queued_processes();
        let mut infos: Vec<ProcessInfo> = Vec::new();
        let mut i: usize = 0;
        while i < queue.len()
            invariant
                v == self@,
                v.wf(),
                loads_fit(v),
                queue@ == v.processes,
                i <= queue@.len(),
                infos@.len() == i,
                forall|k: int| 0 <= k < i ==> describes_process(#[trigger] infos@[k], v, v.processes[k], current_tick),
            decreases queue@.len() - i,
        {
            let p = queue[i];
            proof {
                assert(v.has_process(v.processes[i as int]));
                assert(v.process_wf(p));
            }
            let pr = self.process(p);
            let ghost ts = listed_threads(v, p);
            proof {
                let r = pr.ready_threads@;
                let n = pr.not_started_threads@;
                let sl = pr.sleeping_threads@;
                assert(ts == r + n + sl);
                assert forall|j: int| 0 <= j < r.len() implies (#[trigger] v.thread(r[j])).total_ticks * 100 <= u64::MAX by {
                    assert(ts[j] == r[j]);
                    assert(v.thread(ts[j]).total_ticks * 100 <= u64::MAX);
                }
                assert forall|j: int| 0 <= j < n.len() implies (#[trigger] v.thread(n[j])).total_ticks * 100 <= u64::MAX by {
                    assert(ts[r.len() + j] == n[j]);
                    assert(v.thread(ts[r.len() + j]).total_ticks * 100 <= u64::MAX);
                }
                assert forall|j: int| 0 <= j < sl.len() implies (#[trigger] v.thread(sl[j])).total_ticks * 100 <= u64::MAX by {
                    assert(ts[r.len() + n.len() + j] == sl[j]);
                    assert(v.thread(ts[r.len() + n.len() + j]).total_ticks * 100 <= u64::MAX);
                }
                assert forall|j: int| 0 <= j < r.len() implies v.has_thread(#[trigger] r[j]) by {}
                assert forall|j: int| 0 <= j < n.len() implies v.has_thread(#[trigger] n[j]) by {}
                assert forall|j: int| 0 <= j < sl.len() implies v.has_thread(#[trigger] sl[j]) by {}
            }
            let mut threads: Vec<ThreadInfo> = Vec::new();
            self.push_thread_infos(&pr.ready_threads, current_tick, &mut threads);
            self.push_thread_infos(&pr.not_started_threads, current_tick, &mut threads);
            self.push_thread_infos(&pr.sleeping_threads, current_tick, &mut threads);
            let info = ProcessInfo {
                id: pr.id,
                kernel_process: pr.kernel_process,
                load: pr.tick_density(current_tick),
                threads,
            };
            proof {
                let r = pr.ready_threads@;
                let n = pr.not_started_threads@;
                assert forall|j: int| 0 <= j < ts.len() implies describes_thread(
                    #[trigger] info.threads@[j],
                    v.thread(ts[j]),
                    current_tick,
                ) by {
                    if j < r.len() {
                        assert(ts[j] == r[j]);
                        assert(info.threads@[0 + j] == info.threads@[j]);
                    } else if j < r.len() + n.len() {
                        assert(ts[j] == n[j - r.len()]);
                        assert(info.threads@[r.len() + (j - r.len())] == info.threads@[j]);
                    } else {
                        assert(ts[j] == pr.sleeping_threads@[j - r.len() - n.len()]);
                        assert(info.threads@[r.len() + n.len() + (j - r.len() - n.len())] == info.threads@[j]);
                    }
                }
            }
            infos.push(info);
            i = i + 1;
        }
        SchedulerTable(infos)
    }
}

impl SchedulerTable {
    /// The lines that render the table, to be logged one after the other:
    /// a header, then for each process its id, load and ring, followed by
    /// one line per thread with its id, load and state.
    pub fn log(&self) -> (r: Vec<String>)
        ensures
            r@.len() == table_lines(self.0@).len(),
            forall|i: int| 0 <= i < r@.len() ==> (#[trigger] r@[i])@ == table_lines(self.0@)[i],
    {
        let mut lines: Vec<String> = Vec::new();
        lines.push(String::from_str(" Process   | Thread    | CPU Usage | State     "));
        let mut i: usize = 0;
        while i < self.0.len()
            invariant
                i <= self.0@.len(),
                lines@.len() == table_lines(self.0@.take(i as int)).len(),
                forall|k: int| 0 <= k < lines@.len() ==> (#[trigger] lines@[k])@ == table_lines(self.0@.take(i as int))[k],
            decreases self.0@.len() - i,
        {
            let p = &self.0[i];
            let ghost before = lines@;
            let mut line = String::new();
            push_padded_decimal(&mut line, p.id, 10);
            line.append(" |           | ");
            push_padded_decimal(&mut line, p.load, 8);
            line.append("% | ");
            push_padded(&mut line, if p.kernel_process { "ring 0" } else { "ring 3" }, 9);
            line.append(" ");
            lines.push(line);
            proof {
                lemma_thread_lines_len(p.threads@);
            }
            let mut j: usize = 0;
            while j < p.threads.len()
                invariant
                    i < self.0@.len(),
                    p == self.0@[i as int],
                    j <= p.threads@.len(),
                    lines@.len() == before.len() + 1 + j,
                    forall|k: int| 0 <= k < before.len() ==> lines@[k] == before[k],
                    lines@[before.len() as int]@ == process_line(*p),
                    forall|k: int| 0 <= k < j ==> (#[trigger] lines@[before.len() + 1 + k])@ == thread_lines(p.threads@)[k],
                    thread_lines(p.threads@).len() == p.threads@.len(),
                decreases p.threads@.len() - j,
            {
                let t = &p.threads[j];
                let mut line = String::new();
                line.append("           | ");
                push_padded_decimal(&mut line, t.id, 9);
                line.append(" | ");
                push_padded_decimal(&mut line, t.load, 8);
                line.append("% |");
                push_padded(&mut line, t.state, 11);
                lines.push(line);
                proof {
                    lemma_thread_lines(p.threads@, j as int);
                }
                j = j + 1;
            }
            proof {
                let pre = self.0@.take(i as int);
                let post = self.0@.take(i as int + 1);
                assert(post.drop_last() =~= pre);
                assert(post.last() == *p);
                let expected = table_lines(post);
                assert(expected == table_lines(pre).push(process_line(*p)) + thread_lines(p.threads@));
                let a = table_lines(pre).push(process_line(*p));
                assert(a.len() == before.len() + 1);
                assert forall|k: int| 0 <= k < lines@.len() implies (#[trigger] lines@[k])@ == expected[k] by {
                    if k < before.len() {
                        assert(before[k]@ == table_lines(pre)[k]);
                        assert(expected[k] == a[k]);
                    } else if k == before.len() {
                        assert(expected[k] == a[k]);
                    } else {
                        assert(lines@[before.len() + 1 + (k - before.len() - 1)] == lines@[k]);
                        assert(expected[k] == thread_lines(p.threads@)[k - a.len()]);
                    }
                }
            }
            i = i + 1;
        }
        proof {
            assert(self.0@.take(self.0@.len() as int) =~= self.0@);
        }
        lines
    }
}

/// The line of thread `j` is the line of its description; there is one line
/// per thread.
pub proof fn lemma_thread_lines(threads: Seq<ThreadInfo>, j: int)
    requires
        0 <= j < threads.len(),
    ensures
        thread_lines(threads)[j] == thread_line(threads[j]),
        thread_lines(threads).len() == threads.len(),
    decreases threads.len(),
{
    lemma_thread_lines_len(threads);
    if j < threads.len() - 1 {
        lemma_thread_lines(threads.drop_last(), j);
    }
}

/// There is one line per thread.
pub proof fn lemma_thread_lines_len(threads: Seq<ThreadInfo>)
    ensures
        thread_lines(threads).len() == threads.len(),
    decreases threads.len(),
{
    if threads.len() > 0 {
        lemma_thread_lines_len(threads.drop_last());
    }
}

} // verus!
