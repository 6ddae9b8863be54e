use vstd::prelude::*;
use crate::model::{SchedulerView, without_process, lemma_without_process, lemma_split_sleeping, after_sleep_round,
    lemma_sleep_round, lemma_scan, lemma_scan_from_front, lemma_remove_first, remove_first};
use crate::registers_state::{RegistersState, FLAG_IF, FLAG_NT, spec_dispatch_flags};
use crate::scheduler_table::{ProcessInfo, describes_process, describes_thread};
use crate::process::{ProcessHandle, ProcessView};
use crate::serial::{LineEditorView, edited, until_nul, lemma_until_nul};
use crate::thread::{ThreadHandle, ThreadState, tick_density_of, sleep_ticks};

verus! {

/// Removing a process right after adding it gives back the queue there was
/// before.
pub proof fn law_remove_undoes_add(v: SchedulerView, pv: ProcessView)
    requires
        v.wf(),
        v.process_table.len() < usize::MAX,
    ensures
        ({
            let h = ProcessHandle(v.process_table.len() as usize);
            let added = SchedulerView {
                processes: v.processes.push(h),
                process_table: v.process_table.push(pv),
                ..v
            };
            without_process(added.processes, h) == v.processes
        }),
{
    let h = ProcessHandle(v.process_table.len() as usize);
    assert(!v.processes.contains(h)) by {
        if v.processes.contains(h) {
            let j = choose|j: int| 0 <= j < v.processes.len() && v.processes[j] == h;
            assert(v.has_process(v.processes[j]));
        }
    }
    assert(v.processes.push(h).drop_last() =~= v.processes);
    lemma_without_absent(v.processes, h);
}

/// Removing a process that is not in the queue changes nothing.
pub proof fn lemma_without_absent(q: Seq<ProcessHandle>, p: ProcessHandle)
    requires
        !q.contains(p),
    ensures
        without_process(q, p) == q,
    decreases q.len(),
{
    if q.len() > 0 {
        assert(!q.drop_last().contains(p)) by {
            if q.drop_last().contains(p) {
                let j = choose|j: int| 0 <= j < q.drop_last().len() && q.drop_last()[j] == p;
                assert(q[j] == p);
            }
        }
        lemma_without_absent(q.drop_last(), p);
        assert(q.last() != p) by {
            assert(q[q.len() - 1] == q.last());
        }
        assert(q.drop_last().push(q.last()) =~= q);
    }
}

/// When the last thread of a process exits, the process leaves the
/// scheduling queue and its page table is handed back to be cleared; while
/// threads remain, the process stays.
pub proof fn law_last_thread_exit_removes_process(v: SchedulerView, t: ThreadHandle)
    requires
        v.wf(),
        v.has_thread(t),
    ensures
        ({
            let (w, frame) = v.exit_thread(t);
            let p = v.thread(t).process;
            &&& w.has_no_threads(p) ==> !w.processes.contains(p) && frame == Some(v.process(p).cr3.0)
            &&& !w.has_no_threads(p) ==> w.processes == v.processes && frame is None
        }),
{
    let th = v.thread(t);
    let v1 = v.remove_from_queues(th.process, t, th.state);
    lemma_without_process(v1.processes, th.process);
    assert(v1.process(th.process).cr3 == v.process(th.process).cr3);
}

/// In a sleeping round, a sleeping thread with no round left wakes up ready
/// at the back of its process's ready queue; one with rounds left sleeps one
/// round less and stays in the sleeping queue.
pub proof fn law_sleep_round_wakes(v: SchedulerView, p: ProcessHandle, t: ThreadHandle)
    requires
        v.wf(),
        v.has_process(p),
        v.process(p).sleeping_threads.contains(t),
    ensures
        sleep_ticks(v.thread(t).state) == 0 ==> {
            &&& v.sleep_round(p).thread(t).state == ThreadState::Ready
            &&& v.sleep_round(p).process(p).ready_threads.contains(t)
            &&& !v.sleep_round(p).process(p).sleeping_threads.contains(t)
        },
        sleep_ticks(v.thread(t).state) > 0 ==> {
            &&& v.sleep_round(p).thread(t).state == ThreadState::Sleeping((sleep_ticks(v.thread(t).state) - 1) as u64)
            &&& v.sleep_round(p).process(p).sleeping_threads.contains(t)
        },
{
    let s = v.process(p).sleeping_threads;
    assert(v.process_wf(p));
    let j = choose|j: int| 0 <= j < s.len() && s[j] == t;
    assert(v.has_thread(s[j]));
    assert(ThreadHandle(t.0 as int as usize) == t);
    lemma_split_sleeping(v, s);
    let w = v.sleep_round(p);
    assert(w.thread(t) == after_sleep_round(v.thread(t)));
    if sleep_ticks(v.thread(t).state) == 0 {
        let wk = v.waking(s);
        assert(wk.contains(t));
        let k = choose|k: int| 0 <= k < wk.len() && wk[k] == t;
        let rd = v.process(p).ready_threads + wk;
        assert(rd[v.process(p).ready_threads.len() + k] == t);
        assert(w.process(p).ready_threads == rd);
    }
}

/// The load of a thread or process is a percentage: it is at most 100 when
/// it did not run longer than the time elapsed since its creation.
pub proof fn law_tick_density_is_percentage(total_ticks: u64, start_tick: u64, current_tick: u64)
    requires
        total_ticks <= if current_tick > start_tick { current_tick - start_tick } else { 1 },
    ensures
        0 <= tick_density_of(total_ticks, start_tick, current_tick) <= 100,
{
    let elapsed: int = if current_tick >= start_tick { current_tick - start_tick } else { 0 };
    let m: int = if elapsed >= 1 { elapsed } else { 1 };
    assert(total_ticks <= m);
    assert((total_ticks * 100) / m <= 100) by (nonlinear_arith)
        requires
            total_ticks <= m,
            m >= 1,
            total_ticks >= 0,
    ;
    assert((total_ticks * 100) / m >= 0) by (nonlinear_arith)
        requires
            m >= 1,
            total_ticks >= 0,
    ;
}

/// Threads created one after the other in a process get consecutive ids,
/// so no two of them share one.
pub proof fn law_thread_ids_increase(
    v: SchedulerView,
    p: ProcessHandle,
    a1: u64,
    s1: u64,
    t1: u64,
    a2: u64,
    s2: u64,
    t2: u64,
)
    requires
        v.wf(),
        v.has_process(p),
        v.process(p).total_threads_created + 2 <= u64::MAX,
        v.thread_table.len() + 2 <= usize::MAX,
    ensures
        ({
            let (w1, h1) = v.new_thread(a1, s1, p, t1);
            let (w2, h2) = w1.new_thread(a2, s2, p, t2);
            &&& w2.thread(h2).id == w2.thread(h1).id + 1
            &&& w2.thread(h1).id == v.process(p).total_threads_created + 1
            &&& h1 != h2
        }),
{
    let (w1, h1) = v.new_thread(a1, s1, p, t1);
    assert(w1.process(p).total_threads_created == v.process(p).total_threads_created + 1);
    let (w2, h2) = w1.new_thread(a2, s2, p, t2);
    assert(w2.thread(h1) == w1.thread(h1));
}

/// After a change of state the thread has its new state; a thread that has
/// not started, is ready or sleeps is at the back of its process's queue for
/// that state.
pub proof fn law_change_state_places_thread(v: SchedulerView, t: ThreadHandle, state: ThreadState)
    requires
        v.wf(),
        v.has_thread(t),
        !(state is Running),
    ensures
        ({
            let w = v.change_state(t, state);
            let p = v.thread(t).process;
            &&& w.thread(t).state == state
            &&& w.thread(t).process == p
            &&& state is NotStarted ==> w.process(p).not_started_threads.last() == t
            &&& state is Ready ==> w.process(p).ready_threads.last() == t
            &&& state is Sleeping ==> w.process(p).sleeping_threads.last() == t
        }),
{
    crate::model::lemma_change_state(v, t, state);
}

/// A completed line is what was typed: the first byte and then the others,
/// each erasing byte taking the last byte off, up to the first zero byte.
pub proof fn law_completed_line_is_typed_text(v: LineEditorView)
    requires
        v.wf(),
        v.completed,
    ensures
        until_nul(v.buffer) == until_nul(edited(seq![v.first], v.typed)),
{
    let e = edited(seq![v.first], v.typed);
    let i = v.index as int;
    // the zero after the line, or an earlier one in it, ends the text
    if exists|k: int| 0 <= k < i && v.buffer[k] == 0 {
        lemma_first_zero(v.buffer, i);
        let k1 = first_zero_below(v.buffer, i);
        lemma_until_nul(v.buffer, k1);
        assert forall|m: int| 0 <= m < k1 implies e[m] != 0 by {
            assert(v.buffer.take(i)[m] == v.buffer[m]);
        }
        assert(e[k1] == v.buffer.take(i)[k1]);
        lemma_until_nul(e, k1);
        assert(v.buffer.take(k1) =~= e.take(k1));
    } else {
        lemma_until_nul(v.buffer, i);
        assert forall|m: int| 0 <= m < i implies e[m] != 0 by {
            assert(v.buffer.take(i)[m] == v.buffer[m]);
        }
        lemma_until_nul(e, i);
        assert(e.take(i) =~= e);
    }
}

/// The position of the first zero byte among the first `n` bytes of `s`,
/// or `n` when there is none.
pub open spec fn first_zero_below(s: Seq<u8>, n: int) -> int
    decreases n,
{
    if n <= 0 {
        0
    } else if first_zero_below(s, n - 1) < n - 1 {
        first_zero_below(s, n - 1)
    } else if s[n - 1] == 0 {
        n - 1
    } else {
        n
    }
}

pub proof fn lemma_first_zero(s: Seq<u8>, n: int)
    requires
        0 <= n <= s.len(),
    ensures
        0 <= first_zero_below(s, n) <= n,
        forall|m: int| 0 <= m < first_zero_below(s, n) ==> s[m] != 0,
        first_zero_below(s, n) < n ==> s[first_zero_below(s, n)] == 0,
    decreases n,
{
    if n > 0 {
        lemma_first_zero(s, n - 1);
    }
}

/// The sleeping threads split into those that stay and those that wake:
/// together they are the sleeping threads, none lost and none repeated.
pub proof fn lemma_split_sleeping_multiset(v: SchedulerView, s: Seq<ThreadHandle>)
    ensures
        v.still_sleeping(s).to_multiset().add(v.waking(s).to_multiset()) =~= s.to_multiset(),
    decreases s.len(),
{
    broadcast use vstd::seq_lib::group_to_multiset_ensures;
    broadcast use vstd::multiset::group_multiset_axioms;

    if s.len() == 0 {
        assert(v.still_sleeping(s) =~= Seq::<ThreadHandle>::empty());
        assert(v.waking(s) =~= Seq::<ThreadHandle>::empty());
    } else {
        lemma_split_sleeping_multiset(v, s.drop_last());
        assert(s =~= s.drop_last().push(s.last()));
        vstd::seq_lib::to_multiset_build(s.drop_last(), s.last());
        let st = v.still_sleeping(s.drop_last());
        let wk = v.waking(s.drop_last());
        if sleep_ticks(v.thread(s.last()).state) > 0 {
            vstd::seq_lib::to_multiset_build(st, s.last());
        } else {
            vstd::seq_lib::to_multiset_build(wk, s.last());
        }
    }
}

/// A sleeping round keeps the threads queued in the process: the ready,
/// not started and sleeping queues together hold the same threads, each as
/// many times, as before. Threads move only from the sleeping queue to the
/// back of the ready queue; the queue of threads not started does not
/// change.
pub proof fn law_sleep_round_keeps_queued_threads(v: SchedulerView, p: ProcessHandle)
    requires
        v.wf(),
        v.has_process(p),
    ensures
        ({
            let pv = v.process(p);
            let wv = v.sleep_round(p).process(p);
            &&& (wv.ready_threads + wv.not_started_threads + wv.sleeping_threads).to_multiset() == (pv.ready_threads
                + pv.not_started_threads + pv.sleeping_threads).to_multiset()
            &&& wv.not_started_threads == pv.not_started_threads
            &&& wv.ready_threads.subrange(0, pv.ready_threads.len() as int) == pv.ready_threads
            &&& forall|t: ThreadHandle| #[trigger] wv.ready_threads.contains(t) ==> pv.ready_threads.contains(t)
                || pv.sleeping_threads.contains(t)
            &&& forall|t: ThreadHandle| #[trigger] wv.sleeping_threads.contains(t) ==> pv.sleeping_threads.contains(t)
        }),
{
    broadcast use vstd::multiset::group_multiset_axioms;
    broadcast use vstd::seq_lib::lemma_multiset_commutative;

    let pv = v.process(p);
    let s = pv.sleeping_threads;
    let wv = v.sleep_round(p).process(p);
    let st = v.still_sleeping(s);
    let wk = v.waking(s);
    lemma_split_sleeping(v, s);
    lemma_split_sleeping_multiset(v, s);
    let r = pv.ready_threads;
    let n = pv.not_started_threads;
    assert(wv.ready_threads == r + wk);
    assert(wv.sleeping_threads == st);
    vstd::seq_lib::lemma_multiset_commutative(r + wk, n);
    vstd::seq_lib::lemma_multiset_commutative(r + wk + n, st);
    vstd::seq_lib::lemma_multiset_commutative(r, wk);
    vstd::seq_lib::lemma_multiset_commutative(r, n);
    vstd::seq_lib::lemma_multiset_commutative(r + n, s);
    assert((wv.ready_threads + wv.not_started_threads + wv.sleeping_threads).to_multiset() =~= (r + n
        + s).to_multiset());
    assert(wv.ready_threads.subrange(0, r.len() as int) =~= r);
    assert forall|t: ThreadHandle| #[trigger] wv.ready_threads.contains(t) implies r.contains(t) || s.contains(t) by {
        let i = choose|i: int| 0 <= i < wv.ready_threads.len() && wv.ready_threads[i] == t;
        if i < r.len() {
            assert(r[i] == t);
        } else {
            assert(wk[i - r.len()] == t);
            assert(wk.contains(t));
        }
    }
}

/// A sleeping round keeps the ready queue of the process all ready, when it
/// was: the ready threads are untouched and the threads that wake up are
/// ready. The sleeping queue stays all asleep.
pub proof fn law_sleep_round_keeps_ready_threads_ready(v: SchedulerView, p: ProcessHandle)
    requires
        v.wf(),
        v.has_process(p),
        forall|i: int|
            0 <= i < v.process(p).ready_threads.len() ==> #[trigger] v.thread(v.process(p).ready_threads[i]).state
                == ThreadState::Ready,
    ensures
        ({
            let w = v.sleep_round(p);
            &&& forall|i: int|
                0 <= i < w.process(p).ready_threads.len() ==> #[trigger] w.thread(w.process(p).ready_threads[i]).state
                    == ThreadState::Ready
            &&& forall|i: int|
                0 <= i < w.process(p).sleeping_threads.len() ==> (#[trigger] w.thread(
                    w.process(p).sleeping_threads[i],
                ).state is Sleeping)
        }),
{
    let pv = v.process(p);
    let s = pv.sleeping_threads;
    let w = v.sleep_round(p);
    let wk = v.waking(s);
    assert(v.process_wf(p));
    lemma_split_sleeping(v, s);
    crate::model::lemma_sleep_round(v, p);
    assert(w.process_wf(p));
    assert forall|i: int| 0 <= i < w.process(p).ready_threads.len() implies #[trigger] w.thread(
        w.process(p).ready_threads[i],
    ).state == ThreadState::Ready by {
        let t = w.process(p).ready_threads[i];
        if i < pv.ready_threads.len() {
            assert(t == pv.ready_threads[i]);
            assert(v.has_thread(t));
            assert(v.thread(t).state == ThreadState::Ready);
            assert(!s.contains(t)) by {
                if s.contains(t) {
                    let m = choose|m: int| 0 <= m < s.len() && s[m] == t;
                    assert(v.thread(s[m]).state is Sleeping);
                }
            }
            assert(ThreadHandle(t.0 as int as usize) == t);
        } else {
            assert(t == wk[i - pv.ready_threads.len()]);
            assert(wk.contains(t));
            let m = choose|m: int| 0 <= m < s.len() && s[m] == t;
            assert(v.has_thread(s[m]));
            assert(ThreadHandle(t.0 as int as usize) == t);
            assert(w.thread(t) == after_sleep_round(v.thread(t)));
        }
    }
}

/// Every sleeping round done while scanning the queue keeps the ready queue
/// of each process as it was, at its front: the round only appends the
/// threads that wake up.
pub proof fn lemma_scan_keeps_ready_front(v: SchedulerView, j: int, q: ProcessHandle)
    requires
        v.wf(),
        0 <= j,
        v.has_process(q),
    ensures
        v.scan(j).0.process(q).ready_threads.len() >= v.process(q).ready_threads.len(),
        v.scan(j).0.process(q).ready_threads.subrange(0, v.process(q).ready_threads.len() as int)
            == v.process(q).ready_threads,
    decreases v.processes.len() - j,
{
    if j < v.processes.len() {
        let p = v.processes[j];
        assert(v.has_process(p));
        lemma_sleep_round(v, p);
        let v1 = v.sleep_round(p);
        let r = v.process(q).ready_threads;
        assert(v1.process(q).ready_threads.subrange(0, r.len() as int) == r);
        if !v1.has_runnable_thread(p) {
            lemma_scan_keeps_ready_front(v1, j + 1, q);
            let r1 = v1.process(q).ready_threads;
            let r2 = v1.scan(j + 1).0.process(q).ready_threads;
            assert(r2.subrange(0, r.len() as int) =~= r2.subrange(0, r1.len() as int).subrange(0, r.len() as int));
        }
    } else {
        assert(v.process(q).ready_threads.subrange(0, v.process(q).ready_threads.len() as int)
            =~= v.process(q).ready_threads);
    }
}

/// Round robin within a process: when the process that a scheduling
/// decision picks already had ready threads, the thread that runs is the
/// first of them, and the others move up one place in front of it: the next
/// decision on that process takes the one that was second.
pub proof fn law_schedule_takes_first_ready(v: SchedulerView)
    requires
        v.wf(),
        v.can_schedule(),
        v.process(v.processes[v.scan(0).1]).ready_threads.len() > 0,
    ensures
        ({
            let p = v.processes[v.scan(0).1];
            let r = v.process(p).ready_threads;
            let (w, t) = v.schedule();
            &&& t == r[0]
            &&& w.running_thread == Some(r[0])
            &&& w.process(p).ready_threads.len() >= r.len()
            &&& w.process(p).ready_threads.subrange(0, r.len() - 1) == r.subrange(1, r.len() as int)
            &&& w.process(p).ready_threads.contains(t)
        }),
{
    lemma_scan_from_front(v);
    lemma_scan(v, 0);
    let (v1, k) = v.scan(0);
    let p = v.processes[k];
    assert(v.has_process(p));
    lemma_scan_keeps_ready_front(v, 0, p);
    let r = v.process(p).ready_threads;
    let r1 = v1.process(p).ready_threads;
    assert(r1[0] == r[0]) by {
        assert(r1.subrange(0, r.len() as int)[0] == r1[0]);
    }
    let (v2, t) = v1.thread_to_run(p);
    assert(t == r[0]);
    let r2 = v2.process(p).ready_threads;
    assert(r2 == r1.drop_first().push(t));
    assert(r2.subrange(0, r.len() - 1) =~= r.subrange(1, r.len() as int)) by {
        assert forall|i: int| 0 <= i < r.len() - 1 implies r2.subrange(0, r.len() - 1)[i] == r.subrange(
            1,
            r.len() as int,
        )[i] by {
            assert(r2[i] == r1[i + 1]);
            assert(r1.subrange(0, r.len() as int)[i + 1] == r1[i + 1]);
        }
    }
    assert(r2[r2.len() - 1] == t);
    let v3 = SchedulerView { processes: v.processes.remove(k).push(p), ..v2 };
    let (w, t0) = v.schedule();
    let rw = w.process(p).ready_threads;
    match v.running_thread {
        Some(prev) => {
            if prev != t {
                let v4 = v3.requeue_ready(prev);
                if v3.thread(prev).process == p {
                    assert(rw == r2.push(prev));
                } else {
                    assert(rw == r2);
                }
            } else {
                assert(rw == r2);
            }
        },
        None => {
            assert(rw == r2);
        },
    }
    assert(rw[r2.len() - 1] == t);
    assert(rw.subrange(0, r.len() - 1) =~= r2.subrange(0, r.len() - 1));
}

/// The queue of a process that holds its threads in `state`; a running or
/// terminated thread has none.
pub open spec fn queue_for(pv: ProcessView, state: ThreadState) -> Seq<ThreadHandle> {
    match state {
        ThreadState::NotStarted => pv.not_started_threads,
        ThreadState::Ready => pv.ready_threads,
        ThreadState::Sleeping(_) => pv.sleeping_threads,
        _ => Seq::empty(),
    }
}

/// `after` is `before` with the first occurrence of `t` taken out: the
/// other entries keep their order, and without `t` nothing changes.
pub open spec fn drops_first_occurrence(before: Seq<ThreadHandle>, after: Seq<ThreadHandle>, t: ThreadHandle) -> bool {
    &&& !before.contains(t) ==> after == before
    &&& forall|i: int|
        0 <= i < before.len() && before[i] == t && (forall|j: int| 0 <= j < i ==> before[j] != t) ==> after
            == before.remove(i)
    &&& before.contains(t) ==> after.len() + 1 == before.len()
    &&& forall|x: ThreadHandle| x != t ==> (#[trigger] after.contains(x) <==> before.contains(x))
}

/// A queue that holds `t` holds it at a first index.
proof fn lemma_first_index(s: Seq<ThreadHandle>, t: ThreadHandle, i: int)
    requires
        0 <= i < s.len(),
        s[i] == t,
    ensures
        exists|k: int| 0 <= k <= i && s[k] == t && (forall|j: int| 0 <= j < k ==> s[j] != t),
    decreases i,
{
    if exists|j: int| 0 <= j < i && s[j] == t {
        let j = choose|j: int| 0 <= j < i && s[j] == t;
        lemma_first_index(s, t, j);
    } else {
        assert(forall|j: int| 0 <= j < i ==> s[j] != t);
    }
}

/// Taking out the first occurrence of `t`, at `i`, drops that occurrence.
proof fn lemma_remove_at_first(s: Seq<ThreadHandle>, t: ThreadHandle, i: int)
    requires
        0 <= i < s.len(),
        s[i] == t,
        forall|j: int| 0 <= j < i ==> s[j] != t,
    ensures
        drops_first_occurrence(s, s.remove(i), t),
{
    let n = s.remove(i);
    assert(s.contains(t));
    assert forall|k: int|
        0 <= k < s.len() && s[k] == t && (forall|j: int| 0 <= j < k ==> s[j] != t) implies n == s.remove(k) by {
        if k < i {
            assert(s[k] != t);
        }
        if i < k {
            assert(s[i] == t);
        }
    }
    assert forall|x: ThreadHandle| x != t implies (#[trigger] n.contains(x) <==> s.contains(x)) by {
        if s.contains(x) {
            let m = choose|m: int| 0 <= m < s.len() && s[m] == x;
            if m < i {
                assert(n[m] == x);
            } else {
                assert(m != i);
                assert(n[m - 1] == x);
            }
        }
        if n.contains(x) {
            let m = choose|m: int| 0 <= m < n.len() && n[m] == x;
            if m < i {
                assert(s[m] == x);
            } else {
                assert(s[m + 1] == x);
            }
        }
    }
}

/// Removing the first occurrence of `t` from a queue does what its name says.
proof fn lemma_remove_first_drops_first(s: Seq<ThreadHandle>, t: ThreadHandle)
    ensures
        drops_first_occurrence(s, remove_first(s, t), t),
{
    lemma_remove_first(s, t);
    if s.contains(t) {
        let i0 = choose|i: int| 0 <= i < s.len() && s[i] == t;
        lemma_first_index(s, t, i0);
        let i = choose|k: int| 0 <= k <= i0 && s[k] == t && (forall|j: int| 0 <= j < k ==> s[j] != t);
        assert(remove_first(s, t) == s.remove(i));
        lemma_remove_at_first(s, t, i);
    } else {
        assert forall|k: int|
            0 <= k < s.len() && s[k] == t && (forall|j: int| 0 <= j < k ==> s[j] != t) implies remove_first(s, t)
            == s.remove(k) by {
            assert(s.contains(t));
        }
    }
}

/// Taking a thread out of the queue of its state removes its first
/// occurrence there, and only that: the other entries keep their order, and
/// a queue without the thread is left as it is. The other queues do not
/// change.
pub proof fn law_remove_from_queues_takes_first_occurrence(
    v: SchedulerView,
    p: ProcessHandle,
    t: ThreadHandle,
    state: ThreadState,
)
    requires
        v.has_process(p),
    ensures
        ({
            let pv = v.process(p);
            let wv = v.remove_from_queues(p, t, state).process(p);
            &&& drops_first_occurrence(queue_for(pv, state), queue_for(wv, state), t)
            &&& !(state is NotStarted) ==> wv.not_started_threads == pv.not_started_threads
            &&& !(state is Ready) ==> wv.ready_threads == pv.ready_threads
            &&& !(state is Sleeping) ==> wv.sleeping_threads == pv.sleeping_threads
        }),
{
    let pv = v.process(p);
    match state {
        ThreadState::NotStarted => lemma_remove_first_drops_first(pv.not_started_threads, t),
        ThreadState::Ready => lemma_remove_first_drops_first(pv.ready_threads, t),
        ThreadState::Sleeping(_) => lemma_remove_first_drops_first(pv.sleeping_threads, t),
        _ => {},
    }
}

/// When a ready thread exits, the ready queue of its process loses the
/// first occurrence of that thread and keeps every other thread in order.
pub proof fn law_exit_removes_ready_thread(v: SchedulerView, t: ThreadHandle)
    requires
        v.wf(),
        v.has_thread(t),
        v.thread(t).state == ThreadState::Ready,
    ensures
        drops_first_occurrence(
            v.process(v.thread(t).process).ready_threads,
            v.exit_thread(t).0.process(v.thread(t).process).ready_threads,
            t,
        ),
{
    let p = v.thread(t).process;
    assert(v.has_process(v.thread_table[t.0 as int].process));
    law_remove_from_queues_takes_first_occurrence(v, p, t, ThreadState::Ready);
}

/// A line of the scheduler table lists every thread its process holds:
/// first the ready ones, then those not started, then the sleeping ones,
/// each in queue order with its id, state name and load, and no other.
pub proof fn law_table_lists_every_queued_thread(info: ProcessInfo, v: SchedulerView, p: ProcessHandle, tick: u64)
    requires
        describes_process(info, v, p, tick),
    ensures
        ({
            let pv = v.process(p);
            let nr = pv.ready_threads.len();
            let nn = pv.not_started_threads.len();
            &&& info.threads@.len() == nr + nn + pv.sleeping_threads.len()
            &&& forall|i: int|
                0 <= i < nr ==> describes_thread(#[trigger] info.threads@[i], v.thread(pv.ready_threads[i]), tick)
            &&& forall|i: int|
                0 <= i < nn ==> describes_thread(
                    #[trigger] info.threads@[nr + i],
                    v.thread(pv.not_started_threads[i]),
                    tick,
                )
            &&& forall|i: int|
                0 <= i < pv.sleeping_threads.len() ==> describes_thread(
                    #[trigger] info.threads@[nr + nn + i],
                    v.thread(pv.sleeping_threads[i]),
                    tick,
                )
        }),
{
    let pv = v.process(p);
    let ts = crate::scheduler_table::listed_threads(v, p);
    let nr = pv.ready_threads.len();
    let nn = pv.not_started_threads.len();
    assert forall|i: int| 0 <= i < nr implies describes_thread(
        #[trigger] info.threads@[i],
        v.thread(pv.ready_threads[i]),
        tick,
    ) by {
        assert(ts[i] == pv.ready_threads[i]);
    }
    assert forall|i: int| 0 <= i < nn implies describes_thread(
        #[trigger] info.threads@[nr + i],
        v.thread(pv.not_started_threads[i]),
        tick,
    ) by {
        assert(ts[nr + i] == pv.not_started_threads[i]);
    }
    assert forall|i: int| 0 <= i < pv.sleeping_threads.len() implies describes_thread(
        #[trigger] info.threads@[nr + nn + i],
        v.thread(pv.sleeping_threads[i]),
        tick,
    ) by {
        assert(ts[nr + nn + i] == pv.sleeping_threads[i]);
    }
}

/// A tick adds to the running thread and to its process the ticks elapsed
/// since each last ran, and records the tick as their last one.
pub proof fn law_on_tick_adds_elapsed_ticks(v: SchedulerView, registers_state: RegistersState, tick: u64)
    requires
        v.wf(),
        v.can_account_tick(tick),
        v.running_thread is Some,
    ensures
        ({
            let t = v.running_thread->0;
            let p = v.thread(t).process;
            let w = v.on_tick(registers_state, tick);
            &&& w.process(p).total_ticks == v.process(p).total_ticks + (tick - v.process(p).last_tick)
            &&& w.process(p).last_tick == tick
            &&& w.thread(t).total_ticks == v.thread(t).total_ticks + (tick - v.thread(t).last_tick)
            &&& w.thread(t).last_tick == tick
            &&& w.process(p).total_ticks >= v.process(p).total_ticks
            &&& w.thread(t).total_ticks >= v.thread(t).total_ticks
        }),
{
    let t = v.running_thread->0;
    assert(v.has_process(v.thread_table[t.0 as int].process));
}

/// Two ticks in a row add up: the process of the running thread has run,
/// after both, its old total plus everything elapsed since it last ran.
pub proof fn law_on_tick_accumulates(v: SchedulerView, r1: RegistersState, t1: u64, r2: RegistersState, t2: u64)
    requires
        v.wf(),
        v.can_account_tick(t1),
        v.on_tick(r1, t1).can_account_tick(t2),
        v.running_thread is Some,
    ensures
        ({
            let t = v.running_thread->0;
            let p = v.thread(t).process;
            let w = v.on_tick(r1, t1).on_tick(r2, t2);
            &&& w.process(p).total_ticks == v.process(p).total_ticks + (t2 - v.process(p).last_tick)
            &&& w.thread(t).total_ticks == v.thread(t).total_ticks + (t2 - v.thread(t).last_tick)
        }),
{
    let t = v.running_thread->0;
    assert(v.has_process(v.thread_table[t.0 as int].process));
    crate::model::lemma_on_tick(v, r1, t1);
    law_on_tick_adds_elapsed_ticks(v, r1, t1);
    let v1 = v.on_tick(r1, t1);
    assert(v1.running_thread == v.running_thread);
    assert(v1.thread(t).process == v.thread(t).process);
    law_on_tick_adds_elapsed_ticks(v1, r2, t2);
}

/// A thread resumes with its saved flags, interrupts enabled and the nested
/// task bit cleared: every other bit is the one it was saved with.
pub proof fn law_dispatch_keeps_other_flags(saved: u64, m: u64)
    requires
        m & (FLAG_IF | FLAG_NT) == 0,
    ensures
        spec_dispatch_flags(saved) & m == saved & m,
        spec_dispatch_flags(saved) & FLAG_IF == FLAG_IF,
        spec_dispatch_flags(saved) & FLAG_NT == 0,
{
    let r = spec_dispatch_flags(saved);
    assert(r & m == saved & m && r & 0x200u64 == 0x200u64 && r & 0x4000u64 == 0) by (bit_vector)
        requires
            r == (saved | 0x200u64) & !0x4000u64,
            m & (0x200u64 | 0x4000u64) == 0,
    ;
}

/// Taking the thread to run from a process: the first ready thread, which
/// moves to the back of the ready queue; or, with no ready thread, the
/// first thread not started, which becomes ready and joins the back of the
/// ready queue.
pub proof fn law_thread_to_run_takes_front(v: SchedulerView, p: ProcessHandle)
    requires
        v.wf(),
        v.has_process(p),
        v.has_runnable_thread(p),
    ensures
        ({
            let pv = v.process(p);
            let (w, t) = v.thread_to_run(p);
            let wv = w.process(p);
            &&& pv.ready_threads.len() > 0 ==> {
                &&& t == pv.ready_threads[0]
                &&& wv.ready_threads == pv.ready_threads.subrange(1, pv.ready_threads.len() as int) + seq![t]
                &&& wv.not_started_threads == pv.not_started_threads
                &&& w.thread_table == v.thread_table
            }
            &&& pv.ready_threads.len() == 0 ==> {
                &&& t == pv.not_started_threads[0]
                &&& wv.not_started_threads == pv.not_started_threads.subrange(
                    1,
                    pv.not_started_threads.len() as int,
                )
                &&& wv.ready_threads == seq![t]
                &&& w.thread(t).state == ThreadState::Ready
            }
            &&& wv.sleeping_threads == pv.sleeping_threads
        }),
{
    let pv = v.process(p);
    let (w, t) = v.thread_to_run(p);
    if pv.ready_threads.len() > 0 {
        assert(w.process(p).ready_threads =~= pv.ready_threads.subrange(1, pv.ready_threads.len() as int) + seq![t]);
    } else {
        assert(v.process_wf(p));
        assert(v.has_thread(pv.not_started_threads[0]));
        assert(w.process(p).ready_threads =~= seq![t]);
        assert(w.process(p).not_started_threads =~= pv.not_started_threads.subrange(
            1,
            pv.not_started_threads.len() as int,
        ));
    }
}

/// When a decision picks another thread than the one that ran, the one that
/// ran goes to the back of the ready queue of its process; when it picks the
/// same thread, that thread is not queued again.
pub proof fn law_schedule_requeues_previous(v: SchedulerView)
    requires
        v.wf(),
        v.can_schedule(),
        v.running_thread is Some,
    ensures
        ({
            let prev = v.running_thread->0;
            let (w, t) = v.schedule();
            let q = v.thread(prev).process;
            prev != t ==> w.process(q).ready_threads.last() == prev && w.process(q).ready_threads.len() > 0
        }),
{
    lemma_scan_from_front(v);
    lemma_scan(v, 0);
    let (v1, k) = v.scan(0);
    let p = v.processes[k];
    assert(v.has_process(p));
    let prev = v.running_thread->0;
    assert(v1.thread_table.len() == v.thread_table.len());
    assert(v.has_thread(prev));
    assert(v1.thread(prev).process == v.thread(prev).process) by {
        lemma_scan_keeps_thread_process(v, 0, prev);
    }
    let (v2, t) = v1.thread_to_run(p);
    let v3 = SchedulerView { processes: v.processes.remove(k).push(p), ..v2 };
    let q = v.thread(prev).process;
    if prev != t {
        assert(v3.thread(prev).process == q) by {
            if v1.process(p).ready_threads.len() == 0 {
                assert(v1.process_wf(p));
                assert(v1.has_thread(v1.process(p).not_started_threads[0]));
            }
        }
        let (w, t0) = v.schedule();
        assert(w.process(q).ready_threads == v3.process(q).ready_threads.push(prev));
    }
}

/// The sleeping rounds of a scan change the state of threads, never the
/// process they belong to.
pub proof fn lemma_scan_keeps_thread_process(v: SchedulerView, j: int, t: ThreadHandle)
    requires
        v.wf(),
        0 <= j,
        v.has_thread(t),
    ensures
        v.scan(j).0.has_thread(t),
        v.scan(j).0.thread(t).process == v.thread(t).process,
    decreases v.processes.len() - j,
{
    if j < v.processes.len() {
        let p = v.processes[j];
        assert(v.has_process(p));
        lemma_sleep_round(v, p);
        let v1 = v.sleep_round(p);
        assert(v1.thread(t).process == v.thread(t).process);
        if !v1.has_runnable_thread(p) {
            lemma_scan_keeps_thread_process(v1, j + 1, t);
        }
    }
}

/// A tick saves the registers of the running thread and leaves a scheduler
/// with no running thread as it is.
pub proof fn law_on_tick_saves_registers(v: SchedulerView, registers_state: RegistersState, tick: u64)
    requires
        v.wf(),
    ensures
        v.running_thread is None ==> v.on_tick(registers_state, tick) == v,
        v.running_thread matches Some(t) ==> v.on_tick(registers_state, tick).thread(t).registers_state
            == registers_state,
{
    if let Some(t) = v.running_thread {
        assert(v.has_process(v.thread_table[t.0 as int].process));
    }
}

} // verus!
