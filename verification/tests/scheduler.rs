use kernel::dispatcher::{dispatch_thread, Selectors};
use kernel::process::Process;
use kernel::registers_state::{RegistersState, FLAG_IF, FLAG_NT, FLAG_R1, FLAG_RF};
use kernel::scheduler::{
    add_thread_to_process_queues, exit_thread, remove_thread_from_process_queues, run_processes, timer_handler,
    FirstComeFirstServedScheduler, Scheduler,
};
use kernel::thread::{Thread, ThreadHandle, ThreadState};

fn scheduler_with_process(id: u64) -> (FirstComeFirstServedScheduler, kernel::process::ProcessHandle) {
    let mut s = FirstComeFirstServedScheduler::new();
    let p = s.add_process(Process::create_blank(id, (0x1000, 0), 5));
    (s, p)
}

#[test]
fn create_blank_starts_empty_in_kernel_mode() {
    let p = Process::create_blank(7, (0x5000, 3), 42);
    assert_eq!(p.id, 7);
    assert_eq!(p.cr3, (0x5000, 3));
    assert_eq!(p.total_ticks, 0);
    assert_eq!(p.start_tick, 42);
    assert_eq!(p.last_tick, 0);
    assert!(p.kernel_process);
    assert_eq!(p.total_threads_created, 0);
    assert!(p.not_started_threads.is_empty());
    assert!(p.ready_threads.is_empty());
    assert!(p.sleeping_threads.is_empty());
}

#[test]
fn tick_density_is_percentage_of_elapsed_ticks() {
    let mut p = Process::create_blank(1, (0, 0), 100);
    p.total_ticks = 25;
    assert_eq!(p.tick_density(200), 25);
    assert_eq!(p.tick_density(150), 50);
    // no time elapsed counts as one tick
    assert_eq!(p.tick_density(100), 2500);
    // a clock behind the start saturates to zero elapsed ticks
    assert_eq!(p.tick_density(50), 2500);
}

#[test]
fn thread_ids_count_the_threads_created() {
    let (mut s, p) = scheduler_with_process(1);
    let t1 = Thread::new_native(&mut s, 0x1000, 0x8000, p, 10);
    let t2 = Thread::new_native(&mut s, 0x2000, 0x9000, p, 11);
    assert_eq!(s.thread(t1).id, 1);
    assert_eq!(s.thread(t2).id, 2);
    assert_eq!(s.process(p).total_threads_created, 2);
    assert_eq!(s.process(p).not_started_threads, vec![t1, t2]);
    let th = s.thread(t1);
    assert_eq!(th.state, ThreadState::NotStarted);
    assert_eq!(th.start_tick, 10);
    assert_eq!(th.registers_state.rip, 0x1000);
    assert_eq!(th.registers_state.rsp, 0x8000);
    assert_eq!(th.registers_state.rflags, FLAG_IF | FLAG_R1 | FLAG_RF);
    assert_eq!(th.registers_state.rax, 0);
}

#[test]
fn registers_state_new_zeroes_general_registers() {
    let r = RegistersState::new(0xffff_8000_0000_1000, 0x202, 0x7fff_0000);
    assert_eq!(r.rip, 0xffff_8000_0000_1000);
    assert_eq!(r.rsp, 0x7fff_0000);
    assert_eq!(r.rflags, 0x202);
    assert_eq!(r.r15, 0);
    assert_eq!(r._reserved, 0);
}

#[test]
fn schedule_starts_first_thread_and_rotates_queue() {
    let mut s = FirstComeFirstServedScheduler::new();
    let p1 = s.add_process(Process::create_blank(1, (0x1000, 0), 0));
    let p2 = s.add_process(Process::create_blank(2, (0x2000, 0), 0));
    let a = Thread::new_native(&mut s, 0x1000, 0x8000, p1, 0);
    let b = Thread::new_native(&mut s, 0x1000, 0x8000, p2, 0);
    assert!(s.has_runnable_process());
    let first = s.schedule();
    assert_eq!(first, a);
    assert_eq!(s.get_running_thread(), Some(a));
    assert_eq!(s.thread(a).state, ThreadState::Ready);
    assert_eq!(s.process(p1).ready_threads, vec![a]);
    assert!(s.process(p1).not_started_threads.is_empty());
    assert_eq!(*s.queued_processes(), vec![p2, p1]);
    let second = s.schedule();
    assert_eq!(second, b);
    assert_eq!(*s.queued_processes(), vec![p1, p2]);
    // the thread that ran before goes back to its process's ready queue
    assert_eq!(s.process(p1).ready_threads, vec![a, a]);
}

#[test]
fn schedule_skips_processes_without_runnable_threads() {
    let mut s = FirstComeFirstServedScheduler::new();
    let p1 = s.add_process(Process::create_blank(1, (0x1000, 0), 0));
    let p2 = s.add_process(Process::create_blank(2, (0x2000, 0), 0));
    let b = Thread::new_native(&mut s, 0x1000, 0x8000, p2, 0);
    assert_eq!(s.schedule(), b);
    assert_eq!(*s.queued_processes(), vec![p1, p2]);
}

#[test]
fn same_thread_scheduled_again_is_not_requeued() {
    let (mut s, p) = scheduler_with_process(1);
    let a = Thread::new_native(&mut s, 0x1000, 0x8000, p, 0);
    assert_eq!(s.schedule(), a);
    assert_eq!(s.schedule(), a);
    assert_eq!(s.process(p).ready_threads, vec![a]);
}

#[test]
fn sleeping_thread_wakes_after_its_rounds() {
    let (mut s, p) = scheduler_with_process(1);
    let a = Thread::new_native(&mut s, 0x1000, 0x8000, p, 0);
    let b = Thread::new_native(&mut s, 0x1000, 0x8000, p, 0);
    Thread::change_state(&mut s, b, ThreadState::Sleeping(1));
    assert_eq!(s.process(p).sleeping_threads, vec![b]);
    assert!(s.process(p).not_started_threads == vec![a]);
    Process::update_sleeping_threads(&mut s, p);
    assert_eq!(s.thread(b).state, ThreadState::Sleeping(0));
    assert_eq!(s.process(p).sleeping_threads, vec![b]);
    Process::update_sleeping_threads(&mut s, p);
    assert_eq!(s.thread(b).state, ThreadState::Ready);
    assert!(s.process(p).sleeping_threads.is_empty());
    assert_eq!(s.process(p).ready_threads, vec![b]);
}

#[test]
fn process_with_only_sleeper_due_is_runnable() {
    let (mut s, p) = scheduler_with_process(1);
    let a = Thread::new_native(&mut s, 0x1000, 0x8000, p, 0);
    Thread::change_state(&mut s, a, ThreadState::Sleeping(0));
    assert!(s.has_runnable_process());
    assert_eq!(s.schedule(), a);
    assert_eq!(s.thread(a).state, ThreadState::Ready);
}

#[test]
fn process_with_only_long_sleeper_is_not_runnable() {
    let (mut s, p) = scheduler_with_process(1);
    let a = Thread::new_native(&mut s, 0x1000, 0x8000, p, 0);
    Thread::change_state(&mut s, a, ThreadState::Sleeping(3));
    assert!(!s.has_runnable_process());
    let empty = FirstComeFirstServedScheduler::new();
    assert!(!empty.has_runnable_process());
}

#[test]
fn change_state_moves_between_queues() {
    let (mut s, p) = scheduler_with_process(1);
    let a = Thread::new_native(&mut s, 0x1000, 0x8000, p, 0);
    Thread::change_state(&mut s, a, ThreadState::Ready);
    assert!(s.process(p).not_started_threads.is_empty());
    assert_eq!(s.process(p).ready_threads, vec![a]);
    Thread::change_state(&mut s, a, ThreadState::Terminated);
    assert!(s.process(p).ready_threads.is_empty());
    assert_eq!(s.thread(a).state, ThreadState::Terminated);
}

#[test]
fn removing_running_thread_clears_it() {
    let (mut s, p) = scheduler_with_process(1);
    let a = Thread::new_native(&mut s, 0x1000, 0x8000, p, 0);
    s.schedule();
    remove_thread_from_process_queues(&mut s, p, ThreadHandle(99), ThreadState::Running);
    assert_eq!(s.get_running_thread(), Some(a));
    remove_thread_from_process_queues(&mut s, p, a, ThreadState::Running);
    assert_eq!(s.get_running_thread(), None);
}

#[test]
fn add_thread_to_process_queues_appends() {
    let (mut s, p) = scheduler_with_process(1);
    let a = Thread::new_native(&mut s, 0x1000, 0x8000, p, 0);
    remove_thread_from_process_queues(&mut s, p, a, ThreadState::NotStarted);
    assert!(s.process(p).not_started_threads.is_empty());
    add_thread_to_process_queues(&mut s, p, a, ThreadState::NotStarted);
    assert_eq!(s.process(p).not_started_threads, vec![a]);
}

#[test]
fn exiting_last_thread_removes_process() {
    let (mut s, p) = scheduler_with_process(1);
    let a = Thread::new_native(&mut s, 0x1000, 0x8000, p, 0);
    let b = Thread::new_native(&mut s, 0x1000, 0x8000, p, 0);
    assert_eq!(exit_thread(&mut s, a), None);
    assert_eq!(*s.queued_processes(), vec![p]);
    assert_eq!(exit_thread(&mut s, b), Some(0x1000));
    assert!(s.queued_processes().is_empty());
}

#[test]
fn remove_process_leaves_others_in_order() {
    let mut s = FirstComeFirstServedScheduler::new();
    let p1 = s.add_process(Process::create_blank(1, (0, 0), 0));
    let p2 = s.add_process(Process::create_blank(2, (0, 0), 0));
    let p3 = s.add_process(Process::create_blank(3, (0, 0), 0));
    s.remove_process(p2);
    assert_eq!(*s.queued_processes(), vec![p1, p3]);
    s.remove_process(p2);
    assert_eq!(*s.queued_processes(), vec![p1, p3]);
}

#[test]
fn on_tick_accounts_running_thread_and_process() {
    let (mut s, p) = scheduler_with_process(1);
    let a = Thread::new_native(&mut s, 0x1000, 0x8000, p, 0);
    s.schedule();
    let mut regs = s.thread(a).registers_state;
    regs.rax = 77;
    assert!(s.can_account_tick(10));
    s.on_tick(regs, 10);
    assert_eq!(s.thread(a).total_ticks, 10);
    assert_eq!(s.thread(a).last_tick, 10);
    assert_eq!(s.thread(a).registers_state.rax, 77);
    assert_eq!(s.process(p).total_ticks, 10);
    s.on_tick(regs, 15);
    assert_eq!(s.thread(a).total_ticks, 15);
    assert_eq!(s.process(p).last_tick, 15);
    assert!(!s.can_account_tick(3));
}

#[test]
fn timer_handler_accounts_then_schedules() {
    let (mut s, p) = scheduler_with_process(1);
    let a = Thread::new_native(&mut s, 0x1000, 0x8000, p, 0);
    let b = Thread::new_native(&mut s, 0x1000, 0x8000, p, 0);
    assert_eq!(run_processes(&mut s), Some(a));
    let regs = s.thread(a).registers_state;
    // a ready thread goes before one that has not started
    assert_eq!(timer_handler(&mut s, regs, 4), a);
    assert_eq!(s.thread(a).total_ticks, 4);
    assert_eq!(s.get_running_thread(), Some(a));
    assert_eq!(s.process(p).not_started_threads, vec![b]);
}

#[test]
fn dispatch_selects_ring_and_flags() {
    let mut s = FirstComeFirstServedScheduler::new();
    let mut user = Process::create_blank(2, (0x3000, 8), 0);
    user.kernel_process = false;
    let pk = s.add_process(Process::create_blank(1, (0x1000, 0), 0));
    let pu = s.add_process(user);
    let k = Thread::new_native(&mut s, 0x1000, 0x8000, pk, 0);
    let u = Thread::new_native(&mut s, 0x2000, 0x9000, pu, 0);
    let selectors = Selectors {
        kernel_code_selector: 8,
        kernel_data_selector: 16,
        user_code_selector: 35,
        user_data_selector: 27,
        tss_selector: 40,
    };
    let ck = dispatch_thread(&mut s, k, 9, &selectors);
    assert_eq!((ck.code_selector_id, ck.data_selector_id), (8, 16));
    assert_eq!(ck.cr3, (0x1000, 0));
    assert_eq!(s.thread(k).last_tick, 9);
    assert_eq!(s.process(pk).last_tick, 9);
    let cu = dispatch_thread(&mut s, u, 11, &selectors);
    assert_eq!((cu.code_selector_id, cu.data_selector_id), (35, 27));
    assert_eq!(cu.cr3, (0x3000, 8));
    assert_eq!(cu.registers_state.rip, 0x2000);
    assert_eq!(cu.rflags & FLAG_IF, FLAG_IF);
    assert_eq!(cu.rflags & FLAG_NT, 0);
    assert_eq!(cu.rflags, FLAG_IF | FLAG_R1 | FLAG_RF);
}

#[test]
fn dispatch_flags_enable_interrupts_and_clear_nested_task() {
    assert_eq!(kernel::registers_state::dispatch_flags(0x4002), 0x202);
    assert_eq!(kernel::registers_state::dispatch_flags(0), 0x200);
}

#[test]
fn run_processes_returns_nothing_when_no_thread_can_run() {
    let mut empty = FirstComeFirstServedScheduler::new();
    assert_eq!(run_processes(&mut empty), None);
    let (mut s, p) = scheduler_with_process(1);
    let a = Thread::new_native(&mut s, 0x1000, 0x8000, p, 0);
    Thread::change_state(&mut s, a, ThreadState::Sleeping(2));
    assert_eq!(run_processes(&mut s), None);
    // nothing changed: the sleeper did not lose a round
    assert_eq!(s.thread(a).state, ThreadState::Sleeping(2));
    assert_eq!(s.get_running_thread(), None);
}

#[test]
fn add_thread_to_process_queues_appends_any_thread() {
    let mut s = FirstComeFirstServedScheduler::new();
    let p = s.add_process(Process::create_blank(1, (0, 0), 0));
    let q = s.add_process(Process::create_blank(2, (0, 0), 0));
    let a = Thread::new_native(&mut s, 0x1000, 0x8000, p, 0);
    // a thread of another process, in another state, already queued
    add_thread_to_process_queues(&mut s, q, a, ThreadState::Ready);
    add_thread_to_process_queues(&mut s, q, a, ThreadState::Ready);
    assert_eq!(s.process(q).ready_threads, vec![a, a]);
    assert_eq!(s.process(p).not_started_threads, vec![a]);
    add_thread_to_process_queues(&mut s, q, a, ThreadState::Terminated);
    assert!(s.process(q).not_started_threads.is_empty());
    assert!(s.process(q).sleeping_threads.is_empty());
    assert_eq!(s.process(q).ready_threads, vec![a, a]);
}

fn add_and_run<S: Scheduler>(s: &mut S) -> (kernel::process::ProcessHandle, Option<ThreadHandle>) {
    let p = s.add_process(Process::create_blank(9, (0x2000, 0), 0));
    (p, s.get_running_thread())
}

#[test]
fn scheduler_trait_drives_first_come_first_served() {
    let mut s = FirstComeFirstServedScheduler::new();
    let (p, running) = add_and_run(&mut s);
    assert_eq!(running, None);
    let a = Thread::new_native(&mut s, 0x1000, 0x8000, p, 0);
    assert_eq!(Scheduler::schedule(&mut s), a);
    assert_eq!(Scheduler::get_running_thread(&s), Some(a));
    let regs = s.thread(a).registers_state;
    Scheduler::on_tick(&mut s, regs, 4);
    assert_eq!(s.thread(a).total_ticks, 4);
    let table = Scheduler::get_processes_and_threads(&s, 4);
    assert_eq!(table.0.len(), 1);
    assert_eq!(table.0[0].id, 9);
    Scheduler::clear_running_thread(&mut s);
    assert_eq!(Scheduler::get_running_thread(&s), None);
    Scheduler::remove_process(&mut s, p);
    assert!(s.queued_processes().is_empty());
}
