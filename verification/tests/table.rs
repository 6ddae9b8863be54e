use kernel::process::Process;
use kernel::scheduler::FirstComeFirstServedScheduler;
use kernel::scheduler_table::{ProcessInfo, SchedulerTable, ThreadInfo};
use kernel::thread::{Thread, ThreadState};

#[test]
fn table_lists_queued_processes_and_their_threads() {
    let mut s = FirstComeFirstServedScheduler::new();
    let p = s.add_process(Process::create_blank(3, (0, 0), 0));
    let a = Thread::new_native(&mut s, 0x1000, 0x8000, p, 0);
    let b = Thread::new_native(&mut s, 0x1000, 0x8000, p, 0);
    Thread::change_state(&mut s, b, ThreadState::Sleeping(4));
    s.schedule();
    let regs = s.thread(a).registers_state;
    s.on_tick(regs, 20);
    assert!(s.can_report_loads());
    let table = s.get_processes_and_threads(40);
    assert_eq!(table.0.len(), 1);
    let info = &table.0[0];
    assert_eq!(info.id, 3);
    assert!(info.kernel_process);
    assert_eq!(info.load, 50);
    assert_eq!(info.threads.len(), 2);
    assert_eq!(info.threads[0].id, 1);
    assert_eq!(info.threads[0].state, "ready");
    assert_eq!(info.threads[0].load, 50);
    assert_eq!(info.threads[1].id, 2);
    assert_eq!(info.threads[1].state, "sleeping");
    assert_eq!(info.threads[1].load, 0);
}

#[test]
fn log_renders_aligned_columns() {
    let table = SchedulerTable(vec![
        ProcessInfo {
            id: 1,
            kernel_process: true,
            load: 75,
            threads: vec![
                ThreadInfo { id: 1, state: "running", load: 60 },
                ThreadInfo { id: 12, state: "not started", load: 0 },
            ],
        },
        ProcessInfo { id: 1234567890123, kernel_process: false, load: 100, threads: vec![] },
    ]);
    let lines = table.log();
    assert_eq!(
        lines,
        vec![
            " Process   | Thread    | CPU Usage | State     ".to_string(),
            "         1 |           |       75% |    ring 0 ".to_string(),
            "           |         1 |       60% |    running".to_string(),
            "           |        12 |        0% |not started".to_string(),
            "1234567890123 |           |      100% |    ring 3 ".to_string(),
        ]
    );
    let expected_first = format!("{: >10} |           | {: >8}% | {: >9} ", 1, 75, "ring 0");
    assert_eq!(lines[1], expected_first);
    let expected_thread = format!("           | {: >9} | {: >8}% |{: >11}", 12, 0, "not started");
    assert_eq!(lines[3], expected_thread);
}

#[test]
fn empty_table_is_just_the_header() {
    let table = SchedulerTable(vec![]);
    assert_eq!(table.log(), vec![" Process   | Thread    | CPU Usage | State     ".to_string()]);
}
