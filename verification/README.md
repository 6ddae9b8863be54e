# kernel

The decision-making core of a small x86-64 kernel, verified with Verus.

- `src/` is the verified library: the first-come-first-served scheduler
  (`scheduler`, with its mathematical model in `model`), processes and
  threads, the preparation of a context switch (`dispatcher`), the
  scheduler table and its text rendering (`scheduler_table`, `text`), the
  serial line editor (`serial`), ANSI-colored text and the RFLAGS helpers.
  `laws` states properties that span several operations. The `Scheduler`
  trait says what any scheduler offers; `FirstComeFirstServedScheduler`
  implements it.
- `app/` is the hardware side: descriptor tables, interrupt handlers, the
  programmable interrupt controllers, the UART, the global scheduler and the
  assembly that switches to a thread. It calls the library for every
  scheduling decision and performs what it returns, with two limits: when
  the last thread of a process exits, `exit_thread` hands back the frame of
  the process's page table and the memory mapper, which is not part of this
  project, clears its user-mode mapping; and no disk driver is present, so
  the ATA interrupts are only acknowledged. The tick of the accounting is the
  processor's time-stamp counter. It uses the `x86-interrupt` ABI and so
  needs a nightly toolchain.
- `tests/` runs the library on concrete scenarios.
