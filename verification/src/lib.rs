//! A first-come-first-served kernel scheduler with its process and thread
//! bookkeeping, the serial line editor, and the scheduler table renderer.
pub mod registers_state;
pub mod thread;
pub mod process;
pub mod model;
pub mod scheduler;
pub mod text;
pub mod scheduler_table;
pub mod dispatcher;
pub mod serial;
pub mod ansi_colors;
pub mod laws;
