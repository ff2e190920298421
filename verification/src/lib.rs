pub mod mm;
pub mod sync;
pub mod syscall;
pub mod task;
