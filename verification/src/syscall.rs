pub mod fs;
pub mod process;
pub mod timer;
