pub mod context;
pub mod manager;
pub mod task;
