pub mod context;
pub mod handler;
