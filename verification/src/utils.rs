pub mod range;
