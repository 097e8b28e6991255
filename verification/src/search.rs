pub mod candidates;
pub mod engine;
