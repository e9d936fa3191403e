pub mod error;
pub mod laws;
pub mod merkle;
