//! Laws of the library.
//!
//! Each law is a proof function: its parameters are what the law speaks of, and its `ensures` is
//! the law.
pub mod builder;
pub mod capturing;
pub mod costs;
pub mod emission;
pub mod handover;
pub mod joining;
pub mod joins;
pub mod mapping;
pub mod meaning;
pub mod merging;
pub mod outcomes;
pub mod placing;
pub mod planning;
pub mod progress;
pub mod pruning;
pub mod returning;
pub mod sierra;
pub mod success;
pub mod text;
pub mod types;
pub mod typing;
