//! Lowering of structured blocks with verified bookkeeping of variables.
pub mod block_builder;
pub mod context;
pub mod generators;
pub mod ids;
pub mod joining;
pub mod laws;
pub mod member_path;
pub mod merge;
pub mod objects;
pub mod ordered;
pub mod recomposer;
pub mod refs;
pub mod sierra;
pub mod sierra_db;
pub mod state;
pub mod types;
