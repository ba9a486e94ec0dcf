//! The core of a Metamath database processor: formula trees, the segmented
//! source model, the analysis passes and the cache that orders them.

pub mod bit_set;
pub mod chart;
pub mod database;
pub mod derivation;
pub mod diag;
pub mod executor;
pub mod flatten;
pub mod formula;
pub mod formula_laws;
pub mod grammar;
pub mod listing;
pub mod name_index;
pub mod nameck;
pub mod names;
pub mod outline;
pub mod outline_laws;
pub mod parser;
pub mod pass_cache;
pub mod promise;
pub mod proofs;
pub mod rules;
pub mod scopeck;
pub mod scopes;
pub mod segment_order;
pub mod segment_set;
pub mod source;
pub mod syntax;
pub mod tree;
pub mod verify;
