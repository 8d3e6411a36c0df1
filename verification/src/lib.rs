//! Differential-testing engine for competitive-programming solutions.
//!
//! Two programs — a trusted reference and a candidate under test — are built
//! once, fed batches of pseudorandom inputs, run under per-language deadlines,
//! and every input on which their normalized outputs diverge is reported.
//!
//! This crate holds the verified core: language tags and timing policy,
//! build-command planning, run-invocation planning, outcome selection, output
//! normalization, batch comparison, and the random-tree input helper. The
//! thin asynchronous shell that spawns real processes lives outside it.

pub mod compare;
pub mod compile;
pub mod inputgen;
pub mod lang;
pub mod rng;
pub mod run_code;
pub mod stringproc;
pub mod tree_gen;

pub use lang::RunLang;
pub use stringproc::process_str;
