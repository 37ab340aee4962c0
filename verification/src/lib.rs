//! Subdomain permutation engine.
//!
//! Generates candidate subdomain names by mutating a base domain with tokens
//! drawn from a wordlist: wordlist preprocessing (token extraction and numeric
//! mutation of digit runs), a join-separator heuristic, and a recursive
//! depth-bounded candidate generator. No I/O happens here: callers supply
//! wordlist lines and known domains as plain values and receive the generated
//! candidates back.
//!
//! The branching factor per recursion level is the token-set size times the
//! number of separators (at most two), so total work is worst-case exponential
//! in the configured depth; callers should keep the depth small.

pub mod domains;
pub mod engine;
pub mod joins;
pub mod numeric;
pub mod strutil;
pub mod tokenset;
pub mod wordlist;
