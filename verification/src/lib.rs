//! Canonical LR(1) parser-table construction.
//!
//! The crate models a context-free grammar, computes FIRST sets and a
//! nullability predicate by fixed-point iteration, closes LR(1) item sets,
//! and builds the canonical collection of automaton states together with a
//! shift/reduce/goto action table and a list of detected conflicts.

pub mod analyser;
pub mod closure;
pub mod counting;
pub mod first;
pub mod grammar;
pub mod item;
pub mod itemset;
pub mod rule;
pub mod runtime;
pub mod symbol;
pub mod table;
pub mod token;
