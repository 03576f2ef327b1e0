//! Verified core of a Move smart-contract fuzzer: the values it feeds to
//! target functions, how they are turned into bytes and back around a
//! byte-level mutation engine, the per-thread statistics, and the
//! bookkeeping of the campaign (coverage corpus, unique crashes, counters).
pub mod fuzzer;
pub mod mutator;
pub mod runner;
