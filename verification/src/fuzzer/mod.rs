pub mod coverage;
pub mod crash;
pub mod fuzzer;
pub mod stats;
