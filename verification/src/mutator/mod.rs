pub mod aptos_mutator;
pub mod mutator;
pub mod types;
