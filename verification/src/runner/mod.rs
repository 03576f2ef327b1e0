pub mod aptos_helpers;
pub mod chain;
