pub mod noop_helper;

use vstd::prelude::*;

use crate::mutator::types::Type;

verus! {

/// Rewrites the inputs of an Aptos call before it is executed; `None`
/// when the call cannot be made with them.
pub trait AptosHelper {
    fn transform_inputs(&self, inputs: &[Type]) -> Option<Vec<Type>>;
}

} // verus!
