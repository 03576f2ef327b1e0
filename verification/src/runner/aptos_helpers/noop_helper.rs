use vstd::prelude::*;

use crate::mutator::types::{views, Type, TypeView};
use crate::runner::aptos_helpers::AptosHelper;

verus! {

/// The models of the values of a slice, in order.
pub open spec fn slice_views(s: &[Type]) -> Seq<TypeView> {
    Seq::new(s@.len(), |i: int| s@[i]@)
}

/// The helper that leaves the inputs as they are.
pub struct NoopHelper;

impl NoopHelper {
    pub fn new() -> (r: Self) {
        NoopHelper
    }
}

impl AptosHelper for NoopHelper {
    /// Always a copy of the inputs.
    fn transform_inputs(&self, inputs: &[Type]) -> (r: Option<Vec<Type>>)
        ensures
            r matches Some(v) && views(&v) == slice_views(inputs),
    {
        let mut out: Vec<Type> = Vec::new();
        let mut i: usize = 0;
        while i < inputs.len()
            invariant
                0 <= i <= inputs@.len(),
                out.len() == i,
                forall|j: int| 0 <= j < i ==> #[trigger] out[j]@ == inputs@[j]@,
            decreases inputs@.len() - i,
        {
            out.push(inputs[i].duplicate());
            i = i + 1;
        }
        proof {
            broadcast use crate::mutator::types::lemma_views_index;

            assert(views(&out) =~= slice_views(inputs));
        }
        Some(out)
    }
}

} // verus!
