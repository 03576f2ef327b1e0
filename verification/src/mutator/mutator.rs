use vstd::prelude::*;

use crate::mutator::types::{views, Type, TypeView};

verus! {

/// `out` is a value of the same kind as `t`: the same variant, and for a
/// struct as many fields, each of the same kind as the field of `t`.
pub open spec fn same_kind(t: TypeView, out: TypeView) -> bool
    decreases t,
{
    match t {
        TypeView::Bool(_) => out is Bool,
        TypeView::U8(_) => out is U8,
        TypeView::U16(_) => out is U16,
        TypeView::U32(_) => out is U32,
        TypeView::U64(_) => out is U64,
        TypeView::U128(_) => out is U128,
        TypeView::Address(_) => out is Address,
        TypeView::Vector(_, _) => out is Vector,
        TypeView::Struct(fields) => {
            &&& out is Struct
            &&& out->Struct_0.len() == fields.len()
            &&& forall|i: int|
                0 <= i < fields.len() ==> same_kind(#[trigger] fields[i], out->Struct_0[i])
        },
        TypeView::Reference(_, _) => out is Reference,
        TypeView::Function(_, _) => out is Function,
    }
}

/// A source of new inputs for the target functions.
pub trait Mutator: Send {
    /// Whether this mutator's results are described by
    /// [`Mutator::mutation_result`]; `false` unless it says otherwise.
    open spec fn obeys_mutation_spec() -> bool {
        false
    }

    /// What this mutator, in its present state, makes of `inputs` in
    /// `nb_mutation` rounds of mutation: its results are a function of
    /// its state and the arguments.
    open spec fn mutation_result(&self, inputs: Seq<TypeView>, nb_mutation: nat) -> Seq<TypeView> {
        inputs
    }

    /// New values derived from `inputs` by `nb_mutation` rounds of
    /// mutation: one per input, each of the kind of its input, so that the
    /// target function can be called with them.
    fn mutate(&mut self, inputs: &Vec<Type>, nb_mutation: usize) -> (r: Vec<Type>)
        ensures
            r.len() == inputs.len(),
            forall|i: int| 0 <= i < inputs.len() ==> same_kind(#[trigger] inputs[i]@, r[i]@),
            Self::obeys_mutation_spec() ==> views(&r) == old(self).mutation_result(
                views(inputs),
                nb_mutation as nat,
            ),
    ;

    /// A number in `min..=max` drawn from the mutator's seed.
    fn generate_number(&self, min: u64, max: u64) -> (r: u64)
        requires
            min <= max,
        ensures
            min <= r <= max,
    ;

    /// Like [`Mutator::mutate`], for a mutator that lets the gas a call
    /// used steer how much it mutates; by default the gas is ignored and
    /// the result is that of [`Mutator::mutate`] on the same inputs and
    /// number of rounds.
    fn mutate_with_gas(
        &mut self,
        inputs: &Vec<Type>,
        nb_mutation: usize,
        _target_gas: Option<u64>,
    ) -> (r: Vec<Type>)
        ensures
            r.len() == inputs.len(),
            forall|i: int| 0 <= i < inputs.len() ==> same_kind(#[trigger] inputs[i]@, r[i]@),
        default_ensures
            Self::obeys_mutation_spec() ==> views(&r) == old(self).mutation_result(
                views(inputs),
                nb_mutation as nat,
            ),
    {
        self.mutate(inputs, nb_mutation)
    }
}

/// The default gas-aware mutation ignores the gas: for a mutator whose
/// results are described by [`Mutator::mutation_result`], from equal
/// states and on equal inputs and numbers of rounds, whatever gas each call
/// is given, it returns what [`Mutator::mutate`] returns, so two such calls
/// agree.
pub proof fn lemma_default_gas_mutation_ignores_gas<M: Mutator>(
    m1: M,
    m2: M,
    inputs: Seq<TypeView>,
    nb_mutation: nat,
    r1: Seq<TypeView>,
    r2: Seq<TypeView>,
)
    requires
        M::obeys_mutation_spec(),
        m1 == m2,
        r1 == m1.mutation_result(inputs, nb_mutation),
        r2 == m2.mutation_result(inputs, nb_mutation),
    ensures
        r1 == r2,
{
}

} // verus!
