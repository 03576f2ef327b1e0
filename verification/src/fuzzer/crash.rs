use vstd::prelude::*;

use crate::mutator::types::{duplicate_all, same_all, views, Type, TypeView};

verus! {

/// One call of a stateful call sequence: the function and its arguments.
#[derive(Clone, Debug, PartialEq, Eq, Hash)]
pub struct Call {
    pub function: String,
    pub inputs: Vec<Type>,
}

/// A failing call of a target function, with the calls that led to it in
/// stateful fuzzing.
#[derive(Clone, Debug, PartialEq, Eq, Hash)]
pub struct Crash {
    pub target_module: String,
    pub target_function: String,
    pub inputs: Vec<Type>,
    pub error: String,
    pub call_sequence: Option<Vec<Call>>,
}

pub struct CrashView {
    pub target_module: Seq<char>,
    pub target_function: Seq<char>,
    pub inputs: Seq<TypeView>,
    pub error: Seq<char>,
    pub call_sequence: Option<Seq<(Seq<char>, Seq<TypeView>)>>,
}

pub open spec fn call_views(calls: &Vec<Call>) -> Seq<(Seq<char>, Seq<TypeView>)> {
    Seq::new(calls.len() as nat, |i: int| (calls[i].function@, views(&calls[i].inputs)))
}

impl View for Crash {
    type V = CrashView;

    open spec fn view(&self) -> CrashView {
        CrashView {
            target_module: self.target_module@,
            target_function: self.target_function@,
            inputs: views(&self.inputs),
            error: self.error@,
            call_sequence: match &self.call_sequence {
                Some(calls) => Some(call_views(calls)),
                None => None,
            },
        }
    }
}

/// Pointwise equality of two call sequences.
fn same_calls(a: &Vec<Call>, b: &Vec<Call>) -> (r: bool)
    ensures
        r == (call_views(a) == call_views(b)),
{
    if a.len() != b.len() {
        assert(call_views(a).len() != call_views(b).len());
        return false;
    }
    let mut i: usize = 0;
    while i < a.len()
        invariant
            a.len() == b.len(),
            0 <= i <= a.len(),
            forall|j: int| 0 <= j < i ==> #[trigger] call_views(a)[j] == call_views(b)[j],
        decreases a.len() - i,
    {
        if a[i].function != b[i].function || !same_all(&a[i].inputs, &b[i].inputs) {
            assert(call_views(a)[i as int] != call_views(b)[i as int]);
            return false;
        }
        i = i + 1;
    }
    assert(call_views(a) =~= call_views(b));
    true
}

/// A copy of a call sequence.
fn duplicate_calls(a: &Vec<Call>) -> (r: Vec<Call>)
    ensures
        call_views(&r) == call_views(a),
{
    let mut r: Vec<Call> = Vec::new();
    let mut i: usize = 0;
    while i < a.len()
        invariant
            0 <= i <= a.len(),
            r.len() == i,
            forall|j: int|
                0 <= j < i ==> #[trigger] r@[j].function@ == a@[j].function@ && views(&r@[j].inputs)
                    == views(&a@[j].inputs),
        decreases a.len() - i,
    {
        let c = Call { function: a[i].function.clone(), inputs: duplicate_all(&a[i].inputs) };
        r.push(c);
        i = i + 1;
    }
    assert(call_views(&r) =~= call_views(a));
    r
}

impl Crash {
    /// A crash of `target_function` in `target_module` on `inputs` with
    /// `error`, with no call sequence.
    pub fn new(target_module: &String, target_function: &String, inputs: &Vec<Type>, error: &String) -> (r: Crash)
        ensures
            r@ == (CrashView {
                target_module: target_module@,
                target_function: target_function@,
                inputs: views(inputs),
                error: error@,
                call_sequence: None,
            }),
    {
        Crash {
            target_module: target_module.clone(),
            target_function: target_function.clone(),
            inputs: duplicate_all(inputs),
            error: error.clone(),
            call_sequence: None,
        }
    }

    /// The same crash, reached through `call_sequence`.
    pub fn with_call_sequence(self, call_sequence: Vec<Call>) -> (r: Crash)
        ensures
            r@ == (CrashView { call_sequence: Some(call_views(&call_sequence)), ..self@ }),
    {
        Crash { call_sequence: Some(call_sequence), ..self }
    }

    /// Equality of every field.
    pub fn same_as(&self, other: &Crash) -> (r: bool)
        ensures
            r == (self@ == other@),
    {
        if self.target_module != other.target_module || self.target_function != other.target_function
            || self.error != other.error || !same_all(&self.inputs, &other.inputs) {
            return false;
        }
        match (&self.call_sequence, &other.call_sequence) {
            (Some(a), Some(b)) => same_calls(a, b),
            (None, None) => true,
            _ => false,
        }
    }

    /// A copy of the crash.
    pub fn duplicate(&self) -> (r: Crash)
        ensures
            r@ == self@,
    {
        Crash {
            target_module: self.target_module.clone(),
            target_function: self.target_function.clone(),
            inputs: duplicate_all(&self.inputs),
            error: self.error.clone(),
            call_sequence: match &self.call_sequence {
                Some(calls) => Some(duplicate_calls(calls)),
                None => None,
            },
        }
    }
}

} // verus!
