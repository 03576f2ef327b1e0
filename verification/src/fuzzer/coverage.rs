use vstd::prelude::*;

use crate::mutator::types::{duplicate_all, same_all, views, Type, TypeView};

verus! {

/// One instruction reached during a run.
#[derive(Clone, Debug, PartialEq, Eq, Hash)]
pub struct CoverageData {
    pub pc: u16,
    pub instruction: String,
}

/// The inputs of a run together with the instructions it reached.
#[derive(Clone, Debug, PartialEq, Eq, Hash)]
pub struct Coverage {
    pub inputs: Vec<Type>,
    pub data: Vec<CoverageData>,
}

pub struct CoverageView {
    pub inputs: Seq<TypeView>,
    pub data: Seq<(u16, Seq<char>)>,
}

pub open spec fn data_views(d: &Vec<CoverageData>) -> Seq<(u16, Seq<char>)> {
    Seq::new(d.len() as nat, |i: int| (d[i].pc, d[i].instruction@))
}

impl View for Coverage {
    type V = CoverageView;

    open spec fn view(&self) -> CoverageView {
        CoverageView { inputs: views(&self.inputs), data: data_views(&self.data) }
    }
}

impl Coverage {
    /// Equality of the inputs and of the instructions reached.
    pub fn same_as(&self, other: &Coverage) -> (r: bool)
        ensures
            r == (self@ == other@),
    {
        if !same_all(&self.inputs, &other.inputs) {
            return false;
        }
        if self.data.len() != other.data.len() {
            assert(self@.data.len() != other@.data.len());
            return false;
        }
        let mut i: usize = 0;
        while i < self.data.len()
            invariant
                self.data.len() == other.data.len(),
                0 <= i <= self.data.len(),
                forall|j: int| 0 <= j < i ==> #[trigger] data_views(&self.data)[j] == data_views(&other.data)[j],
            decreases self.data.len() - i,
        {
            if self.data[i].pc != other.data[i].pc || self.data[i].instruction != other.data[i].instruction {
                assert(data_views(&self.data)[i as int] != data_views(&other.data)[i as int]);
                return false;
            }
            i = i + 1;
        }
        assert(data_views(&self.data) =~= data_views(&other.data));
        true
    }

    /// A copy of the coverage entry.
    pub fn duplicate(&self) -> (r: Coverage)
        ensures
            r@ == self@,
    {
        let inputs = duplicate_all(&self.inputs);
        let mut data: Vec<CoverageData> = Vec::new();
        let mut i: usize = 0;
        while i < self.data.len()
            invariant
                0 <= i <= self.data.len(),
                data.len() == i,
                forall|j: int|
                    0 <= j < i ==> #[trigger] data@[j].pc == self.data@[j].pc && data@[j].instruction@
                        == self.data@[j].instruction@,
            decreases self.data.len() - i,
        {
            let d = CoverageData { pc: self.data[i].pc, instruction: self.data[i].instruction.clone() };
            data.push(d);
            i = i + 1;
        }
        assert(data_views(&data) =~= data_views(&self.data));
        Coverage { inputs, data }
    }
}

} // verus!
