use vstd::prelude::*;

verus! {

/// Mathematical model of a [`Type`]: the same tree, with sequences in
/// place of vectors and strings.
pub enum TypeView {
    Bool(bool),
    U8(u8),
    U16(u16),
    U32(u32),
    U64(u64),
    U128(u128),
    Address(Seq<u8>),
    Vector(Box<TypeView>, Seq<TypeView>),
    Struct(Seq<TypeView>),
    Reference(bool, Box<TypeView>),
    Function(Seq<char>, Seq<TypeView>),
}

/// A Move value as the fuzzer builds it: an argument of a target function,
/// or (`Function`) a target function itself with its parameter types.
#[derive(Debug, Hash)]
pub enum Type {
    Bool(bool),
    U8(u8),
    U16(u16),
    U32(u32),
    U64(u64),
    U128(u128),
    Address([u8; 32]),
    /// Element type, then the elements.
    Vector(Box<Type>, Vec<Type>),
    /// The fields, in declaration order.
    Struct(Vec<Type>),
    /// Whether the reference is mutable, then the referenced type.
    Reference(bool, Box<Type>),
    /// Function name, then its parameter types.
    Function(String, Vec<Type>),
}

impl Type {
    pub open spec fn model(&self) -> TypeView
        decreases self,
    {
        match self {
            Type::Bool(b) => TypeView::Bool(*b),
            Type::U8(v) => TypeView::U8(*v),
            Type::U16(v) => TypeView::U16(*v),
            Type::U32(v) => TypeView::U32(*v),
            Type::U64(v) => TypeView::U64(*v),
            Type::U128(v) => TypeView::U128(*v),
            Type::Address(a) => TypeView::Address(a@),
            Type::Vector(e, v) => TypeView::Vector(
                Box::new(e.model()),
                Seq::new(
                    v.len() as nat,
                    |i: int|
                        if 0 <= i < v.len() {
                            v[i].model()
                        } else {
                            TypeView::Bool(false)
                        },
                ),
            ),
            Type::Struct(v) => TypeView::Struct(
                Seq::new(
                    v.len() as nat,
                    |i: int|
                        if 0 <= i < v.len() {
                            v[i].model()
                        } else {
                            TypeView::Bool(false)
                        },
                ),
            ),
            Type::Reference(m, t) => TypeView::Reference(*m, Box::new(t.model())),
            Type::Function(name, params) => TypeView::Function(
                name@,
                Seq::new(
                    params.len() as nat,
                    |i: int|
                        if 0 <= i < params.len() {
                            params[i].model()
                        } else {
                            TypeView::Bool(false)
                        },
                ),
            ),
        }
    }
}

impl View for Type {
    type V = TypeView;

    open spec fn view(&self) -> TypeView {
        self.model()
    }
}

/// The models of the values of a vector, in order.
pub open spec fn views(v: &Vec<Type>) -> Seq<TypeView> {
    Seq::new(
        v.len() as nat,
        |i: int|
            if 0 <= i < v.len() {
                v[i].model()
            } else {
                TypeView::Bool(false)
            },
    )
}

pub broadcast proof fn lemma_views_index(v: &Vec<Type>, i: int)
    requires
        0 <= i < v.len(),
    ensures
        #[trigger] views(v)[i] == v[i]@,
        views(v).len() == v.len(),
{
}

impl Type {
    /// Structural equality of two values.
    #[verifier::loop_isolation(false)]
    pub fn same_as(&self, other: &Type) -> (r: bool)
        ensures
            r == (self@ == other@),
        decreases self,
    {
        match (self, other) {
            (Type::Bool(x), Type::Bool(y)) => *x == *y,
            (Type::U8(x), Type::U8(y)) => *x == *y,
            (Type::U16(x), Type::U16(y)) => *x == *y,
            (Type::U32(x), Type::U32(y)) => *x == *y,
            (Type::U64(x), Type::U64(y)) => *x == *y,
            (Type::U128(x), Type::U128(y)) => *x == *y,
            (Type::Address(x), Type::Address(y)) => {
                let mut i: usize = 0;
                while i < 32
                    invariant
                        0 <= i <= 32,
                        x@.len() == 32,
                        y@.len() == 32,
                        forall|j: int| 0 <= j < i ==> x@[j] == y@[j],
                    decreases 32 - i,
                {
                    if x[i] != y[i] {
                        assert(self@->Address_0[i as int] != other@->Address_0[i as int]);
                        return false;
                    }
                    i = i + 1;
                }
                assert(x@ =~= y@);
                true
            },
            (Type::Vector(e1, v1), Type::Vector(e2, v2)) => {
                proof {
                    assert(self@->Vector_1 == views(v1));
                    assert(other@->Vector_1 == views(v2));
                }
                if !e1.same_as(e2) {
                    return false;
                }
                same_all(v1, v2)
            },
            (Type::Struct(v1), Type::Struct(v2)) => {
                proof {
                    assert(self@->Struct_0 == views(v1));
                    assert(other@->Struct_0 == views(v2));
                }
                same_all(v1, v2)
            },
            (Type::Reference(m1, t1), Type::Reference(m2, t2)) => {
                if *m1 != *m2 {
                    return false;
                }
                t1.same_as(t2)
            },
            (Type::Function(n1, p1), Type::Function(n2, p2)) => {
                proof {
                    assert(self@->Function_1 == views(p1));
                    assert(other@->Function_1 == views(p2));
                }
                if *n1 != *n2 {
                    return false;
                }
                same_all(p1, p2)
            },
            _ => false,
        }
    }
}

impl Type {
    /// A copy of the value.
    pub fn duplicate(&self) -> (r: Type)
        ensures
            r@ == self@,
        decreases self,
    {
        match self {
            Type::Bool(b) => Type::Bool(*b),
            Type::U8(v) => Type::U8(*v),
            Type::U16(v) => Type::U16(*v),
            Type::U32(v) => Type::U32(*v),
            Type::U64(v) => Type::U64(*v),
            Type::U128(v) => Type::U128(*v),
            Type::Address(a) => Type::Address(*a),
            Type::Vector(e, v) => {
                let e2 = e.duplicate();
                let v2 = duplicate_all(v);
                let r = Type::Vector(Box::new(e2), v2);
                proof {
                    assert(self@->Vector_1 == views(v));
                    assert(r@->Vector_1 =~= views(v));
                }
                r
            },
            Type::Struct(v) => {
                let v2 = duplicate_all(v);
                let r = Type::Struct(v2);
                proof {
                    assert(self@->Struct_0 == views(v));
                    assert(r@->Struct_0 =~= views(v));
                }
                r
            },
            Type::Reference(m, t) => Type::Reference(*m, Box::new(t.duplicate())),
            Type::Function(n, p) => {
                let p2 = duplicate_all(p);
                let r = Type::Function(n.clone(), p2);
                proof {
                    assert(self@->Function_1 == views(p));
                    assert(r@->Function_1 =~= views(p));
                }
                r
            },
        }
    }
}

/// A copy of a vector of values.
pub fn duplicate_all(a: &Vec<Type>) -> (r: Vec<Type>)
    ensures
        views(&r) == views(a),
    decreases a,
{
    broadcast use lemma_views_index;

    let mut r: Vec<Type> = Vec::new();
    let mut i: usize = 0;
    while i < a.len()
        invariant
            0 <= i <= a.len(),
            r.len() == i,
            forall|j: int| 0 <= j < i ==> r[j]@ == a[j]@,
        decreases a.len() - i,
    {
        proof {
            broadcast use vstd::std_specs::vec::axiom_vec_index_decreases;

            assert(decreases_to!(*a => a[i as int]));
        }
        r.push(a[i].duplicate());
        i = i + 1;
    }
    assert(views(&r) =~= views(a));
    r
}

impl Clone for Type {
    fn clone(&self) -> (r: Type)
        ensures
            r@ == self@,
    {
        self.duplicate()
    }
}

impl PartialEq for Type {
    fn eq(&self, other: &Type) -> (r: bool) {
        self.same_as(other)
    }
}

impl vstd::std_specs::cmp::PartialEqSpecImpl for Type {
    open spec fn obeys_eq_spec() -> bool {
        true
    }

    open spec fn eq_spec(&self, other: &Type) -> bool {
        self@ == other@
    }
}

impl Eq for Type {

}

/// Pointwise structural equality of two vectors of values.
pub fn same_all(a: &Vec<Type>, b: &Vec<Type>) -> (r: bool)
    ensures
        r == (views(a) == views(b)),
    decreases a,
{
    broadcast use lemma_views_index;

    if a.len() != b.len() {
        assert(views(a).len() != views(b).len());
        return false;
    }
    let mut i: usize = 0;
    while i < a.len()
        invariant
            a.len() == b.len(),
            0 <= i <= a.len(),
            forall|j: int| 0 <= j < i ==> a[j]@ == b[j]@,
        decreases a.len() - i,
    {
        proof {
            broadcast use vstd::std_specs::vec::axiom_vec_index_decreases;

            assert(decreases_to!(*a => a[i as int]));
        }
        if !a[i].same_as(&b[i]) {
            assert(views(a)[i as int] != views(b)[i as int]);
            return false;
        }
        i = i + 1;
    }
    assert(views(a) =~= views(b));
    true
}

} // verus!
