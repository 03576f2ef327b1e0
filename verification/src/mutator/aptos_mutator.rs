//! How the Aptos mutator turns a value into bytes for the byte-level
//! mutation engine, which runs of the engine mutating a list of values
//! takes, and how values of the same types are read back from whatever
//! bytes the engine returns.
use vstd::prelude::*;

use crate::mutator::mutator::same_kind;
use crate::mutator::types::{views, Type, TypeView};

verus! {

/// `256` to the power `n`.
pub open spec fn pow256(n: nat) -> nat
    decreases n,
{
    if n == 0 {
        1
    } else {
        256 * pow256((n - 1) as nat)
    }
}

/// The `n` low-order bytes of `v`, most significant first.
pub open spec fn be_bytes(v: nat, n: nat) -> Seq<u8>
    decreases n,
{
    if n == 0 {
        Seq::empty()
    } else {
        be_bytes(v / 256, (n - 1) as nat).push((v % 256) as u8)
    }
}

/// The number whose big-endian bytes are `s`.
pub open spec fn be_value(s: Seq<u8>) -> nat
    decreases s.len(),
{
    if s.len() == 0 {
        0
    } else {
        be_value(s.drop_last()) * 256 + s.last() as nat
    }
}

/// `s` cut down, or padded at its end with zeros, to exactly `n` bytes.
pub open spec fn resized(s: Seq<u8>, n: nat) -> Seq<u8> {
    if s.len() >= n {
        s.take(n as int)
    } else {
        s + Seq::new((n - s.len()) as nat, |i: int| 0u8)
    }
}

pub proof fn lemma_pow256_positive(n: nat)
    ensures
        pow256(n) > 0,
    decreases n,
{
    if n > 0 {
        lemma_pow256_positive((n - 1) as nat);
    }
}

pub proof fn lemma_pow256_monotone(a: nat, b: nat)
    requires
        a <= b,
    ensures
        pow256(a) <= pow256(b),
    decreases b,
{
    if a < b {
        lemma_pow256_monotone(a, (b - 1) as nat);
        lemma_pow256_positive((b - 1) as nat);
    }
}

pub proof fn lemma_be_value_bound(s: Seq<u8>)
    ensures
        be_value(s) < pow256(s.len()),
    decreases s.len(),
{
    if s.len() > 0 {
        let p = pow256((s.len() - 1) as nat);
        let w = be_value(s.drop_last());
        lemma_be_value_bound(s.drop_last());
        let b = s.last();
        assert(w * 256 + b < 256 * p) by (nonlinear_arith)
            requires
                w < p,
                b < 256,
        ;
    }
}

pub proof fn lemma_be_bytes_len(v: nat, n: nat)
    ensures
        be_bytes(v, n).len() == n,
    decreases n,
{
    if n > 0 {
        lemma_be_bytes_len(v / 256, (n - 1) as nat);
    }
}

/// Reading back the bytes of `v` gives `v`, reduced to the bytes written.
pub proof fn lemma_be_value_of_bytes(v: nat, n: nat)
    ensures
        be_value(be_bytes(v, n)) == v % pow256(n),
    decreases n,
{
    lemma_be_bytes_len(v, n);
    if n == 0 {
    } else {
        let m = (n - 1) as nat;
        lemma_be_value_of_bytes(v / 256, m);
        lemma_pow256_positive(m);
        assert(be_bytes(v, n).drop_last() =~= be_bytes(v / 256, m));
        vstd::arithmetic::div_mod::lemma_mod_breakdown(v as int, 256, pow256(m) as int);
        assert(256 * ((v / 256) % pow256(m)) == ((v / 256) % pow256(m)) * 256) by (nonlinear_arith);
    }
}

pub proof fn lemma_resized(s: Seq<u8>, n: nat)
    ensures
        resized(s, n).len() == n,
        forall|i: int| 0 <= i < n ==> #[trigger] resized(s, n)[i] == if i < s.len() { s[i] } else { 0u8 },
        s.len() == n ==> resized(s, n) == s,
{
    if s.len() == n {
        assert(s.take(n as int) =~= s);
    }
}

/// `n` bytes of `v`, most significant first (`to_be_bytes` of the
/// `n`-byte integer that holds `v`).
pub fn be_encode(v: u128, n: usize) -> (r: Vec<u8>)
    ensures
        r@ == be_bytes(v as nat, n as nat),
{
    let mut out: Vec<u8> = Vec::new();
    let mut x: u128 = v;
    let mut k: usize = n;
    while k > 0
        invariant
            k <= n,
            be_bytes(v as nat, n as nat) == be_bytes(x as nat, k as nat) + out@,
        decreases k,
    {
        let ghost old_out = out@;
        let ghost old_x = x;
        let b: u8 = (x % 256) as u8;
        out.insert(0, b);
        x = x / 256;
        k = k - 1;
        proof {
            assert(be_bytes(old_x as nat, (k + 1) as nat) == be_bytes(x as nat, k as nat).push(b));
            assert(be_bytes(x as nat, k as nat).push(b) + old_out =~= be_bytes(x as nat, k as nat)
                + out@);
        }
    }
    assert(out@ =~= Seq::empty() + out@);
    out
}

/// The number whose big-endian bytes are `bytes` resized to `n` bytes
/// (`from_be_bytes` after `resize(n, 0)`).
pub fn be_decode(bytes: &Vec<u8>, n: usize) -> (r: u128)
    requires
        n <= 16,
    ensures
        r == be_value(resized(bytes@, n as nat)),
{
    let ghost s = resized(bytes@, n as nat);
    proof {
        lemma_resized(bytes@, n as nat);
        lemma_pow256_widths();
        assert(s.take(0) =~= Seq::empty());
    }
    let mut acc: u128 = 0;
    let mut i: usize = 0;
    while i < n
        invariant
            i <= n <= 16,
            s == resized(bytes@, n as nat),
            s.len() == n,
            forall|j: int| 0 <= j < n ==> #[trigger] s[j] == if j < bytes@.len() { bytes@[j] } else { 0u8 },
            acc == be_value(s.take(i as int)),
            acc < pow256(i as nat),
            pow256(16) == 0x1_0000_0000_0000_0000_0000_0000_0000_0000,
        decreases n - i,
    {
        let b: u8 = if i < bytes.len() {
            bytes[i]
        } else {
            0
        };
        proof {
            assert(b == s[i as int]);
            assert(s.take(i + 1).drop_last() =~= s.take(i as int));
            let p = pow256(i as nat);
            lemma_pow256_monotone((i + 1) as nat, 16);
            assert(acc * 256 + b < 256 * p) by (nonlinear_arith)
                requires
                    acc < p,
                    b < 256,
            ;
        }
        acc = acc * 256 + b as u128;
        i = i + 1;
    }
    assert(s.take(n as int) =~= s);
    acc
}

/// A value of this form can be handed to the mutation engine: not a
/// function, vectors only of bytes, and structs only of such values.
pub open spec fn mutable_input(t: TypeView) -> bool
    decreases t,
{
    match t {
        TypeView::Vector(_, elems) => forall|i: int| 0 <= i < elems.len() ==> #[trigger] elems[i] is U8,
        TypeView::Struct(fields) => forall|i: int|
            0 <= i < fields.len() ==> mutable_input(#[trigger] fields[i]),
        TypeView::Function(..) => false,
        _ => true,
    }
}

/// Whether `t` can be handed to the mutation engine.
#[verifier::loop_isolation(false)]
pub fn is_mutable_input(t: &Type) -> (r: bool)
    ensures
        r == mutable_input(t@),
    decreases t,
{
    broadcast use crate::mutator::types::lemma_views_index;

    match t {
        Type::Vector(_, elems) => {
            proof {
                assert(t@->Vector_1 == views(elems));
            }
            let mut i: usize = 0;
            while i < elems.len()
                invariant
                    0 <= i <= elems.len(),
                    t@->Vector_1 == views(elems),
                    forall|j: int| 0 <= j < i ==> #[trigger] views(elems)[j] is U8,
                decreases elems.len() - i,
            {
                match &elems[i] {
                    Type::U8(_) => {},
                    _ => {
                        assert(!(views(elems)[i as int] is U8));
                        return false;
                    },
                }
                i = i + 1;
            }
            true
        },
        Type::Struct(fields) => {
            proof {
                assert(t@->Struct_0 == views(fields));
            }
            let mut i: usize = 0;
            while i < fields.len()
                invariant
                    0 <= i <= fields.len(),
                    t@->Struct_0 == views(fields),
                    forall|j: int| 0 <= j < i ==> mutable_input(#[trigger] views(fields)[j]),
                decreases fields.len() - i,
            {
                proof {
                    broadcast use vstd::std_specs::vec::axiom_vec_index_decreases;

                    assert(decreases_to!(*t => *fields));
                    assert(decreases_to!(*fields => fields[i as int]));
                }
                if !is_mutable_input(&fields[i]) {
                    assert(!mutable_input(views(fields)[i as int]));
                    return false;
                }
                i = i + 1;
            }
            true
        },
        Type::Function(_, _) => false,
        _ => true,
    }
}

/// A value that is read back from one run of the engine: not a struct
/// (whose fields are mutated one by one) and not a function.
pub open spec fn is_leaf(t: TypeView) -> bool {
    !(t is Struct) && !(t is Function)
}

/// The bytes handed to the engine for an input: big-endian for the
/// integers, one byte `1` or `0` for a boolean, the 32 bytes of an
/// address, the bytes of a vector, and nothing for structs and references.
pub open spec fn seed_bytes(t: TypeView) -> Seq<u8> {
    match t {
        TypeView::Bool(b) => seq![if b { 1u8 } else { 0u8 }],
        TypeView::U8(v) => be_bytes(v as nat, 1),
        TypeView::U16(v) => be_bytes(v as nat, 2),
        TypeView::U32(v) => be_bytes(v as nat, 4),
        TypeView::U64(v) => be_bytes(v as nat, 8),
        TypeView::U128(v) => be_bytes(v as nat, 16),
        TypeView::Address(a) => a,
        TypeView::Vector(_, elems) => Seq::new(elems.len(), |i: int| elems[i]->U8_0),
        _ => Seq::empty(),
    }
}

/// The value of the template's type that the engine's output `bytes`
/// stands for: integers read big-endian from the bytes resized to their
/// width (a `u64` then taken modulo 1000), a boolean from the first byte
/// (`None` when there is none), an address from the bytes resized to 32,
/// a vector of bytes from all of them, and a reference unchanged.
pub open spec fn decode_bytes(template: TypeView, bytes: Seq<u8>) -> Option<TypeView> {
    match template {
        TypeView::Bool(_) => if bytes.len() == 0 {
            None
        } else {
            Some(TypeView::Bool(bytes[0] != 0))
        },
        TypeView::U8(_) => Some(TypeView::U8(be_value(resized(bytes, 1)) as u8)),
        TypeView::U16(_) => Some(TypeView::U16(be_value(resized(bytes, 2)) as u16)),
        TypeView::U32(_) => Some(TypeView::U32(be_value(resized(bytes, 4)) as u32)),
        TypeView::U64(_) => Some(TypeView::U64((be_value(resized(bytes, 8)) % 1000) as u64)),
        TypeView::U128(_) => Some(TypeView::U128(be_value(resized(bytes, 16)) as u128)),
        TypeView::Address(_) => Some(TypeView::Address(resized(bytes, 32))),
        TypeView::Vector(_, _) => Some(
            TypeView::Vector(
                Box::new(TypeView::U8(0)),
                Seq::new(bytes.len(), |i: int| TypeView::U8(bytes[i])),
            ),
        ),
        TypeView::Reference(_, _) => Some(template),
        _ => None,
    }
}

pub open spec fn option_view(o: Option<Type>) -> Option<TypeView> {
    match o {
        Some(t) => Some(t@),
        None => None,
    }
}

/// The bytes handed to the mutation engine for `input`.
pub fn input_bytes(input: &Type) -> (r: Vec<u8>)
    requires
        mutable_input(input@),
    ensures
        r@ == seed_bytes(input@),
{
    match input {
        Type::Bool(b) => {
            if *b {
                vec![1u8]
            } else {
                vec![0u8]
            }
        },
        Type::U8(v) => be_encode(*v as u128, 1),
        Type::U16(v) => be_encode(*v as u128, 2),
        Type::U32(v) => be_encode(*v as u128, 4),
        Type::U64(v) => be_encode(*v as u128, 8),
        Type::U128(v) => be_encode(*v, 16),
        Type::Address(a) => {
            let mut out: Vec<u8> = Vec::new();
            let mut i: usize = 0;
            while i < 32
                invariant
                    0 <= i <= 32,
                    a@.len() == 32,
                    out@ =~= a@.take(i as int),
                decreases 32 - i,
            {
                out.push(a[i]);
                i = i + 1;
            }
            assert(a@.take(32) =~= a@);
            out
        },
        Type::Vector(_, elems) => {
            let ghost ev = views(elems);
            proof {
                assert(input@->Vector_1 == ev);
            }
            let mut out: Vec<u8> = Vec::new();
            let mut i: usize = 0;
            while i < elems.len()
                invariant
                    0 <= i <= elems.len(),
                    ev == views(elems),
                    forall|j: int| 0 <= j < elems.len() ==> #[trigger] ev[j] is U8,
                    out@.len() == i,
                    forall|j: int| 0 <= j < i ==> #[trigger] out@[j] == ev[j]->U8_0,
                decreases elems.len() - i,
            {
                assert(ev[i as int] == elems[i as int]@);
                match &elems[i] {
                    Type::U8(x) => {
                        out.push(*x);
                    },
                    _ => {
                        assert(false);
                    },
                }
                i = i + 1;
            }
            assert(out@ =~= seed_bytes(input@));
            out
        },
        _ => Vec::new(),
    }
}

/// The value read back from the engine's output `bytes` for an input of
/// the template's type; `None` for a boolean when `bytes` is empty.
pub fn from_mutated_bytes(template: &Type, bytes: &Vec<u8>) -> (r: Option<Type>)
    requires
        is_leaf(template@),
    ensures
        option_view(r) == decode_bytes(template@, bytes@),
{
    match template {
        Type::Bool(_) => {
            if bytes.len() == 0 {
                None
            } else {
                Some(Type::Bool(bytes[0] != 0))
            }
        },
        Type::U8(_) => {
            let v = be_decode(bytes, 1);
            proof {
                lemma_resized(bytes@, 1);
                lemma_be_value_bound(resized(bytes@, 1));
                reveal_with_fuel(pow256, 2);
            }
            Some(Type::U8(v as u8))
        },
        Type::U16(_) => {
            let v = be_decode(bytes, 2);
            proof {
                lemma_resized(bytes@, 2);
                lemma_be_value_bound(resized(bytes@, 2));
                reveal_with_fuel(pow256, 3);
            }
            Some(Type::U16(v as u16))
        },
        Type::U32(_) => {
            let v = be_decode(bytes, 4);
            proof {
                lemma_resized(bytes@, 4);
                lemma_be_value_bound(resized(bytes@, 4));
                reveal_with_fuel(pow256, 5);
            }
            Some(Type::U32(v as u32))
        },
        Type::U64(_) => {
            let v = be_decode(bytes, 8);
            Some(Type::U64((v % 1000) as u64))
        },
        Type::U128(_) => {
            let v = be_decode(bytes, 16);
            Some(Type::U128(v))
        },
        Type::Address(_) => {
            let mut a: [u8; 32] = [0u8; 32];
            let mut i: usize = 0;
            proof {
                lemma_resized(bytes@, 32);
            }
            while i < 32
                invariant
                    0 <= i <= 32,
                    a@.len() == 32,
                    forall|j: int| 0 <= j < i ==> #[trigger] a@[j] == resized(bytes@, 32)[j],
                    resized(bytes@, 32).len() == 32,
                    forall|j: int|
                        0 <= j < 32 ==> #[trigger] resized(bytes@, 32)[j] == if j < bytes@.len() {
                            bytes@[j]
                        } else {
                            0u8
                        },
                decreases 32 - i,
            {
                if i < bytes.len() {
                    a[i] = bytes[i];
                } else {
                    a[i] = 0;
                }
                i = i + 1;
            }
            assert(a@ =~= resized(bytes@, 32));
            Some(Type::Address(a))
        },
        Type::Vector(_, _) => {
            let mut out: Vec<Type> = Vec::new();
            let mut i: usize = 0;
            while i < bytes.len()
                invariant
                    0 <= i <= bytes.len(),
                    out.len() == i,
                    forall|j: int| 0 <= j < i ==> #[trigger] out[j]@ == TypeView::U8(bytes@[j]),
                decreases bytes.len() - i,
            {
                out.push(Type::U8(bytes[i]));
                i = i + 1;
            }
            let r = Type::Vector(Box::new(Type::U8(0)), out);
            proof {
                broadcast use crate::mutator::types::lemma_views_index;

                assert(r@->Vector_1 == views(&out));
                assert(Type::U8(0)@ == TypeView::U8(0));
                assert(views(&out) =~= Seq::new(bytes@.len(), |i: int| TypeView::U8(bytes@[i])));
            }
            Some(r)
        },
        Type::Reference(_, _) => Some(template.duplicate()),
        _ => None,
    }
}

/// The number of values of each integer width the mutator reads back.
pub proof fn lemma_pow256_widths()
    ensures
        pow256(1) == 0x100,
        pow256(2) == 0x1_0000,
        pow256(4) == 0x1_0000_0000,
        pow256(8) == 0x1_0000_0000_0000_0000,
        pow256(16) == 0x1_0000_0000_0000_0000_0000_0000_0000_0000,
{
    reveal_with_fuel(pow256, 17);
}

/// A number that fits in `n` bytes reads back from its `n` big-endian
/// bytes, resized to `n`, as itself.
pub proof fn lemma_width_round_trip(v: nat, n: nat)
    requires
        v < pow256(n),
    ensures
        be_value(resized(be_bytes(v, n), n)) == v,
{
    lemma_be_bytes_len(v, n);
    lemma_resized(be_bytes(v, n), n);
    lemma_be_value_of_bytes(v, n);
    vstd::arithmetic::div_mod::lemma_small_mod(v, pow256(n));
}

/// What the engine's output reads back as in an integer of `n` bytes fits
/// in `n` bytes.
pub proof fn lemma_read_back_fits(bytes: Seq<u8>, n: nat)
    ensures
        be_value(resized(bytes, n)) < pow256(n),
{
    lemma_resized(bytes, n);
    lemma_be_value_bound(resized(bytes, n));
}

/// Reading back the bytes handed to the engine, unmutated, gives the input
/// again, but for a `u64`, which comes back modulo 1000, and a vector,
/// whose element type comes back as `u8`.
pub proof fn lemma_seed_bytes_read_back(t: Type)
    requires
        mutable_input(t@),
        is_leaf(t@),
    ensures
        decode_bytes(t@, seed_bytes(t@)) == Some(
            match t@ {
                TypeView::U64(v) => TypeView::U64(v % 1000),
                TypeView::Vector(_, elems) => TypeView::Vector(Box::new(TypeView::U8(0)), elems),
                _ => t@,
            },
        ),
{
    lemma_pow256_widths();
    match t@ {
        TypeView::U8(v) => lemma_width_round_trip(v as nat, 1),
        TypeView::U16(v) => lemma_width_round_trip(v as nat, 2),
        TypeView::U32(v) => lemma_width_round_trip(v as nat, 4),
        TypeView::U64(v) => lemma_width_round_trip(v as nat, 8),
        TypeView::U128(v) => lemma_width_round_trip(v as nat, 16),
        TypeView::Address(a) => lemma_resized(a, 32),
        TypeView::Vector(e, elems) => {
            let s = seed_bytes(t@);
            assert(Seq::new(s.len(), |i: int| TypeView::U8(s[i])) =~= elems);
        },
        _ => {},
    }
}

/// The bytes of a value read back from the engine read back as that same
/// value: a mutated value keeps its type and its width.
pub proof fn lemma_decoded_value_is_stable(template: Type, bytes: Seq<u8>, out: TypeView)
    requires
        is_leaf(template@),
        decode_bytes(template@, bytes) == Some(out),
    ensures
        decode_bytes(template@, seed_bytes(out)) == Some(out),
{
    lemma_pow256_widths();
    match template@ {
        TypeView::U8(_) => {
            lemma_read_back_fits(bytes, 1);
            lemma_width_round_trip(be_value(resized(bytes, 1)), 1);
        },
        TypeView::U16(_) => {
            lemma_read_back_fits(bytes, 2);
            lemma_width_round_trip(be_value(resized(bytes, 2)), 2);
        },
        TypeView::U32(_) => {
            lemma_read_back_fits(bytes, 4);
            lemma_width_round_trip(be_value(resized(bytes, 4)), 4);
        },
        TypeView::U64(_) => lemma_width_round_trip(be_value(resized(bytes, 8)) % 1000, 8),
        TypeView::U128(_) => {
            lemma_read_back_fits(bytes, 16);
            lemma_width_round_trip(be_value(resized(bytes, 16)), 16);
        },
        TypeView::Address(_) => {
            lemma_resized(bytes, 32);
            lemma_resized(resized(bytes, 32), 32);
        },
        TypeView::Vector(_, _) => {
            let s = seed_bytes(out);
            assert(s =~= bytes);
        },
        _ => {},
    }
}

/// Big-endian reading: no bytes read as 0, and one more byte at the end
/// shifts what was read by one byte and adds that byte.
pub proof fn lemma_be_value_appends(s: Seq<u8>, b: u8)
    ensures
        be_value(Seq::<u8>::empty()) == 0,
        be_value(s.push(b)) == be_value(s) * 256 + b,
{
    assert(s.push(b).drop_last() =~= s);
}

/// Writing back what was read gives the bytes that were read: the
/// big-endian bytes of `be_value(s)`, as many as `s` has, are `s`.
pub proof fn lemma_be_bytes_of_value(s: Seq<u8>)
    ensures
        be_bytes(be_value(s), s.len()) == s,
    decreases s.len(),
{
    if s.len() > 0 {
        let t = s.drop_last();
        lemma_be_bytes_of_value(t);
        vstd::arithmetic::div_mod::lemma_fundamental_div_mod_converse(
            be_value(s) as int,
            256,
            be_value(t) as int,
            s.last() as int,
        );
        assert(be_bytes(be_value(s), s.len()) =~= s);
    }
}

/// Every integer of 1, 2, 4 or 16 bytes that is read back from the
/// engine's output is the number whose big-endian bytes are the first
/// bytes of the output, as many as the integer has, missing ones read as
/// zeros; a `u64` is that number of 8 bytes taken modulo 1000.
pub proof fn lemma_integer_read_back_keeps_bytes(template: TypeView, bytes: Seq<u8>)
    requires
        template is U8 || template is U16 || template is U32 || template is U64 || template is U128,
    ensures
        decode_bytes(template, bytes) is Some,
        template is U8 ==> seed_bytes(decode_bytes(template, bytes)->Some_0) == resized(bytes, 1),
        template is U16 ==> seed_bytes(decode_bytes(template, bytes)->Some_0) == resized(bytes, 2),
        template is U32 ==> seed_bytes(decode_bytes(template, bytes)->Some_0) == resized(bytes, 4),
        template is U128 ==> seed_bytes(decode_bytes(template, bytes)->Some_0) == resized(bytes, 16),
        template is U64 ==> decode_bytes(template, bytes)->Some_0 is U64 && (decode_bytes(
            template,
            bytes,
        )->Some_0->U64_0 as int) == (be_value(resized(bytes, 8)) as int) % 1000,
        template is U64 ==> seed_bytes(decode_bytes(template, bytes)->Some_0) == be_bytes(
            be_value(resized(bytes, 8)) % 1000,
            8,
        ),
{
    lemma_pow256_widths();
    let n: nat = if template is U8 {
        1
    } else if template is U16 {
        2
    } else if template is U32 {
        4
    } else if template is U64 {
        8
    } else {
        16
    };
    lemma_read_back_fits(bytes, n);
    lemma_resized(bytes, n);
    lemma_be_bytes_of_value(resized(bytes, n));
}

/// A vector is read back as a vector of bytes with exactly one element
/// per byte of the engine's output, in order, whatever the elements of the
/// input were: the engine may grow or shrink it.
pub proof fn lemma_vector_reads_back_every_byte(
    elem: Box<TypeView>,
    elems: Seq<TypeView>,
    other_elem: Box<TypeView>,
    other_elems: Seq<TypeView>,
    bytes: Seq<u8>,
)
    ensures
        decode_bytes(TypeView::Vector(elem, elems), bytes) is Some,
        decode_bytes(TypeView::Vector(elem, elems), bytes)->Some_0 is Vector,
        *decode_bytes(TypeView::Vector(elem, elems), bytes)->Some_0->Vector_0 == TypeView::U8(0),
        decode_bytes(TypeView::Vector(elem, elems), bytes)->Some_0->Vector_1.len() == bytes.len(),
        forall|i: int|
            0 <= i < bytes.len() ==> #[trigger] decode_bytes(
                TypeView::Vector(elem, elems),
                bytes,
            )->Some_0->Vector_1[i] == TypeView::U8(bytes[i]),
        decode_bytes(TypeView::Vector(other_elem, other_elems), bytes) == decode_bytes(
            TypeView::Vector(elem, elems),
            bytes,
        ),
{
}

/// A boolean is read back from the first byte of the engine's output,
/// `true` exactly when that byte is not 0, whatever the input was; there is
/// nothing to read back when the output is empty.
pub proof fn lemma_bool_reads_first_byte(b: bool, other: bool, bytes: Seq<u8>)
    ensures
        decode_bytes(TypeView::Bool(b), bytes) is None <==> bytes.len() == 0,
        bytes.len() > 0 ==> decode_bytes(TypeView::Bool(b), bytes) == Some(
            TypeView::Bool(bytes[0] != 0),
        ),
        decode_bytes(TypeView::Bool(other), bytes) == decode_bytes(TypeView::Bool(b), bytes),
{
}

/// Which inputs can be handed to the engine: every boolean, integer,
/// address and reference; a vector exactly when all its elements are
/// bytes; a struct exactly when all its fields can; never a function.
pub proof fn lemma_mutable_input_kinds(t: TypeView)
    ensures
        (t is Bool || t is U8 || t is U16 || t is U32 || t is U64 || t is U128 || t is Address
            || t is Reference) ==> mutable_input(t),
        t is Function ==> !mutable_input(t),
        t is Vector ==> (mutable_input(t) <==> forall|i: int|
            0 <= i < t->Vector_1.len() ==> #[trigger] t->Vector_1[i] is U8),
        t is Struct ==> (mutable_input(t) <==> forall|i: int|
            0 <= i < t->Struct_0.len() ==> mutable_input(#[trigger] t->Struct_0[i])),
{
}

/// `t` is a boolean, or a struct that holds one at some depth.
pub open spec fn has_bool(t: TypeView) -> bool
    decreases t,
{
    match t {
        TypeView::Bool(_) => true,
        TypeView::Struct(fields) => exists|i: int| 0 <= i < fields.len() && has_bool(#[trigger] fields[i]),
        _ => false,
    }
}

/// `out` is what the mutator can make of `template`: a struct of
/// mutations of its fields, or the value that some output of the engine
/// reads back as.
pub open spec fn is_mutation_of(template: TypeView, out: TypeView) -> bool
    decreases template,
{
    match template {
        TypeView::Struct(fields) => {
            &&& out is Struct
            &&& out->Struct_0.len() == fields.len()
            &&& forall|i: int|
                0 <= i < fields.len() ==> is_mutation_of(#[trigger] fields[i], out->Struct_0[i])
        },
        _ => exists|bytes: Seq<u8>| decode_bytes(template, bytes) == Some(out),
    }
}

/// The number of mutation rounds: the gas-biased count, at least one and
/// at most three times `nb_mutation`.
pub open spec fn spec_mutation_budget(nb_mutation: nat, biased_mutations: nat) -> nat {
    let at_least_one: nat = if biased_mutations < 1 { 1 } else { biased_mutations };
    if at_least_one < 3 * nb_mutation { at_least_one } else { 3 * nb_mutation }
}

pub fn mutation_budget(nb_mutation: usize, biased_mutations: usize) -> (r: usize)
    requires
        nb_mutation <= usize::MAX / 3,
    ensures
        r == spec_mutation_budget(nb_mutation as nat, biased_mutations as nat),
{
    let at_least_one = if biased_mutations < 1 { 1 } else { biased_mutations };
    let cap = nb_mutation * 3;
    if at_least_one < cap { at_least_one } else { cap }
}

/// Without a gas bias the number of rounds is `nb_mutation` itself.
pub proof fn lemma_unbiased_budget(nb_mutation: nat)
    ensures
        spec_mutation_budget(nb_mutation, nb_mutation) == nb_mutation,
{
}

/// The number of rounds is the gas-biased count kept between one and
/// three times `nb_mutation`: it never exceeds `3 * nb_mutation`, is at
/// least one whenever `nb_mutation` is, is the biased count itself when
/// that lies in `1..=3 * nb_mutation`, and is the cap when the biased
/// count is above it.
pub proof fn lemma_mutation_budget_range(nb_mutation: nat, biased_mutations: nat)
    ensures
        spec_mutation_budget(nb_mutation, biased_mutations) <= 3 * nb_mutation,
        nb_mutation >= 1 ==> spec_mutation_budget(nb_mutation, biased_mutations) >= 1,
        1 <= biased_mutations <= 3 * nb_mutation ==> spec_mutation_budget(nb_mutation, biased_mutations)
            == biased_mutations,
        biased_mutations > 3 * nb_mutation ==> spec_mutation_budget(nb_mutation, biased_mutations) == 3
            * nb_mutation,
        biased_mutations == 0 && nb_mutation >= 1 ==> spec_mutation_budget(nb_mutation, biased_mutations)
            == 1,
{
}

/// How many times the engine runs for `t`: once, plus the runs of its
/// fields for a struct.
pub open spec fn request_count(t: TypeView) -> nat
    decreases t, 1nat,
{
    1 + match t {
        TypeView::Struct(fields) => request_count_all(fields),
        _ => 0,
    }
}

pub open spec fn request_count_all(ts: Seq<TypeView>) -> nat
    decreases ts, 0nat,
{
    if ts.len() == 0 {
        0
    } else {
        request_count_all(ts.drop_last()) + request_count(ts.last())
    }
}

/// The runs of the engine that mutating `t` takes, in order: the bytes
/// handed to the engine and the number of rounds. A struct runs once on
/// its (empty) bytes, then its fields run with `nb_mutation` rounds.
pub open spec fn requests_of(t: TypeView, rounds: nat, nb_mutation: nat) -> Seq<(Seq<u8>, nat)>
    decreases t, 1nat,
{
    seq![(seed_bytes(t), rounds)] + match t {
        TypeView::Struct(fields) => requests_all(fields, nb_mutation, nb_mutation),
        _ => Seq::empty(),
    }
}

/// The runs of the engine for each value in turn.
pub open spec fn requests_all(ts: Seq<TypeView>, rounds: nat, nb_mutation: nat) -> Seq<(Seq<u8>, nat)>
    decreases ts, 0nat,
{
    if ts.len() == 0 {
        Seq::empty()
    } else {
        requests_all(ts.drop_last(), rounds, nb_mutation) + requests_of(ts.last(), rounds, nb_mutation)
    }
}

/// The value that mutating `t` gives when the engine's runs for it
/// returned `outs`: a struct of the values of its fields (the output of
/// the struct's own run is not read), or the value read back from the
/// output of its run.
pub open spec fn assemble_one(t: TypeView, outs: Seq<Seq<u8>>) -> Option<TypeView>
    decreases t, 1nat,
{
    match t {
        TypeView::Struct(fields) => match assemble_all(fields, outs.skip(1)) {
            Some(vs) => Some(TypeView::Struct(vs)),
            None => None,
        },
        _ => decode_bytes(t, outs[0]),
    }
}

/// The values that mutating `ts` gives when the engine's runs returned
/// `outs`; `None` when one of them cannot be read back.
pub open spec fn assemble_all(ts: Seq<TypeView>, outs: Seq<Seq<u8>>) -> Option<Seq<TypeView>>
    decreases ts, 0nat,
{
    if ts.len() == 0 {
        Some(Seq::empty())
    } else {
        let n = request_count_all(ts.drop_last());
        match assemble_all(ts.drop_last(), outs.take(n as int)) {
            Some(vs) => match assemble_one(ts.last(), outs.skip(n as int)) {
                Some(v) => Some(vs.push(v)),
                None => None,
            },
            None => None,
        }
    }
}

pub open spec fn request_views(v: &Vec<(Vec<u8>, usize)>) -> Seq<(Seq<u8>, nat)> {
    Seq::new(v.len() as nat, |i: int| (v[i].0@, v[i].1 as nat))
}

pub open spec fn output_views(v: &Vec<Vec<u8>>) -> Seq<Seq<u8>> {
    Seq::new(v.len() as nat, |i: int| v[i]@)
}

pub open spec fn option_views(o: Option<Vec<Type>>) -> Option<Seq<TypeView>> {
    match o {
        Some(v) => Some(views(&v)),
        None => None,
    }
}

pub proof fn lemma_request_count_prefix(ts: Seq<TypeView>, i: int, j: int)
    requires
        0 <= i <= j <= ts.len(),
    ensures
        request_count_all(ts.take(i)) <= request_count_all(ts.take(j)),
    decreases j - i,
{
    if i < j {
        lemma_request_count_prefix(ts, i, j - 1);
        assert(ts.take(j).drop_last() =~= ts.take(j - 1));
    }
}

/// Appends to `out` the runs of the engine for `inputs`.
fn push_requests(out: &mut Vec<(Vec<u8>, usize)>, inputs: &Vec<Type>, rounds: usize, nb_mutation: usize)
    requires
        forall|i: int| 0 <= i < inputs.len() ==> mutable_input(#[trigger] inputs[i]@),
    ensures
        request_views(final(out)) == request_views(old(out)) + requests_all(
            views(inputs),
            rounds as nat,
            nb_mutation as nat,
        ),
    decreases inputs,
{
    broadcast use crate::mutator::types::lemma_views_index;

    let ghost start = request_views(out);
    let mut i: usize = 0;
    assert(views(inputs).take(0) =~= Seq::<TypeView>::empty());
    assert(start + Seq::<(Seq<u8>, nat)>::empty() =~= start);
    while i < inputs.len()
        invariant
            0 <= i <= inputs.len(),
            forall|j: int| 0 <= j < inputs.len() ==> mutable_input(#[trigger] inputs[j]@),
            request_views(out) == start + requests_all(
                views(inputs).take(i as int),
                rounds as nat,
                nb_mutation as nat,
            ),
        decreases inputs.len() - i,
    {
        let ghost before = request_views(out);
        let ghost t = inputs[i as int]@;
        assert(views(inputs).take(i + 1).drop_last() =~= views(inputs).take(i as int));
        assert(views(inputs).take(i + 1).last() == t);
        let ghost ts = views(inputs).take(i + 1);
        assert(requests_all(ts, rounds as nat, nb_mutation as nat) == requests_all(
            views(inputs).take(i as int),
            rounds as nat,
            nb_mutation as nat,
        ) + requests_of(t, rounds as nat, nb_mutation as nat));
        let bytes = input_bytes(&inputs[i]);
        out.push((bytes, rounds));
        assert(request_views(out) =~= before.push((seed_bytes(t), rounds as nat)));
        match &inputs[i] {
            Type::Struct(fields) => {
                proof {
                    broadcast use vstd::std_specs::vec::axiom_vec_index_decreases;

                    assert(decreases_to!(*inputs => inputs[i as int]));
                    assert(t->Struct_0 == views(fields));
                    assert forall|j: int| 0 <= j < fields.len() implies mutable_input(
                        #[trigger] fields[j]@,
                    ) by {
                        assert(views(fields)[j] == fields[j]@);
                    }
                }
                let ghost mid = request_views(out);
                push_requests(out, fields, nb_mutation, nb_mutation);
                assert(requests_of(t, rounds as nat, nb_mutation as nat) == seq![
                    (seed_bytes(t), rounds as nat),
                ] + requests_all(views(fields), nb_mutation as nat, nb_mutation as nat));
                assert(request_views(out) =~= start + requests_all(
                    views(inputs).take(i + 1),
                    rounds as nat,
                    nb_mutation as nat,
                ));
            },
            _ => {
                assert(requests_of(t, rounds as nat, nb_mutation as nat) =~= seq![
                    (seed_bytes(t), rounds as nat),
                ]);
                assert(request_views(out) =~= start + requests_all(
                    views(inputs).take(i + 1),
                    rounds as nat,
                    nb_mutation as nat,
                ));
            },
        }
        i = i + 1;
    }
    assert(views(inputs).take(inputs.len() as int) =~= views(inputs));
}

/// The runs of the mutation engine that mutating `inputs` takes, in
/// order: each input's bytes ([`input_bytes`]) with
/// `mutation_budget(nb_mutation, biased_mutations)` rounds, a struct
/// running once on its empty bytes before its fields run with
/// `nb_mutation` rounds (the budget without gas bias).
pub fn mutation_requests(inputs: &Vec<Type>, nb_mutation: usize, biased_mutations: usize) -> (r: Vec<
    (Vec<u8>, usize),
>)
    requires
        nb_mutation <= usize::MAX / 3,
        forall|i: int| 0 <= i < inputs.len() ==> mutable_input(#[trigger] inputs[i]@),
    ensures
        request_views(&r) == requests_all(
            views(inputs),
            spec_mutation_budget(nb_mutation as nat, biased_mutations as nat),
            nb_mutation as nat,
        ),
{
    let rounds = mutation_budget(nb_mutation, biased_mutations);
    let mut out: Vec<(Vec<u8>, usize)> = Vec::new();
    push_requests(&mut out, inputs, rounds, nb_mutation);
    assert(request_views(&out) =~= Seq::<(Seq<u8>, nat)>::empty() + requests_all(
        views(inputs),
        rounds as nat,
        nb_mutation as nat,
    ));
    out
}

/// When the values of a prefix of `ts` cannot be read back, neither can
/// those of `ts`.
pub proof fn lemma_assemble_prefix_none(ts: Seq<TypeView>, o: Seq<Seq<u8>>, i: int)
    requires
        0 <= i <= ts.len(),
        o.len() == request_count_all(ts),
        assemble_all(ts.take(i), o.take(request_count_all(ts.take(i)) as int)) is None,
    ensures
        assemble_all(ts, o) is None,
    decreases ts.len(),
{
    if i == ts.len() {
        assert(ts.take(i) =~= ts);
        assert(o.take(request_count_all(ts) as int) =~= o);
    } else {
        let t2 = ts.drop_last();
        let n = request_count_all(t2);
        assert(ts.take(ts.len() - 1) =~= t2);
        lemma_request_count_prefix(ts, i, ts.len() - 1);
        assert(t2.take(i) =~= ts.take(i));
        let k = request_count_all(ts.take(i));
        assert(o.take(n as int).take(k as int) =~= o.take(k as int));
        lemma_assemble_prefix_none(t2, o.take(n as int), i);
    }
}

/// Reads back the values of `inputs` from the engine's outputs that start
/// at `start`; `Some` with the values and the position after the last
/// output used.
fn assemble_from(inputs: &Vec<Type>, outputs: &Vec<Vec<u8>>, start: usize) -> (r: Option<(Vec<Type>, usize)>)
    requires
        start + request_count_all(views(inputs)) <= outputs.len(),
    ensures
        match r {
            Some((vs, end)) => {
                &&& end == start + request_count_all(views(inputs))
                &&& assemble_all(
                    views(inputs),
                    output_views(outputs).subrange(start as int, end as int),
                ) == Some(views(&vs))
            },
            None => assemble_all(
                views(inputs),
                output_views(outputs).subrange(
                    start as int,
                    start + request_count_all(views(inputs)),
                ),
            ) is None,
        },
    decreases inputs,
{
    broadcast use crate::mutator::types::lemma_views_index;

    let ghost o = output_views(outputs);
    let ghost ts = views(inputs);
    let ghost total = request_count_all(ts);
    let ghost whole = o.subrange(start as int, start + total);
    let mut res: Vec<Type> = Vec::new();
    let mut pos: usize = start;
    let mut i: usize = 0;
    proof {
        assert(ts.take(0) =~= Seq::<TypeView>::empty());
        assert(views(&res) =~= Seq::<TypeView>::empty());
    }
    while i < inputs.len()
        invariant
            0 <= i <= inputs.len(),
            ts == views(inputs),
            o == output_views(outputs),
            total == request_count_all(ts),
            start + total <= outputs.len(),
            whole == o.subrange(start as int, start + total),
            pos == start + request_count_all(ts.take(i as int)),
            assemble_all(ts.take(i as int), whole.take(pos - start)) == Some(views(&res)),
        decreases inputs.len() - i,
    {
        let ghost t = ts[i as int];
        let ghost prefix = ts.take(i + 1);
        let ghost before = views(&res);
        proof {
            assert(prefix.drop_last() =~= ts.take(i as int));
            assert(prefix.last() == t);
            assert(t == inputs[i as int]@);
            lemma_request_count_prefix(ts, i + 1, ts.len() as int);
            assert(ts.take(ts.len() as int) =~= ts);
        }
        let ghost next = pos + request_count(t);
        let ghost seg = whole.take(next - start);
        proof {
            assert(seg.take(pos - start) =~= whole.take(pos - start));
            assert(seg.skip(pos - start) =~= o.subrange(pos as int, next));
            assert(request_count_all(prefix) == request_count_all(ts.take(i as int)) + request_count(t));
            assert(assemble_all(prefix, seg) == match assemble_all(ts.take(i as int), seg.take(pos - start)) {
                Some(vs) => match assemble_one(t, seg.skip(pos - start)) {
                    Some(v) => Some(vs.push(v)),
                    None => None,
                },
                None => None,
            });
        }
        match &inputs[i] {
            Type::Struct(fields) => {
                proof {
                    broadcast use vstd::std_specs::vec::axiom_vec_index_decreases;

                    assert(decreases_to!(*inputs => inputs[i as int]));
                    assert(t->Struct_0 == views(fields));
                    assert(o.subrange(pos as int, next).skip(1) =~= o.subrange(pos + 1, next));
                    assert(next == pos + 1 + request_count_all(views(fields)));
                }
                match assemble_from(fields, outputs, pos + 1) {
                    Some((vs, end)) => {
                        let v = Type::Struct(vs);
                        proof {
                            assert(v@->Struct_0 == views(&vs));
                        }
                        res.push(v);
                        proof {
                            assert(views(&res) =~= before.push(v@));
                        }
                        pos = end;
                    },
                    None => {
                        proof {
                            lemma_assemble_prefix_none(ts, whole, i + 1);
                        }
                        return None;
                    },
                }
            },
            Type::Function(_, _) => {
                proof {
                    assert(assemble_one(t, seg.skip(pos - start)) is None);
                    lemma_assemble_prefix_none(ts, whole, i + 1);
                }
                return None;
            },
            _ => {
                proof {
                    assert(o.subrange(pos as int, next)[0] == outputs[pos as int]@);
                }
                match from_mutated_bytes(&inputs[i], &outputs[pos]) {
                    Some(v) => {
                        res.push(v);
                        proof {
                            assert(views(&res) =~= before.push(v@));
                        }
                        pos = pos + 1;
                    },
                    None => {
                        proof {
                            lemma_assemble_prefix_none(ts, whole, i + 1);
                        }
                        return None;
                    },
                }
            },
        }
        i = i + 1;
    }
    proof {
        assert(ts.take(inputs.len() as int) =~= ts);
        assert(whole.take(total as int) =~= whole);
    }
    Some((res, pos))
}

/// The mutated values of `inputs`, read back from `outputs`, the engine's
/// results for the runs of [`mutation_requests`], in the same order;
/// `None` when the output for a boolean is empty.
pub fn assemble_mutations(inputs: &Vec<Type>, outputs: &Vec<Vec<u8>>) -> (r: Option<Vec<Type>>)
    requires
        outputs.len() == request_count_all(views(inputs)),
    ensures
        option_views(r) == assemble_all(views(inputs), output_views(outputs)),
{
    let r = assemble_from(inputs, outputs, 0);
    assert(output_views(outputs).subrange(0, outputs.len() as int) =~= output_views(outputs));
    match r {
        Some((vs, _)) => Some(vs),
        None => None,
    }
}

pub proof fn lemma_requests_of_len(t: TypeView, rounds: nat, nb_mutation: nat)
    ensures
        requests_of(t, rounds, nb_mutation).len() == request_count(t),
    decreases t, 1nat,
{
    if let TypeView::Struct(fields) = t {
        lemma_requests_len(fields, nb_mutation, nb_mutation);
    }
}

/// Mutating `ts` takes exactly as many runs of the engine as reading the
/// values back consumes.
pub proof fn lemma_requests_len(ts: Seq<TypeView>, rounds: nat, nb_mutation: nat)
    ensures
        requests_all(ts, rounds, nb_mutation).len() == request_count_all(ts),
    decreases ts, 0nat,
{
    if ts.len() > 0 {
        lemma_requests_len(ts.drop_last(), rounds, nb_mutation);
        lemma_requests_of_len(ts.last(), rounds, nb_mutation);
    }
}

/// Inputs that are not structs each take one run of the engine, in order,
/// on their own bytes and with the given number of rounds.
pub proof fn lemma_leaf_requests(ts: Seq<TypeView>, rounds: nat, nb_mutation: nat)
    requires
        forall|i: int| 0 <= i < ts.len() ==> is_leaf(#[trigger] ts[i]),
    ensures
        requests_all(ts, rounds, nb_mutation).len() == ts.len(),
        request_count_all(ts) == ts.len(),
        forall|i: int|
            0 <= i < ts.len() ==> #[trigger] requests_all(ts, rounds, nb_mutation)[i] == (
                seed_bytes(ts[i]),
                rounds,
            ),
    decreases ts.len(),
{
    if ts.len() > 0 {
        let t = ts.drop_last();
        assert forall|i: int| 0 <= i < t.len() implies is_leaf(#[trigger] t[i]) by {
            assert(t[i] == ts[i]);
        }
        lemma_leaf_requests(t, rounds, nb_mutation);
        assert(is_leaf(ts[ts.len() - 1]));
        assert(requests_of(ts.last(), rounds, nb_mutation) =~= seq![(seed_bytes(ts.last()), rounds)]);
        assert(request_count(ts.last()) == 1);
        assert forall|i: int| 0 <= i < ts.len() implies #[trigger] requests_all(ts, rounds, nb_mutation)[i]
            == (seed_bytes(ts[i]), rounds) by {
            if i < ts.len() - 1 {
                assert(t[i] == ts[i]);
            }
        }
    }
}

/// Inputs that are not structs are read back each from the output of its
/// own run, in order: when every output reads back, the `i`-th value is
/// what the `i`-th output reads back as; when one does not, nothing is
/// read back.
pub proof fn lemma_leaf_assembly(ts: Seq<TypeView>, outs: Seq<Seq<u8>>)
    requires
        forall|i: int| 0 <= i < ts.len() ==> is_leaf(#[trigger] ts[i]),
        outs.len() == ts.len(),
    ensures
        (forall|i: int| 0 <= i < ts.len() ==> #[trigger] decode_bytes(ts[i], outs[i]) is Some) ==> {
            &&& assemble_all(ts, outs) is Some
            &&& assemble_all(ts, outs)->Some_0.len() == ts.len()
            &&& forall|i: int|
                0 <= i < ts.len() ==> Some(#[trigger] assemble_all(ts, outs)->Some_0[i]) == decode_bytes(
                    ts[i],
                    outs[i],
                )
        },
        (exists|i: int| 0 <= i < ts.len() && #[trigger] decode_bytes(ts[i], outs[i]) is None) ==> assemble_all(
            ts,
            outs,
        ) is None,
    decreases ts.len(),
{
    if ts.len() > 0 {
        let t = ts.drop_last();
        let o = outs.take(t.len() as int);
        assert forall|i: int| 0 <= i < t.len() implies is_leaf(#[trigger] t[i]) by {
            assert(t[i] == ts[i]);
        }
        lemma_leaf_assembly(t, o);
        lemma_leaf_requests(t, 0, 0);
        let last = ts.len() - 1;
        assert(is_leaf(ts[last]));
        assert(outs.skip(t.len() as int)[0] == outs[last]);
        assert(assemble_one(ts.last(), outs.skip(t.len() as int)) == decode_bytes(ts[last], outs[last]));
        assert forall|i: int| 0 <= i < t.len() implies #[trigger] decode_bytes(t[i], o[i]) == decode_bytes(
            ts[i],
            outs[i],
        ) by {
            assert(t[i] == ts[i]);
            assert(o[i] == outs[i]);
        }
        if forall|i: int| 0 <= i < ts.len() ==> #[trigger] decode_bytes(ts[i], outs[i]) is Some {
            assert forall|i: int| 0 <= i < t.len() implies #[trigger] decode_bytes(t[i], o[i]) is Some by {
                assert(decode_bytes(ts[i], outs[i]) is Some);
            }
            assert(decode_bytes(ts[last], outs[last]) is Some);
            let vs = assemble_all(t, o)->Some_0;
            assert forall|i: int| 0 <= i < ts.len() implies Some(
                #[trigger] assemble_all(ts, outs)->Some_0[i],
            ) == decode_bytes(ts[i], outs[i]) by {
                if i < t.len() {
                    assert(Some(vs[i]) == decode_bytes(t[i], o[i]));
                }
            }
        }
        if exists|i: int| 0 <= i < ts.len() && #[trigger] decode_bytes(ts[i], outs[i]) is None {
            let k = choose|i: int| 0 <= i < ts.len() && #[trigger] decode_bytes(ts[i], outs[i]) is None;
            if k < t.len() {
                assert(decode_bytes(t[k], o[k]) is None);
            }
        }
    }
}

/// A struct runs the engine once on no bytes with the given rounds, then
/// its fields run with `nb_mutation` rounds whatever the gas bias, and
/// the output of the struct's own run is never read: its value is the
/// struct of its fields' values.
pub proof fn lemma_struct_requests_and_assembly(
    fields: Seq<TypeView>,
    rounds: nat,
    other_rounds: nat,
    nb_mutation: nat,
    outs: Seq<Seq<u8>>,
    own_output: Seq<u8>,
)
    requires
        outs.len() > 0,
    ensures
        requests_of(TypeView::Struct(fields), rounds, nb_mutation)[0] == (Seq::<u8>::empty(), rounds),
        requests_of(TypeView::Struct(fields), rounds, nb_mutation).skip(1) == requests_all(
            fields,
            nb_mutation,
            nb_mutation,
        ),
        requests_of(TypeView::Struct(fields), rounds, nb_mutation).skip(1) == requests_of(
            TypeView::Struct(fields),
            other_rounds,
            nb_mutation,
        ).skip(1),
        assemble_one(TypeView::Struct(fields), outs.update(0, own_output)) == assemble_one(
            TypeView::Struct(fields),
            outs,
        ),
        assemble_one(TypeView::Struct(fields), outs) == match assemble_all(fields, outs.skip(1)) {
            Some(vs) => Some(TypeView::Struct(vs)),
            None => None,
        },
{
    assert(requests_of(TypeView::Struct(fields), rounds, nb_mutation).skip(1) =~= requests_all(
        fields,
        nb_mutation,
        nb_mutation,
    ));
    assert(requests_of(TypeView::Struct(fields), other_rounds, nb_mutation).skip(1) =~= requests_all(
        fields,
        nb_mutation,
        nb_mutation,
    ));
    assert(outs.update(0, own_output).skip(1) =~= outs.skip(1));
}

pub proof fn lemma_assembled_one_is_mutation(t: TypeView, outs: Seq<Seq<u8>>, v: TypeView)
    requires
        assemble_one(t, outs) == Some(v),
    ensures
        is_mutation_of(t, v),
    decreases t, 1nat,
{
    match t {
        TypeView::Struct(fields) => {
            let vs = assemble_all(fields, outs.skip(1))->Some_0;
            lemma_assembled_are_mutations(fields, outs.skip(1), vs);
        },
        _ => {
            assert(decode_bytes(t, outs[0]) == Some(v));
        },
    }
}

/// Whatever the engine returns, each value read back is a mutation of its
/// input: the same type, a struct with as many fields, each a mutation of
/// the input's field.
pub proof fn lemma_assembled_are_mutations(ts: Seq<TypeView>, outs: Seq<Seq<u8>>, vs: Seq<TypeView>)
    requires
        assemble_all(ts, outs) == Some(vs),
    ensures
        vs.len() == ts.len(),
        forall|i: int| 0 <= i < ts.len() ==> is_mutation_of(#[trigger] ts[i], vs[i]),
    decreases ts, 0nat,
{
    if ts.len() > 0 {
        let n = request_count_all(ts.drop_last());
        let ws = assemble_all(ts.drop_last(), outs.take(n as int))->Some_0;
        let w = assemble_one(ts.last(), outs.skip(n as int))->Some_0;
        lemma_assembled_are_mutations(ts.drop_last(), outs.take(n as int), ws);
        lemma_assembled_one_is_mutation(ts.last(), outs.skip(n as int), w);
        assert forall|i: int| 0 <= i < ts.len() implies is_mutation_of(#[trigger] ts[i], vs[i]) by {
            if i < ts.len() - 1 {
                assert(ts.drop_last()[i] == ts[i]);
            }
        }
    }
}

pub proof fn lemma_unreadable_one_has_bool(t: TypeView, outs: Seq<Seq<u8>>)
    requires
        mutable_input(t),
        assemble_one(t, outs) is None,
    ensures
        has_bool(t),
    decreases t, 1nat,
{
    if let TypeView::Struct(fields) = t {
        lemma_unreadable_has_bool(fields, outs.skip(1));
        let i = choose|i: int| 0 <= i < fields.len() && has_bool(#[trigger] fields[i]);
    }
}

/// Values can fail to be read back only for a boolean, when the engine
/// returns no bytes for it.
pub proof fn lemma_unreadable_has_bool(ts: Seq<TypeView>, outs: Seq<Seq<u8>>)
    requires
        forall|i: int| 0 <= i < ts.len() ==> mutable_input(#[trigger] ts[i]),
        assemble_all(ts, outs) is None,
    ensures
        exists|i: int| 0 <= i < ts.len() && has_bool(#[trigger] ts[i]),
    decreases ts, 0nat,
{
    if ts.len() > 0 {
        let n = request_count_all(ts.drop_last());
        assert forall|i: int| 0 <= i < ts.drop_last().len() implies mutable_input(#[trigger] ts.drop_last()[i]) by {
            assert(ts.drop_last()[i] == ts[i]);
        }
        assert(mutable_input(ts[ts.len() - 1]));
        if assemble_all(ts.drop_last(), outs.take(n as int)) is None {
            lemma_unreadable_has_bool(ts.drop_last(), outs.take(n as int));
            let i = choose|i: int| 0 <= i < ts.drop_last().len() && has_bool(#[trigger] ts.drop_last()[i]);
            assert(ts[i] == ts.drop_last()[i]);
        } else {
            lemma_unreadable_one_has_bool(ts.last(), outs.skip(n as int));
            assert(has_bool(ts[ts.len() - 1]));
        }
    }
}

/// A mutation keeps the kind of its input, as [`crate::mutator::mutator::Mutator`]
/// promises its callers.
pub proof fn lemma_mutation_keeps_kind(t: TypeView, out: TypeView)
    requires
        is_mutation_of(t, out),
    ensures
        same_kind(t, out),
    decreases t,
{
    match t {
        TypeView::Struct(fields) => {
            assert forall|i: int| 0 <= i < fields.len() implies same_kind(
                #[trigger] fields[i],
                out->Struct_0[i],
            ) by {
                lemma_mutation_keeps_kind(fields[i], out->Struct_0[i]);
            }
        },
        _ => {
            let b = choose|b: Seq<u8>| decode_bytes(t, b) == Some(out);
        },
    }
}

} // verus!
