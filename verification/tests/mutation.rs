use move_fuzzer::mutator::aptos_mutator::{
    assemble_mutations, be_decode, be_encode, from_mutated_bytes, input_bytes, is_mutable_input,
    mutation_budget, mutation_requests,
};
use move_fuzzer::mutator::mutator::Mutator;
use move_fuzzer::mutator::types::Type;

#[test]
fn encode_is_big_endian() {
    assert_eq!(be_encode(0x0102, 2), vec![1, 2]);
    assert_eq!(be_encode(0x0102_0304, 4), vec![1, 2, 3, 4]);
    assert_eq!(be_encode(5, 8), vec![0, 0, 0, 0, 0, 0, 0, 5]);
    assert_eq!(be_encode(0x1ff, 1), vec![0xff]);
    assert_eq!(be_encode(u128::MAX, 16), vec![0xff; 16]);
}

#[test]
fn decode_resizes_before_reading() {
    assert_eq!(be_decode(&vec![1, 2, 3], 2), 0x0102);
    assert_eq!(be_decode(&vec![1], 2), 0x0100);
    assert_eq!(be_decode(&vec![], 4), 0);
    assert_eq!(be_decode(&vec![0xff; 20], 16), u128::MAX);
}

#[test]
fn input_bytes_of_each_kind() {
    assert_eq!(input_bytes(&Type::Bool(true)), vec![1]);
    assert_eq!(input_bytes(&Type::Bool(false)), vec![0]);
    assert_eq!(input_bytes(&Type::U8(7)), vec![7]);
    assert_eq!(input_bytes(&Type::U16(0x0a0b)), vec![0x0a, 0x0b]);
    assert_eq!(input_bytes(&Type::U32(1)), vec![0, 0, 0, 1]);
    assert_eq!(input_bytes(&Type::U64(0x0102030405060708)), vec![1, 2, 3, 4, 5, 6, 7, 8]);
    assert_eq!(input_bytes(&Type::U128(1)).len(), 16);
    let mut addr = [0u8; 32];
    addr[31] = 9;
    assert_eq!(input_bytes(&Type::Address(addr)), addr.to_vec());
    let v = Type::Vector(Box::new(Type::U8(0)), vec![Type::U8(3), Type::U8(4)]);
    assert_eq!(input_bytes(&v), vec![3, 4]);
    assert_eq!(input_bytes(&Type::Struct(vec![Type::U8(1)])), Vec::<u8>::new());
    assert_eq!(input_bytes(&Type::Reference(true, Box::new(Type::U8(1)))), Vec::<u8>::new());
}

#[test]
fn mutated_bytes_read_back() {
    assert_eq!(from_mutated_bytes(&Type::U8(0), &vec![]), Some(Type::U8(0)));
    assert_eq!(from_mutated_bytes(&Type::U8(0), &vec![5, 6]), Some(Type::U8(5)));
    assert_eq!(from_mutated_bytes(&Type::U16(0), &vec![1]), Some(Type::U16(0x0100)));
    assert_eq!(from_mutated_bytes(&Type::U32(0), &vec![0, 0, 1, 0, 9]), Some(Type::U32(256)));
    assert_eq!(from_mutated_bytes(&Type::U64(0), &vec![0, 0, 0, 0, 0, 0, 0x0b, 0xb8]), Some(Type::U64(0)));
    assert_eq!(from_mutated_bytes(&Type::U64(0), &vec![0, 0, 0, 0, 0, 0, 0x0b, 0xb9]), Some(Type::U64(1)));
    assert_eq!(from_mutated_bytes(&Type::U128(0), &vec![1]), Some(Type::U128(1u128 << 120)));
    assert_eq!(from_mutated_bytes(&Type::Bool(false), &vec![2]), Some(Type::Bool(true)));
    assert_eq!(from_mutated_bytes(&Type::Bool(true), &vec![0, 1]), Some(Type::Bool(false)));
    assert_eq!(from_mutated_bytes(&Type::Bool(true), &vec![]), None);
    let mut addr = [0u8; 32];
    addr[0] = 1;
    addr[1] = 2;
    assert_eq!(from_mutated_bytes(&Type::Address([7u8; 32]), &vec![1, 2]), Some(Type::Address(addr)));
    assert_eq!(
        from_mutated_bytes(&Type::Vector(Box::new(Type::U16(0)), vec![]), &vec![4, 5, 6]),
        Some(Type::Vector(Box::new(Type::U8(0)), vec![Type::U8(4), Type::U8(5), Type::U8(6)]))
    );
    let r = Type::Reference(false, Box::new(Type::U64(3)));
    assert_eq!(from_mutated_bytes(&r, &vec![1, 2, 3]), Some(r.clone()));
}

#[test]
fn seed_bytes_read_back_unmutated() {
    for t in [Type::U8(200), Type::U16(65535), Type::U32(123456), Type::U128(u128::MAX), Type::Bool(true), Type::Address([3u8; 32])] {
        assert_eq!(from_mutated_bytes(&t, &input_bytes(&t)), Some(t.clone()));
    }
    assert_eq!(from_mutated_bytes(&Type::U64(123456), &input_bytes(&Type::U64(123456))), Some(Type::U64(456)));
}

#[test]
fn decoded_value_is_stable() {
    let d = from_mutated_bytes(&Type::U16(0), &vec![9, 8, 7]).unwrap();
    assert_eq!(from_mutated_bytes(&Type::U16(0), &input_bytes(&d)), Some(d));
    let d = from_mutated_bytes(&Type::U64(0), &vec![0xff; 9]).unwrap();
    assert_eq!(from_mutated_bytes(&Type::U64(0), &input_bytes(&d)), Some(d));
}

#[test]
fn budget_is_clamped() {
    assert_eq!(mutation_budget(4, 0), 1);
    assert_eq!(mutation_budget(4, 5), 5);
    assert_eq!(mutation_budget(4, 100), 12);
    assert_eq!(mutation_budget(0, 7), 0);
    assert_eq!(mutation_budget(6, 6), 6);
}

#[test]
fn requests_follow_the_inputs_in_order() {
    let inputs = vec![
        Type::U16(0x0102),
        Type::Struct(vec![Type::Bool(true), Type::Struct(vec![Type::U8(9)])]),
        Type::Reference(true, Box::new(Type::U8(1))),
    ];
    let requests = mutation_requests(&inputs, 2, 5);
    assert_eq!(
        requests,
        vec![
            (vec![1, 2], 5),
            (vec![], 5),
            (vec![1], 2),
            (vec![], 2),
            (vec![9], 2),
            (vec![], 5),
        ]
    );
    let clamped = mutation_requests(&vec![Type::U8(1)], 2, 100);
    assert_eq!(clamped, vec![(vec![1], 6)]);
}

#[test]
fn unmutated_outputs_read_back_as_inputs() {
    let inputs = vec![
        Type::U16(0x0102),
        Type::Struct(vec![Type::Bool(true), Type::Struct(vec![Type::U8(9)])]),
        Type::Reference(true, Box::new(Type::U8(1))),
    ];
    let outputs: Vec<Vec<u8>> = mutation_requests(&inputs, 2, 2).into_iter().map(|(b, _)| b).collect();
    assert_eq!(assemble_mutations(&inputs, &outputs), Some(inputs.clone()));
}

#[test]
fn outputs_are_read_back_in_order() {
    let inputs = vec![Type::U64(1), Type::Struct(vec![Type::U8(0), Type::Bool(false)]), Type::U8(0)];
    let outputs = vec![
        vec![0, 0, 0, 0, 0, 0, 0x27, 0x11],
        vec![42, 42],
        vec![7, 8],
        vec![3],
        vec![],
    ];
    assert_eq!(
        assemble_mutations(&inputs, &outputs),
        Some(vec![Type::U64(1), Type::Struct(vec![Type::U8(7), Type::Bool(true)]), Type::U8(0)])
    );
    let no_bool_bytes = vec![vec![1], vec![], vec![2], vec![], vec![3]];
    assert_eq!(assemble_mutations(&inputs, &no_bool_bytes), None);
}

#[test]
fn mutable_inputs_are_recognized() {
    assert!(is_mutable_input(&Type::U8(1)));
    assert!(is_mutable_input(&Type::Struct(vec![Type::Bool(true), Type::Struct(vec![])])));
    assert!(!is_mutable_input(&Type::Struct(vec![Type::Function("f".to_string(), vec![])])));
    assert!(!is_mutable_input(&Type::Vector(Box::new(Type::U16(0)), vec![Type::U16(1)])));
    assert!(is_mutable_input(&Type::Vector(Box::new(Type::U8(0)), vec![Type::U8(1)])));
    assert!(is_mutable_input(&Type::Reference(true, Box::new(Type::Function("f".to_string(), vec![])))));
}

struct Incrementer;

impl Mutator for Incrementer {
    fn mutate(&mut self, inputs: &Vec<Type>, nb_mutation: usize) -> Vec<Type> {
        inputs
            .iter()
            .map(|t| match t {
                Type::U8(v) => Type::U8(v.wrapping_add(nb_mutation as u8)),
                other => other.clone(),
            })
            .collect()
    }

    fn generate_number(&self, min: u64, _max: u64) -> u64 {
        min
    }
}

#[test]
fn default_gas_mutation_is_plain_mutation() {

    let mut m = Incrementer;
    let inputs = vec![Type::U8(1), Type::Bool(true)];
    assert_eq!(m.mutate_with_gas(&inputs, 2, Some(1000)), vec![Type::U8(3), Type::Bool(true)]);
    assert_eq!(m.mutate_with_gas(&inputs, 2, None), m.mutate(&inputs, 2));
}
