use move_fuzzer::mutator::types::{duplicate_all, same_all, Type};

#[test]
fn equality_is_structural() {
    let a = Type::Struct(vec![Type::U8(1), Type::Vector(Box::new(Type::U8(0)), vec![Type::U8(2)])]);
    let b = Type::Struct(vec![Type::U8(1), Type::Vector(Box::new(Type::U8(0)), vec![Type::U8(2)])]);
    let c = Type::Struct(vec![Type::U8(1), Type::Vector(Box::new(Type::U8(0)), vec![Type::U8(3)])]);
    assert!(a.same_as(&b));
    assert!(!a.same_as(&c));
    assert_eq!(a, b);
    assert_ne!(a, c);
    assert!(!Type::U8(1).same_as(&Type::U16(1)));
    assert!(Type::Function("f".to_string(), vec![Type::U64(0)]).same_as(&Type::Function("f".to_string(), vec![Type::U64(0)])));
    assert!(!Type::Function("f".to_string(), vec![]).same_as(&Type::Function("g".to_string(), vec![])));
}

#[test]
fn copies_are_equal() {
    let v = vec![Type::Address([1u8; 32]), Type::Reference(true, Box::new(Type::Bool(false)))];
    let w = duplicate_all(&v);
    assert!(same_all(&v, &w));
    assert_eq!(v[0].clone(), v[0]);
}
