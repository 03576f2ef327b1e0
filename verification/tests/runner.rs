use move_fuzzer::mutator::types::Type;
use move_fuzzer::runner::aptos_helpers::noop_helper::NoopHelper;
use move_fuzzer::runner::aptos_helpers::AptosHelper;
use move_fuzzer::runner::chain::Chain;

#[test]
fn supported_chains_are_sui_then_aptos() {
    let chains = Chain::supported_chains();
    assert_eq!(chains.len(), 2);
    assert!(matches!(chains[0], Chain::Sui));
    assert!(matches!(chains[1], Chain::Aptos));
}

#[test]
fn noop_helper_keeps_inputs() {
    let h = NoopHelper::new();
    let inputs = vec![Type::U8(1), Type::Bool(true), Type::Struct(vec![Type::U64(3)])];
    assert_eq!(h.transform_inputs(&inputs), Some(inputs.clone()));
    assert_eq!(h.transform_inputs(&[]), Some(vec![]));
}
