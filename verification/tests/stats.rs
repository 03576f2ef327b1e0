use move_fuzzer::fuzzer::stats::{GasTable, Stats};
use move_fuzzer::mutator::types::Type;

fn function(name: &str) -> Type {
    Type::Function(name.to_string(), vec![])
}

#[test]
fn new_stats_are_zero() {
    let s = Stats::new();
    assert_eq!(s.crashes, 0);
    assert_eq!(s.unique_crashes, 0);
    assert_eq!(s.execs, 0);
    assert_eq!(s.time_running, 0);
    assert_eq!(s.execs_per_sec, 0);
    assert_eq!(s.coverage_size, 0);
    assert_eq!(s.secs_since_last_cov, 0);
    assert_eq!(s.get_max_gas(&function("add")), 0);
}

#[test]
fn max_gas_is_kept_per_function() {
    let mut s = Stats::new();
    s.update_gas_usage(&function("add"), 50);
    assert_eq!(s.get_max_gas(&function("add")), 50);
    s.update_gas_usage(&function("add"), 20);
    assert_eq!(s.get_max_gas(&function("add")), 50);
    s.update_gas_usage(&function("add"), 80);
    assert_eq!(s.get_max_gas(&function("add")), 80);
    s.update_gas_usage(&function("sub"), 0);
    assert_eq!(s.get_max_gas(&function("sub")), 0);
    assert_eq!(s.get_max_gas(&function("add")), 80);
    assert_eq!(s.get_max_gas(&Type::Function("add".to_string(), vec![Type::U8(0)])), 80);
}

#[test]
fn gas_table_replaces_values() {
    let mut t = GasTable::new();
    assert_eq!(t.get(&"x".to_string()), None);
    t.set("x".to_string(), 3);
    t.set("y".to_string(), 4);
    t.set("x".to_string(), 5);
    assert_eq!(t.get(&"x".to_string()), Some(5));
    assert_eq!(t.get(&"y".to_string()), Some(4));
}

#[test]
fn stats_clone_keeps_gas() {
    let mut s = Stats::new();
    s.execs = 7;
    s.update_gas_usage(&function("add"), 9);
    let c = s.clone();
    assert_eq!(c.execs, 7);
    assert_eq!(c.get_max_gas(&function("add")), 9);
}

#[test]
fn max_gas_is_largest_report() {
    let mut s = Stats::new();
    let reports = [("a", 5u64), ("b", 9), ("a", 3), ("a", 7), ("b", 1)];
    for (name, gas) in reports {
        s.update_gas_usage(&function(name), gas);
        s.execs += 1;
    }
    assert_eq!(s.get_max_gas(&function("a")), 7);
    assert_eq!(s.get_max_gas(&function("b")), 9);
    assert_eq!(s.get_max_gas(&function("c")), 0);
}
