use move_fuzzer::fuzzer::coverage::{Coverage, CoverageData};
use move_fuzzer::fuzzer::crash::{Call, Crash};
use move_fuzzer::fuzzer::fuzzer::{join_names, next_broadcast, total, worker_seed, Fuzzer};
use move_fuzzer::mutator::types::Type;

fn cov(v: u8, pc: u16) -> Coverage {
    Coverage { inputs: vec![Type::U8(v)], data: vec![CoverageData { pc, instruction: "Add".to_string() }] }
}

fn stateless(corpus: Vec<Coverage>) -> Fuzzer {
    Fuzzer::new_stateless("calculator_module", "fuzz_add", &corpus, &vec![])
}

#[test]
fn stateless_campaign_starts_from_distinct_corpus() {
    let f = stateless(vec![cov(1, 1), cov(1, 1), cov(2, 1)]);
    assert_eq!(f.coverage_set().len(), 2);
    assert!(!f.use_state());
    assert_eq!(f.target_module(), "calculator_module");
    assert_eq!(f.target_label(), "fuzz_add");
    assert_eq!(f.global_stats().coverage_size, 0);
    assert_eq!(f.max_coverage(), 0);
    assert!(f.target_parameters().is_empty());
}

#[test]
fn stateful_label_joins_functions() {
    let names = vec!["add".to_string(), "sub".to_string(), "mul".to_string()];
    let f = Fuzzer::new_stateful("calculator_module", &names, &vec![], &vec![]);
    assert!(f.use_state());
    assert_eq!(f.target_label(), "add, sub, mul");
    assert_eq!(join_names(&vec![], ", "), "");
    assert_eq!(join_names(&vec!["a".to_string()], ", "), "a");
}

#[test]
fn merge_coverage_exchanges_differences() {
    let mut f = stateless(vec![cov(1, 1), cov(2, 2)]);
    let m = f.merge_coverage(&vec![cov(2, 2), cov(3, 3), cov(3, 3), cov(4, 4)]);
    assert_eq!(m.response, Some(vec![cov(1, 1)]));
    assert_eq!(m.added, vec![cov(3, 3), cov(4, 4)]);
    assert_eq!(f.coverage_set(), &vec![cov(1, 1), cov(2, 2), cov(3, 3), cov(4, 4)]);
    assert_eq!(f.global_stats().coverage_size, 2);
    assert_eq!(f.global_stats().secs_since_last_cov, 0);
    let again = f.merge_coverage(&vec![cov(1, 1), cov(2, 2), cov(3, 3), cov(4, 4)]);
    assert_eq!(again.response, None);
    assert!(again.added.is_empty());
    assert_eq!(f.global_stats().coverage_size, 2);
}

#[test]
fn merge_without_new_coverage_keeps_clock() {
    let mut f = stateless(vec![cov(1, 1)]);
    f.tick_second();
    f.tick_second();
    let m = f.merge_coverage(&vec![]);
    assert_eq!(m.response, Some(vec![cov(1, 1)]));
    assert_eq!(f.global_stats().secs_since_last_cov, 2);
}

#[test]
fn crashes_are_unique() {
    let mut f = Fuzzer::new_stateful("m", &vec!["add".to_string()], &vec![], &vec![]);
    let inputs = vec![Type::U64(3)];
    let calls = vec![Call { function: "add".to_string(), inputs: vec![Type::U64(1)] }];
    let first = f.record_crash(&"add".to_string(), &inputs, &"ABORTED".to_string(), Some(calls.clone()));
    assert!(first.is_new);
    assert!(first.report);
    assert_eq!(first.crash.target_module, "m");
    assert_eq!(first.crash.call_sequence, Some(calls.clone()));
    assert_eq!(f.global_stats().unique_crashes, 1);
    let second = f.record_crash(&"add".to_string(), &inputs, &"ABORTED".to_string(), Some(calls));
    assert!(!second.is_new);
    assert!(!second.report);
    assert_eq!(f.global_stats().unique_crashes, 1);
    let third = f.record_crash(&"add".to_string(), &inputs, &"ABORTED".to_string(), None);
    assert!(third.is_new);
    assert_eq!(f.global_stats().unique_crashes, 2);
}

#[test]
fn stateless_reports_every_crash() {
    let known = Crash::new(&"calculator_module".to_string(), &"fuzz_add".to_string(), &vec![Type::U8(1)], &"E".to_string());
    let mut f = Fuzzer::new_stateless("calculator_module", "fuzz_add", &vec![], &vec![known]);
    let r = f.record_crash(&"fuzz_add".to_string(), &vec![Type::U8(1)], &"E".to_string(), None);
    assert!(!r.is_new);
    assert!(r.report);
    assert_eq!(f.global_stats().unique_crashes, 0);
}

#[test]
fn tick_computes_execs_per_sec() {
    let mut f = stateless(vec![]);
    f.set_totals(&vec![10, 20, 30], &vec![1, 0, 2]);
    assert_eq!(f.global_stats().execs, 60);
    assert_eq!(f.global_stats().crashes, 3);
    f.tick_second();
    assert_eq!(f.global_stats().execs_per_sec, 60);
    f.set_totals(&vec![100, 20, 30], &vec![1, 0, 2]);
    f.tick_second();
    assert_eq!(f.global_stats().time_running, 2);
    assert_eq!(f.global_stats().execs_per_sec, 75);
    assert_eq!(f.global_stats().secs_since_last_cov, 2);
}

#[test]
fn status_is_due_on_interval() {
    let mut f = stateless(vec![]);
    assert!(!f.status_due(10));
    f.set_totals(&vec![20], &vec![0]);
    assert!(f.status_due(10));
    assert!(!f.status_due(0));
    assert!(!f.status_due(3));
}

#[test]
fn totals_and_seeds() {
    assert_eq!(total(&vec![]), 0);
    assert_eq!(total(&vec![u64::MAX - 1, 1]), u64::MAX);
    assert_eq!(worker_seed(4242, 3), 4245);
}

#[test]
fn target_info_is_recorded() {
    let mut f = stateless(vec![]);
    f.set_target_info(vec![Type::U64(0), Type::Bool(false)], 17);
    assert_eq!(f.target_parameters(), &vec![Type::U64(0), Type::Bool(false)]);
    assert_eq!(f.max_coverage(), 17);
}

#[test]
fn last_new_crash_is_broadcast() {

    let mut f = stateless(vec![]);
    let a = f.record_crash(&"fuzz_add".to_string(), &vec![Type::U8(1)], &"E".to_string(), None);
    let pending = next_broadcast(None, a);
    assert!(pending.is_some());
    let again = f.record_crash(&"fuzz_add".to_string(), &vec![Type::U8(1)], &"E".to_string(), None);
    let pending = next_broadcast(pending, again);
    assert_eq!(pending.as_ref().unwrap().inputs, vec![Type::U8(1)]);
    let b = f.record_crash(&"fuzz_add".to_string(), &vec![Type::U8(2)], &"E".to_string(), None);
    let pending = next_broadcast(pending, b);
    assert_eq!(pending.unwrap().inputs, vec![Type::U8(2)]);
}
