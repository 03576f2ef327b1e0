//! The fuzzing campaign's own state: what is targeted, the campaign-wide
//! counters, the coverage corpus and the set of unique crashes, and how
//! each report of a worker thread changes them.
use vstd::prelude::*;

use crate::fuzzer::coverage::{Coverage, CoverageView};
use crate::fuzzer::crash::{call_views, Call, Crash, CrashView};
use crate::fuzzer::stats::Stats;
use crate::mutator::types::{duplicate_all, views, Type, TypeView};

verus! {

broadcast use vstd::seq_lib::group_seq_properties;

/// A record that the campaign keeps at most once: equality and copies by
/// the record's model.
pub trait Record: View + Sized {
    fn same_record(&self, other: &Self) -> (r: bool)
        ensures
            r == (self@ == other@),
    ;

    fn copy_record(&self) -> (r: Self)
        ensures
            r@ == self@,
    ;
}

impl Record for Coverage {
    fn same_record(&self, other: &Self) -> (r: bool) {
        self.same_as(other)
    }

    fn copy_record(&self) -> (r: Self) {
        self.duplicate()
    }
}

impl Record for Crash {
    fn same_record(&self, other: &Self) -> (r: bool) {
        self.same_as(other)
    }

    fn copy_record(&self) -> (r: Self) {
        self.duplicate()
    }
}

/// The models of the records, in order.
pub open spec fn record_views<T: View>(v: &Vec<T>) -> Seq<T::V> {
    Seq::new(v.len() as nat, |i: int| v[i]@)
}

/// Whether a record equal to `c` is in `set`.
pub fn contains_record<T: Record>(set: &Vec<T>, c: &T) -> (r: bool)
    ensures
        r == record_views(set).contains(c@),
{
    let mut i: usize = 0;
    while i < set.len()
        invariant
            0 <= i <= set.len(),
            forall|j: int| 0 <= j < i ==> #[trigger] set[j]@ != c@,
        decreases set.len() - i,
    {
        if set[i].same_record(c) {
            assert(record_views(set)[i as int] == c@);
            return true;
        }
        i = i + 1;
    }
    assert forall|j: int| 0 <= j < record_views(set).len() implies #[trigger] record_views(set)[j] != c@ by {
        assert(record_views(set)[j] == set[j]@);
    }
    false
}

/// The entries of `entries`, each once, in the order of first occurrence.
pub fn distinct_records<T: Record>(entries: &Vec<T>) -> (r: Vec<T>)
    ensures
        record_views(&r).no_duplicates(),
        forall|c: T::V| #[trigger] record_views(&r).contains(c) <==> record_views(entries).contains(c),
{
    let mut r: Vec<T> = Vec::new();
    let mut i: usize = 0;
    while i < entries.len()
        invariant
            0 <= i <= entries.len(),
            record_views(&r).no_duplicates(),
            forall|c: T::V|
                #[trigger] record_views(&r).contains(c) <==> record_views(entries).take(i as int).contains(c),
        decreases entries.len() - i,
    {
        let ghost before = record_views(&r);
        let ghost prefix = record_views(entries).take(i as int);
        let ghost next = record_views(entries).take(i + 1);
        assert(next =~= prefix.push(entries[i as int]@));
        assert(forall|c: T::V| #[trigger] before.contains(c) <==> prefix.contains(c));
        if !contains_record(&r, &entries[i]) {
            r.push(entries[i].copy_record());
            assert(record_views(&r) =~= before.push(entries[i as int]@));
        } else {
            assert(record_views(&r) =~= before);
        }
        let ghost x = entries[i as int]@;
        assert(record_views(&r).contains(x)) by {
            if before.contains(x) {
                let k = choose|k: int| 0 <= k < before.len() && before[k] == x;
                assert(record_views(&r)[k] == x);
            } else {
                assert(record_views(&r)[before.len() as int] == x);
            }
        }
        assert(next[i as int] == x);
        assert forall|c: T::V| #[trigger] record_views(&r).contains(c) <==> next.contains(c) by {
            if next.contains(c) {
                let k = choose|k: int| 0 <= k < next.len() && next[k] == c;
                if k < i {
                    assert(prefix[k] == c);
                    assert(before.contains(c));
                    let m = choose|m: int| 0 <= m < before.len() && before[m] == c;
                    assert(record_views(&r)[m] == c);
                }
            }
            if record_views(&r).contains(c) {
                let k = choose|k: int| 0 <= k < record_views(&r).len() && record_views(&r)[k] == c;
                if k < before.len() {
                    assert(before[k] == c);
                    assert(before.contains(c));
                    assert(prefix.contains(c));
                    let m = choose|m: int| 0 <= m < prefix.len() && prefix[m] == c;
                    assert(next[m] == c);
                }
            }
        }
        i = i + 1;
    }
    assert(record_views(entries).take(entries.len() as int) =~= record_views(entries));
    r
}

/// The plain state of a fuzzing campaign. The channels to the worker
/// threads, their statistics behind locks and the user interface are held
/// by the program that runs the campaign; this holds what the campaign
/// decides on.
pub struct Fuzzer {
    target_module: String,
    target_function: Option<String>,
    target_functions: Option<Vec<String>>,
    target_parameters: Vec<Type>,
    max_coverage: usize,
    use_state: bool,
    global_stats: Stats,
    coverage_set: Vec<Coverage>,
    unique_crashes_set: Vec<Crash>,
    loaded_coverage: Ghost<nat>,
    loaded_crashes: Ghost<nat>,
}

pub open spec fn string_views(v: &Vec<String>) -> Seq<Seq<char>> {
    Seq::new(v.len() as nat, |i: int| v[i]@)
}

impl Fuzzer {
    /// The coverage corpus, in the order its entries were added.
    pub closed spec fn corpus(&self) -> Seq<CoverageView> {
        record_views(&self.coverage_set)
    }

    /// The unique crashes, in the order they were found.
    pub closed spec fn known_crashes(&self) -> Seq<CrashView> {
        record_views(&self.unique_crashes_set)
    }

    /// The campaign-wide counters.
    pub closed spec fn stats(&self) -> Stats {
        self.global_stats
    }

    /// Whether the campaign fuzzes sequences of calls (stateful).
    pub closed spec fn is_stateful(&self) -> bool {
        self.use_state
    }

    pub closed spec fn module_name(&self) -> Seq<char> {
        self.target_module@
    }

    /// The targeted functions: the one function of a stateless campaign,
    /// the list of a stateful one.
    pub closed spec fn function_names(&self) -> Seq<Seq<char>> {
        if self.use_state {
            match &self.target_functions {
                Some(v) => string_views(v),
                None => Seq::empty(),
            }
        } else {
            match &self.target_function {
                Some(f) => seq![f@],
                None => Seq::empty(),
            }
        }
    }

    pub closed spec fn parameters(&self) -> Seq<TypeView> {
        views(&self.target_parameters)
    }

    pub closed spec fn coverage_bound(&self) -> usize {
        self.max_coverage
    }

    /// How many corpus entries were loaded when the campaign started.
    pub closed spec fn loaded_corpus(&self) -> nat {
        self.loaded_coverage@
    }

    /// How many crashes were loaded when the campaign started.
    pub closed spec fn loaded_crash_count(&self) -> nat {
        self.loaded_crashes@
    }

    /// The campaign's invariant: no record is held twice, the counters of
    /// new coverage and of unique crashes count what was added since the
    /// start, and the target is one function exactly when the campaign is
    /// stateless.
    #[verifier::type_invariant]
    pub closed spec fn wf(&self) -> bool {
        &&& self.corpus().no_duplicates()
        &&& self.known_crashes().no_duplicates()
        &&& self.coverage_set.len() == self.loaded_coverage@ + self.global_stats.coverage_size
        &&& self.unique_crashes_set.len() == self.loaded_crashes@ + self.global_stats.unique_crashes
        &&& (self.use_state <==> self.target_functions is Some)
        &&& (!self.use_state <==> self.target_function is Some)
    }

    /// A campaign on one function of `target_module`, starting from the
    /// coverage corpus and the crashes found earlier (each kept once).
    pub fn new_stateless(
        target_module: &str,
        target_function: &str,
        corpus: &Vec<Coverage>,
        crashes: &Vec<Crash>,
    ) -> (r: Fuzzer)
        ensures
            !r.is_stateful(),
            r.module_name() == target_module@,
            r.function_names() == seq![target_function@],
            r.parameters() == Seq::<TypeView>::empty(),
            r.coverage_bound() == 0,
            r.stats() == Stats::initial(r.stats().gas_map),
            r.stats().gas_map@ == Map::<Seq<char>, u64>::empty(),
            r.corpus().no_duplicates(),
            forall|c: CoverageView| #[trigger] r.corpus().contains(c) <==> record_views(corpus).contains(c),
            forall|c: CrashView| #[trigger] r.known_crashes().contains(c) <==> record_views(crashes).contains(c),
            r.loaded_corpus() == r.corpus().len(),
            r.loaded_crash_count() == r.known_crashes().len(),
    {
        let coverage_set = distinct_records(corpus);
        let unique_crashes_set = distinct_records(crashes);
        let ghost lc = coverage_set.len() as nat;
        let ghost lk = unique_crashes_set.len() as nat;
        let r = Fuzzer {
            target_module: target_module.to_owned(),
            target_function: Some(target_function.to_owned()),
            target_functions: None,
            target_parameters: Vec::new(),
            max_coverage: 0,
            use_state: false,
            global_stats: Stats::new(),
            coverage_set,
            unique_crashes_set,
            loaded_coverage: Ghost(lc),
            loaded_crashes: Ghost(lk),
        };
        assert(r.parameters() =~= Seq::<TypeView>::empty());
        r
    }

    /// A campaign on sequences of calls of `target_functions` in
    /// `target_module`, starting from the coverage corpus and the crashes
    /// found earlier (each kept once).
    pub fn new_stateful(
        target_module: &str,
        target_functions: &Vec<String>,
        corpus: &Vec<Coverage>,
        crashes: &Vec<Crash>,
    ) -> (r: Fuzzer)
        ensures
            r.is_stateful(),
            r.module_name() == target_module@,
            r.function_names() == string_views(target_functions),
            r.parameters() == Seq::<TypeView>::empty(),
            r.coverage_bound() == 0,
            r.stats() == Stats::initial(r.stats().gas_map),
            r.stats().gas_map@ == Map::<Seq<char>, u64>::empty(),
            r.corpus().no_duplicates(),
            forall|c: CoverageView| #[trigger] r.corpus().contains(c) <==> record_views(corpus).contains(c),
            forall|c: CrashView| #[trigger] r.known_crashes().contains(c) <==> record_views(crashes).contains(c),
            r.loaded_corpus() == r.corpus().len(),
            r.loaded_crash_count() == r.known_crashes().len(),
    {
        let coverage_set = distinct_records(corpus);
        let unique_crashes_set = distinct_records(crashes);
        let ghost lc = coverage_set.len() as nat;
        let ghost lk = unique_crashes_set.len() as nat;
        let mut names: Vec<String> = Vec::new();
        let mut i: usize = 0;
        while i < target_functions.len()
            invariant
                0 <= i <= target_functions.len(),
                names.len() == i,
                forall|j: int| 0 <= j < i ==> #[trigger] names[j]@ == target_functions[j]@,
            decreases target_functions.len() - i,
        {
            names.push(target_functions[i].clone());
            i = i + 1;
        }
        assert(string_views(&names) =~= string_views(target_functions));
        let r = Fuzzer {
            target_module: target_module.to_owned(),
            target_function: None,
            target_functions: Some(names),
            target_parameters: Vec::new(),
            max_coverage: 0,
            use_state: true,
            global_stats: Stats::new(),
            coverage_set,
            unique_crashes_set,
            loaded_coverage: Ghost(lc),
            loaded_crashes: Ghost(lk),
        };
        assert(r.parameters() =~= Seq::<TypeView>::empty());
        r
    }

    /// A campaign on nothing, with nothing recorded.
    fn empty_campaign() -> (r: Fuzzer) {
        Fuzzer {
            target_module: String::new(),
            target_function: Some(String::new()),
            target_functions: None,
            target_parameters: Vec::new(),
            max_coverage: 0,
            use_state: false,
            global_stats: Stats::new(),
            coverage_set: Vec::new(),
            unique_crashes_set: Vec::new(),
            loaded_coverage: Ghost(0),
            loaded_crashes: Ghost(0),
        }
    }

    /// The two campaigns target the same thing and started from the same
    /// loaded records.
    pub open spec fn same_target(&self, other: Fuzzer) -> bool {
        &&& self.is_stateful() == other.is_stateful()
        &&& self.module_name() == other.module_name()
        &&& self.function_names() == other.function_names()
        &&& self.parameters() == other.parameters()
        &&& self.coverage_bound() == other.coverage_bound()
        &&& self.loaded_corpus() == other.loaded_corpus()
        &&& self.loaded_crash_count() == other.loaded_crash_count()
    }

    /// Takes in the coverage set a worker reports: the corpus gains the
    /// worker's entries that it lacked (each counted as new coverage, and
    /// resetting the time since the last new coverage), and the worker is
    /// to be sent the corpus entries that it lacks.
    pub fn merge_coverage(&mut self, worker_set: &Vec<Coverage>) -> (r: CoverageMerge)
        ensures
            final(self).corpus() == old(self).corpus() + record_views(&r.added),
            record_views(&r.added).no_duplicates(),
            forall|c: CoverageView|
                #[trigger] record_views(&r.added).contains(c) <==> (record_views(worker_set).contains(c)
                    && !old(self).corpus().contains(c)),
            match r.response {
                Some(m) => {
                    &&& m.len() > 0
                    &&& record_views(&m).no_duplicates()
                    &&& forall|c: CoverageView|
                        #[trigger] record_views(&m).contains(c) <==> (old(self).corpus().contains(c)
                            && !record_views(worker_set).contains(c))
                },
                None => forall|c: CoverageView|
                    #[trigger] old(self).corpus().contains(c) ==> record_views(worker_set).contains(c),
            },
            final(self).stats() == (Stats {
                coverage_size: #[verifier::truncate] ((old(self).stats().coverage_size + r.added.len()) as u64),
                secs_since_last_cov: if r.added.len() > 0 {
                    0
                } else {
                    old(self).stats().secs_since_last_cov
                },
                ..old(self).stats()
            }),
            final(self).known_crashes() == old(self).known_crashes(),
            final(self).same_target(*old(self)),
            keeps_records(*old(self), *final(self)),
    {
        proof {
            use_type_invariant(&*self);
        }
        let mut owned = Fuzzer::empty_campaign();
        std::mem::swap(self, &mut owned);
        proof {
            use_type_invariant(&owned);
        }
        let Fuzzer {
            target_module,
            target_function,
            target_functions,
            target_parameters,
            max_coverage,
            use_state,
            mut global_stats,
            mut coverage_set,
            unique_crashes_set,
            loaded_coverage,
            loaded_crashes,
        } = owned;
        let ghost corpus = record_views(&coverage_set);
        let ghost worker = record_views(worker_set);
        let mut missing: Vec<Coverage> = Vec::new();
        let mut i: usize = 0;
        while i < coverage_set.len()
            invariant
                0 <= i <= coverage_set.len(),
                corpus == record_views(&coverage_set),
                worker == record_views(worker_set),
                corpus.no_duplicates(),
                record_views(&missing).no_duplicates(),
                forall|c: CoverageView|
                    #[trigger] record_views(&missing).contains(c) <==> (corpus.take(i as int).contains(c)
                        && !worker.contains(c)),
            decreases coverage_set.len() - i,
        {
            let ghost before = record_views(&missing);
            let ghost x = corpus[i as int];
            assert(corpus.take(i + 1) =~= corpus.take(i as int).push(x));
            assert(coverage_set[i as int]@ == x);
            assert(!corpus.take(i as int).contains(x)) by {
                if corpus.take(i as int).contains(x) {
                    let k = choose|k: int| 0 <= k < i && corpus.take(i as int)[k] == x;
                    assert(corpus[k] == corpus[i as int]);
                }
            }
            if !contains_record(worker_set, &coverage_set[i]) {
                missing.push(coverage_set[i].copy_record());
                assert(record_views(&missing) =~= before.push(x));
                assert(!before.contains(x));
                assert forall|c: CoverageView|
                    #[trigger] record_views(&missing).contains(c) <==> (corpus.take(i + 1).contains(c)
                        && !worker.contains(c)) by {
                    vstd::seq_lib::lemma_seq_contains_after_push(before, x, c);
                    vstd::seq_lib::lemma_seq_contains_after_push(corpus.take(i as int), x, c);
                }
            } else {
                assert(record_views(&missing) =~= before);
                assert forall|c: CoverageView|
                    #[trigger] record_views(&missing).contains(c) <==> (corpus.take(i + 1).contains(c)
                        && !worker.contains(c)) by {
                    assert(corpus.take(i as int).push(x).contains(c) <==> (c == x || corpus.take(i as int).contains(c)));
                }
            }
            i = i + 1;
        }
        assert(corpus.take(corpus.len() as int) =~= corpus);
        let response = if missing.len() > 0 {
            Some(missing)
        } else {
            assert forall|c: CoverageView| #[trigger] corpus.contains(c) implies worker.contains(c) by {
                if !worker.contains(c) {
                    assert(record_views(&missing).contains(c));
                }
            }
            None
        };
        let ghost old_stats = global_stats;
        let mut added: Vec<Coverage> = Vec::new();
        let mut j: usize = 0;
        while j < worker_set.len()
            invariant
                0 <= j <= worker_set.len(),
                worker == record_views(worker_set),
                record_views(&coverage_set) == corpus + record_views(&added),
                record_views(&coverage_set).no_duplicates(),
                record_views(&added).no_duplicates(),
                forall|c: CoverageView|
                    #[trigger] record_views(&added).contains(c) <==> (worker.take(j as int).contains(c)
                        && !corpus.contains(c)),
                global_stats == (Stats {
                    coverage_size: #[verifier::truncate] ((old_stats.coverage_size + added.len()) as u64),
                    secs_since_last_cov: if added.len() > 0 {
                        0
                    } else {
                        old_stats.secs_since_last_cov
                    },
                    ..old_stats
                }),
                coverage_set.len() == loaded_coverage@ + global_stats.coverage_size,
                corpus.len() == loaded_coverage@ + old_stats.coverage_size,
                usize::MAX <= u64::MAX,
            decreases worker_set.len() - j,
        {
            let ghost current = record_views(&coverage_set);
            let ghost before = record_views(&added);
            let ghost x = worker[j as int];
            assert(worker.take(j + 1) =~= worker.take(j as int).push(x));
            assert(worker_set[j as int]@ == x);
            assert(current == corpus + before);
            assert(current.contains(x) <==> (corpus.contains(x) || before.contains(x)));
            if !contains_record(&coverage_set, &worker_set[j]) {
                coverage_set.push(worker_set[j].copy_record());
                added.push(worker_set[j].copy_record());
                assert(record_views(&coverage_set) =~= current.push(x));
                assert(record_views(&added) =~= before.push(x));
                assert(current.push(x) =~= corpus + before.push(x));
                assert(!current.contains(x));
                assert(!before.contains(x));
                assert(!corpus.contains(x));
                assert(usize::MAX <= u64::MAX);
                global_stats.coverage_size = global_stats.coverage_size + 1;
                global_stats.secs_since_last_cov = 0;
            } else {
                assert(record_views(&added) =~= before);
                proof {
                    if !corpus.contains(x) {
                        assert(before.contains(x));
                    }
                }
            }
            j = j + 1;
        }
        assert(worker.take(worker.len() as int) =~= worker);
        *self = Fuzzer {
            target_module,
            target_function,
            target_functions,
            target_parameters,
            max_coverage,
            use_state,
            global_stats,
            coverage_set,
            unique_crashes_set,
            loaded_coverage,
            loaded_crashes,
        };
        CoverageMerge { response, added }
    }

    /// Records a crash of `target_function` on `inputs` with `error`
    /// (reached through `call_sequence` in stateful fuzzing): a crash not
    /// seen before joins the unique crashes and is counted; it is to be
    /// reported when it is new, and always in a stateless campaign.
    pub fn record_crash(
        &mut self,
        target_function: &String,
        inputs: &Vec<Type>,
        error: &String,
        call_sequence: Option<Vec<Call>>,
    ) -> (r: CrashRecord)
        ensures
            r.crash@ == (CrashView {
                target_module: old(self).module_name(),
                target_function: target_function@,
                inputs: views(inputs),
                error: error@,
                call_sequence: match call_sequence {
                    Some(calls) => Some(call_views(&calls)),
                    None => None,
                },
            }),
            r.is_new == !old(self).known_crashes().contains(r.crash@),
            final(self).known_crashes() == if r.is_new {
                old(self).known_crashes().push(r.crash@)
            } else {
                old(self).known_crashes()
            },
            final(self).stats() == (Stats {
                unique_crashes: if r.is_new {
                    (old(self).stats().unique_crashes + 1) as u64
                } else {
                    old(self).stats().unique_crashes
                },
                ..old(self).stats()
            }),
            r.report == (!old(self).is_stateful() || r.is_new),
            final(self).corpus() == old(self).corpus(),
            final(self).same_target(*old(self)),
            keeps_records(*old(self), *final(self)),
    {
        proof {
            use_type_invariant(&*self);
        }
        let mut crash = Crash::new(&self.target_module, target_function, inputs, error);
        match call_sequence {
            Some(calls) => {
                crash = crash.with_call_sequence(calls);
            },
            None => {},
        }
        let is_new = !contains_record(&self.unique_crashes_set, &crash);
        let report = !self.use_state || is_new;
        if is_new {
            let mut owned = Fuzzer::empty_campaign();
            std::mem::swap(self, &mut owned);
            proof {
                use_type_invariant(&owned);
            }
            let Fuzzer {
                target_module,
                target_function,
                target_functions,
                target_parameters,
                max_coverage,
                use_state,
                mut global_stats,
                coverage_set,
                mut unique_crashes_set,
                loaded_coverage,
                loaded_crashes,
            } = owned;
            let ghost before = record_views(&unique_crashes_set);
            unique_crashes_set.push(crash.copy_record());
            assert(record_views(&unique_crashes_set) =~= before.push(crash@));
            assert(usize::MAX <= u64::MAX);
            global_stats.unique_crashes = global_stats.unique_crashes + 1;
            *self = Fuzzer {
                target_module,
                target_function,
                target_functions,
                target_parameters,
                max_coverage,
                use_state,
                global_stats,
                coverage_set,
                unique_crashes_set,
                loaded_coverage,
                loaded_crashes,
            };
        }
        CrashRecord { crash, is_new, report }
    }

    /// One more second of running time: the number of executions per
    /// second becomes the executions so far over the seconds run.
    pub fn tick_second(&mut self)
        requires
            old(self).stats().time_running < u64::MAX,
            old(self).stats().secs_since_last_cov < u64::MAX,
        ensures
            final(self).stats() == (Stats {
                time_running: (old(self).stats().time_running + 1) as u64,
                secs_since_last_cov: (old(self).stats().secs_since_last_cov + 1) as u64,
                execs_per_sec: (old(self).stats().execs as int / (old(self).stats().time_running + 1)) as u64,
                ..old(self).stats()
            }),
            final(self).corpus() == old(self).corpus(),
            final(self).known_crashes() == old(self).known_crashes(),
            final(self).same_target(*old(self)),
            keeps_records(*old(self), *final(self)),
    {
        proof {
            use_type_invariant(&*self);
        }
        self.global_stats.execs_per_sec = self.global_stats.execs;
        self.global_stats.time_running = self.global_stats.time_running + 1;
        self.global_stats.secs_since_last_cov = self.global_stats.secs_since_last_cov + 1;
        self.global_stats.execs_per_sec = self.global_stats.execs_per_sec / self.global_stats.time_running;
    }

    /// Sets the campaign's executions and crashes to the totals over the
    /// worker threads.
    pub fn set_totals(&mut self, thread_execs: &Vec<u64>, thread_crashes: &Vec<u64>)
        requires
            seq_sum(thread_execs@) <= u64::MAX,
            seq_sum(thread_crashes@) <= u64::MAX,
        ensures
            final(self).stats() == (Stats {
                execs: seq_sum(thread_execs@) as u64,
                crashes: seq_sum(thread_crashes@) as u64,
                ..old(self).stats()
            }),
            final(self).corpus() == old(self).corpus(),
            final(self).known_crashes() == old(self).known_crashes(),
            final(self).same_target(*old(self)),
            keeps_records(*old(self), *final(self)),
    {
        proof {
            use_type_invariant(&*self);
        }
        self.global_stats.execs = total(thread_execs);
        self.global_stats.crashes = total(thread_crashes);
    }

    /// Whether a status line is due: a positive interval that divides a
    /// positive number of executions.
    pub fn status_due(&self, status_interval: u64) -> (r: bool)
        ensures
            r == (status_interval > 0 && self.stats().execs > 0 && self.stats().execs
                % status_interval == 0),
    {
        status_interval > 0 && self.global_stats.execs > 0 && self.global_stats.execs
            % status_interval == 0
    }

    /// What the target looks like once the runner is built: the target's
    /// parameter types and the number of coverage points it has.
    pub fn set_target_info(&mut self, parameters: Vec<Type>, max_coverage: usize)
        ensures
            final(self).parameters() == views(&parameters),
            final(self).coverage_bound() == max_coverage,
            final(self).stats() == old(self).stats(),
            final(self).corpus() == old(self).corpus(),
            final(self).known_crashes() == old(self).known_crashes(),
            final(self).is_stateful() == old(self).is_stateful(),
            final(self).module_name() == old(self).module_name(),
            final(self).function_names() == old(self).function_names(),
            final(self).loaded_corpus() == old(self).loaded_corpus(),
            final(self).loaded_crash_count() == old(self).loaded_crash_count(),
            keeps_records(*old(self), *final(self)),
    {
        proof {
            use_type_invariant(&*self);
        }
        self.target_parameters = parameters;
        self.max_coverage = max_coverage;
    }

    /// The name shown for the target: the function of a stateless
    /// campaign, the functions of a stateful one joined by ", ".
    pub fn target_label(&self) -> (r: String)
        ensures
            r@ == joined(self.function_names(), ", "@),
    {
        if self.use_state {
            match &self.target_functions {
                Some(names) => join_names(names, ", "),
                None => String::new(),
            }
        } else {
            match &self.target_function {
                Some(f) => {
                    assert(joined(seq![f@], ", "@) == f@);
                    f.clone()
                },
                None => String::new(),
            }
        }
    }

    /// The campaign-wide counters.
    pub fn global_stats(&self) -> (r: &Stats)
        ensures
            *r == self.stats(),
    {
        &self.global_stats
    }

    /// The coverage corpus.
    pub fn coverage_set(&self) -> (r: &Vec<Coverage>)
        ensures
            record_views(r) == self.corpus(),
    {
        &self.coverage_set
    }

    pub fn target_module(&self) -> (r: &String)
        ensures
            r@ == self.module_name(),
    {
        &self.target_module
    }

    pub fn target_parameters(&self) -> (r: &Vec<Type>)
        ensures
            views(r) == self.parameters(),
    {
        &self.target_parameters
    }

    pub fn max_coverage(&self) -> (r: usize)
        ensures
            r == self.coverage_bound(),
    {
        self.max_coverage
    }

    pub fn use_state(&self) -> (r: bool)
        ensures
            r == self.is_stateful(),
    {
        self.use_state
    }
}

/// `after` follows `before` in a campaign: no record is lost (the
/// corpus and the unique crashes only grow at their end) and the counts
/// loaded at the start stay.
pub open spec fn keeps_records(before: Fuzzer, after: Fuzzer) -> bool {
    &&& before.corpus().is_prefix_of(after.corpus())
    &&& before.known_crashes().is_prefix_of(after.known_crashes())
    &&& after.loaded_corpus() == before.loaded_corpus()
    &&& after.loaded_crash_count() == before.loaded_crash_count()
}

/// Over any number of steps of a campaign started from its loaded records
/// (each step one of the methods that change it), the records held at the
/// start stay, in order, at the front of the corpus and of the unique
/// crashes, and the counters of new coverage and of unique crashes count
/// exactly the records added since the start.
pub proof fn lemma_records_over_steps(states: Seq<Fuzzer>)
    requires
        states.len() > 0,
        states[0].loaded_corpus() == states[0].corpus().len(),
        states[0].loaded_crash_count() == states[0].known_crashes().len(),
        forall|i: int| 0 <= i < states.len() ==> #[trigger] states[i].wf(),
        forall|i: int| 0 <= i < states.len() - 1 ==> keeps_records(#[trigger] states[i], states[i + 1]),
    ensures
        forall|j: int|
            0 <= j < states.len() ==> {
                &&& states[0].corpus().is_prefix_of(#[trigger] states[j].corpus())
                &&& states[0].known_crashes().is_prefix_of(states[j].known_crashes())
                &&& states[j].stats().coverage_size == states[j].corpus().len()
                    - states[0].corpus().len()
                &&& states[j].stats().unique_crashes == states[j].known_crashes().len()
                    - states[0].known_crashes().len()
            },
{
    assert forall|j: int| 0 <= j < states.len() implies {
        &&& states[0].corpus().is_prefix_of(#[trigger] states[j].corpus())
        &&& states[0].known_crashes().is_prefix_of(states[j].known_crashes())
        &&& states[j].stats().coverage_size == states[j].corpus().len() - states[0].corpus().len()
        &&& states[j].stats().unique_crashes == states[j].known_crashes().len()
            - states[0].known_crashes().len()
    } by {
        lemma_records_up_to(states, j);
        lemma_counters_count_records(states[j]);
    }
}

proof fn lemma_records_up_to(states: Seq<Fuzzer>, j: int)
    requires
        0 <= j < states.len(),
        forall|i: int| 0 <= i < states.len() - 1 ==> keeps_records(#[trigger] states[i], states[i + 1]),
    ensures
        states[0].corpus().is_prefix_of(states[j].corpus()),
        states[0].known_crashes().is_prefix_of(states[j].known_crashes()),
        states[j].loaded_corpus() == states[0].loaded_corpus(),
        states[j].loaded_crash_count() == states[0].loaded_crash_count(),
    decreases j,
{
    if j > 0 {
        lemma_records_up_to(states, j - 1);
        assert(keeps_records(states[j - 1], states[j]));
        let a = states[0].corpus();
        let b = states[j - 1].corpus();
        let c = states[j].corpus();
        assert(a =~= c.subrange(0, a.len() as int)) by {
            assert forall|k: int| 0 <= k < a.len() implies a[k] == c[k] by {
                assert(a[k] == b.subrange(0, a.len() as int)[k]);
                assert(b[k] == c.subrange(0, b.len() as int)[k]);
            }
        }
        let x = states[0].known_crashes();
        let y = states[j - 1].known_crashes();
        let z = states[j].known_crashes();
        assert(x =~= z.subrange(0, x.len() as int)) by {
            assert forall|k: int| 0 <= k < x.len() implies x[k] == z[k] by {
                assert(x[k] == y.subrange(0, x.len() as int)[k]);
                assert(y[k] == z.subrange(0, y.len() as int)[k]);
            }
        }
    } else {
        assert(states[0].corpus() =~= states[0].corpus().subrange(0, states[0].corpus().len() as int));
        assert(states[0].known_crashes() =~= states[0].known_crashes().subrange(
            0,
            states[0].known_crashes().len() as int,
        ));
    }
}

/// In a well-formed campaign no coverage entry or crash is held twice,
/// and the counters of new coverage and of unique crashes count exactly
/// the records added since the campaign started.
pub proof fn lemma_counters_count_records(f: Fuzzer)
    requires
        f.wf(),
    ensures
        f.corpus().no_duplicates(),
        f.known_crashes().no_duplicates(),
        f.corpus().len() == f.loaded_corpus() + f.stats().coverage_size,
        f.known_crashes().len() == f.loaded_crash_count() + f.stats().unique_crashes,
{
}

/// After taking in a worker's coverage set, the corpus holds exactly what
/// it held before together with the worker's entries: nothing is lost and
/// nothing else is added.
pub proof fn lemma_merge_is_union(
    before: Seq<CoverageView>,
    after: Seq<CoverageView>,
    worker: Seq<CoverageView>,
    added: Seq<CoverageView>,
)
    requires
        after == before + added,
        forall|c: CoverageView| #[trigger] added.contains(c) <==> (worker.contains(c) && !before.contains(c)),
    ensures
        forall|c: CoverageView| #[trigger] after.contains(c) <==> (before.contains(c) || worker.contains(c)),
{
    assert forall|c: CoverageView| #[trigger] after.contains(c) <==> (before.contains(c) || worker.contains(c)) by {
        assert((before + added).contains(c) <==> (before.contains(c) || added.contains(c)));
    }
}

/// Once a crash has been recorded it is known, so recording it again does
/// not report it as new.
pub proof fn lemma_crash_new_once(before: Seq<CrashView>, after: Seq<CrashView>, c: CrashView, is_new: bool)
    requires
        is_new == !before.contains(c),
        after == if is_new {
            before.push(c)
        } else {
            before
        },
    ensures
        after.contains(c),
{
    if is_new {
        assert(after[before.len() as int] == c);
    }
}

/// The sum of the counts.
pub open spec fn seq_sum(s: Seq<u64>) -> nat
    decreases s.len(),
{
    if s.len() == 0 {
        0
    } else {
        seq_sum(s.drop_last()) + s.last() as nat
    }
}

pub proof fn lemma_seq_sum_prefix(s: Seq<u64>, i: int)
    requires
        0 <= i <= s.len(),
    ensures
        seq_sum(s.take(i)) <= seq_sum(s),
    decreases s.len() - i,
{
    if i < s.len() {
        lemma_seq_sum_prefix(s, i + 1);
        assert(s.take(i + 1).drop_last() =~= s.take(i));
    } else {
        assert(s.take(i) =~= s);
    }
}

/// `seq_sum` is the sum of all the counts, however many there are: the
/// empty sum is 0, one more count adds exactly that count, the sum of two
/// runs of counts is the sum of their sums, and no count exceeds the sum.
pub proof fn lemma_seq_sum_adds_every_count(s: Seq<u64>, t: Seq<u64>, x: u64)
    ensures
        seq_sum(Seq::<u64>::empty()) == 0,
        seq_sum(s.push(x)) == seq_sum(s) + x,
        seq_sum(s + t) == seq_sum(s) + seq_sum(t),
        forall|i: int| 0 <= i < s.len() ==> s[i] <= #[trigger] seq_sum(s),
    decreases t.len(),
{
    assert(s.push(x).drop_last() =~= s);
    if t.len() > 0 {
        lemma_seq_sum_adds_every_count(s, t.drop_last(), x);
        assert((s + t).drop_last() =~= s + t.drop_last());
    } else {
        assert(s + t =~= s);
    }
    assert forall|i: int| 0 <= i < s.len() implies s[i] <= #[trigger] seq_sum(s) by {
        lemma_seq_sum_has_count(s, i);
    }
}

proof fn lemma_seq_sum_has_count(s: Seq<u64>, i: int)
    requires
        0 <= i < s.len(),
    ensures
        s[i] <= seq_sum(s),
    decreases s.len(),
{
    if i < s.len() - 1 {
        lemma_seq_sum_has_count(s.drop_last(), i);
    }
}

/// The sum of per-thread counts.
pub fn total(counts: &Vec<u64>) -> (r: u64)
    requires
        seq_sum(counts@) <= u64::MAX,
    ensures
        r == seq_sum(counts@),
{
    let mut sum: u64 = 0;
    let mut i: usize = 0;
    assert(counts@.take(0) =~= Seq::<u64>::empty());
    while i < counts.len()
        invariant
            0 <= i <= counts.len(),
            sum == seq_sum(counts@.take(i as int)),
            seq_sum(counts@) <= u64::MAX,
        decreases counts.len() - i,
    {
        proof {
            assert(counts@.take(i + 1).drop_last() =~= counts@.take(i as int));
            lemma_seq_sum_prefix(counts@, i + 1);
        }
        sum = sum + counts[i];
        i = i + 1;
    }
    assert(counts@.take(counts.len() as int) =~= counts@);
    sum
}

/// The names joined by `sep`.
pub open spec fn joined(names: Seq<Seq<char>>, sep: Seq<char>) -> Seq<char>
    decreases names.len(),
{
    if names.len() == 0 {
        Seq::empty()
    } else if names.len() == 1 {
        names[0]
    } else {
        joined(names.drop_last(), sep) + sep + names.last()
    }
}

/// Joining puts every name in, in order, with `sep` between each two:
/// no names give nothing, one name gives itself, and one more name after
/// at least one appends `sep` and that name, however many came before.
pub proof fn lemma_joined_appends_every_name(names: Seq<Seq<char>>, sep: Seq<char>, x: Seq<char>)
    ensures
        joined(Seq::<Seq<char>>::empty(), sep) == Seq::<char>::empty(),
        joined(seq![x], sep) == x,
        names.len() > 0 ==> joined(names.push(x), sep) == joined(names, sep) + sep + x,
{
    assert(names.push(x).drop_last() =~= names);
}

/// The names joined by `sep`.
pub fn join_names(names: &Vec<String>, sep: &str) -> (r: String)
    ensures
        r@ == joined(string_views(names), sep@),
{
    let mut r = String::new();
    let mut i: usize = 0;
    while i < names.len()
        invariant
            0 <= i <= names.len(),
            r@ == joined(string_views(names).take(i as int), sep@),
        decreases names.len() - i,
    {
        let ghost prev = string_views(names).take(i as int);
        let ghost next = string_views(names).take(i + 1);
        assert(next.drop_last() =~= prev);
        if i > 0 {
            r.append(sep);
        }
        r.append(names[i].as_str());
        proof {
            if i == 0 {
                assert(r@ =~= next[0]);
            } else {
                assert(r@ =~= joined(prev, sep@) + sep@ + next.last());
            }
        }
        i = i + 1;
    }
    assert(string_views(names).take(names.len() as int) =~= string_views(names));
    r
}

/// The crash to send to every worker once a round of reports is taken
/// in: the last new crash recorded in the round, else the one pending.
pub fn next_broadcast(pending: Option<Crash>, record: CrashRecord) -> (r: Option<Crash>)
    ensures
        r == if record.is_new {
            Some(record.crash)
        } else {
            pending
        },
{
    if record.is_new {
        Some(record.crash)
    } else {
        pending
    }
}

/// The seed of the `index`-th worker thread.
pub fn worker_seed(seed: u64, index: usize) -> (r: u64)
    requires
        seed + index <= u64::MAX,
    ensures
        r == seed + index,
{
    seed + index as u64
}

/// What recording a crash gave.
pub struct CrashRecord {
    /// The crash as recorded.
    pub crash: Crash,
    /// Whether it was not among the unique crashes before.
    pub is_new: bool,
    /// Whether it is to be reported.
    pub report: bool,
}


/// What taking in a worker's coverage set gave.
pub struct CoverageMerge {
    /// The corpus entries the worker lacks, to be sent back to it; `None`
    /// when it lacks none.
    pub response: Option<Vec<Coverage>>,
    /// The worker's entries that were new to the corpus, in the worker's
    /// order.
    pub added: Vec<Coverage>,
}

} // verus!
