use vstd::prelude::*;

use crate::mutator::types::{Type, TypeView};

verus! {

/// No key occurs twice.
pub open spec fn distinct_keys(s: Seq<(String, u64)>) -> bool {
    forall|i: int, j: int| 0 <= i < j < s.len() ==> #[trigger] s[i].0@ != #[trigger] s[j].0@
}

/// The map that the entries describe, later entries taking precedence.
pub open spec fn entries_map(s: Seq<(String, u64)>) -> Map<Seq<char>, u64>
    decreases s.len(),
{
    if s.len() == 0 {
        Map::empty()
    } else {
        entries_map(s.drop_last()).insert(s.last().0@, s.last().1)
    }
}

pub proof fn lemma_entries_map(s: Seq<(String, u64)>)
    requires
        distinct_keys(s),
    ensures
        forall|k: Seq<char>|
            #![trigger entries_map(s).contains_key(k)]
            entries_map(s).contains_key(k) <==> exists|i: int| 0 <= i < s.len() && #[trigger] s[i].0@ == k,
        forall|i: int| 0 <= i < s.len() ==> #[trigger] entries_map(s)[s[i].0@] == s[i].1,
    decreases s.len(),
{
    if s.len() > 0 {
        let t = s.drop_last();
        assert(distinct_keys(t));
        lemma_entries_map(t);
        assert forall|k: Seq<char>|
            #![trigger entries_map(s).contains_key(k)]
            entries_map(s).contains_key(k) <==> exists|i: int| 0 <= i < s.len() && #[trigger] s[i].0@ == k by {
            if entries_map(t).contains_key(k) {
                let i = choose|i: int| 0 <= i < t.len() && #[trigger] t[i].0@ == k;
                assert(s[i].0@ == k);
            }
            if exists|i: int| 0 <= i < s.len() && #[trigger] s[i].0@ == k {
                let i = choose|i: int| 0 <= i < s.len() && #[trigger] s[i].0@ == k;
                if i < s.len() - 1 {
                    assert(t[i].0@ == k);
                }
            }
        }
        assert forall|i: int| 0 <= i < s.len() implies #[trigger] entries_map(s)[s[i].0@] == s[i].1 by {
            if i < s.len() - 1 {
                assert(t[i] == s[i]);
                assert(s[i].0@ != s[s.len() - 1].0@);
                assert(entries_map(t)[t[i].0@] == t[i].1);
            }
        }
    }
}

pub proof fn lemma_entries_map_update(s: Seq<(String, u64)>, i: int, e: (String, u64))
    requires
        distinct_keys(s),
        0 <= i < s.len(),
        e.0@ == s[i].0@,
    ensures
        distinct_keys(s.update(i, e)),
        entries_map(s.update(i, e)) == entries_map(s).insert(e.0@, e.1),
{
    let u = s.update(i, e);
    assert(distinct_keys(u)) by {
        assert forall|a: int, b: int| 0 <= a < b < u.len() implies #[trigger] u[a].0@ != #[trigger] u[b].0@ by {
            assert(s[a].0@ != s[b].0@);
        }
    }
    lemma_entries_map(s);
    lemma_entries_map(u);
    assert forall|k: Seq<char>| #[trigger] entries_map(u).contains_key(k) == entries_map(s).insert(e.0@, e.1).contains_key(k) by {
        if exists|j: int| 0 <= j < s.len() && #[trigger] s[j].0@ == k {
            let j = choose|j: int| 0 <= j < s.len() && #[trigger] s[j].0@ == k;
            assert(u[j].0@ == k);
        }
        if exists|j: int| 0 <= j < u.len() && #[trigger] u[j].0@ == k {
            let j = choose|j: int| 0 <= j < u.len() && #[trigger] u[j].0@ == k;
            assert(s[j].0@ == k);
        }
    }
    assert forall|k: Seq<char>| #[trigger] entries_map(u).contains_key(k) implies entries_map(u)[k]
        == entries_map(s).insert(e.0@, e.1)[k] by {
        let j = choose|j: int| 0 <= j < u.len() && #[trigger] u[j].0@ == k;
        assert(entries_map(u)[u[j].0@] == u[j].1);
        if j != i {
            assert(entries_map(s)[s[j].0@] == s[j].1);
        }
    }
    assert(entries_map(u) =~= entries_map(s).insert(e.0@, e.1));
}

/// Entries with the same keys and values, pointwise, describe the same map.
pub proof fn lemma_entries_map_same_keys(a: Seq<(String, u64)>, b: Seq<(String, u64)>)
    requires
        a.len() == b.len(),
        forall|j: int| 0 <= j < a.len() ==> #[trigger] a[j].0@ == b[j].0@ && a[j].1 == b[j].1,
    ensures
        distinct_keys(b) ==> distinct_keys(a),
        entries_map(a) == entries_map(b),
    decreases a.len(),
{
    if a.len() > 0 {
        lemma_entries_map_same_keys(a.drop_last(), b.drop_last());
        assert(a.drop_last().len() == b.drop_last().len());
    }
    if distinct_keys(b) {
        assert forall|i: int, j: int| 0 <= i < j < a.len() implies #[trigger] a[i].0@ != #[trigger] a[j].0@ by {
            assert(b[i].0@ != b[j].0@);
        }
    }
}

/// Highest gas seen per target function, by function name.
#[derive(Debug)]
pub struct GasTable {
    entries: Vec<(String, u64)>,
}

impl GasTable {
    #[verifier::type_invariant]
    spec fn keys_are_distinct(self) -> bool {
        distinct_keys(self.entries@)
    }
}

impl View for GasTable {
    type V = Map<Seq<char>, u64>;

    closed spec fn view(&self) -> Map<Seq<char>, u64> {
        entries_map(self.entries@)
    }
}

impl GasTable {
    pub fn new() -> (r: GasTable)
        ensures
            r@ == Map::<Seq<char>, u64>::empty(),
    {
        GasTable { entries: Vec::new() }
    }

    /// The value recorded for `key`, if any.
    #[verifier::loop_isolation(false)]
    pub fn get(&self, key: &String) -> (r: Option<u64>)
        ensures
            r == (if self@.contains_key(key@) {
                Some(self@[key@])
            } else {
                None
            }),
    {
        proof {
            use_type_invariant(self);
            lemma_entries_map(self.entries@);
        }
        let mut i: usize = 0;
        while i < self.entries.len()
            invariant
                0 <= i <= self.entries.len(),
                forall|j: int| 0 <= j < i ==> #[trigger] self.entries@[j].0@ != key@,
            decreases self.entries.len() - i,
        {
            if self.entries[i].0 == *key {
                return Some(self.entries[i].1);
            }
            i = i + 1;
        }
        None
    }

    /// Records `value` for `key`, replacing what was recorded before.
    #[verifier::loop_isolation(false)]
    pub fn set(&mut self, key: String, value: u64)
        ensures
            final(self)@ == old(self)@.insert(key@, value),
    {
        proof {
            use_type_invariant(&*self);
        }
        let mut i: usize = 0;
        while i < self.entries.len()
            invariant
                0 <= i <= self.entries.len(),
                distinct_keys(self.entries@),
                self.entries@ == old(self).entries@,
                forall|j: int| 0 <= j < i ==> #[trigger] self.entries@[j].0@ != key@,
            decreases self.entries.len() - i,
        {
            if self.entries[i].0 == key {
                let ghost before = self.entries@;
                proof {
                    lemma_entries_map_update(before, i as int, (key, value));
                }
                let ghost e = (key, value);
                let mut entries: Vec<(String, u64)> = Vec::new();
                std::mem::swap(&mut entries, &mut self.entries);
                assert(entries@ == before);
                entries.set(i, (key, value));
                assert(entries@ == before.update(i as int, e));
                self.entries = entries;
                assert(self@ == entries_map(before.update(i as int, e)));
                assert(old(self)@ == entries_map(before));
                return;
            }
            i = i + 1;
        }
        let ghost before = self.entries@;
        let mut entries: Vec<(String, u64)> = Vec::new();
                std::mem::swap(&mut entries, &mut self.entries);
        entries.push((key, value));
        proof {
            assert(entries@.drop_last() =~= before);
            assert(old(self)@ == entries_map(before));
            assert(distinct_keys(entries@));
        }
        self.entries = entries;
    }
}

impl Clone for GasTable {
    fn clone(&self) -> (r: GasTable)
        ensures
            r@ == self@,
    {
        proof {
            use_type_invariant(self);
        }
        let mut entries: Vec<(String, u64)> = Vec::new();
        let mut i: usize = 0;
        while i < self.entries.len()
            invariant
                0 <= i <= self.entries.len(),
                distinct_keys(self.entries@),
                entries.len() == i,
                forall|j: int|
                    0 <= j < i ==> #[trigger] entries@[j].0@ == self.entries@[j].0@ && entries@[j].1
                        == self.entries@[j].1,
            decreases self.entries.len() - i,
        {
            entries.push((self.entries[i].0.clone(), self.entries[i].1));
            i = i + 1;
        }
        proof {
            lemma_entries_map_same_keys(entries@, self.entries@);
        }
        GasTable { entries }
    }
}

/// Counters of a fuzzing thread, or of the whole campaign.
#[derive(Clone, Debug)]
pub struct Stats {
    pub crashes: u64,
    pub unique_crashes: u64,
    pub execs: u64,
    pub time_running: u64,
    pub execs_per_sec: u64,
    pub coverage_size: u64,
    pub secs_since_last_cov: u64,
    /// Highest gas used by a call of each target function.
    pub gas_map: GasTable,
}

/// The name under which a target function's gas is recorded.
pub open spec fn function_key(function: TypeView) -> Seq<char> {
    function->Function_0
}

/// The highest gas recorded for the function, 0 if none.
pub open spec fn max_gas_of(gas: Map<Seq<char>, u64>, function: TypeView) -> u64 {
    if gas.contains_key(function_key(function)) {
        gas[function_key(function)]
    } else {
        0
    }
}

impl Stats {
    /// Counters all at zero, with the given gas table.
    pub open spec fn initial(gas_map: GasTable) -> Stats {
        Stats {
            crashes: 0,
            unique_crashes: 0,
            execs: 0,
            time_running: 0,
            execs_per_sec: 0,
            coverage_size: 0,
            secs_since_last_cov: 0,
            gas_map,
        }
    }

    /// All counters at zero, no gas recorded.
    pub fn new() -> (r: Stats)
        ensures
            r.crashes == 0,
            r.unique_crashes == 0,
            r.execs == 0,
            r.time_running == 0,
            r.execs_per_sec == 0,
            r.coverage_size == 0,
            r.secs_since_last_cov == 0,
            r.gas_map@ == Map::<Seq<char>, u64>::empty(),
    {
        Stats {
            crashes: 0,
            unique_crashes: 0,
            time_running: 0,
            execs: 0,
            coverage_size: 0,
            execs_per_sec: 0,
            secs_since_last_cov: 0,
            gas_map: GasTable::new(),
        }
    }

    /// Keeps for the target function the highest gas seen: the recorded
    /// value becomes the larger of `gas` and what was recorded (0 if
    /// nothing was). The other counters are unchanged.
    pub fn update_gas_usage(&mut self, function: &Type, gas: u64)
        requires
            function@ is Function,
        ensures
            final(self).gas_map@ == old(self).gas_map@.insert(
                function_key(function@),
                if gas > max_gas_of(old(self).gas_map@, function@) {
                    gas
                } else {
                    max_gas_of(old(self).gas_map@, function@)
                },
            ),
            final(self).crashes == old(self).crashes,
            final(self).unique_crashes == old(self).unique_crashes,
            final(self).execs == old(self).execs,
            final(self).time_running == old(self).time_running,
            final(self).execs_per_sec == old(self).execs_per_sec,
            final(self).coverage_size == old(self).coverage_size,
            final(self).secs_since_last_cov == old(self).secs_since_last_cov,
            gas_of_name(final(self).gas_map@, function@->Function_0) == if gas > gas_of_name(
                old(self).gas_map@,
                function@->Function_0,
            ) {
                gas
            } else {
                gas_of_name(old(self).gas_map@, function@->Function_0)
            },
            forall|name: Seq<char>|
                name != function@->Function_0 ==> #[trigger] gas_of_name(final(self).gas_map@, name)
                    == gas_of_name(old(self).gas_map@, name),
    {
        match function {
            Type::Function(name, _) => {
                let key = name.clone();
                let current = match self.gas_map.get(&key) {
                    Some(g) => g,
                    None => 0,
                };
                let best = if gas > current {
                    gas
                } else {
                    current
                };
                self.gas_map.set(key, best);
            },
            _ => {},
        }
    }

    /// The highest gas recorded for the target function, 0 if none.
    pub fn get_max_gas(&self, function: &Type) -> (r: u64)
        requires
            function@ is Function,
        ensures
            r == max_gas_of(self.gas_map@, function@),
            r == gas_of_name(self.gas_map@, function@->Function_0),
    {
        match function {
            Type::Function(name, _) => {
                match self.gas_map.get(name) {
                    Some(g) => g,
                    None => 0,
                }
            },
            _ => 0,
        }
    }
}

/// After recording `gas`, the function's recorded maximum is at least
/// `gas` and at least what it was: the maximum never goes down.
pub proof fn lemma_max_gas_monotone(before: Map<Seq<char>, u64>, function: TypeView, gas: u64)
    requires
        function is Function,
    ensures
        ({
            let old_max = max_gas_of(before, function);
            let after = before.insert(function_key(function), if gas > old_max { gas } else { old_max });
            &&& max_gas_of(after, function) >= gas
            &&& max_gas_of(after, function) >= old_max
            &&& forall|other: TypeView| #[trigger] function_key(other) != function_key(function)
                ==> max_gas_of(after, other) == max_gas_of(before, other)
        }),
{
}

/// The gas recorded under `name`, 0 if none.
pub open spec fn gas_of_name(gas: Map<Seq<char>, u64>, name: Seq<char>) -> u64 {
    if gas.contains_key(name) {
        gas[name]
    } else {
        0
    }
}

/// The gas table of a fresh [`Stats`] after each report `(name, gas)` in
/// turn, each kept as [`Stats::update_gas_usage`] keeps it.
pub open spec fn gas_after(reports: Seq<(Seq<char>, u64)>) -> Map<Seq<char>, u64>
    decreases reports.len(),
{
    if reports.len() == 0 {
        Map::empty()
    } else {
        let m = gas_after(reports.drop_last());
        let name = reports.last().0;
        let gas = reports.last().1;
        m.insert(name, if gas > gas_of_name(m, name) { gas } else { gas_of_name(m, name) })
    }
}

/// The largest gas among the reports under `name`, 0 if there is none.
pub open spec fn max_reported(reports: Seq<(Seq<char>, u64)>, name: Seq<char>) -> u64
    decreases reports.len(),
{
    if reports.len() == 0 {
        0
    } else {
        let prev = max_reported(reports.drop_last(), name);
        if reports.last().0 == name && reports.last().1 > prev {
            reports.last().1
        } else {
            prev
        }
    }
}

/// Gas is kept per whole function name: recording gas for a function
/// makes its maximum the larger of the gas and its previous maximum, and
/// leaves the maximum of every function of another name as it was (on a
/// fresh table, 0).
pub proof fn lemma_gas_kept_per_name(before: Map<Seq<char>, u64>, function: TypeView, other: TypeView, gas: u64)
    requires
        function is Function,
        other is Function,
    ensures
        ({
            let old_max = max_gas_of(before, function);
            let after = before.insert(function_key(function), if gas > old_max { gas } else { old_max });
            &&& max_gas_of(after, function) == if gas > old_max { gas } else { old_max }
            &&& other->Function_0 != function->Function_0 ==> max_gas_of(after, other) == max_gas_of(
                before,
                other,
            )
            &&& before == Map::<Seq<char>, u64>::empty() && other->Function_0 != function->Function_0
                ==> max_gas_of(after, other) == 0
            &&& max_gas_of(after, other) == gas_of_name(after, other->Function_0)
        }),
{
}

/// One more report extends the table as [`Stats::update_gas_usage`]
/// changes it: a call with a function whose table is `gas_after(reports)`
/// leaves `gas_after` of the reports followed by the function's name and
/// the gas.
pub proof fn lemma_update_extends_reports(reports: Seq<(Seq<char>, u64)>, function: TypeView, gas: u64)
    requires
        function is Function,
    ensures
        gas_after(reports.push((function_key(function), gas))) == gas_after(reports).insert(
            function_key(function),
            if gas > max_gas_of(gas_after(reports), function) {
                gas
            } else {
                max_gas_of(gas_after(reports), function)
            },
        ),
{
    assert(reports.push((function_key(function), gas)).drop_last() =~= reports);
}

/// After any sequence of reports, the gas recorded under a name is the
/// largest gas reported under it, or 0 when none was: it is at least every
/// such report, and it is one of them unless it is 0.
pub proof fn lemma_max_gas_is_max_reported(reports: Seq<(Seq<char>, u64)>, name: Seq<char>)
    ensures
        gas_of_name(gas_after(reports), name) == max_reported(reports, name),
        forall|i: int|
            0 <= i < reports.len() && (#[trigger] reports[i]).0 == name ==> reports[i].1 <= max_reported(
                reports,
                name,
            ),
        max_reported(reports, name) == 0 || exists|i: int|
            0 <= i < reports.len() && (#[trigger] reports[i]).0 == name && reports[i].1 == max_reported(
                reports,
                name,
            ),
    decreases reports.len(),
{
    if reports.len() > 0 {
        let t = reports.drop_last();
        lemma_max_gas_is_max_reported(t, name);
        assert forall|i: int|
            0 <= i < reports.len() && (#[trigger] reports[i]).0 == name implies reports[i].1 <= max_reported(
                reports,
                name,
            ) by {
            if i < reports.len() - 1 {
                assert(t[i] == reports[i]);
            }
        }
        if max_reported(reports, name) != 0 {
            if reports.last().0 == name && reports.last().1 > max_reported(t, name) {
                assert(reports[reports.len() - 1].1 == max_reported(reports, name));
            } else {
                let i = choose|i: int|
                    0 <= i < t.len() && (#[trigger] t[i]).0 == name && t[i].1 == max_reported(t, name);
                assert(reports[i] == t[i]);
            }
        }
    }
}

} // verus!
