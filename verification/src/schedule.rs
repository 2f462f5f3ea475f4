//! The decisions of one pass over the targets: which are due, and what the
//! state and the tally are once they have been checked.
use vstd::prelude::*;

use crate::config::{Config, TargetConfig};
use crate::state::{due, State};

verus! {

/// The polling interval of `t` under `cfg`.
pub open spec fn interval_of(cfg: Config, t: TargetConfig) -> u64 {
    match t.interval_secs {
        Some(s) => s,
        None => cfg.general.default_interval_secs,
    }
}

/// When the target named `name` was last checked according to `m`.
pub open spec fn last_in(m: Map<Seq<char>, i64>, name: Seq<char>) -> Option<i64> {
    if m.contains_key(name) {
        Some(m[name])
    } else {
        None
    }
}

/// The target at `i` is fetched in this pass: the pass is forced, or its
/// interval has elapsed.
pub open spec fn target_due(cfg: Config, m: Map<Seq<char>, i64>, now: i64, force: bool, i: int) -> bool {
    force || due(last_in(m, cfg.targets[i].name@), interval_of(cfg, cfg.targets[i]), now)
}

/// The indices below `n` of the targets fetched in this pass, in order.
pub open spec fn due_indices(cfg: Config, m: Map<Seq<char>, i64>, now: i64, force: bool, n: int) -> Seq<
    usize,
>
    decreases n,
{
    if n <= 0 {
        Seq::empty()
    } else {
        let p = due_indices(cfg, m, now, force, n - 1);
        if target_due(cfg, m, now, force, n - 1) {
            p.push((n - 1) as usize)
        } else {
            p
        }
    }
}

/// The targets to fetch in a pass at `now`, in configuration order: all of
/// them when `force` is set, else those whose interval has elapsed since
/// they were last checked (or that were never checked).
pub fn due_targets(cfg: &Config, state: &State, now: i64, force: bool) -> (r: Vec<usize>)
    ensures
        r@ == due_indices(*cfg, state@, now, force, cfg.targets.len() as int),
{
    let mut r: Vec<usize> = Vec::new();
    let mut i: usize = 0;
    while i < cfg.targets.len()
        invariant
            i <= cfg.targets.len(),
            r@ == due_indices(*cfg, state@, now, force, i as int),
        decreases cfg.targets.len() - i,
    {
        let t = &cfg.targets[i];
        let interval = cfg.interval_for(t);
        if force || state.is_due(t.name.as_str(), interval, now) {
            r.push(i);
        }
        i = i + 1;
    }
    r
}

/// `m` with each of `names` mapped to `now`.
pub open spec fn mark_all(m: Map<Seq<char>, i64>, names: Seq<Seq<char>>, now: i64) -> Map<
    Seq<char>,
    i64,
>
    decreases names.len(),
{
    if names.len() == 0 {
        m
    } else {
        mark_all(m, names.drop_last(), now).insert(names.last(), now)
    }
}

/// How many of `flags` are set.
pub open spec fn count_set(flags: Seq<bool>) -> nat
    decreases flags.len(),
{
    if flags.len() == 0 {
        0
    } else {
        count_set(flags.drop_last()) + if flags.last() {
            1nat
        } else {
            0nat
        }
    }
}

/// The names of the checked targets.
pub open spec fn checked_names(cfg: Config, results: Seq<(usize, bool)>) -> Seq<Seq<char>> {
    results.map_values(|r: (usize, bool)| cfg.targets[r.0 as int].name@)
}

/// The tally of a pass.
#[derive(Debug, Clone, Copy, PartialEq, Eq)]
pub struct PassSummary {
    /// Targets fetched.
    pub checked: usize,
    /// Targets whose monitored text changed.
    pub changed: usize,
}

/// Records a finished pass at `now`. `results` holds, for each target that
/// was fetched, its index and whether it changed. Every fetched target is
/// marked as checked at `now`, whether or not its check succeeded, so that
/// a broken target is retried after its interval rather than at once.
pub fn record_pass(state: &mut State, cfg: &Config, results: &Vec<(usize, bool)>, now: i64) -> (s:
    PassSummary)
    requires
        forall|k: int| 0 <= k < results.len() ==> (#[trigger] results[k]).0 < cfg.targets.len(),
    ensures
        final(state)@ == mark_all(old(state)@, checked_names(*cfg, results@), now),
        s.checked == results.len(),
        s.changed == count_set(results@.map_values(|r: (usize, bool)| r.1)),
{
    let mut changed: usize = 0;
    let mut k: usize = 0;
    while k < results.len()
        invariant
            k <= results.len(),
            forall|j: int| 0 <= j < results.len() ==> (#[trigger] results[j]).0 < cfg.targets.len(),
            state@ == mark_all(old(state)@, checked_names(*cfg, results@.take(k as int)), now),
            changed == count_set(results@.take(k as int).map_values(|r: (usize, bool)| r.1)),
            changed <= k,
        decreases results.len() - k,
    {
        let (i, c) = results[k];
        state.mark_run(cfg.targets[i].name.as_str(), now);
        if c {
            changed = changed + 1;
        }
        proof {
            let t = results@.take(k + 1);
            assert(t.drop_last() =~= results@.take(k as int));
            assert(checked_names(*cfg, t).drop_last() =~= checked_names(*cfg, results@.take(k as int)));
            assert(t.map_values(|r: (usize, bool)| r.1).drop_last() =~= results@.take(k as int).map_values(
                |r: (usize, bool)| r.1,
            ));
        }
        k = k + 1;
    }
    assert(results@.take(results.len() as int) =~= results@);
    PassSummary { checked: results.len(), changed }
}

/// After a pass, each fetched target is recorded as checked at `now`, and
/// every other target keeps its recorded time (or lack of one).
pub proof fn lemma_pass_marks(m: Map<Seq<char>, i64>, names: Seq<Seq<char>>, now: i64)
    ensures
        forall|k: int| 0 <= k < names.len() ==> #[trigger] mark_all(m, names, now).contains_key(names[k])
            && mark_all(m, names, now)[names[k]] == now,
        forall|n: Seq<char>| !names.contains(n) ==> (#[trigger] mark_all(m, names, now).contains_key(n)
            == m.contains_key(n)) && (m.contains_key(n) ==> mark_all(m, names, now)[n] == m[n]),
    decreases names.len(),
{
    if names.len() > 0 {
        lemma_pass_marks(m, names.drop_last(), now);
        let prev = mark_all(m, names.drop_last(), now);
        assert(mark_all(m, names, now) == prev.insert(names.last(), now));
        assert forall|k: int| 0 <= k < names.len() implies #[trigger] mark_all(
            m,
            names,
            now,
        ).contains_key(names[k]) && mark_all(m, names, now)[names[k]] == now by {
            if k < names.len() - 1 {
                assert(names.drop_last()[k] == names[k]);
                assert(prev.contains_key(names.drop_last()[k]));
            }
        }
        assert forall|n: Seq<char>| !names.contains(n) implies (#[trigger] mark_all(
            m,
            names,
            now,
        ).contains_key(n) == m.contains_key(n)) && (m.contains_key(n) ==> mark_all(m, names, now)[n]
            == m[n]) by {
            assert(names[names.len() - 1] == names.last());
            assert(n != names.last());
            if names.drop_last().contains(n) {
                let j = choose|j: int| 0 <= j < names.drop_last().len() && names.drop_last()[j] == n;
                assert(names[j] == n);
            }
            assert(prev.contains_key(n) == m.contains_key(n));
        }
    }
}

/// A forced pass fetches every target, in order.
pub proof fn lemma_forced_pass_fetches_all(cfg: Config, m: Map<Seq<char>, i64>, now: i64, n: int)
    requires
        0 <= n <= usize::MAX,
    ensures
        due_indices(cfg, m, now, true, n) == Seq::new(n as nat, |i: int| i as usize),
    decreases n,
{
    if n > 0 {
        lemma_forced_pass_fetches_all(cfg, m, now, n - 1);
        assert(due_indices(cfg, m, now, true, n) =~= Seq::new(n as nat, |i: int| i as usize));
    } else {
        assert(due_indices(cfg, m, now, true, n) =~= Seq::new(n as nat, |i: int| i as usize));
    }
}

proof fn lemma_due_indices_below(cfg: Config, m: Map<Seq<char>, i64>, now: i64, force: bool, n: int)
    requires
        n <= usize::MAX,
    ensures
        forall|k: int|
            0 <= k < due_indices(cfg, m, now, force, n).len() ==> #[trigger] due_indices(
                cfg,
                m,
                now,
                force,
                n,
            )[k] < n,
    decreases n,
{
    if n > 0 {
        lemma_due_indices_below(cfg, m, now, force, n - 1);
        let p = due_indices(cfg, m, now, force, n - 1);
        let d = due_indices(cfg, m, now, force, n);
        assert forall|k: int| 0 <= k < d.len() implies #[trigger] d[k] < n by {
            if k < p.len() {
                assert(d[k] == p[k]);
            }
        }
    }
}

/// A pass fetches target `i` exactly when it is forced, or the target was
/// never checked, or at least its interval (its own `interval_secs` when
/// set, else the default) has elapsed since its last check.
pub proof fn lemma_due_targets_member(
    cfg: Config,
    m: Map<Seq<char>, i64>,
    now: i64,
    force: bool,
    n: int,
    i: int,
)
    requires
        0 <= i < n <= usize::MAX,
        n <= cfg.targets.len(),
    ensures
        due_indices(cfg, m, now, force, n).contains(i as usize) <==> (force || !m.contains_key(
            cfg.targets[i].name@,
        ) || now - m[cfg.targets[i].name@] >= match cfg.targets[i].interval_secs {
            Some(s) => s,
            None => cfg.general.default_interval_secs,
        }),
    decreases n,
{
    let d = due_indices(cfg, m, now, force, n);
    let p = due_indices(cfg, m, now, force, n - 1);
    lemma_due_indices_below(cfg, m, now, force, n - 1);
    if i == n - 1 {
        if d.contains(i as usize) && !target_due(cfg, m, now, force, n - 1) {
            let k = choose|k: int| 0 <= k < d.len() && d[k] == i as usize;
            assert(p[k] < n - 1);
        }
        if target_due(cfg, m, now, force, n - 1) {
            assert(d[d.len() - 1] == i as usize);
        }
    } else {
        lemma_due_targets_member(cfg, m, now, force, n - 1, i);
        if target_due(cfg, m, now, force, n - 1) {
            if d.contains(i as usize) {
                let k = choose|k: int| 0 <= k < d.len() && d[k] == i as usize;
                if k < p.len() {
                    assert(p[k] == d[k]);
                }
            }
            if p.contains(i as usize) {
                let k = choose|k: int| 0 <= k < p.len() && p[k] == i as usize;
                assert(d[k] == p[k]);
            }
        }
    }
}

} // verus!
