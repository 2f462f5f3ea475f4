//! The configuration: global settings and the targets to monitor, with the
//! resolution of its relative paths and its validation.
use vstd::prelude::*;

use crate::paths::{config_dir, config_dir_of, resolve, resolve_against};
use crate::patterns::{regex_compiles, Pattern, PatternError};
use crate::text::{char_is_ws, chars_of, is_blank};

verus! {

/// Where everything webmon writes lives, unless configured otherwise.
pub fn default_storage_dir() -> (r: String)
    ensures
        r@ == "./storage"@,
{
    "./storage".to_owned()
}

/// The log file, inside the storage directory.
pub fn default_log_file() -> (r: String)
    ensures
        r@ == "webmon.log"@,
{
    "webmon.log".to_owned()
}

/// The state file, inside the storage directory.
pub fn default_state_file() -> (r: String)
    ensures
        r@ == "webmon.state"@,
{
    "webmon.state".to_owned()
}

pub fn default_ntfy_server() -> (r: String)
    ensures
        r@ == "https://ntfy.sh"@,
{
    "https://ntfy.sh".to_owned()
}

pub fn default_interval_secs() -> (r: u64)
    ensures
        r == 3600,
{
    3600
}

pub fn default_user_agent() -> (r: String)
    ensures
        r@ == "webmon/0.1 (+https://github.com/)"@,
{
    "webmon/0.1 (+https://github.com/)".to_owned()
}

pub fn default_timeout_secs() -> (r: u64)
    ensures
        r == 30,
{
    30
}

/// Settings that apply to every target.
#[derive(Debug, Clone)]
pub struct GeneralConfig {
    /// Directory under which snapshots, the state file and the log live.
    pub storage_dir: String,
    /// Plain-text log file; a relative path is taken inside `storage_dir`.
    pub log_file: String,
    /// Plain-text state file recording, per target, the last time it was
    /// checked; a relative path is taken inside `storage_dir`.
    pub state_file: String,
    /// Default ntfy server, used unless a target overrides it.
    pub ntfy_server: String,
    /// Default polling interval for targets that don't specify their own.
    pub default_interval_secs: u64,
    pub user_agent: String,
    pub timeout_secs: u64,
}

/// One page to monitor.
#[derive(Debug, Clone)]
pub struct TargetConfig {
    /// Unique, human-readable name. Used as the snapshot filename and state key.
    pub name: String,
    pub url: String,
    /// Overrides `general.default_interval_secs` for this target.
    pub interval_secs: Option<u64>,
    /// ntfy topic to publish change notifications to. If omitted, this
    /// target is monitored and snapshotted but no notification is sent.
    pub ntfy_topic: Option<String>,
    /// Overrides `general.ntfy_server` for this target.
    pub ntfy_server: Option<String>,
    /// If set, only the text matched by this regex is compared (all matches,
    /// in order, one per line). Applied before `exclude_regex`.
    pub include_regex: Option<String>,
    /// If set, any text matched by this regex is stripped out before
    /// comparing.
    pub exclude_regex: Option<String>,
    /// Optional ntfy priority (1-5, or "min","low","default","high","max").
    pub ntfy_priority: Option<String>,
    /// Optional notification title override. Defaults to the target name.
    pub ntfy_title: Option<String>,
}

/// The whole configuration.
#[derive(Debug, Clone)]
pub struct Config {
    pub general: GeneralConfig,
    pub targets: Vec<TargetConfig>,
}

/// What is wrong with a target.
#[derive(Debug, Clone, Copy, PartialEq, Eq, Structural)]
pub enum TargetProblem {
    /// Its name is empty or only whitespace.
    BlankName,
    /// An earlier target has the same name.
    DuplicateName,
    InvalidIncludeRegex,
    InvalidExcludeRegex,
}

/// Why a configuration was refused.
#[derive(Debug)]
pub enum ConfigError {
    /// There is no target to monitor.
    NoTargets,
    /// The target at `index` has a name that is empty or only whitespace.
    BlankName { index: usize },
    /// The target at `index` repeats the name of an earlier one.
    DuplicateName { index: usize, name: String },
    /// The include pattern of the target at `index` does not compile.
    InvalidIncludeRegex { index: usize, name: String, error: PatternError },
    /// The exclude pattern of the target at `index` does not compile.
    InvalidExcludeRegex { index: usize, name: String, error: PatternError },
}

/// An earlier target than the one at `i` has its name.
pub open spec fn has_earlier_name(ts: Seq<TargetConfig>, i: int) -> bool {
    exists|j: int| 0 <= j < i && ts[j].name@ == ts[i].name@
}

/// `p`, if present, fails to compile.
pub open spec fn bad_regex(p: Option<String>) -> bool {
    match p {
        Some(s) => !regex_compiles(s@),
        None => false,
    }
}

/// The first thing wrong with the target at `i`, checked in this order:
/// its name is blank, its name was used before, its include pattern, its
/// exclude pattern.
pub open spec fn target_problem(ts: Seq<TargetConfig>, i: int) -> Option<TargetProblem> {
    if is_blank(ts[i].name@) {
        Some(TargetProblem::BlankName)
    } else if has_earlier_name(ts, i) {
        Some(TargetProblem::DuplicateName)
    } else if bad_regex(ts[i].include_regex) {
        Some(TargetProblem::InvalidIncludeRegex)
    } else if bad_regex(ts[i].exclude_regex) {
        Some(TargetProblem::InvalidExcludeRegex)
    } else {
        None
    }
}

/// The first target, from index `from` on, that has a problem, and that
/// problem.
pub open spec fn first_problem(ts: Seq<TargetConfig>, from: int) -> Option<(int, TargetProblem)>
    decreases ts.len() - from,
{
    if from < 0 || from >= ts.len() {
        None
    } else {
        match target_problem(ts, from) {
            Some(p) => Some((from, p)),
            None => first_problem(ts, from + 1),
        }
    }
}

impl ConfigError {
    /// This error reports problem `p` of the target at `i` in `ts`.
    pub open spec fn reports(&self, ts: Seq<TargetConfig>, i: int, p: TargetProblem) -> bool {
        match self {
            ConfigError::NoTargets => false,
            ConfigError::BlankName { index } => index == i && p == TargetProblem::BlankName,
            ConfigError::DuplicateName { index, name } => {
                &&& index == i
                &&& p == TargetProblem::DuplicateName
                &&& name@ == ts[i].name@
            },
            ConfigError::InvalidIncludeRegex { index, name, error } => {
                &&& index == i
                &&& p == TargetProblem::InvalidIncludeRegex
                &&& name@ == ts[i].name@
                &&& ts[i].include_regex matches Some(s) && error.pattern@ == s@
            },
            ConfigError::InvalidExcludeRegex { index, name, error } => {
                &&& index == i
                &&& p == TargetProblem::InvalidExcludeRegex
                &&& name@ == ts[i].name@
                &&& ts[i].exclude_regex matches Some(s) && error.pattern@ == s@
            },
        }
    }
}

proof fn lemma_first_problem_skip(ts: Seq<TargetConfig>, from: int, i: int)
    requires
        0 <= from <= i <= ts.len(),
        forall|j: int| from <= j < i ==> target_problem(ts, j) is None,
    ensures
        first_problem(ts, from) == first_problem(ts, i),
    decreases i - from,
{
    if from < i {
        lemma_first_problem_skip(ts, from + 1, i);
    }
}

/// Whether `s` is empty or only whitespace (`s.trim().is_empty()`).
pub fn is_blank_str(s: &str) -> (b: bool)
    ensures
        b == is_blank(s@),
{
    let v = chars_of(s);
    let mut i: usize = 0;
    while i < v.len()
        invariant
            i <= v.len(),
            v@ == s@,
            forall|j: int| 0 <= j < i ==> crate::text::is_ws(#[trigger] v@[j]),
        decreases v.len() - i,
    {
        if !char_is_ws(v[i]) {
            return false;
        }
        i = i + 1;
    }
    true
}

impl Config {
    /// The polling interval of `target`: its own, or the default.
    pub fn interval_for(&self, target: &TargetConfig) -> (r: u64)
        ensures
            r == match target.interval_secs {
                Some(s) => s,
                None => self.general.default_interval_secs,
            },
    {
        match target.interval_secs {
            Some(s) => s,
            None => self.general.default_interval_secs,
        }
    }

    /// Resolves the relative paths of a configuration read from the file at
    /// `config_path`: the storage directory against the directory of the
    /// configuration file (not the working directory), and the log and
    /// state files against the storage directory. Absolute paths are kept.
    pub fn resolve_paths(&mut self, config_path: &str)
        ensures
            final(self).general.storage_dir@ == resolve_against(
                config_dir(config_path@),
                old(self).general.storage_dir@,
            ),
            final(self).general.log_file@ == resolve_against(
                final(self).general.storage_dir@,
                old(self).general.log_file@,
            ),
            final(self).general.state_file@ == resolve_against(
                final(self).general.storage_dir@,
                old(self).general.state_file@,
            ),
            final(self).general.ntfy_server == old(self).general.ntfy_server,
            final(self).general.default_interval_secs == old(self).general.default_interval_secs,
            final(self).general.user_agent == old(self).general.user_agent,
            final(self).general.timeout_secs == old(self).general.timeout_secs,
            final(self).targets == old(self).targets,
    {
        let base = config_dir_of(config_path);
        let storage = resolve(base.as_str(), self.general.storage_dir.as_str());
        let log_file = resolve(storage.as_str(), self.general.log_file.as_str());
        let state_file = resolve(storage.as_str(), self.general.state_file.as_str());
        self.general.storage_dir = storage;
        self.general.log_file = log_file;
        self.general.state_file = state_file;
    }

    /// Checks that there is at least one target, and that every target has
    /// a non-blank name used by no earlier target and patterns that
    /// compile; on failure, reports the first problem found. Accepted
    /// targets have distinct names.
    pub fn validate(&self) -> (res: Result<(), ConfigError>)
        ensures
            self.targets.len() == 0 ==> res matches Err(ConfigError::NoTargets),
            self.targets.len() > 0 ==> match first_problem(self.targets@, 0) {
                None => res is Ok,
                Some((i, p)) => res matches Err(e) && e.reports(self.targets@, i, p),
            },
            res is Ok ==> forall|i: int, j: int|
                0 <= i < j < self.targets.len() ==> #[trigger] self.targets@[i].name@
                    != #[trigger] self.targets@[j].name@,
    {
        let n = self.targets.len();
        if n == 0 {
            return Err(ConfigError::NoTargets);
        }
        let ghost ts = self.targets@;
        let mut i: usize = 0;
        while i < n
            invariant
                n == self.targets.len(),
                ts == self.targets@,
                i <= n,
                forall|j: int| 0 <= j < i ==> target_problem(ts, j) is None,
            decreases n - i,
        {
            let t = &self.targets[i];
            if is_blank_str(t.name.as_str()) {
                proof {
                    lemma_first_problem_skip(ts, 0, i as int);
                }
                return Err(ConfigError::BlankName { index: i });
            }
            let mut j: usize = 0;
            while j < i
                invariant
                    i < n,
                    n == self.targets.len(),
                    ts == self.targets@,
                    j <= i,
                    t == ts[i as int],
                    !is_blank(ts[i as int].name@),
                    forall|k: int| 0 <= k < i ==> target_problem(ts, k) is None,
                    forall|k: int| 0 <= k < j ==> ts[k].name@ != ts[i as int].name@,
                decreases i - j,
            {
                if self.targets[j].name == t.name {
                    proof {
                        lemma_first_problem_skip(ts, 0, i as int);
                        assert(has_earlier_name(ts, i as int));
                    }
                    return Err(ConfigError::DuplicateName { index: i, name: t.name.clone() });
                }
                j = j + 1;
            }
            if let Some(re) = &t.include_regex {
                if let Err(e) = Pattern::new(re.as_str()) {
                    proof {
                        lemma_first_problem_skip(ts, 0, i as int);
                    }
                    return Err(
                        ConfigError::InvalidIncludeRegex { index: i, name: t.name.clone(), error: e },
                    );
                }
            }
            if let Some(re) = &t.exclude_regex {
                if let Err(e) = Pattern::new(re.as_str()) {
                    proof {
                        lemma_first_problem_skip(ts, 0, i as int);
                    }
                    return Err(
                        ConfigError::InvalidExcludeRegex { index: i, name: t.name.clone(), error: e },
                    );
                }
            }
            i = i + 1;
        }
        proof {
            lemma_first_problem_skip(ts, 0, n as int);
            lemma_valid_targets(ts);
        }
        Ok(())
    }
}

/// No problem from `from` on means none at any target from `from` on.
proof fn lemma_no_problem_from(ts: Seq<TargetConfig>, from: int, i: int)
    requires
        0 <= from <= i < ts.len(),
        first_problem(ts, from) is None,
    ensures
        target_problem(ts, i) is None,
    decreases i - from,
{
    if from < i {
        lemma_no_problem_from(ts, from + 1, i);
    }
}

/// In a configuration that passes validation, every name is non-blank, no
/// two targets share a name, and every pattern compiles.
pub proof fn lemma_valid_targets(ts: Seq<TargetConfig>)
    requires
        first_problem(ts, 0) is None,
    ensures
        forall|i: int| 0 <= i < ts.len() ==> !is_blank(#[trigger] ts[i].name@),
        forall|i: int, j: int| 0 <= i < j < ts.len() ==> #[trigger] ts[i].name@ != #[trigger] ts[j].name@,
        forall|i: int| 0 <= i < ts.len() ==> !bad_regex(#[trigger] ts[i].include_regex) && !bad_regex(
            ts[i].exclude_regex,
        ),
{
    assert forall|i: int| 0 <= i < ts.len() implies !is_blank(#[trigger] ts[i].name@) by {
        lemma_no_problem_from(ts, 0, i);
    }
    assert forall|i: int, j: int| 0 <= i < j < ts.len() implies #[trigger] ts[i].name@
        != #[trigger] ts[j].name@ by {
        lemma_no_problem_from(ts, 0, j);
        assert(!has_earlier_name(ts, j));
    }
    assert forall|i: int| 0 <= i < ts.len() implies !bad_regex(#[trigger] ts[i].include_regex)
        && !bad_regex(ts[i].exclude_regex) by {
        lemma_no_problem_from(ts, 0, i);
    }
}

} // verus!
