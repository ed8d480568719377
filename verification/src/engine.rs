//! "Run a DAG of steps": the stage graph, its validation, the retry backoff and
//! the coordinator that decides which stages run, which are retried and when a
//! run has completed or failed.
//!
//! The coordinator owns all graph state. Whoever executes stages (concurrently
//! or not) asks it for the stages that became eligible, runs them, and reports
//! each outcome back; the coordinator answers with the run's outcome once it is
//! decided.

use vstd::prelude::*;
use crate::proto::Task;
use crate::graph::{dep_views, deps_in_range, find_cycle, index_cycle, index_link, index_ranked, lemma_least};
use crate::text::{append_str, views};

verus! {

// ── outcomes and errors ─────────────────────────────────────────────────────

/// Terminal state of a run.
#[derive(Debug, Clone, Copy, PartialEq, Eq, Structural)]
pub enum RunStatus {
    /// Every stage reached `Done`.
    Completed,
    /// A stage exhausted its retries; the run could not converge.
    Failed,
}

/// The result of driving a task through the DAG.
#[derive(Debug, PartialEq, Eq)]
pub struct RunOutcome {
    pub task_id: String,
    pub status: RunStatus,
    /// Stages that completed, in the order they finished — the replay trail.
    pub stages: Vec<String>,
    /// The stage that exhausted its retries (with the last failure), when the
    /// run failed.
    pub failed_stage: Option<String>,
}

/// Structural problems with how the engine was configured — as opposed to a
/// stage failing at runtime, which is an expected `Failed` outcome.
#[derive(Debug, PartialEq, Eq)]
pub enum EngineError {
    InvalidDag { reason: String },
}

impl EngineError {
    /// The error as a line of text.
    pub fn message(&self) -> (r: String)
        ensures
            match self {
                EngineError::InvalidDag { reason } => r@ == "invalid DAG: "@ + reason@,
            },
    {
        match self {
            EngineError::InvalidDag { reason } => {
                let mut r = "invalid DAG: ".to_string();
                append_str(&mut r, reason.as_str());
                r
            },
        }
    }
}

/// Why a stage's work failed.
#[derive(Debug, PartialEq, Eq)]
pub struct StageError(pub String);

// ── the stage graph ─────────────────────────────────────────────────────────

/// One node in the DAG: a named stage, the stages it depends on, and how many
/// attempts it gets before the run is declared failed.
#[derive(Debug, Clone, PartialEq, Eq)]
pub struct StageSpec {
    pub name: String,
    /// Names of stages that must be `Done` before this one becomes eligible.
    pub deps: Vec<String>,
    /// Total attempts (>= 1) before the stage is considered failed.
    pub max_attempts: u32,
}

pub struct StageSpecView {
    pub name: Seq<char>,
    pub deps: Seq<Seq<char>>,
    pub max_attempts: u32,
}

impl View for StageSpec {
    type V = StageSpecView;

    open spec fn view(&self) -> StageSpecView {
        StageSpecView { name: self.name@, deps: views(self.deps@), max_attempts: self.max_attempts }
    }
}

/// The retry budget a stage gets unless told otherwise.
pub const DEFAULT_MAX_ATTEMPTS: u32 = 3;

/// The character views of a slice of names.
pub open spec fn str_views(v: Seq<&str>) -> Seq<Seq<char>> {
    v.map_values(|s: &str| s@)
}

impl StageSpec {
    /// A stage with the given dependencies and the default retry budget.
    pub fn new(name: &str, deps: &[&str]) -> (r: Self)
        ensures
            r@.name == name@,
            r@.deps == str_views(deps@),
            r.max_attempts == DEFAULT_MAX_ATTEMPTS,
    {
        let mut ds: Vec<String> = Vec::new();
        let mut i: usize = 0;
        while i < deps.len()
            invariant
                i <= deps@.len(),
                ds.len() == i,
                views(ds@) == str_views(deps@.subrange(0, i as int)),
            decreases deps@.len() - i,
        {
            let ghost prev = ds@;
            let d = deps[i].to_string();
            assert(d@ == deps@[i as int]@);
            ds.push(d);
            proof {
                assert forall|j: int| 0 <= j < i + 1 implies views(ds@)[j] == str_views(
                    deps@.subrange(0, i + 1),
                )[j] by {
                    if j < i {
                        assert(views(prev)[j] == str_views(deps@.subrange(0, i as int))[j]);
                    }
                }
                assert(views(ds@) =~= str_views(deps@.subrange(0, i + 1)));
            }
            i = i + 1;
        }
        assert(deps@.subrange(0, deps@.len() as int) =~= deps@);
        StageSpec { name: name.to_string(), deps: ds, max_attempts: DEFAULT_MAX_ATTEMPTS }
    }

    /// The same stage with a different retry budget; a budget of zero is
    /// raised to one attempt.
    pub fn with_max_attempts(self, max_attempts: u32) -> (r: Self)
        ensures
            r.name == self.name,
            r.deps == self.deps,
            r.max_attempts == (if max_attempts >= 1 { max_attempts } else { 1 }),
    {
        let m = if max_attempts >= 1 { max_attempts } else { 1 };
        StageSpec { max_attempts: m, ..self }
    }
}

/// The stage graph. Validated (duplicate names, dangling dependencies,
/// cycles) before a run starts.
#[derive(Debug, Clone)]
pub struct Dag {
    stages: Vec<StageSpec>,
}

pub open spec fn stage_views(v: Seq<StageSpec>) -> Seq<StageSpecView> {
    v.map_values(|s: StageSpec| s@)
}

impl View for Dag {
    type V = Seq<StageSpecView>;

    closed spec fn view(&self) -> Seq<StageSpecView> {
        stage_views(self.stages@)
    }
}

// ── what a valid graph is ───────────────────────────────────────────────────

/// Stage `i` reuses the name of an earlier stage.
pub open spec fn dup_at(s: Seq<StageSpecView>, i: int) -> bool {
    exists|j: int| 0 <= j < i && s[j].name == s[i].name
}

pub open spec fn names_unique(s: Seq<StageSpecView>) -> bool {
    forall|i: int, j: int| 0 <= i < j < s.len() ==> s[i].name != s[j].name
}

/// Some stage is called `name`.
pub open spec fn known(s: Seq<StageSpecView>, name: Seq<char>) -> bool {
    exists|j: int| 0 <= j < s.len() && s[j].name == name
}

/// The `k`-th dependency of stage `i` names no stage.
pub open spec fn unknown_at(s: Seq<StageSpecView>, i: int, k: int) -> bool {
    &&& 0 <= i < s.len()
    &&& 0 <= k < s[i].deps.len()
    &&& !known(s, s[i].deps[k])
}

pub open spec fn deps_known(s: Seq<StageSpecView>) -> bool {
    forall|i: int, k: int|
        0 <= i < s.len() && 0 <= k < s[i].deps.len() ==> known(s, #[trigger] s[i].deps[k])
}

/// `rank` puts every stage after each of its dependencies.
pub open spec fn ranked_by(s: Seq<StageSpecView>, rank: spec_fn(Seq<char>) -> nat) -> bool {
    forall|i: int, k: int|
        0 <= i < s.len() && 0 <= k < s[i].deps.len() ==> rank(#[trigger] s[i].deps[k]) < rank(
            s[i].name,
        )
}

/// The dependency relation has no cycle: stages can be ranked so that every
/// dependency comes strictly before its dependent.
pub open spec fn acyclic(s: Seq<StageSpecView>) -> bool {
    exists|rank: spec_fn(Seq<char>) -> nat| ranked_by(s, rank)
}

/// A graph the engine accepts.
pub open spec fn valid_dag(s: Seq<StageSpecView>) -> bool {
    &&& names_unique(s)
    &&& deps_known(s)
    &&& acyclic(s)
}

pub open spec fn duplicate_reason(name: Seq<char>) -> Seq<char> {
    "duplicate stage `"@ + name + "`"@
}

pub open spec fn unknown_reason(stage: Seq<char>, dep: Seq<char>) -> Seq<char> {
    "stage `"@ + stage + "` depends on unknown `"@ + dep + "`"@
}

pub open spec fn cycle_reason(name: Seq<char>) -> Seq<char> {
    "cycle through `"@ + name + "`"@
}

/// Stage `j` is among the dependencies of stage `i`.
pub open spec fn depends_on(s: Seq<StageSpecView>, i: int, j: int) -> bool {
    0 <= i < s.len() && 0 <= j < s.len() && s[i].deps.contains(s[j].name)
}

/// The `k`-th stage of the chain `p` depends on the next one.
pub open spec fn chain_link(s: Seq<StageSpecView>, p: Seq<int>, k: int) -> bool {
    depends_on(s, p[k], p[k + 1])
}

/// Stage `i` lies on a cycle: following dependencies from it leads back to it.
pub open spec fn on_cycle(s: Seq<StageSpecView>, i: int) -> bool {
    exists|p: Seq<int>|
        p.len() >= 2 && p[0] == i && p.last() == i && forall|k: int|
            0 <= k < p.len() - 1 ==> #[trigger] chain_link(s, p, k)
}

/// The reason a rejected graph is given: the first duplicate name if there is
/// one; else the first dangling dependency (in stage, then dependency order);
/// else a cycle, named by a stage that lies on it.
pub open spec fn rejection_reason(s: Seq<StageSpecView>, reason: Seq<char>) -> bool {
    if !names_unique(s) {
        exists|i: int|
            0 <= i < s.len() && dup_at(s, i) && (forall|j: int| 0 <= j < i ==> !dup_at(s, j))
                && reason == duplicate_reason(s[i].name)
    } else if !deps_known(s) {
        exists|i: int, k: int|
            unknown_at(s, i, k) && (forall|j: int, l: int|
                (j < i || (j == i && l < k)) ==> !unknown_at(s, j, l)) && reason == unknown_reason(
                s[i].name,
                s[i].deps[k],
            )
    } else {
        exists|i: int| 0 <= i < s.len() && on_cycle(s, i) && reason == cycle_reason(s[i].name)
    }
}

// ── validation ──────────────────────────────────────────────────────────────

/// `deps` resolves every dependency of `s` to the index of the stage it names.
pub open spec fn resolved(s: Seq<StageSpecView>, deps: Seq<Seq<usize>>) -> bool {
    &&& deps.len() == s.len()
    &&& forall|i: int| 0 <= i < s.len() ==> (#[trigger] deps[i]).len() == s[i].deps.len()
    &&& forall|i: int, k: int|
        0 <= i < s.len() && 0 <= k < s[i].deps.len() ==> #[trigger] deps[i][k] < s.len()
            && s[deps[i][k] as int].name == s[i].deps[k]
}

proof fn lemma_acyclic_from_index(s: Seq<StageSpecView>, deps: Seq<Seq<usize>>, rank: Seq<nat>)
    requires
        names_unique(s),
        resolved(s, deps),
        index_ranked(deps, rank),
    ensures
        acyclic(s),
{
    let nr = |nm: Seq<char>|
        if known(s, nm) {
            rank[choose|j: int| 0 <= j < s.len() && s[j].name == nm]
        } else {
            0nat
        };
    assert forall|i: int, k: int| 0 <= i < s.len() && 0 <= k < s[i].deps.len() implies nr(
        #[trigger] s[i].deps[k],
    ) < nr(s[i].name) by {
        let d = deps[i][k] as int;
        assert(s[d].name == s[i].deps[k]);
        assert(known(s, s[i].deps[k]));
        assert(known(s, s[i].name));
        let jd = choose|j: int| 0 <= j < s.len() && s[j].name == s[i].deps[k];
        let ji = choose|j: int| 0 <= j < s.len() && s[j].name == s[i].name;
        assert(jd == d) by {
            if jd < d {
                assert(s[jd].name != s[d].name);
            } else if d < jd {
                assert(s[d].name != s[jd].name);
            }
        }
        assert(ji == i) by {
            if ji < i {
                assert(s[ji].name != s[i].name);
            } else if i < ji {
                assert(s[i].name != s[ji].name);
            }
        }
    }
    assert(ranked_by(s, nr));
}

/// Ranks strictly drop along a chain of dependencies.
proof fn lemma_chain_ranks(s: Seq<StageSpecView>, rank: spec_fn(Seq<char>) -> nat, p: Seq<int>)
    requires
        ranked_by(s, rank),
        p.len() >= 2,
        forall|k: int| 0 <= k < p.len() - 1 ==> #[trigger] chain_link(s, p, k),
    ensures
        rank(s[p.last()].name) < rank(s[p[0]].name),
    decreases p.len(),
{
    let k = p.len() - 2;
    assert(chain_link(s, p, k));
    let i = p[k];
    let j = p[k + 1];
    let m = choose|m: int| 0 <= m < s[i].deps.len() && s[i].deps[m] == s[j].name;
    assert(rank(s[i].deps[m]) < rank(s[i].name));
    if p.len() > 2 {
        let q = p.drop_last();
        assert forall|t: int| 0 <= t < q.len() - 1 implies #[trigger] chain_link(s, q, t) by {
            assert(chain_link(s, p, t));
        }
        lemma_chain_ranks(s, rank, q);
    }
}

/// A stage on a cycle rules out every ranking.
proof fn lemma_cycle_unrankable(s: Seq<StageSpecView>, i: int)
    requires
        on_cycle(s, i),
    ensures
        !acyclic(s),
{
    if acyclic(s) {
        let rank = choose|rank: spec_fn(Seq<char>) -> nat| ranked_by(s, rank);
        let p = choose|p: Seq<int>|
            p.len() >= 2 && p[0] == i && p.last() == i && forall|k: int|
                0 <= k < p.len() - 1 ==> #[trigger] chain_link(s, p, k);
        lemma_chain_ranks(s, rank, p);
    }
}

/// A cycle over resolved indices is a cycle of stages.
proof fn lemma_index_cycle_named(s: Seq<StageSpecView>, deps: Seq<Seq<usize>>, d: int)
    requires
        resolved(s, deps),
        index_cycle(deps, d),
    ensures
        on_cycle(s, d),
{
    let p = choose|p: Seq<int>|
        p.len() >= 2 && p[0] == d && p.last() == d && forall|k: int|
            0 <= k < p.len() - 1 ==> #[trigger] index_link(deps, p, k);
    assert forall|k: int| 0 <= k < p.len() - 1 implies #[trigger] chain_link(s, p, k) by {
        assert(index_link(deps, p, k));
        let i = p[k];
        let j = p[k + 1];
        let m = choose|m: int| 0 <= m < deps[i].len() && deps[i][m] == j;
        assert(deps[i][m] < s.len() && s[deps[i][m] as int].name == s[i].deps[m]);
        assert(s[i].deps.contains(s[j].name));
    }
}

impl Dag {
    pub fn new(stages: Vec<StageSpec>) -> (r: Self)
        ensures
            r@ == stage_views(stages@),
    {
        Dag { stages }
    }

    /// The default `sag run fix` pipeline: the linear chain
    /// retrieve → plan → implement → test → review.
    pub fn fix_pipeline() -> (r: Self)
        ensures
            r@.len() == 5,
            r@[0].name == "retrieve"@ && r@[0].deps == Seq::<Seq<char>>::empty(),
            r@[1].name == "plan"@ && r@[1].deps == seq!["retrieve"@],
            r@[2].name == "implement"@ && r@[2].deps == seq!["plan"@],
            r@[3].name == "test"@ && r@[3].deps == seq!["implement"@],
            r@[4].name == "review"@ && r@[4].deps == seq!["test"@],
            forall|i: int| 0 <= i < 5 ==> #[trigger] r@[i].max_attempts == DEFAULT_MAX_ATTEMPTS,
    {
        let mut v: Vec<StageSpec> = Vec::new();
        let a = StageSpec::new("retrieve", &[]);
        let b = StageSpec::new("plan", &["retrieve"]);
        let c = StageSpec::new("implement", &["plan"]);
        let d = StageSpec::new("test", &["implement"]);
        let e = StageSpec::new("review", &["test"]);
        proof {
            assert(str_views(seq![]) =~= Seq::<Seq<char>>::empty());
            assert(str_views(seq!["retrieve"]) =~= seq!["retrieve"@]);
            assert(str_views(seq!["plan"]) =~= seq!["plan"@]);
            assert(str_views(seq!["implement"]) =~= seq!["implement"@]);
            assert(str_views(seq!["test"]) =~= seq!["test"@]);
        }
        v.push(a);
        v.push(b);
        v.push(c);
        v.push(d);
        v.push(e);
        Dag { stages: v }
    }

    /// The first stage reusing an earlier stage's name, if any.
    fn find_duplicate(&self) -> (r: Option<usize>)
        ensures
            r matches Some(i) ==> i < self@.len() && dup_at(self@, i as int) && forall|j: int|
                0 <= j < i ==> !dup_at(self@, j),
            r is None ==> names_unique(self@),
    {
        let ghost s = self@;
        let n = self.stages.len();
        let mut i: usize = 0;
        while i < n
            invariant
                s == self@,
                n == s.len(),
                i <= n,
                forall|a: int, b: int| 0 <= a < b < i ==> s[a].name != s[b].name,
            decreases n - i,
        {
            let mut j: usize = 0;
            while j < i
                invariant
                    s == self@,
                    n == s.len(),
                    j <= i < n,
                    forall|a: int, b: int| 0 <= a < b < i ==> s[a].name != s[b].name,
                    forall|a: int| 0 <= a < j ==> s[a].name != s[i as int].name,
                decreases i - j,
            {
                if self.stages[j].name == self.stages[i].name {
                    proof {
                        assert(s[j as int].name == s[i as int].name);
                        assert forall|c: int| 0 <= c < i implies !dup_at(s, c) by {
                            if dup_at(s, c) {
                                let a = choose|a: int| 0 <= a < c && s[a].name == s[c].name;
                                assert(s[a].name != s[c].name);
                            }
                        }
                    }
                    return Some(i);
                }
                j = j + 1;
            }
            i = i + 1;
        }
        None
    }

    /// The index of the first stage called `name`, if any.
    fn index_of(&self, name: &String) -> (r: Option<usize>)
        ensures
            r matches Some(j) ==> j < self@.len() && self@[j as int].name == name@,
            r is None ==> !known(self@, name@),
    {
        let mut j: usize = 0;
        while j < self.stages.len()
            invariant
                j <= self@.len(),
                self@.len() == self.stages.len(),
                forall|a: int| 0 <= a < j ==> self@[a].name != name@,
            decreases self.stages.len() - j,
        {
            if self.stages[j].name == *name {
                return Some(j);
            }
            j = j + 1;
        }
        None
    }

    /// The first dependency (in stage, then dependency order) that names no
    /// stage, if any.
    fn find_unknown(&self) -> (r: Option<(usize, usize)>)
        ensures
            r matches Some((i, k)) ==> unknown_at(self@, i as int, k as int) && forall|j: int, l: int|
                (j < i || (j == i && l < k)) ==> !unknown_at(self@, j, l),
            r is None ==> deps_known(self@),
    {
        let ghost s = self@;
        let n = self.stages.len();
        let mut i: usize = 0;
        while i < n
            invariant
                s == self@,
                n == s.len(),
                i <= n,
                forall|j: int, l: int| 0 <= j < i && 0 <= l < s[j].deps.len() ==> known(s, #[trigger] s[j].deps[l]),
            decreases n - i,
        {
            let m = self.stages[i].deps.len();
            let mut k: usize = 0;
            while k < m
                invariant
                    s == self@,
                    n == s.len(),
                    i < n,
                    m == s[i as int].deps.len(),
                    k <= m,
                    forall|j: int, l: int| 0 <= j < i && 0 <= l < s[j].deps.len() ==> known(s, #[trigger] s[j].deps[l]),
                    forall|l: int| 0 <= l < k ==> known(s, #[trigger] s[i as int].deps[l]),
                decreases m - k,
            {
                let found = self.index_of(&self.stages[i].deps[k]);
                if found.is_none() {
                    proof {
                        assert forall|j: int, l: int| (j < i || (j == i && l < k)) implies !unknown_at(s, j, l) by {
                            if 0 <= j < s.len() && 0 <= l < s[j].deps.len() {
                                if j < i {
                                    assert(known(s, s[j].deps[l]));
                                } else {
                                    assert(known(s, s[i as int].deps[l]));
                                }
                            }
                        }
                    }
                    return Some((i, k));
                }
                k = k + 1;
            }
            i = i + 1;
        }
        None
    }

    /// Resolves every dependency name to the index of its stage.
    fn resolve(&self) -> (r: Vec<Vec<usize>>)
        requires
            deps_known(self@),
        ensures
            resolved(self@, dep_views(r@)),
    {
        let ghost s = self@;
        let n = self.stages.len();
        let mut out: Vec<Vec<usize>> = Vec::new();
        let mut i: usize = 0;
        while i < n
            invariant
                s == self@,
                n == s.len(),
                i <= n,
                deps_known(s),
                out.len() == i,
                forall|j: int| 0 <= j < i ==> (#[trigger] out@[j])@.len() == s[j].deps.len(),
                forall|j: int, l: int|
                    0 <= j < i && 0 <= l < s[j].deps.len() ==> #[trigger] out@[j]@[l] < n
                        && s[out@[j]@[l] as int].name == s[j].deps[l],
            decreases n - i,
        {
            let m = self.stages[i].deps.len();
            let mut row: Vec<usize> = Vec::new();
            let mut k: usize = 0;
            while k < m
                invariant
                    s == self@,
                    n == s.len(),
                    i < n,
                    deps_known(s),
                    m == s[i as int].deps.len(),
                    k <= m,
                    row.len() == k,
                    forall|l: int| 0 <= l < k ==> #[trigger] row@[l] < n && s[row@[l] as int].name == s[i as int].deps[l],
                decreases m - k,
            {
                assert(known(s, s[i as int].deps[k as int]));
                match self.index_of(&self.stages[i].deps[k]) {
                    Some(j) => {
                        row.push(j);
                    },
                    None => {
                        // every dependency is known, so this arm is never taken
                        row.push(0);
                    },
                }
                k = k + 1;
            }
            out.push(row);
            i = i + 1;
        }
        proof {
            let dv = dep_views(out@);
            assert forall|j: int| 0 <= j < s.len() implies (#[trigger] dv[j]).len() == s[j].deps.len() by {
                assert(dv[j] == out@[j]@);
            }
            assert forall|j: int, l: int| 0 <= j < s.len() && 0 <= l < s[j].deps.len() implies #[trigger] dv[j][l] < s.len()
                && s[dv[j][l] as int].name == s[j].deps[l] by {
                assert(dv[j] == out@[j]@);
            }
        }
        out
    }

    /// Searches the graph depth first for a cycle. Ranks the stages
    /// (dependencies first) when there is none; otherwise reports the stage
    /// at which the search first met a dependency still being explored —
    /// a stage on a cycle.
    fn check_acyclic(&self, deps: &Vec<Vec<usize>>) -> (r: Result<Ghost<Seq<nat>>, EngineError>)
        requires
            names_unique(self@),
            resolved(self@, dep_views(deps@)),
        ensures
            r matches Ok(rank) ==> acyclic(self@) && index_ranked(dep_views(deps@), rank@),
            r matches Err(EngineError::InvalidDag { reason }) ==> !acyclic(self@) && exists|i: int|
                0 <= i < self@.len() && on_cycle(self@, i) && reason@ == cycle_reason(self@[i].name),
    {
        proof {
            assert(deps_in_range(dep_views(deps@)));
        }
        match find_cycle(deps) {
            Ok(rank) => {
                proof {
                    lemma_acyclic_from_index(self@, dep_views(deps@), rank@);
                }
                Ok(rank)
            },
            Err(d) => {
                proof {
                    lemma_index_cycle_named(self@, dep_views(deps@), d as int);
                    lemma_cycle_unrankable(self@, d as int);
                }
                let mut reason = "cycle through `".to_string();
                append_str(&mut reason, self.stages[d].name.as_str());
                append_str(&mut reason, "`");
                assert(self@[d as int].name == self.stages@[d as int].name@);
                assert(reason@ == cycle_reason(self@[d as int].name));
                Err(EngineError::InvalidDag { reason })
            },
        }
    }

    /// Checks the graph and resolves its dependencies to indices.
    fn analyze(&self) -> (r: Result<(Vec<Vec<usize>>, Ghost<Seq<nat>>), EngineError>)
        ensures
            r matches Ok((deps, rank)) ==> valid_dag(self@) && resolved(self@, dep_views(deps@))
                && index_ranked(dep_views(deps@), rank@),
            r matches Err(EngineError::InvalidDag { reason }) ==> !valid_dag(self@)
                && rejection_reason(self@, reason@),
    {
        if let Some(i) = self.find_duplicate() {
            let mut reason = "duplicate stage `".to_string();
            append_str(&mut reason, self.stages[i].name.as_str());
            append_str(&mut reason, "`");
            proof {
                let s = self@;
                let j = choose|j: int| 0 <= j < i && s[j].name == s[i as int].name;
                assert(!names_unique(s));
            }
            return Err(EngineError::InvalidDag { reason });
        }
        if let Some((i, k)) = self.find_unknown() {
            let mut reason = "stage `".to_string();
            append_str(&mut reason, self.stages[i].name.as_str());
            append_str(&mut reason, "` depends on unknown `");
            append_str(&mut reason, self.stages[i].deps[k].as_str());
            append_str(&mut reason, "`");
            proof {
                let s = self@;
                assert(s[i as int].deps[k as int] == self.stages@[i as int].deps@[k as int]@);
                assert(!deps_known(s));
            }
            return Err(EngineError::InvalidDag { reason });
        }
        let deps = self.resolve();
        match self.check_acyclic(&deps) {
            Ok(rank) => Ok((deps, rank)),
            Err(e) => Err(e),
        }
    }

    /// Rejects duplicate names, dangling dependencies and cycles before any
    /// stage runs — a bad graph fails loudly instead of deadlocking.
    pub fn validate(&self) -> (r: Result<(), EngineError>)
        ensures
            r is Ok <==> valid_dag(self@),
            r matches Err(EngineError::InvalidDag { reason }) ==> rejection_reason(self@, reason@),
    {
        match self.analyze() {
            Ok(_) => Ok(()),
            Err(e) => Err(e),
        }
    }
}


// ── retry backoff ───────────────────────────────────────────────────────────

/// The longest span a `std::time::Duration` can hold, in nanoseconds.
pub const MAX_DURATION_NANOS: u128 = 18_446_744_073_709_551_615_999_999_999u128;

pub open spec fn pow2(k: nat) -> nat
    decreases k,
{
    if k == 0 {
        1
    } else {
        2 * pow2((k - 1) as nat)
    }
}

proof fn lemma_pow2_mono(a: nat, b: nat)
    requires
        a <= b,
    ensures
        1 <= pow2(a) <= pow2(b),
    decreases b,
{
    if b > 0 {
        let a2: nat = if a < b {
            a
        } else {
            (b - 1) as nat
        };
        lemma_pow2_mono(a2, (b - 1) as nat);
    }
}

/// The multiplier applied to the base delay before the attempt with the
/// given retry index: `2^(retry-1)`, or `u32::MAX` once that shift no longer
/// fits (`checked_shl` failing).
pub open spec fn backoff_factor(retry: u32) -> nat {
    if 1 <= retry && retry - 1 < 32 {
        pow2((retry - 1) as nat)
    } else {
        u32::MAX as nat
    }
}

pub open spec fn min_nat(a: nat, b: nat) -> nat {
    if a <= b {
        a
    } else {
        b
    }
}

/// Delay before the attempt at retry index `retry` (0 = first try): none for
/// the first try or a zero base, else `base * factor`, saturated at the
/// longest duration and capped at `cap`.
pub open spec fn backoff_delay(base: nat, cap: nat, retry: u32) -> nat {
    if retry == 0 || base == 0 {
        0
    } else {
        min_nat(min_nat(base * backoff_factor(retry), MAX_DURATION_NANOS as nat), cap)
    }
}

/// How long a worker waits before a retry attempt: exponential in the retry
/// index, capped. Durations are held in nanoseconds.
#[derive(Debug, Clone, Copy)]
pub struct BackoffPolicy {
    base: u128,
    cap: u128,
}

impl BackoffPolicy {
    pub closed spec fn base(&self) -> nat {
        self.base as nat
    }

    pub closed spec fn cap(&self) -> nat {
        self.cap as nat
    }

    /// Exponential backoff from `base` nanoseconds, never longer than `cap`.
    pub fn exponential(base: u128, cap: u128) -> (r: Self)
        requires
            base <= MAX_DURATION_NANOS,
            cap <= MAX_DURATION_NANOS,
        ensures
            r.base() == base,
            r.cap() == cap,
    {
        BackoffPolicy { base, cap }
    }

    /// No delay between retries.
    pub fn none() -> (r: Self)
        ensures
            r.base() == 0,
            r.cap() == 0,
    {
        BackoffPolicy { base: 0, cap: 0 }
    }

    #[verifier::type_invariant]
    spec fn within_duration_range(&self) -> bool {
        self.base <= MAX_DURATION_NANOS && self.cap <= MAX_DURATION_NANOS
    }

    /// Delay in nanoseconds before the attempt at the given retry index
    /// (0 = first try, which never waits).
    pub fn delay(&self, retry: u32) -> (r: u128)
        ensures
            r == backoff_delay(self.base(), self.cap(), retry),
    {
        proof {
            use_type_invariant(self);
        }
        if retry == 0 || self.base == 0 {
            return 0;
        }
        let shift = retry - 1;
        let mut factor: u32 = 1;
        if shift < 32 {
            let mut j: u32 = 0;
            proof {
                reveal_with_fuel(pow2, 33);
                assert(pow2(31) == 0x8000_0000);
            }
            while j < shift
                invariant
                    j <= shift < 32,
                    factor as nat == pow2(j as nat),
                    pow2(31) == 0x8000_0000,
                decreases shift - j,
            {
                proof {
                    lemma_pow2_mono(j as nat, 30);
                    assert(pow2(30) == 0x4000_0000) by {
                        reveal_with_fuel(pow2, 32);
                    }
                }
                factor = factor * 2;
                j = j + 1;
            }
        } else {
            factor = u32::MAX;
        }
        assert(factor as nat == backoff_factor(retry));
        let b = self.base;
        assert(b * (factor as u128) <= MAX_DURATION_NANOS * 0xFFFF_FFFF) by (nonlinear_arith)
            requires
                b <= MAX_DURATION_NANOS,
                factor <= 0xFFFF_FFFFu32,
        ;
        let product: u128 = b * (factor as u128);
        let saturated = if product > MAX_DURATION_NANOS {
            MAX_DURATION_NANOS
        } else {
            product
        };
        if saturated < self.cap {
            saturated
        } else {
            self.cap
        }
    }
}

impl Default for BackoffPolicy {
    /// 200 ms, doubling, capped at 10 s.
    fn default() -> (r: Self)
        ensures
            r.base() == 200_000_000,
            r.cap() == 10_000_000_000,
    {
        BackoffPolicy::exponential(200_000_000, 10_000_000_000)
    }
}

/// The delay never exceeds the cap, the first attempt never waits, and each
/// retry waits at least as long as the one before.
pub proof fn lemma_backoff_capped_and_monotone(base: nat, cap: nat, r1: u32, r2: u32)
    requires
        r1 <= r2,
    ensures
        backoff_delay(base, cap, 0) == 0,
        backoff_delay(base, cap, r2) <= cap,
        r1 >= 1 ==> backoff_delay(base, cap, r1) <= backoff_delay(base, cap, r2),
{
    if r1 >= 1 && base > 0 {
        assert(backoff_factor(r1) <= backoff_factor(r2)) by {
            reveal_with_fuel(pow2, 33);
            assert(pow2(31) == 0x8000_0000);
            if r2 - 1 < 32 {
                lemma_pow2_mono((r1 - 1) as nat, (r2 - 1) as nat);
            } else if r1 - 1 < 32 {
                lemma_pow2_mono((r1 - 1) as nat, 31);
            }
        }
        assert(base * backoff_factor(r1) <= base * backoff_factor(r2)) by (nonlinear_arith)
            requires
                backoff_factor(r1) <= backoff_factor(r2),
        ;
    }
}


// ── the coordinator ─────────────────────────────────────────────────────────

/// A stage's position in the coordinator's state machine.
#[derive(Debug, Clone, Copy, PartialEq, Eq, Structural)]
pub enum StageStatus {
    /// Eligible once its dependencies are `Done`; also the state a stage
    /// returns to between a failed attempt and its retry.
    Pending,
    /// A worker is currently executing this stage.
    Running,
    Done,
}

/// A stage the coordinator has started: run it after waiting `delay_nanos`
/// and report the result back under the same index.
#[derive(Debug, PartialEq, Eq)]
pub struct Dispatch {
    pub stage: usize,
    pub name: String,
    pub delay_nanos: u128,
}

pub struct RunOutcomeView {
    pub task_id: Seq<char>,
    pub status: RunStatus,
    pub stages: Seq<Seq<char>>,
    pub failed_stage: Option<Seq<char>>,
}

impl View for RunOutcome {
    type V = RunOutcomeView;

    open spec fn view(&self) -> RunOutcomeView {
        RunOutcomeView {
            task_id: self.task_id@,
            status: self.status,
            stages: views(self.stages@),
            failed_stage: crate::proto::opt_view(self.failed_stage),
        }
    }
}

/// The owned state of one run: each stage's status and attempt count, and the
/// order in which stages completed.
pub struct Coordinator {
    task_id: String,
    names: Vec<String>,
    deps: Vec<Vec<usize>>,
    max_attempts: Vec<u32>,
    status: Vec<StageStatus>,
    attempts: Vec<u32>,
    completed: Vec<usize>,
    rank: Ghost<Seq<nat>>,
    slot: Ghost<Seq<int>>,
}

pub struct CoordinatorView {
    pub task_id: Seq<char>,
    pub names: Seq<Seq<char>>,
    pub deps: Seq<Seq<usize>>,
    pub max_attempts: Seq<u32>,
    pub status: Seq<StageStatus>,
    pub attempts: Seq<u32>,
    pub completed: Seq<usize>,
}

impl View for Coordinator {
    type V = CoordinatorView;

    closed spec fn view(&self) -> CoordinatorView {
        CoordinatorView {
            task_id: self.task_id@,
            names: views(self.names@),
            deps: dep_views(self.deps@),
            max_attempts: self.max_attempts@,
            status: self.status@,
            attempts: self.attempts@,
            completed: self.completed@,
        }
    }
}

/// Stage `i` is waiting and all its dependencies are done: it may start.
pub open spec fn ready(v: CoordinatorView, i: int) -> bool {
    &&& v.status[i] == StageStatus::Pending
    &&& forall|k: int| 0 <= k < v.deps[i].len() ==> v.status[#[trigger] v.deps[i][k] as int] == StageStatus::Done
}

/// Nothing is running and nothing can start: the run is over unless a stage
/// failed.
pub open spec fn quiescent(v: CoordinatorView) -> bool {
    forall|i: int| 0 <= i < v.status.len() ==> v.status[i] != StageStatus::Running && !ready(v, i)
}

/// The number of attempts a stage really gets: a budget of zero still allows
/// the first attempt.
pub open spec fn attempt_budget(max_attempts: u32) -> u32 {
    if max_attempts >= 1 {
        max_attempts
    } else {
        1
    }
}

/// A stage gets exactly the attempts it was configured with — no cap — and
/// a budget of zero still allows the first attempt.
pub proof fn lemma_budget_is_configured_attempts(m: u32)
    ensures
        m >= 1 ==> attempt_budget(m) == m,
        m == 0 ==> attempt_budget(m) == 1,
        attempt_budget(m) >= 1,
{
}

/// The names of the completed stages, in completion order.
pub open spec fn completed_names(v: CoordinatorView) -> Seq<Seq<char>> {
    v.completed.map_values(|i: usize| v.names[i as int])
}

/// The run's label for a stage that exhausted its retries.
pub open spec fn failure_label(name: Seq<char>, reason: Seq<char>) -> Seq<char> {
    name + ": "@ + reason
}

/// What a dispatch does to the state: every ready stage starts running and
/// nothing else changes.
pub open spec fn dispatch_step(pre: CoordinatorView, post: CoordinatorView) -> bool {
    &&& post.task_id == pre.task_id
    &&& post.names == pre.names
    &&& post.deps == pre.deps
    &&& post.max_attempts == pre.max_attempts
    &&& post.attempts == pre.attempts
    &&& post.completed == pre.completed
    &&& post.status.len() == pre.status.len()
    &&& forall|i: int|
        0 <= i < pre.status.len() ==> #[trigger] post.status[i] == (if ready(pre, i) {
            StageStatus::Running
        } else {
            pre.status[i]
        })
}

/// The stages a dispatch hands out, by index.
pub open spec fn dispatched_stages(v: Seq<Dispatch>) -> Seq<int> {
    v.map_values(|d: Dispatch| d.stage as int)
}

/// `s` lists exactly the stages ready in `pre`, each once, in graph order.
pub open spec fn lists_ready(pre: CoordinatorView, s: Seq<int>) -> bool {
    &&& forall|p: int, q: int| 0 <= p < q < s.len() ==> s[p] < s[q]
    &&& forall|p: int| 0 <= p < s.len() ==> 0 <= #[trigger] s[p] < pre.status.len() && ready(pre, s[p])
    &&& forall|i: int| 0 <= i < pre.status.len() && ready(pre, i) ==> s.contains(i)
}

/// How many times stage `i` has been started so far: once per failed
/// attempt, plus the run that is going on or has succeeded.
pub open spec fn runs_started(v: CoordinatorView, i: int) -> int {
    v.attempts[i] + if v.status[i] == StageStatus::Pending {
        0int
    } else {
        1int
    }
}

/// A run of `task_id` over the graph `dag` that has just started: one entry
/// per stage of the graph, with its name, its dependencies resolved to
/// indices and its attempt budget — exactly the attempts it was configured
/// with, one when that is zero — every stage pending with no attempt made,
/// and nothing completed.
pub open spec fn fresh_run(v: CoordinatorView, dag: Seq<StageSpecView>, task_id: Seq<char>) -> bool {
    &&& v.task_id == task_id
    &&& v.names.len() == dag.len()
    &&& v.max_attempts.len() == dag.len()
    &&& v.status.len() == dag.len()
    &&& v.attempts.len() == dag.len()
    &&& resolved(dag, v.deps)
    &&& forall|i: int|
        0 <= i < dag.len() ==> #[trigger] v.names[i] == dag[i].name && v.max_attempts[i] == attempt_budget(
            dag[i].max_attempts,
        ) && v.status[i] == StageStatus::Pending && v.attempts[i] == 0
    &&& forall|i: int| 0 <= i < dag.len() && dag[i].max_attempts >= 1 ==> #[trigger] v.max_attempts[i] == dag[i].max_attempts
    &&& v.completed.len() == 0
}

impl Coordinator {
    /// The coordinator's invariant.
    pub closed spec fn wf(&self) -> bool {
        let n = self.names.len();
        let dv = dep_views(self.deps@);
        &&& self.deps.len() == n
        &&& self.max_attempts.len() == n
        &&& self.status.len() == n
        &&& self.attempts.len() == n
        &&& self.rank@.len() == n
        &&& self.slot@.len() == n
        &&& deps_in_range(dv)
        &&& index_ranked(dv, self.rank@)
        &&& forall|i: int|
            0 <= i < n ==> 1 <= #[trigger] self.max_attempts[i] && self.attempts[i] < self.max_attempts[i]
        &&& forall|i: int, k: int|
            0 <= i < n && self.status[i] != StageStatus::Pending && 0 <= k < dv[i].len()
                ==> self.status[#[trigger] dv[i][k] as int] == StageStatus::Done
        &&& forall|i: int|
            0 <= i < n && #[trigger] self.status[i] == StageStatus::Done ==> 0 <= self.slot@[i]
                < self.completed.len() && self.completed[self.slot@[i]] == i
        &&& forall|i: int, k: int|
            0 <= i < n && self.status[i] == StageStatus::Done && 0 <= k < dv[i].len()
                ==> self.slot@[#[trigger] dv[i][k] as int] < self.slot@[i]
        &&& forall|p: int|
            0 <= p < self.completed.len() ==> #[trigger] self.completed[p] < n
                && self.status[self.completed[p] as int] == StageStatus::Done
                && self.slot@[self.completed[p] as int] == p
    }

    /// Starts a run of `task_id` over `dag`: every stage pending, no attempts
    /// made. The graph is checked first and rejected as `validate` would.
    pub fn new(dag: &Dag, task_id: &str) -> (r: Result<Coordinator, EngineError>)
        ensures
            r is Ok <==> valid_dag(dag@),
            r matches Err(EngineError::InvalidDag { reason }) ==> rejection_reason(dag@, reason@),
            r matches Ok(c) ==> c.wf() && fresh_run(c@, dag@, task_id@),
    {
        let (deps, rank) = match dag.analyze() {
            Ok(x) => x,
            Err(e) => return Err(e),
        };
        let n = dag.stages.len();
        let mut names: Vec<String> = Vec::new();
        let mut max_attempts: Vec<u32> = Vec::new();
        let mut status: Vec<StageStatus> = Vec::new();
        let mut attempts: Vec<u32> = Vec::new();
        let mut i: usize = 0;
        while i < n
            invariant
                n == dag@.len(),
                i <= n,
                names.len() == i,
                max_attempts.len() == i,
                status.len() == i,
                attempts.len() == i,
                forall|j: int| 0 <= j < i ==> #[trigger] names@[j]@ == dag@[j].name,
                forall|j: int|
                    0 <= j < i ==> #[trigger] max_attempts@[j] == attempt_budget(dag@[j].max_attempts),
                forall|j: int| 0 <= j < i ==> #[trigger] status@[j] == StageStatus::Pending,
                forall|j: int| 0 <= j < i ==> #[trigger] attempts@[j] == 0,
            decreases n - i,
        {
            assert(dag@[i as int] == dag.stages@[i as int]@);
            let nm = dag.stages[i].name.clone();
            assert(nm@ == dag@[i as int].name);
            names.push(nm);
            let m = dag.stages[i].max_attempts;
            max_attempts.push(if m >= 1 { m } else { 1 });
            status.push(StageStatus::Pending);
            attempts.push(0);
            assert(names@[i as int]@ == dag@[i as int].name);
            assert(max_attempts@[i as int] == attempt_budget(dag@[i as int].max_attempts));
            i = i + 1;
        }
        proof {
            assert(dag@.len() == n);
        }
        let c = Coordinator {
            task_id: task_id.to_string(),
            names,
            deps,
            max_attempts,
            status,
            attempts,
            completed: Vec::new(),
            rank,
            slot: Ghost(Seq::new(n as nat, |j: int| 0int)),
        };
        assert(views(c.names@) =~= Seq::new(n as nat, |j: int| dag@[j].name));
        Ok(c)
    }

    /// Whether the `k`-th dependency list of stage `i` is all done.
    fn deps_done(&self, i: usize) -> (r: bool)
        requires
            self.wf(),
            i < self@.names.len(),
        ensures
            r == (forall|k: int|
                0 <= k < self@.deps[i as int].len() ==> self@.status[#[trigger] self@.deps[i as int][k] as int]
                    == StageStatus::Done),
    {
        let ghost dv = dep_views(self.deps@);
        assert(dv[i as int] == self.deps@[i as int]@);
        let row = &self.deps[i];
        let mut k: usize = 0;
        while k < row.len()
            invariant
                self.wf(),
                i < self.names.len(),
                dv == dep_views(self.deps@),
                row@ == dv[i as int],
                k <= row.len(),
                forall|j: int| 0 <= j < k ==> self.status@[#[trigger] row@[j] as int] == StageStatus::Done,
            decreases row.len() - k,
        {
            assert(row@[k as int] < self.status.len());
            if self.status[row[k]] != StageStatus::Done {
                return false;
            }
            k = k + 1;
        }
        true
    }

    /// Starts every stage that is pending with all its dependencies done, in
    /// graph order, and returns them with the delay each waits first (by its
    /// number of failed attempts so far). Afterwards no stage is left that
    /// could start.
    pub fn dispatch(&mut self, backoff: &BackoffPolicy) -> (r: Vec<Dispatch>)
        requires
            old(self).wf(),
        ensures
            final(self).wf(),
            final(self)@.task_id == old(self)@.task_id,
            final(self)@.names == old(self)@.names,
            final(self)@.deps == old(self)@.deps,
            final(self)@.max_attempts == old(self)@.max_attempts,
            final(self)@.attempts == old(self)@.attempts,
            final(self)@.completed == old(self)@.completed,
            final(self)@.status.len() == old(self)@.status.len(),
            forall|i: int|
                0 <= i < old(self)@.status.len() ==> #[trigger] final(self)@.status[i] == (if ready(
                    old(self)@,
                    i,
                ) {
                    StageStatus::Running
                } else {
                    old(self)@.status[i]
                }),
            forall|i: int| 0 <= i < final(self)@.status.len() ==> !ready(final(self)@, i),
            forall|p: int|
                0 <= p < r.len() ==> (#[trigger] r@[p]).stage < old(self)@.names.len() && ready(
                    old(self)@,
                    r@[p].stage as int,
                ) && r@[p].name@ == old(self)@.names[r@[p].stage as int] && r@[p].delay_nanos
                    == backoff_delay(
                    backoff.base(),
                    backoff.cap(),
                    old(self)@.attempts[r@[p].stage as int],
                ),
            forall|p: int, q: int| 0 <= p < q < r.len() ==> r@[p].stage < r@[q].stage,
            forall|i: int|
                0 <= i < old(self)@.status.len() && ready(old(self)@, i) ==> exists|p: int|
                    0 <= p < r.len() && #[trigger] r@[p].stage == i,
            dispatch_step(old(self)@, final(self)@),
            lists_ready(old(self)@, dispatched_stages(r@)),
    {
        let ghost pre = self@;
        let n = self.names.len();
        let mut out: Vec<Dispatch> = Vec::new();
        let mut i: usize = 0;
        while i < n
            invariant
                self.wf(),
                n == pre.names.len(),
                i <= n,
                self@.task_id == pre.task_id,
                self@.names == pre.names,
                self@.deps == pre.deps,
                self@.max_attempts == pre.max_attempts,
                self@.attempts == pre.attempts,
                self@.completed == pre.completed,
                self@.status.len() == n,
                forall|j: int|
                    0 <= j < i ==> #[trigger] self@.status[j] == (if ready(pre, j) {
                        StageStatus::Running
                    } else {
                        pre.status[j]
                    }),
                forall|j: int| i <= j < n ==> #[trigger] self@.status[j] == pre.status[j],
                forall|j: int|
                    0 <= j < n ==> (#[trigger] self@.status[j] == StageStatus::Done <==> pre.status[j]
                        == StageStatus::Done),
                forall|p: int|
                    0 <= p < out.len() ==> (#[trigger] out@[p]).stage < i && ready(
                        pre,
                        out@[p].stage as int,
                    ) && out@[p].name@ == pre.names[out@[p].stage as int] && out@[p].delay_nanos
                        == backoff_delay(backoff.base(), backoff.cap(), pre.attempts[out@[p].stage as int]),
                forall|p: int, q: int| 0 <= p < q < out.len() ==> out@[p].stage < out@[q].stage,
                forall|j: int|
                    0 <= j < i && ready(pre, j) ==> exists|p: int|
                        0 <= p < out.len() && #[trigger] out@[p].stage == j,
            decreases n - i,
        {
            if self.status[i] == StageStatus::Pending && self.deps_done(i) {
                proof {
                    assert(ready(pre, i as int));
                }
                let ghost before = self@;
                let ghost old_out = out@;
                self.status.set(i, StageStatus::Running);
                let name = self.names[i].clone();
                let delay = backoff.delay(self.attempts[i]);
                proof {
                    assert(views(self.names@)[i as int] == self.names@[i as int]@);
                }
                out.push(Dispatch { stage: i, name, delay_nanos: delay });
                proof {
                    assert(self@.status =~= before.status.update(i as int, StageStatus::Running));
                    assert forall|j: int|
                        0 <= j < i + 1 && ready(pre, j) implies exists|p: int|
                            0 <= p < out.len() && #[trigger] out@[p].stage == j by {
                        if j < i {
                            let p = choose|p: int| 0 <= p < old_out.len() && #[trigger] old_out[p].stage == j;
                            assert(out@[p] == old_out[p]);
                        } else {
                            assert(out@[out.len() - 1].stage == j);
                        }
                    }
                }
            } else {
                proof {
                    if ready(pre, i as int) {
                        assert forall|k: int| 0 <= k < self@.deps[i as int].len() implies self@.status[
                            #[trigger] self@.deps[i as int][k] as int] == StageStatus::Done by {
                            let d = self@.deps[i as int][k] as int;
                            assert(pre.status[d] == StageStatus::Done);
                        }
                    }
                }
            }
            i = i + 1;
        }
        proof {
            assert forall|j: int| 0 <= j < n implies !ready(self@, j) by {
                if ready(self@, j) {
                    assert forall|k: int| 0 <= k < pre.deps[j].len() implies pre.status[
                        #[trigger] pre.deps[j][k] as int] == StageStatus::Done by {
                        let d = pre.deps[j][k] as int;
                        assert(self@.status[d] == StageStatus::Done);
                    }
                }
            }
            let ds = dispatched_stages(out@);
            assert forall|p: int| 0 <= p < ds.len() implies #[trigger] ds[p] == out@[p].stage as int by {}
            assert forall|j: int| 0 <= j < pre.status.len() && ready(pre, j) implies ds.contains(j) by {
                let p = choose|p: int| 0 <= p < out.len() && #[trigger] out@[p].stage == j;
                assert(ds[p] == j);
            }
        }
        out
    }

    /// No stage is running.
    pub fn idle(&self) -> (r: bool)
        requires
            self.wf(),
        ensures
            r == (forall|i: int| 0 <= i < self@.status.len() ==> self@.status[i] != StageStatus::Running),
    {
        let mut i: usize = 0;
        while i < self.status.len()
            invariant
                i <= self.status.len(),
                forall|j: int| 0 <= j < i ==> self.status@[j] != StageStatus::Running,
            decreases self.status.len() - i,
        {
            if self.status[i] == StageStatus::Running {
                return false;
            }
            i = i + 1;
        }
        true
    }

    /// Whether stage `stage` is currently running (its result is awaited).
    pub fn is_running(&self, stage: usize) -> (r: bool)
        ensures
            r == (stage < self@.status.len() && self@.status[stage as int] == StageStatus::Running),
    {
        stage < self.status.len() && self.status[stage] == StageStatus::Running
    }

    /// The names of the completed stages, in completion order.
    fn completed_stage_names(&self) -> (r: Vec<String>)
        requires
            self.wf(),
        ensures
            views(r@) == completed_names(self@),
    {
        let mut out: Vec<String> = Vec::new();
        let mut p: usize = 0;
        while p < self.completed.len()
            invariant
                self.wf(),
                p <= self.completed.len(),
                out.len() == p,
                forall|q: int| 0 <= q < p ==> (#[trigger] out@[q])@ == self@.names[self@.completed[q] as int],
            decreases self.completed.len() - p,
        {
            let idx = self.completed[p];
            assert(idx < self.names.len());
            let nm = self.names[idx].clone();
            assert(views(self.names@)[idx as int] == self.names@[idx as int]@);
            out.push(nm);
            p = p + 1;
        }
        assert(views(out@) =~= completed_names(self@));
        out
    }

    /// Records the result of a running stage. Success marks it done. A failure
    /// sends only this stage back to pending for a retry — unless that was its
    /// last allowed attempt: then the run has failed, the outcome is returned
    /// (stages completed so far, and the stage with its reason) and the state
    /// is left as it was.
    pub fn record(&mut self, stage: usize, result: Result<(), StageError>) -> (r: Option<RunOutcome>)
        requires
            old(self).wf(),
            stage < old(self)@.names.len(),
            old(self)@.status[stage as int] == StageStatus::Running,
        ensures
            final(self).wf(),
            final(self)@.task_id == old(self)@.task_id,
            final(self)@.names == old(self)@.names,
            final(self)@.deps == old(self)@.deps,
            final(self)@.max_attempts == old(self)@.max_attempts,
            match result {
                Ok(()) => {
                    &&& r is None
                    &&& final(self)@.status == old(self)@.status.update(stage as int, StageStatus::Done)
                    &&& final(self)@.attempts == old(self)@.attempts
                    &&& final(self)@.completed == old(self)@.completed.push(stage)
                },
                Err(e) => if old(self)@.attempts[stage as int] + 1 >= old(self)@.max_attempts[stage as int] {
                    &&& final(self)@ == old(self)@
                    &&& r matches Some(o) && o@ == (RunOutcomeView {
                        task_id: old(self)@.task_id,
                        status: RunStatus::Failed,
                        stages: completed_names(old(self)@),
                        failed_stage: Some(failure_label(old(self)@.names[stage as int], e.0@)),
                    })
                } else {
                    &&& r is None
                    &&& final(self)@.status == old(self)@.status.update(stage as int, StageStatus::Pending)
                    &&& final(self)@.attempts == old(self)@.attempts.update(
                        stage as int,
                        (old(self)@.attempts[stage as int] + 1) as u32,
                    )
                    &&& final(self)@.completed == old(self)@.completed
                },
            },
    {
        let ghost pre = self@;
        match result {
            Ok(()) => {
                let ghost clen = self.completed.len() as int;
                self.status.set(stage, StageStatus::Done);
                self.completed.push(stage);
                proof {
                    self.slot@ = self.slot@.update(stage as int, clen);
                    let dv = dep_views(self.deps@);
                    assert forall|i: int, k: int|
                        0 <= i < self.names.len() && self.status[i] == StageStatus::Done && 0 <= k < dv[i].len()
                            implies self.slot@[#[trigger] dv[i][k] as int] < self.slot@[i] by {
                        if i == stage {
                            assert(pre.status[dv[i][k] as int] == StageStatus::Done);
                        } else {
                            assert(dv[i][k] != stage);
                        }
                    }
                    assert forall|p: int| 0 <= p < self.completed.len() implies #[trigger] self.completed[p]
                        < self.names.len() && self.status[self.completed[p] as int] == StageStatus::Done
                        && self.slot@[self.completed[p] as int] == p by {
                        if p < clen {
                            assert(self.completed[p] == pre.completed[p]);
                            assert(pre.completed[p] != stage);
                        }
                    }
                    assert(self@.status =~= pre.status.update(stage as int, StageStatus::Done));
                }
                None
            },
            Err(e) => {
                assert(self.attempts@[stage as int] < self.max_attempts@[stage as int]);
                let tries = self.attempts[stage] + 1;
                if tries >= self.max_attempts[stage] {
                    let stages = self.completed_stage_names();
                    let mut label = self.names[stage].clone();
                    append_str(&mut label, ": ");
                    append_str(&mut label, e.0.as_str());
                    proof {
                        assert(views(self.names@)[stage as int] == self.names@[stage as int]@);
                    }
                    Some(
                        RunOutcome {
                            task_id: self.task_id.clone(),
                            status: RunStatus::Failed,
                            stages,
                            failed_stage: Some(label),
                        },
                    )
                } else {
                    self.attempts.set(stage, tries);
                    self.status.set(stage, StageStatus::Pending);
                    proof {
                        assert(self@.status =~= pre.status.update(stage as int, StageStatus::Pending));
                        assert(self@.attempts =~= pre.attempts.update(stage as int, tries));
                        let dv = dep_views(self.deps@);
                        assert forall|i: int, k: int|
                            0 <= i < self.names.len() && self.status[i] != StageStatus::Pending && 0 <= k
                                < dv[i].len() implies self.status[#[trigger] dv[i][k] as int]
                                == StageStatus::Done by {
                            assert(pre.status[i] != StageStatus::Pending);
                            assert(pre.status[dv[i][k] as int] == StageStatus::Done);
                        }
                    }
                    None
                }
            },
        }
    }

    /// The outcome of a run that has come to rest without a failure: every
    /// stage completed, listed in completion order.
    pub fn finish(&self) -> (r: RunOutcome)
        requires
            self.wf(),
            quiescent(self@),
        ensures
            r@ == (RunOutcomeView {
                task_id: self@.task_id,
                status: RunStatus::Completed,
                stages: completed_names(self@),
                failed_stage: None,
            }),
    {
        let stages = self.completed_stage_names();
        RunOutcome { task_id: self.task_id.clone(), status: RunStatus::Completed, stages, failed_stage: None }
    }
}

/// A run that has come to rest without failing has completed every stage,
/// each exactly once: every stage appears among the completed ones, and
/// there are as many completions as stages.
#[verifier::spinoff_prover]
pub proof fn lemma_quiescent_run_completes_every_stage(c: &Coordinator)
    requires
        c.wf(),
        quiescent(c@),
    ensures
        forall|i: int| 0 <= i < c@.names.len() ==> #[trigger] c@.status[i] == StageStatus::Done,
        forall|i: usize| i < c@.names.len() ==> #[trigger] c@.completed.contains(i),
        c@.completed.len() == c@.names.len(),
{
    let n = c@.names.len();
    let dv = c@.deps;
    let st = c@.status;
    assert forall|i: int| 0 <= i < n implies #[trigger] st[i] == StageStatus::Done by {
        if st[i] != StageStatus::Done {
            let p = |j: int| 0 <= j < n && st[j] != StageStatus::Done;
            let f = |j: int| if 0 <= j < c.rank@.len() { c.rank@[j] } else { 0nat };
            let m = lemma_least(p, f, i);
            assert(p(m));
            assert(0 <= m < n);
            assert(c@.status.len() == n);
            assert(!ready(c@, m));
            assert(c@.status[m] != StageStatus::Running);
            assert(st[m] == StageStatus::Pending);
            let k = choose|k: int| 0 <= k < dv[m].len() && st[#[trigger] dv[m][k] as int] != StageStatus::Done;
            let d = dv[m][k] as int;
            assert(p(d));
            assert(c.rank@[d] < c.rank@[m]);
        }
    }
    assert forall|i: usize| i < n implies #[trigger] c@.completed.contains(i) by {
        assert(st[i as int] == StageStatus::Done);
        assert(c@.completed[c.slot@[i as int]] == i);
    }
    // Distinct completions covering exactly the stage indices: one each.
    let done = c@.completed;
    let s = done.map_values(|i: usize| i as int);
    lemma_completion_order(c);
    assert(s.no_duplicates()) by {
        assert forall|p: int, q: int| 0 <= p < s.len() && 0 <= q < s.len() && p != q implies s[p] != s[q] by {
            if p < q {
                assert(done[p] != done[q]);
            } else {
                assert(done[q] != done[p]);
            }
        }
    }
    assert(s.to_set() =~= vstd::set_lib::set_int_range(0, n as int)) by {
        assert forall|x: int| s.to_set().contains(x) <==> 0 <= x < n by {
            if s.to_set().contains(x) {
                assert(s.contains(x));
                let p = choose|p: int| 0 <= p < s.len() && s[p] == x;
                assert(done[p] < n);
            }
            if 0 <= x < n {
                assert(done.contains(x as usize));
                let p = choose|p: int| 0 <= p < done.len() && done[p] == x as usize;
                assert(s[p] == x);
                assert(s.contains(x));
            }
        }
    }
    s.unique_seq_to_set();
    vstd::set_lib::lemma_int_range(0, n as int);
}

/// Stages complete after their dependencies and at most once: no completed
/// stage repeats, every one is a stage of the graph, and no stage completed
/// before one of its dependencies.
pub proof fn lemma_completion_order(c: &Coordinator)
    requires
        c.wf(),
    ensures
        forall|p: int| 0 <= p < c@.completed.len() ==> (#[trigger] c@.completed[p]) < c@.names.len(),
        forall|p: int, q: int|
            0 <= p < q < c@.completed.len() ==> c@.completed[p] != c@.completed[q],
        forall|p: int, q: int, k: int|
            0 <= p < q < c@.completed.len() && 0 <= k < c@.deps[c@.completed[p] as int].len()
                ==> c@.deps[c@.completed[p] as int][k] != c@.completed[q],
{
    let dv = c@.deps;
    assert forall|p: int, q: int| 0 <= p < q < c@.completed.len() implies c@.completed[p] != c@.completed[q] by {
        assert(c.slot@[c@.completed[p] as int] == p);
        assert(c.slot@[c@.completed[q] as int] == q);
    }
    assert forall|p: int, q: int, k: int|
        0 <= p < q < c@.completed.len() && 0 <= k < dv[c@.completed[p] as int].len() implies dv[c@.completed[p] as int][k]
            != c@.completed[q] by {
        let i = c@.completed[p] as int;
        assert(c.status[i] == StageStatus::Done);
        assert(c.slot@[dv[i][k] as int] < c.slot@[i]);
        assert(c.slot@[c@.completed[q] as int] == q);
    }
}

/// No stage is attempted more often than its budget allows: every stage's
/// failed attempts stay below its budget while the run goes on.
pub proof fn lemma_attempts_within_budget(c: &Coordinator)
    requires
        c.wf(),
    ensures
        forall|i: int| 0 <= i < c@.names.len() ==> #[trigger] c@.attempts[i] < c@.max_attempts[i],
{
}


/// No stage is started more often than its budget allows; and a stage whose
/// failure ends the run (its last allowed attempt failing, as `record`
/// decides) has been started exactly its budget of times.
pub proof fn lemma_runs_within_budget(c: &Coordinator, s: int)
    requires
        c.wf(),
        0 <= s < c@.names.len(),
    ensures
        runs_started(c@, s) <= c@.max_attempts[s],
        c@.status[s] == StageStatus::Running && c@.attempts[s] + 1 >= c@.max_attempts[s] ==> runs_started(c@, s)
            == c@.max_attempts[s],
{
}

/// A dispatch starts each stage it hands out exactly once more, and no
/// other stage.
pub proof fn lemma_dispatch_counts_runs(pre: CoordinatorView, post: CoordinatorView, i: int)
    requires
        dispatch_step(pre, post),
        0 <= i < pre.status.len(),
        pre.attempts.len() == pre.status.len(),
    ensures
        runs_started(post, i) == runs_started(pre, i) + if ready(pre, i) {
            1int
        } else {
            0int
        },
{
}

/// Recording a result starts nothing: success keeps the stage's count, and
/// a failure that leaves room for a retry moves its run into the failed
/// attempts.
pub proof fn lemma_record_keeps_runs(
    pre: CoordinatorView,
    post: CoordinatorView,
    stage: int,
    succeeded: bool,
    i: int,
)
    requires
        0 <= stage < pre.status.len(),
        0 <= i < pre.status.len(),
        pre.attempts.len() == pre.status.len(),
        pre.status[stage] == StageStatus::Running,
        succeeded ==> post.status == pre.status.update(stage, StageStatus::Done) && post.attempts == pre.attempts,
        !succeeded ==> post.status == pre.status.update(stage, StageStatus::Pending) && post.attempts
            == pre.attempts.update(stage, (pre.attempts[stage] + 1) as u32),
        pre.attempts[stage] + 1 <= u32::MAX,
    ensures
        runs_started(post, i) == runs_started(pre, i),
{
}

/// Over the whole run, a stage starts only after all its dependencies have
/// succeeded: a stage that is running or done has every dependency done and
/// listed among the completed stages.
pub proof fn lemma_started_after_dependencies(c: &Coordinator)
    requires
        c.wf(),
    ensures
        forall|i: int, k: int|
            0 <= i < c@.names.len() && c@.status[i] != StageStatus::Pending && 0 <= k < c@.deps[i].len()
                ==> c@.status[#[trigger] c@.deps[i][k] as int] == StageStatus::Done && c@.completed.contains(
                c@.deps[i][k],
            ),
{
    assert forall|i: int, k: int|
        0 <= i < c@.names.len() && c@.status[i] != StageStatus::Pending && 0 <= k < c@.deps[i].len() implies c@.status[
        #[trigger] c@.deps[i][k] as int] == StageStatus::Done && c@.completed.contains(c@.deps[i][k]) by {
        let d = c@.deps[i][k] as int;
        assert(c@.status[d] == StageStatus::Done);
        assert(c@.completed[c.slot@[d]] == d);
    }
}

/// Two strictly increasing lists holding the same indices are the same list.
proof fn lemma_increasing_lists_agree(s1: Seq<int>, s2: Seq<int>)
    requires
        forall|p: int, q: int| 0 <= p < q < s1.len() ==> s1[p] < s1[q],
        forall|p: int, q: int| 0 <= p < q < s2.len() ==> s2[p] < s2[q],
        forall|x: int| s1.contains(x) <==> s2.contains(x),
    ensures
        s1 == s2,
    decreases s1.len() + s2.len(),
{
    if s1.len() == 0 || s2.len() == 0 {
        if s1.len() > 0 {
            assert(s1.contains(s1[0]));
        }
        if s2.len() > 0 {
            assert(s2.contains(s2[0]));
        }
        assert(s1 =~= s2);
    } else {
        assert(s1.contains(s1[0]));
        assert(s2.contains(s2[0]));
        let a = choose|a: int| 0 <= a < s2.len() && s2[a] == s1[0];
        let b = choose|b: int| 0 <= b < s1.len() && s1[b] == s2[0];
        if a > 0 {
            assert(s2[0] < s2[a]);
        }
        if b > 0 {
            assert(s1[0] < s1[b]);
        }
        assert(s1[0] == s2[0]);
        let t1 = s1.drop_first();
        let t2 = s2.drop_first();
        assert forall|x: int| t1.contains(x) <==> t2.contains(x) by {
            if t1.contains(x) {
                let p = choose|p: int| 0 <= p < t1.len() && t1[p] == x;
                assert(s1[p + 1] == x && s1[0] < s1[p + 1]);
                assert(s1.contains(x));
                let q = choose|q: int| 0 <= q < s2.len() && s2[q] == x;
                assert(q != 0);
                assert(t2[q - 1] == x);
            }
            if t2.contains(x) {
                let p = choose|p: int| 0 <= p < t2.len() && t2[p] == x;
                assert(s2[p + 1] == x && s2[0] < s2[p + 1]);
                assert(s2.contains(x));
                let q = choose|q: int| 0 <= q < s1.len() && s1[q] == x;
                assert(q != 0);
                assert(t1[q - 1] == x);
            }
        }
        lemma_increasing_lists_agree(t1, t2);
        assert(s1 =~= seq![s1[0]] + t1);
        assert(s2 =~= seq![s2[0]] + t2);
    }
}

/// The backoff policy changes only how long a dispatched stage waits: two
/// dispatches from the same state, whatever their policies, leave the same
/// state and start the same stages in the same order. Recording a result
/// takes no policy, so a run's states, the stages it starts and its outcome
/// do not depend on the backoff.
pub proof fn lemma_backoff_only_delays(
    pre: CoordinatorView,
    post1: CoordinatorView,
    post2: CoordinatorView,
    s1: Seq<int>,
    s2: Seq<int>,
)
    requires
        dispatch_step(pre, post1),
        dispatch_step(pre, post2),
        lists_ready(pre, s1),
        lists_ready(pre, s2),
    ensures
        post1 == post2,
        s1 == s2,
{
    assert(post1.status =~= post2.status);
    assert forall|x: int| s1.contains(x) <==> s2.contains(x) by {
        if s1.contains(x) {
            let p = choose|p: int| 0 <= p < s1.len() && s1[p] == x;
            assert(0 <= s1[p] < pre.status.len() && ready(pre, s1[p]));
        }
        if s2.contains(x) {
            let p = choose|p: int| 0 <= p < s2.len() && s2[p] == x;
            assert(0 <= s2[p] < pre.status.len() && ready(pre, s2[p]));
        }
    }
    lemma_increasing_lists_agree(s1, s2);
}

// ── engines ─────────────────────────────────────────────────────────────────

/// The real engine's configuration: the graph, the worker that runs a stage,
/// and the retry backoff. Driving it means taking a [`Coordinator`] from
/// [`GraphEngine::start`], running every dispatched stage with the runner
/// (concurrently where several are eligible), and recording each result.
pub struct GraphEngine<R> {
    dag: Dag,
    runner: R,
    backoff: BackoffPolicy,
}

impl<R> GraphEngine<R> {
    pub closed spec fn dag_view(&self) -> Seq<StageSpecView> {
        self.dag@
    }

    pub closed spec fn backoff_view(&self) -> BackoffPolicy {
        self.backoff
    }

    pub closed spec fn runner_view(&self) -> R {
        self.runner
    }

    /// An engine over `dag` with the default backoff.
    pub fn new(dag: Dag, runner: R) -> (r: Self)
        ensures
            r.dag_view() == dag@,
            r.runner_view() == runner,
            r.backoff_view().base() == 200_000_000,
            r.backoff_view().cap() == 10_000_000_000,
    {
        GraphEngine { dag, runner, backoff: BackoffPolicy::default() }
    }

    /// The same engine with another backoff policy.
    pub fn with_backoff(self, backoff: BackoffPolicy) -> (r: Self)
        ensures
            r.dag_view() == self.dag_view(),
            r.runner_view() == self.runner_view(),
            r.backoff_view() == backoff,
    {
        GraphEngine { backoff, ..self }
    }

    pub fn dag(&self) -> (r: &Dag)
        ensures
            r@ == self.dag_view(),
    {
        &self.dag
    }

    pub fn runner(&self) -> (r: &R)
        ensures
            *r == self.runner_view(),
    {
        &self.runner
    }

    pub fn backoff(&self) -> (r: &BackoffPolicy)
        ensures
            *r == self.backoff_view(),
    {
        &self.backoff
    }

    /// Starts a run of `task` over this engine's graph: the graph is
    /// validated before any stage runs, and the run begins with every stage
    /// of the graph pending, none attempted, each with its budget.
    #[verifier::spinoff_prover]
    pub fn start(&self, task: &Task) -> (r: Result<Coordinator, EngineError>)
        ensures
            r is Ok <==> valid_dag(self.dag_view()),
            r matches Err(EngineError::InvalidDag { reason }) ==> rejection_reason(self.dag_view(), reason@),
            r matches Ok(c) ==> c.wf() && fresh_run(c@, self.dag_view(), task.id@),
    {
        let r = Coordinator::new(&self.dag, task.id.as_str());
        assert(self.dag@ == self.dag_view());
        r
    }
}

/// The names of the default pipeline's stages, in order.
pub open spec fn fix_pipeline_names() -> Seq<Seq<char>> {
    seq!["retrieve"@, "plan"@, "implement"@, "test"@, "review"@]
}

/// Deterministic engine for tests and early wiring: reports the fixed
/// happy-path pipeline as completed without running anything.
pub struct FakeEngine;

impl FakeEngine {
    pub fn run(&self, task: Task) -> (r: Result<RunOutcome, EngineError>)
        ensures
            r matches Ok(o) && o@ == (RunOutcomeView {
                task_id: task.id@,
                status: RunStatus::Completed,
                stages: fix_pipeline_names(),
                failed_stage: None,
            }),
    {
        let mut stages: Vec<String> = Vec::new();
        stages.push("retrieve".to_string());
        stages.push("plan".to_string());
        stages.push("implement".to_string());
        stages.push("test".to_string());
        stages.push("review".to_string());
        assert(views(stages@) =~= fix_pipeline_names());
        Ok(
            RunOutcome {
                task_id: task.id,
                status: RunStatus::Completed,
                stages,
                failed_stage: None,
            },
        )
    }
}

} // verus!
