//! Search: outcomes, limits, statistics, the planner and heuristic
//! interfaces, and the planners themselves.

use vstd::prelude::*;
use core::time::Duration;
use std::time::Instant;
use crate::error::MiniplanError;
use crate::plan::{Plan, solves, capped, path_cost};
use crate::task::{State, Task};
use crate::table::KeyMap;
use crate::heuristic::blind::BlindHeuristic;
use crate::heuristic::goal_count::GoalCountHeuristic;
use crate::heuristic::relaxed::{HAdd, HMax, HFF};
use crate::heuristic::zero::HZero;

pub mod astar;
pub mod bae;
pub mod gbfs;
pub mod regression;
pub mod bfs;
pub mod bibfs_uc;
pub mod bidij;

pub use crate::task::OpId;
pub use astar::Astar;
pub use bae::Bae;
pub use bfs::Bfs;
pub use bibfs_uc::BibfsUc;
pub use bidij::BiDij;
pub use gbfs::Gbfs;

verus! {

#[verifier::external_type_specification]
#[verifier::external_body]
pub struct ExInstant(Instant);

/// Calls `Instant::now`: the current time, which nothing here describes.
#[verifier::external_body]
pub fn now() -> Instant {
    Instant::now()
}

/// Calls `Instant::elapsed`: the time since `start`, as the clock reports it.
#[verifier::external_body]
pub fn elapsed_since(start: &Instant) -> Duration {
    start.elapsed()
}

/// Calls `<Duration as PartialOrd>::ge`: whether `a` is at least `b`.
#[verifier::external_body]
pub fn duration_at_least(a: &Duration, b: &Duration) -> bool {
    *a >= *b
}

/// Calls `Duration::from_secs`.
#[verifier::external_body]
pub fn duration_from_secs(secs: u64) -> Duration {
    Duration::from_secs(secs)
}

/// Calls `Duration::default`: the zero duration.
#[verifier::external_body]
pub fn duration_zero() -> Duration {
    Duration::default()
}

/// A heuristic value: a finite estimate, or infinity (`None`).
#[derive(Clone, Copy, PartialEq, Eq, Structural, Debug)]
pub struct HValue(pub Option<u64>);

impl HValue {
    /// The infinite value.
    pub fn infinity() -> (h: HValue)
        ensures
            h == HValue(None),
    {
        HValue(None)
    }

    pub fn is_finite(&self) -> (r: bool)
        ensures
            r == (self.0 is Some),
    {
        self.0.is_some()
    }
}

/// Limits on a search run.
pub struct SearchLimits {
    pub time_budget: Option<Duration>,
    pub node_budget: Option<u64>,
    pub memory_mb: Option<u64>,
}

impl SearchLimits {
    /// Five minutes of time, no node or memory budget.
    pub fn default_limits() -> (l: SearchLimits)
        ensures
            l.time_budget is Some,
            l.node_budget is None,
            l.memory_mb is None,
    {
        SearchLimits { time_budget: Some(duration_from_secs(300)), node_budget: None, memory_mb: None }
    }
}

impl Default for SearchLimits {
    /// Five minutes of time, no node or memory budget.
    fn default() -> (l: SearchLimits)
        ensures
            l.time_budget is Some,
            l.node_budget is None,
            l.memory_mb is None,
    {
        SearchLimits::default_limits()
    }
}

/// Counters and timings of a search run.
pub struct SearchStats {
    pub nodes_expanded: u64,
    pub nodes_generated: u64,
    pub plan_cost: u64,
    pub plan_length: usize,
    pub elapsed: Duration,
}

impl SearchStats {
    pub fn zero() -> (s: SearchStats)
        ensures
            s.nodes_expanded == 0,
            s.nodes_generated == 0,
            s.plan_cost == 0,
            s.plan_length == 0,
    {
        SearchStats {
            nodes_expanded: 0,
            nodes_generated: 0,
            plan_cost: 0,
            plan_length: 0,
            elapsed: duration_zero(),
        }
    }
}

/// The result of a search run.
pub enum SearchOutcome {
    Plan(Plan, SearchStats),
    Unsolvable(SearchStats),
    LimitReached(SearchStats),
}

/// A returned plan solves the task, its cost is the summed cost of its
/// operators, and the statistics report its cost and length.
pub open spec fn plan_outcome_sound(task: &Task, plan: &Plan, stats: &SearchStats) -> bool {
    &&& solves(task, plan.ops())
    &&& plan.cost == capped(path_cost(task, plan.ops()))
    &&& stats.plan_cost == plan.cost
    &&& stats.plan_length == plan.steps@.len()
}

/// Whether some sequence of operators solves the task.
pub open spec fn solvable(task: &Task) -> bool {
    exists|ops: Seq<OpId>| solves(task, ops)
}

/// What a planner can handle, as a set of flags.
#[derive(Clone, Copy, PartialEq, Eq, Structural, Debug)]
pub struct PlannerCapabilities {
    pub bits: u32,
}

impl PlannerCapabilities {
    /// No capability.
    pub fn empty() -> (c: Self)
        ensures
            c.bits == 0,
    {
        PlannerCapabilities { bits: 0 }
    }

    /// Classical STRIPS tasks.
    pub fn classical() -> (c: Self)
        ensures
            c.bits == 1,
    {
        PlannerCapabilities { bits: 1 }
    }

    /// Negative preconditions.
    pub fn negative_preconds() -> (c: Self)
        ensures
            c.bits == 2,
    {
        PlannerCapabilities { bits: 2 }
    }

    /// Disjunctive preconditions.
    pub fn disjunctive() -> (c: Self)
        ensures
            c.bits == 4,
    {
        PlannerCapabilities { bits: 4 }
    }

    /// Quantified preconditions.
    pub fn quantified_precons() -> (c: Self)
        ensures
            c.bits == 8,
    {
        PlannerCapabilities { bits: 8 }
    }

    /// Conditional effects.
    pub fn conditional_effects() -> (c: Self)
        ensures
            c.bits == 16,
    {
        PlannerCapabilities { bits: 16 }
    }

    /// Action costs.
    pub fn action_costs() -> (c: Self)
        ensures
            c.bits == 32,
    {
        PlannerCapabilities { bits: 32 }
    }

    /// Optimal plans.
    pub fn optimal() -> (c: Self)
        ensures
            c.bits == 64,
    {
        PlannerCapabilities { bits: 64 }
    }

    /// The flags of both sets.
    pub fn union(self, other: Self) -> (c: Self)
        ensures
            c.bits == self.bits | other.bits,
    {
        PlannerCapabilities { bits: self.bits | other.bits }
    }

    /// Whether every flag of `other` is in this set.
    pub fn contains(self, other: Self) -> (r: bool)
        ensures
            r == (self.bits & other.bits == other.bits),
    {
        self.bits & other.bits == other.bits
    }
}

/// The union of two flag sets contains each of them, and every set contains
/// the empty one.
pub proof fn lemma_union_contains(a: PlannerCapabilities, b: PlannerCapabilities)
    ensures
        (a.bits | b.bits) & a.bits == a.bits,
        (a.bits | b.bits) & b.bits == b.bits,
        a.bits & 0u32 == 0u32,
{
    let x = a.bits;
    let y = b.bits;
    assert((x | y) & x == x) by (bit_vector);
    assert((x | y) & y == y) by (bit_vector);
    assert(x & 0u32 == 0u32) by (bit_vector);
}

/// A heuristic estimates the cost of reaching the goal from a state.
pub trait Heuristic {
    fn name(&self) -> &'static str;

    /// The estimate for a state, as a function of the task and the state.
    spec fn estimate_of(&self, task: &Task, s: Seq<bool>) -> Option<u64>;

    /// The states the heuristic can estimate besides those with one entry
    /// per fact, which every heuristic can.
    spec fn accepts(&self, task: &Task, s: Seq<bool>) -> bool;

    fn estimate(&self, task: &Task, state: &State) -> (h: HValue)
        requires
            task.well_formed(),
            state@.len() == task.facts@.len() || self.accepts(task, state@),
        ensures
            h.0 == self.estimate_of(task, state@),
    ;

    /// Operators the heuristic prefers in `state`; none by default.
    fn preferred_ops(&self, task: &Task, state: &State) -> (r: &[OpId])
        ensures
            r@.len() == 0,
    {
        &[]
    }
}

/// A planner searches a task for a plan.
pub trait Planner {
    fn name(&self) -> &'static str;

    fn describe(&self) -> &'static str;

    /// What the planner can handle; classical tasks by default.
    fn capabilities(&self) -> (c: PlannerCapabilities)
        default_ensures
            c.bits == 1,
    {
        PlannerCapabilities::classical()
    }

    fn solve(&mut self, task: &Task, limits: &SearchLimits) -> (r: Result<SearchOutcome, MiniplanError>)
        requires
            task.well_formed(),
        ensures
            r matches Ok(SearchOutcome::Plan(plan, stats)) ==> plan_outcome_sound(task, &plan, &stats),
            r matches Ok(SearchOutcome::LimitReached(stats)) ==> (limits.node_budget matches Some(m) && stats.nodes_expanded >= m)
                || limits.time_budget is Some,
    ;
}

/// Options for building planners, by name (such as `heuristic`).
pub struct PlannerConfig {
    pub opts: KeyMap<String, String>,
}

impl PlannerConfig {
    /// A configuration without options.
    pub fn new() -> (c: Self)
        ensures
            c.opts.wf(),
            c.opts.keys().len() == 0,
    {
        PlannerConfig { opts: KeyMap::new() }
    }
}

impl PlannerConfig {
    /// The heuristic named by the `heuristic` option; h^FF without one.
    pub fn heuristic_option(&self) -> (k: HeuristicFactory)
        requires
            self.opts.wf(),
        ensures
            k == match self.opts.lookup("heuristic"@) {
                Some(h) => heuristic_option(h@),
                None => HeuristicFactory::HFF,
            },
    {
        let key = String::from_str("heuristic");
        proof {
            reveal_strlit("heuristic");
        }
        match self.opts.get(&key) {
            Some(h) => heuristic_for_option(h),
            None => HeuristicFactory::HFF,
        }
    }
}

impl Default for PlannerConfig {
    fn default() -> (c: Self)
        ensures
            c.opts.wf(),
            c.opts.keys().len() == 0,
    {
        PlannerConfig::new()
    }
}

/// How a registered planner is built.
#[derive(Clone, Copy, PartialEq, Eq, Structural, Debug)]
pub enum PlannerFactory {
    Bfs,
    Astar,
    Gbfs,
    BibfsUc,
    BiDij,
    Bae,
}

/// How a registered heuristic is built.
#[derive(Clone, Copy, PartialEq, Eq, Structural, Debug)]
pub enum HeuristicFactory {
    Blind,
    GoalCount,
    HAdd,
    HMax,
    HFF,
    HZero,
}

/// The heuristic named by a planner option: `hadd`, `hmax`, `hff`, `blind`
/// or `zero`; any other name gives h^FF.
pub open spec fn heuristic_option(name: Seq<char>) -> HeuristicFactory {
    if name == "hadd"@ {
        HeuristicFactory::HAdd
    } else if name == "hmax"@ {
        HeuristicFactory::HMax
    } else if name == "hff"@ {
        HeuristicFactory::HFF
    } else if name == "blind"@ {
        HeuristicFactory::Blind
    } else if name == "zero"@ {
        HeuristicFactory::HZero
    } else {
        HeuristicFactory::HFF
    }
}

/// The heuristic a planner option names.
pub fn heuristic_for_option(name: &String) -> (k: HeuristicFactory)
    ensures
        k == heuristic_option(name@),
{
    if *name == String::from_str("hadd") {
        HeuristicFactory::HAdd
    } else if *name == String::from_str("hmax") {
        HeuristicFactory::HMax
    } else if *name == String::from_str("hff") {
        HeuristicFactory::HFF
    } else if *name == String::from_str("blind") {
        HeuristicFactory::Blind
    } else if *name == String::from_str("zero") {
        HeuristicFactory::HZero
    } else {
        HeuristicFactory::HFF
    }
}

impl HeuristicFactory {
    /// Builds the heuristic. Which heuristic the box holds is not part of
    /// this contract: a value boxed as a trait object keeps no identity in
    /// the specification.
    pub fn build(&self, cfg: &PlannerConfig) -> (h: Result<Box<dyn Heuristic>, MiniplanError>)
        ensures
            h is Ok,
    {
        let heuristic: Box<dyn Heuristic> = match self {
            HeuristicFactory::Blind => Box::new(BlindHeuristic),
            HeuristicFactory::GoalCount => Box::new(GoalCountHeuristic),
            HeuristicFactory::HAdd => Box::new(HAdd),
            HeuristicFactory::HMax => Box::new(HMax),
            HeuristicFactory::HFF => Box::new(HFF),
            HeuristicFactory::HZero => Box::new(HZero),
        };
        Ok(heuristic)
    }
}

impl PlannerFactory {
    /// Builds the planner. A* and GBFS use h^FF; BAE* uses the heuristic of
    /// the `heuristic` option, h^FF by default. Which planner the box holds
    /// is not part of this contract (a value boxed as a trait object keeps no
    /// identity in the specification); `run_on` states the outcome of running
    /// it.
    pub fn build(&self, cfg: &PlannerConfig) -> (p: Result<Box<dyn Planner>, MiniplanError>)
        requires
            cfg.opts.wf(),
        ensures
            p is Ok,
    {
        let planner: Box<dyn Planner> = match self {
            PlannerFactory::Bfs => Box::new(crate::search::bfs::Bfs::new()),
            PlannerFactory::Astar => Box::new(crate::search::astar::Astar::new(Box::new(HFF))),
            PlannerFactory::Gbfs => Box::new(crate::search::gbfs::Gbfs::new(Box::new(HFF))),
            PlannerFactory::BibfsUc => Box::new(crate::search::bibfs_uc::BibfsUc::new()),
            PlannerFactory::BiDij => Box::new(crate::search::bidij::BiDij::new()),
            PlannerFactory::Bae => {
                let kind = cfg.heuristic_option();
                let h: Box<dyn Heuristic> = match kind {
                    HeuristicFactory::Blind => Box::new(BlindHeuristic),
                    HeuristicFactory::GoalCount => Box::new(GoalCountHeuristic),
                    HeuristicFactory::HAdd => Box::new(HAdd),
                    HeuristicFactory::HMax => Box::new(HMax),
                    HeuristicFactory::HFF => Box::new(HFF),
                    HeuristicFactory::HZero => Box::new(HZero),
                };
                Box::new(crate::search::bae::Bae::new(h))
            },
        };
        Ok(planner)
    }
}

/// Whether the planner a factory builds refuses the task: the bidirectional
/// searches refuse operators with conditional effects.
pub open spec fn refuses_task(f: PlannerFactory, task: &Task) -> bool {
    (f == PlannerFactory::BibfsUc || f == PlannerFactory::BiDij || f == PlannerFactory::Bae)
        && !crate::search::regression::no_conditional_effects(task)
}

impl PlannerFactory {
    /// Builds the planner, as `build` does, and runs it on the task: the
    /// outcome is the one that planner's own contract gives.
    pub fn run_on(&self, cfg: &PlannerConfig, task: &Task, limits: &SearchLimits) -> (r: Result<SearchOutcome, MiniplanError>)
        requires
            cfg.opts.wf(),
            task.well_formed(),
        ensures
            r is Err <==> refuses_task(*self, task),
            r matches Err(e) ==> e is UnsupportedConditionalEffects,
            r matches Ok(SearchOutcome::Plan(plan, stats)) ==> plan_outcome_sound(task, &plan, &stats),
            r matches Ok(SearchOutcome::Unsolvable(_)) ==> !solvable(task),
            *self == PlannerFactory::Bfs ==> (r matches Ok(SearchOutcome::Plan(plan, _))
                ==> crate::search::bfs::shortest(task, plan.steps@.len())),
            r matches Ok(SearchOutcome::LimitReached(stats)) ==> (limits.node_budget matches Some(m) && stats.nodes_expanded >= m)
                || limits.time_budget is Some,
    {
        match self {
            PlannerFactory::Bfs => crate::search::bfs::Bfs::new().run(task, limits),
            PlannerFactory::Astar => crate::search::astar::Astar::new(Box::new(HFF)).run(task, limits),
            PlannerFactory::Gbfs => crate::search::gbfs::Gbfs::new(Box::new(HFF)).run(task, limits),
            PlannerFactory::BibfsUc => crate::search::bibfs_uc::BibfsUc::new().run(task, limits),
            PlannerFactory::BiDij => crate::search::bidij::BiDij::new().run(task, limits),
            PlannerFactory::Bae => {
                let kind = cfg.heuristic_option();
                let h: Box<dyn Heuristic> = match kind {
                    HeuristicFactory::Blind => Box::new(BlindHeuristic),
                    HeuristicFactory::GoalCount => Box::new(GoalCountHeuristic),
                    HeuristicFactory::HAdd => Box::new(HAdd),
                    HeuristicFactory::HMax => Box::new(HMax),
                    HeuristicFactory::HFF => Box::new(HFF),
                    HeuristicFactory::HZero => Box::new(HZero),
                };
                crate::search::bae::Bae::new(h).run(task, limits)
            },
        }
    }
}

/// A planner known to a registry.
pub struct RegisteredPlanner {
    pub name: &'static str,
    pub description: &'static str,
    pub capabilities: PlannerCapabilities,
    pub factory: PlannerFactory,
}

/// A heuristic known to a registry.
pub struct RegisteredHeuristic {
    pub name: &'static str,
    pub factory: HeuristicFactory,
}

/// The position of the first occurrence of a name.
pub open spec fn first_named(names: Seq<Seq<char>>, name: Seq<char>) -> Option<int>
    decreases names.len(),
{
    if names.len() == 0 {
        None
    } else {
        match first_named(names.drop_last(), name) {
            Some(i) => Some(i),
            None => if names.last() == name { Some(names.len() - 1) } else { None },
        }
    }
}

/// A first occurrence is an occurrence; without one, the name does not occur.
pub proof fn lemma_first_named(names: Seq<Seq<char>>, name: Seq<char>)
    ensures
        match first_named(names, name) {
            Some(i) => 0 <= i < names.len() && names[i] == name,
            None => forall|i: int| 0 <= i < names.len() ==> names[i] != name,
        },
    decreases names.len(),
{
    if names.len() > 0 {
        lemma_first_named(names.drop_last(), name);
        assert forall|i: int| 0 <= i < names.len() - 1 implies names.drop_last()[i] == names[i] by {}
    }
}

/// Appending a name keeps every first occurrence and adds one for a new name.
pub proof fn lemma_first_named_push(names: Seq<Seq<char>>, x: Seq<char>, name: Seq<char>)
    ensures
        first_named(names.push(x), name) == match first_named(names, name) {
            Some(i) => Some(i),
            None => if x == name { Some(names.len() as int) } else { None },
        },
{
    assert(names.push(x).drop_last() =~= names);
}

/// A name found first in a prefix is found at the same place in the whole.
proof fn lemma_first_named_prefix(names: Seq<Seq<char>>, name: Seq<char>, k: int)
    requires
        0 <= k <= names.len(),
        first_named(names.take(k), name) is Some,
    ensures
        first_named(names, name) == first_named(names.take(k), name),
    decreases names.len() - k,
{
    if k < names.len() {
        assert(names.take(k + 1).drop_last() =~= names.take(k));
        lemma_first_named_prefix(names, name, k + 1);
    } else {
        assert(names.take(k) =~= names);
    }
}

/// The names of registered planners, in order.
pub open spec fn planner_names(ps: Seq<RegisteredPlanner>) -> Seq<Seq<char>> {
    ps.map_values(|p: RegisteredPlanner| p.name@)
}

/// The names of registered heuristics, in order.
pub open spec fn heuristic_names(hs: Seq<RegisteredHeuristic>) -> Seq<Seq<char>> {
    hs.map_values(|h: RegisteredHeuristic| h.name@)
}

/// The first position of a name among the names, found by a scan.
fn position_of(names: Vec<String>, name: &str) -> (r: Option<usize>)
    ensures
        match r {
            Some(i) => first_named(names@.map_values(|s: String| s@), name@) == Some(i as int),
            None => first_named(names@.map_values(|s: String| s@), name@) is None,
        },
{
    let ghost all = names@.map_values(|s: String| s@);
    let target = name.to_owned();
    let n = names.len();
    for i in 0..n
        invariant
            n == names@.len(),
            all == names@.map_values(|s: String| s@),
            target@ == name@,
            first_named(all.take(i as int), name@) is None,
    {
        proof {
            assert(all.take(i + 1).drop_last() =~= all.take(i as int));
            assert(all.take(i + 1).last() == names@[i as int]@);
        }
        if names[i] == target {
            proof {
                lemma_first_named_prefix(all, name@, i as int + 1);
            }
            return Some(i);
        }
    }
    proof {
        assert(all.take(n as int) =~= all);
    }
    None
}

/// The names of the planners, as strings.
fn planner_name_list(ps: &Vec<RegisteredPlanner>) -> (r: Vec<String>)
    ensures
        r@.map_values(|s: String| s@) == planner_names(ps@),
{
    let mut r: Vec<String> = Vec::new();
    let n = ps.len();
    for i in 0..n
        invariant
            n == ps@.len(),
            r@.map_values(|s: String| s@) == planner_names(ps@).take(i as int),
    {
        let ghost before = r@;
        r.push(ps[i].name.to_owned());
        proof {
            assert(r@.map_values(|s: String| s@) =~= before.map_values(|s: String| s@).push(ps@[i as int].name@));
            assert(planner_names(ps@).take(i + 1) =~= planner_names(ps@).take(i as int).push(ps@[i as int].name@));
        }
    }
    assert(planner_names(ps@).take(n as int) =~= planner_names(ps@));
    r
}

/// The names of the heuristics, as strings.
fn heuristic_name_list(hs: &Vec<RegisteredHeuristic>) -> (r: Vec<String>)
    ensures
        r@.map_values(|s: String| s@) == heuristic_names(hs@),
{
    let mut r: Vec<String> = Vec::new();
    let n = hs.len();
    for i in 0..n
        invariant
            n == hs@.len(),
            r@.map_values(|s: String| s@) == heuristic_names(hs@).take(i as int),
    {
        let ghost before = r@;
        r.push(hs[i].name.to_owned());
        proof {
            assert(r@.map_values(|s: String| s@) =~= before.map_values(|s: String| s@).push(hs@[i as int].name@));
            assert(heuristic_names(hs@).take(i + 1) =~= heuristic_names(hs@).take(i as int).push(hs@[i as int].name@));
        }
    }
    assert(heuristic_names(hs@).take(n as int) =~= heuristic_names(hs@));
    r
}

/// The planners and heuristics that can be built by name.
pub struct Registry {
    planners: Vec<RegisteredPlanner>,
    heuristics: Vec<RegisteredHeuristic>,
}

impl Registry {
    /// The registered planners, in registration order.
    pub closed spec fn planner_entries(&self) -> Seq<RegisteredPlanner> {
        self.planners@
    }

    /// The registered heuristics, in registration order.
    pub closed spec fn heuristic_entries(&self) -> Seq<RegisteredHeuristic> {
        self.heuristics@
    }

    /// The planner registered under a name.
    pub open spec fn planner_named(&self, name: Seq<char>) -> Option<RegisteredPlanner> {
        match first_named(planner_names(self.planner_entries()), name) {
            Some(i) => Some(self.planner_entries()[i]),
            None => None,
        }
    }

    /// The heuristic registered under a name.
    pub open spec fn heuristic_named(&self, name: Seq<char>) -> Option<RegisteredHeuristic> {
        match first_named(heuristic_names(self.heuristic_entries()), name) {
            Some(i) => Some(self.heuristic_entries()[i]),
            None => None,
        }
    }

    /// Registers a planner under its name, replacing one of the same name.
    pub fn register_planner(&mut self, r: RegisteredPlanner)
        ensures
            final(self).planner_named(r.name@) == Some(r),
            forall|n: Seq<char>| n != r.name@ ==> #[trigger] final(self).planner_named(n) == old(self).planner_named(n),
            final(self).heuristic_entries() == old(self).heuristic_entries(),
    {
        let names = planner_name_list(&self.planners);
        let ghost old_ps = self.planners@;
        let ghost old_names = planner_names(old_ps);
        match position_of(names, r.name) {
            Some(i) => {
                let ghost rn = r.name@;
                proof {
                    lemma_first_named(old_names, rn);
                }
                self.planners.set(i, r);
                proof {
                    assert(planner_names(self.planners@) =~= old_names);
                    assert forall|n: Seq<char>| n != rn implies #[trigger] self.planner_named(n) == old(self).planner_named(n) by {
                        match first_named(old_names, n) {
                            Some(j) => {
                                lemma_first_named(old_names, n);
                                assert(j != i);
                            },
                            None => {},
                        }
                    }
                }
            },
            None => {
                let ghost rn = r.name@;
                self.planners.push(r);
                proof {
                    assert(planner_names(self.planners@) =~= old_names.push(rn));
                    lemma_first_named_push(old_names, rn, rn);
                    assert forall|n: Seq<char>| n != rn implies #[trigger] self.planner_named(n) == old(self).planner_named(n) by {
                        lemma_first_named_push(old_names, rn, n);
                        match first_named(old_names, n) {
                            Some(j) => {
                                lemma_first_named(old_names, n);
                                assert(self.planners@[j] == old_ps[j]);
                            },
                            None => {},
                        }
                    }
                }
            },
        }
    }

    /// Registers a heuristic under its name, replacing one of the same name.
    pub fn register_heuristic(&mut self, r: RegisteredHeuristic)
        ensures
            final(self).heuristic_named(r.name@) == Some(r),
            forall|n: Seq<char>| n != r.name@ ==> #[trigger] final(self).heuristic_named(n) == old(self).heuristic_named(n),
            final(self).planner_entries() == old(self).planner_entries(),
    {
        let names = heuristic_name_list(&self.heuristics);
        let ghost old_hs = self.heuristics@;
        let ghost old_names = heuristic_names(old_hs);
        match position_of(names, r.name) {
            Some(i) => {
                let ghost rn = r.name@;
                proof {
                    lemma_first_named(old_names, rn);
                }
                self.heuristics.set(i, r);
                proof {
                    assert(heuristic_names(self.heuristics@) =~= old_names);
                    assert forall|n: Seq<char>| n != rn implies #[trigger] self.heuristic_named(n) == old(self).heuristic_named(n) by {
                        match first_named(old_names, n) {
                            Some(j) => {
                                lemma_first_named(old_names, n);
                                assert(j != i);
                            },
                            None => {},
                        }
                    }
                }
            },
            None => {
                let ghost rn = r.name@;
                self.heuristics.push(r);
                proof {
                    assert(heuristic_names(self.heuristics@) =~= old_names.push(rn));
                    lemma_first_named_push(old_names, rn, rn);
                    assert forall|n: Seq<char>| n != rn implies #[trigger] self.heuristic_named(n) == old(self).heuristic_named(n) by {
                        lemma_first_named_push(old_names, rn, n);
                        match first_named(old_names, n) {
                            Some(j) => {
                                lemma_first_named(old_names, n);
                                assert(self.heuristics@[j] == old_hs[j]);
                            },
                            None => {},
                        }
                    }
                }
            },
        }
    }

    /// The factory of the planner registered under a name.
    fn planner_factory(&self, name: &str) -> (r: Option<PlannerFactory>)
        ensures
            r == match self.planner_named(name@) {
                Some(p) => Some(p.factory),
                None => None,
            },
    {
        let names = planner_name_list(&self.planners);
        match position_of(names, name) {
            Some(i) => {
                proof {
                    lemma_first_named(planner_names(self.planners@), name@);
                }
                Some(self.planners[i].factory)
            },
            None => None,
        }
    }

    /// The factory of the heuristic registered under a name.
    fn heuristic_factory(&self, name: &str) -> (r: Option<HeuristicFactory>)
        ensures
            r == match self.heuristic_named(name@) {
                Some(h) => Some(h.factory),
                None => None,
            },
    {
        let names = heuristic_name_list(&self.heuristics);
        match position_of(names, name) {
            Some(i) => {
                proof {
                    lemma_first_named(heuristic_names(self.heuristics@), name@);
                }
                Some(self.heuristics[i].factory)
            },
            None => None,
        }
    }

    /// Builds the planner registered under a name; an unknown name is an
    /// `InvalidPlanner` error carrying it. Which planner the box holds is not
    /// part of this contract; `Solver::solve_task` states the outcome of
    /// running the registered one.
    pub fn build_planner(&self, name: &str, cfg: &PlannerConfig) -> (r: Result<Box<dyn Planner>, MiniplanError>)
        requires
            cfg.opts.wf(),
        ensures
            self.planner_named(name@) is Some <==> r is Ok,
            r matches Err(e) ==> (e matches MiniplanError::InvalidPlanner(s) && s@ == name@),
    {
        match self.planner_factory(name) {
            Some(f) => f.build(cfg),
            None => Err(MiniplanError::InvalidPlanner(name.to_owned())),
        }
    }

    /// Builds the heuristic registered under a name; an unknown name is an
    /// `InvalidHeuristic` error carrying it.
    pub fn build_heuristic(&self, name: &str, cfg: &PlannerConfig) -> (r: Result<Box<dyn Heuristic>, MiniplanError>)
        ensures
            self.heuristic_named(name@) is Some <==> r is Ok,
            r matches Err(e) ==> (e matches MiniplanError::InvalidHeuristic(s) && s@ == name@),
    {
        match self.heuristic_factory(name) {
            Some(f) => f.build(cfg),
            None => Err(MiniplanError::InvalidHeuristic(name.to_owned())),
        }
    }

    /// The registered planners, in registration order.
    pub fn planners(&self) -> (r: &Vec<RegisteredPlanner>)
        ensures
            r@ == self.planner_entries(),
    {
        &self.planners
    }

    /// The registered heuristics, in registration order.
    pub fn heuristics(&self) -> (r: &Vec<RegisteredHeuristic>)
        ensures
            r@ == self.heuristic_entries(),
    {
        &self.heuristics
    }
}

/// The names of the built-in planners, in registration order.
pub open spec fn builtin_planner_names() -> Seq<Seq<char>> {
    seq!["bfs"@, "astar"@, "gbfs"@, "bibfs-uc"@, "bidij"@, "bibae"@]
}

/// The names of the built-in heuristics, in registration order.
pub open spec fn builtin_heuristic_names() -> Seq<Seq<char>> {
    seq!["blind"@, "goal-count"@, "hadd"@, "hmax"@, "hff"@]
}

/// A registered planner with the given name, description, capability flags and factory.
pub open spec fn planner_entry(
    p: RegisteredPlanner,
    name: Seq<char>,
    description: Seq<char>,
    bits: u32,
    factory: PlannerFactory,
) -> bool {
    &&& p.name@ == name
    &&& p.description@ == description
    &&& p.capabilities.bits == bits
    &&& p.factory == factory
}

/// The registry holds exactly the built-in planners and heuristics, each
/// once, in registration order: the planners `bfs`, `astar`, `gbfs`,
/// `bibfs-uc`, `bidij`, `bibae` with their descriptions and capabilities
/// (1 classical, 2 negative preconditions, 16 conditional effects, 32 action
/// costs), and the heuristics `blind`, `goal-count`, `hadd`, `hmax`, `hff`.
pub open spec fn has_builtins(r: &Registry) -> bool {
    &&& planner_names(r.planner_entries()) == builtin_planner_names()
    &&& heuristic_names(r.heuristic_entries()) == builtin_heuristic_names()
    &&& r.planner_named("bfs"@) matches Some(p)
        && planner_entry(p, "bfs"@, "Breadth-first search"@, 3, PlannerFactory::Bfs)
    &&& r.planner_named("astar"@) matches Some(p)
        && planner_entry(p, "astar"@, "A* search with pluggable heuristic"@, 51, PlannerFactory::Astar)
    &&& r.planner_named("gbfs"@) matches Some(p)
        && planner_entry(p, "gbfs"@, "Greedy best-first search"@, 19, PlannerFactory::Gbfs)
    &&& r.planner_named("bibfs-uc"@) matches Some(p)
        && planner_entry(p, "bibfs-uc"@, "Bidirectional BFS (uniform-cost, not cost-aware)"@, 3, PlannerFactory::BibfsUc)
    &&& r.planner_named("bidij"@) matches Some(p)
        && planner_entry(p, "bidij"@, "Bidirectional Dijkstra (cost-aware)"@, 35, PlannerFactory::BiDij)
    &&& r.planner_named("bibae"@) matches Some(p)
        && planner_entry(p, "bibae"@, "Bidirectional A* with Error (BAE*, Sadhukhan 2013)"@, 35, PlannerFactory::Bae)
    &&& r.heuristic_named("blind"@) matches Some(h) && h.factory == HeuristicFactory::Blind
    &&& r.heuristic_named("goal-count"@) matches Some(h) && h.factory == HeuristicFactory::GoalCount
    &&& r.heuristic_named("hadd"@) matches Some(h) && h.factory == HeuristicFactory::HAdd
    &&& r.heuristic_named("hmax"@) matches Some(h) && h.factory == HeuristicFactory::HMax
    &&& r.heuristic_named("hff"@) matches Some(h) && h.factory == HeuristicFactory::HFF
}

/// In a list of distinct names, each name is found first at its own place.
pub proof fn lemma_first_named_distinct(names: Seq<Seq<char>>, i: int)
    requires
        names.no_duplicates(),
        0 <= i < names.len(),
    ensures
        first_named(names, names[i]) == Some(i),
{
    lemma_first_named(names, names[i]);
}

/// The built-in names are pairwise distinct.
proof fn lemma_builtin_names_distinct()
    ensures
        builtin_planner_names().no_duplicates(),
        builtin_heuristic_names().no_duplicates(),
{
    reveal_strlit("bfs");
    reveal_strlit("astar");
    reveal_strlit("gbfs");
    reveal_strlit("bibfs-uc");
    reveal_strlit("bidij");
    reveal_strlit("bibae");
    reveal_strlit("blind");
    reveal_strlit("goal-count");
    reveal_strlit("hadd");
    reveal_strlit("hmax");
    reveal_strlit("hff");
    let p = builtin_planner_names();
    let h = builtin_heuristic_names();
    assert forall|i: int, j: int| 0 <= i < p.len() && 0 <= j < p.len() && i != j implies p[i] != p[j] by {
        assert(p[i].len() != p[j].len() || p[i][0] != p[j][0] || p[i][2] != p[j][2]);
    }
    assert forall|i: int, j: int| 0 <= i < h.len() && 0 <= j < h.len() && i != j implies h[i] != h[j] by {
        assert(h[i].len() != h[j].len() || h[i][1] != h[j][1]);
    }
}

impl Registry {
    /// A registry with the built-in planners and heuristics.
    pub fn with_builtins() -> (r: Self)
        ensures
            has_builtins(&r),
    {
        let classical = PlannerCapabilities::classical();
        let negative = PlannerCapabilities::negative_preconds();
        let conditional = PlannerCapabilities::conditional_effects();
        let costs = PlannerCapabilities::action_costs();
        let mut planners: Vec<RegisteredPlanner> = Vec::new();
        planners.push(RegisteredPlanner {
            name: "bfs",
            description: "Breadth-first search",
            capabilities: classical.union(negative),
            factory: PlannerFactory::Bfs,
        });
        planners.push(RegisteredPlanner {
            name: "astar",
            description: "A* search with pluggable heuristic",
            capabilities: classical.union(negative).union(conditional).union(costs),
            factory: PlannerFactory::Astar,
        });
        planners.push(RegisteredPlanner {
            name: "gbfs",
            description: "Greedy best-first search",
            capabilities: classical.union(negative).union(conditional),
            factory: PlannerFactory::Gbfs,
        });
        planners.push(RegisteredPlanner {
            name: "bibfs-uc",
            description: "Bidirectional BFS (uniform-cost, not cost-aware)",
            capabilities: classical.union(negative),
            factory: PlannerFactory::BibfsUc,
        });
        planners.push(RegisteredPlanner {
            name: "bidij",
            description: "Bidirectional Dijkstra (cost-aware)",
            capabilities: classical.union(negative).union(costs),
            factory: PlannerFactory::BiDij,
        });
        planners.push(RegisteredPlanner {
            name: "bibae",
            description: "Bidirectional A* with Error (BAE*, Sadhukhan 2013)",
            capabilities: classical.union(negative).union(costs),
            factory: PlannerFactory::Bae,
        });
        let mut heuristics: Vec<RegisteredHeuristic> = Vec::new();
        heuristics.push(RegisteredHeuristic { name: "blind", factory: HeuristicFactory::Blind });
        heuristics.push(RegisteredHeuristic { name: "goal-count", factory: HeuristicFactory::GoalCount });
        heuristics.push(RegisteredHeuristic { name: "hadd", factory: HeuristicFactory::HAdd });
        heuristics.push(RegisteredHeuristic { name: "hmax", factory: HeuristicFactory::HMax });
        heuristics.push(RegisteredHeuristic { name: "hff", factory: HeuristicFactory::HFF });
        let r = Registry { planners, heuristics };
        proof {
            assert(1u32 | 2u32 == 3u32) by (bit_vector);
            assert(((1u32 | 2u32) | 16u32) | 32u32 == 51u32) by (bit_vector);
            assert((1u32 | 2u32) | 16u32 == 19u32) by (bit_vector);
            assert((1u32 | 2u32) | 32u32 == 35u32) by (bit_vector);
            let pn = planner_names(r.planner_entries());
            let hn = heuristic_names(r.heuristic_entries());
            assert(pn =~= builtin_planner_names());
            assert(hn =~= builtin_heuristic_names());
            lemma_builtin_names_distinct();
            lemma_first_named_distinct(pn, 0);
            lemma_first_named_distinct(pn, 1);
            lemma_first_named_distinct(pn, 2);
            lemma_first_named_distinct(pn, 3);
            lemma_first_named_distinct(pn, 4);
            lemma_first_named_distinct(pn, 5);
            lemma_first_named_distinct(hn, 0);
            lemma_first_named_distinct(hn, 1);
            lemma_first_named_distinct(hn, 2);
            lemma_first_named_distinct(hn, 3);
            lemma_first_named_distinct(hn, 4);
        }
        r
    }
}

/// The planner to run, the heuristic asked for, and options.
pub struct PlannerChoice {
    pub planner: String,
    pub heuristic: Option<String>,
    pub config: PlannerConfig,
}

impl PlannerChoice {
    /// The named planner, no heuristic asked for, no options.
    pub fn new(planner: &str) -> (c: Self)
        ensures
            c.planner@ == planner@,
            c.heuristic is None,
            c.config.opts.wf(),
            c.config.opts.keys().len() == 0,
    {
        PlannerChoice { planner: planner.to_owned(), heuristic: None, config: PlannerConfig::new() }
    }
}

/// Runs planners from a registry.
pub struct Solver {
    pub registry: Registry,
}

impl Solver {
    /// A solver over the built-in registry.
    pub fn new() -> (s: Self)
        ensures
            has_builtins(&s.registry),
    {
        Solver { registry: Registry::with_builtins() }
    }

    /// Runs the chosen planner on the task. An unknown planner is an
    /// `InvalidPlanner` error; a known one gives the outcome its own contract
    /// gives: refused only for conditional effects in the bidirectional
    /// searches, a returned plan solves the task (a shortest one for `bfs`),
    /// `Unsolvable` means that no plan exists, and a run stops on a limit only
    /// when a budget was given.
    pub fn solve_task(&self, task: &Task, choice: &PlannerChoice, limits: &SearchLimits) -> (r: Result<SearchOutcome, MiniplanError>)
        requires
            task.well_formed(),
            choice.config.opts.wf(),
        ensures
            self.registry.planner_named(choice.planner@) is None <==> r matches Err(MiniplanError::InvalidPlanner(_)),
            r matches Err(MiniplanError::InvalidPlanner(s)) ==> s@ == choice.planner@,
            self.registry.planner_named(choice.planner@) matches Some(p) ==> (r is Err <==> refuses_task(p.factory, task)),
            r matches Ok(SearchOutcome::Plan(plan, stats)) ==> plan_outcome_sound(task, &plan, &stats),
            r matches Ok(SearchOutcome::Unsolvable(_)) ==> !solvable(task),
            self.registry.planner_named(choice.planner@) matches Some(p) && p.factory == PlannerFactory::Bfs
                ==> (r matches Ok(SearchOutcome::Plan(plan, _)) ==> crate::search::bfs::shortest(task, plan.steps@.len())),
            r matches Ok(SearchOutcome::LimitReached(stats)) ==> (limits.node_budget matches Some(m) && stats.nodes_expanded >= m)
                || limits.time_budget is Some,
            (limits.node_budget is None && limits.time_budget is None && solvable(task)
                && (self.registry.planner_named(choice.planner@) matches Some(p) && !refuses_task(p.factory, task)))
                ==> r matches Ok(SearchOutcome::Plan(_, _)),
    {
        match self.registry.planner_factory(choice.planner.as_str()) {
            Some(f) => f.run_on(&choice.config, task, limits),
            None => Err(MiniplanError::InvalidPlanner(choice.planner.clone())),
        }
    }
}

impl Default for Solver {
    fn default() -> (s: Self)
        ensures
            has_builtins(&s.registry),
    {
        Solver::new()
    }
}

} // verus!
