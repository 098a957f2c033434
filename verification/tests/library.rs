use miniplan::error::MiniplanError;
use miniplan::ground::cost::{extract_action_cost, has_action_costs_metric};
use miniplan::ground::formula::{cartesian_product_dnf, merge_literal_sets, LiteralSet};
use miniplan::ground::types::objects_of_type;
use miniplan::pddl_io::{
    load_combined_str, load_combined_str_named, load_domain_str, load_problem_str, load_texts_named,
};
use miniplan::plan::Plan;
use miniplan::search::gbfs::Gbfs;
use miniplan::search::{
    Astar, Bfs, PlannerCapabilities, PlannerChoice, PlannerConfig, Registry, SearchLimits,
    SearchOutcome, Solver, Planner,
};
use miniplan::heuristic::{HFF, HAdd};
use miniplan::table::KeyMap;
use miniplan::task::{
    CondEffect, Fact, FactId, Object, OpId, Operator, State, Task, TaskMeta, TypeHierarchy,
};
use miniplan::util::interner::Interner;

fn bits(on: &[usize], size: usize) -> State {
    let mut state = State::new(size);
    for &b in on {
        state.0.set(b, true);
    }
    state
}

fn make_task(num_facts: usize, init: &[usize], goal: &[usize], operators: Vec<Operator>) -> Task {
    let mut facts = Vec::new();
    let mut fact_index = KeyMap::new();
    for i in 0..num_facts {
        let fact = Fact {
            predicate: format!("f{}", i),
            args: vec![],
        };
        fact_index.insert(fact.clone(), FactId(i));
        facts.push(fact);
    }
    Task {
        facts,
        fact_index,
        operators,
        init: bits(init, num_facts),
        goal_pos: bits(goal, num_facts),
        goal_neg: State::new(num_facts),
        objects: vec![],
        types: TypeHierarchy::new(),
        metadata: TaskMeta {
            domain_name: "test".to_string(),
            problem_name: "test".to_string(),
            requirements: vec![],
        },
    }
}

fn op(id: usize, name: &str, pre: &[usize], add: &[usize], del: &[usize], cost: u32) -> Operator {
    Operator {
        id: OpId(id),
        name: name.to_string(),
        pre_pos: bits(pre, 10),
        pre_neg: State::new(10),
        add: bits(add, 10),
        del: bits(del, 10),
        conditional: vec![],
        cost,
    }
}

fn lit(p: &str, args: &[&str]) -> (String, Vec<String>) {
    (p.to_string(), args.iter().map(|a| a.to_string()).collect())
}

fn plan_of(r: Result<SearchOutcome, MiniplanError>) -> Plan {
    match r {
        Ok(SearchOutcome::Plan(p, _)) => p,
        _ => panic!("expected a plan"),
    }
}

#[test]
fn interner_round_trip_and_idempotence() {
    let mut i = Interner::new();
    assert!(i.is_empty());
    let a = i.intern("alpha");
    let b = i.intern("beta");
    let a2 = i.intern("alpha");
    assert_eq!((a, b, a2), (0, 1, 0));
    assert_eq!(i.resolve(a), "alpha");
    assert_eq!(i.resolve(b), "beta");
    assert_eq!(i.len(), 2);
}

#[test]
fn merge_literal_sets_concatenates_in_order() {
    let s1 = LiteralSet { pos: vec![lit("a", &[])], neg: vec![lit("b", &["x"])] };
    let s2 = LiteralSet { pos: vec![lit("c", &["y", "z"])], neg: vec![] };
    let m = merge_literal_sets(&[s1, s2]);
    assert_eq!(m.pos, vec![lit("a", &[]), lit("c", &["y", "z"])]);
    assert_eq!(m.neg, vec![lit("b", &["x"])]);
}

#[test]
fn cartesian_product_joins_every_pair() {
    let l = vec![
        LiteralSet { pos: vec![lit("a", &[])], neg: vec![] },
        LiteralSet { pos: vec![lit("b", &[])], neg: vec![] },
    ];
    let r = vec![
        LiteralSet { pos: vec![], neg: vec![lit("c", &[])] },
        LiteralSet { pos: vec![lit("d", &[])], neg: vec![] },
    ];
    let p = cartesian_product_dnf(&l, &r);
    assert_eq!(p.len(), 4);
    assert_eq!(p[0].pos, vec![lit("a", &[])]);
    assert_eq!(p[0].neg, vec![lit("c", &[])]);
    assert_eq!(p[1].pos, vec![lit("a", &[]), lit("d", &[])]);
    assert_eq!(p[2].pos, vec![lit("b", &[])]);
    assert_eq!(p[3].pos, vec![lit("b", &[]), lit("d", &[])]);
    let empty: Vec<LiteralSet> = vec![];
    assert_eq!(cartesian_product_dnf(&l, &empty).len(), 2);
}

#[test]
fn type_hierarchy_and_objects_of_type() {
    let mut th = TypeHierarchy::new();
    th.add_type("car".to_string(), Some("vehicle".to_string()));
    th.add_type("vehicle".to_string(), Some("object".to_string()));
    assert!(th.is_subtype_of("car", "vehicle"));
    assert!(th.is_subtype_of("car", "object"));
    assert!(!th.is_subtype_of("vehicle", "car"));
    let objs = vec![
        Object { name: "c1".to_string(), object_type: "car".to_string() },
        Object { name: "v1".to_string(), object_type: "vehicle".to_string() },
        Object { name: "h".to_string(), object_type: "house".to_string() },
    ];
    assert_eq!(objects_of_type(&objs, "vehicle", &th), vec!["c1", "v1"]);
    assert_eq!(objects_of_type(&objs, "car", &th), vec!["c1"]);
    assert_eq!(objects_of_type(&objs, "object", &th), vec!["c1", "v1", "h"]);
}

#[test]
fn action_cost_from_total_cost_increase() {
    let d = match load_domain_str(
        r#"(define (domain costs)
  (:requirements :strips :action-costs)
  (:predicates (p))
  (:functions (total-cost))
  (:action pay :parameters () :precondition (p) :effect (and (p) (increase (total-cost) 5))))"#,
    ) {
        Ok(d) => d,
        Err(e) => panic!("parses: {}", e.message()),
    };
    let action = d
        .structure
        .iter()
        .find_map(|s| match s {
            miniplan::pddl_model::StructureModel::Action(a) => Some(a),
            _ => None,
        })
        .expect("an action");
    assert!(matches!(extract_action_cost(action), Ok(5)));
    let p = match load_problem_str(
        "(define (problem c1) (:domain costs) (:init (p)) (:goal (p)) (:metric minimize (total-cost)))",
    ) {
        Ok(p) => p,
        Err(e) => panic!("parses: {}", e.message()),
    };
    assert!(has_action_costs_metric(&p));
}

#[test]
fn pddl_io_exact_errors() {
    let two_problems = r#"
(define (domain d) (:requirements :strips) (:predicates (p)))
(define (problem p1) (:domain d) (:init (p)) (:goal (p)))
(define (problem p2) (:domain d) (:init (p)) (:goal (p)))
"#;
    match load_combined_str(two_problems) {
        Err(e) => assert_eq!(
            e.message(),
            "failed to parse PDDL: multiple problem definitions found (2); use --problem to select one: p1, p2"
        ),
        Ok(_) => panic!("should fail"),
    }
    match load_combined_str_named(two_problems, None, None) {
        Err(e) => assert_eq!(
            e.message(),
            "failed to parse PDDL: multiple problem definitions found (2); --problem is required: p1, p2"
        ),
        Ok(_) => panic!("should fail"),
    }
    match load_combined_str_named(two_problems, None, Some("nope")) {
        Err(e) => assert_eq!(e.message(), "failed to parse PDDL: problem 'nope' not found; available: p1, p2"),
        Ok(_) => panic!("should fail"),
    }
    match load_combined_str_named(two_problems, None, Some("p2")) {
        Ok((d, p)) => {
            assert_eq!(d.name, "d");
            assert_eq!(p.name, "p2");
        }
        Err(e) => panic!("should load: {}", e.message()),
    }
    match load_combined_str("(define (domain d) (:requirements :strips) (:predicates (p)))") {
        Err(e) => assert_eq!(e.message(), "failed to parse PDDL: no problem definition found"),
        Ok(_) => panic!("should fail"),
    }
    assert!(matches!(load_domain_str("(define (domain"), Err(MiniplanError::Parse(_))));
    match load_texts_named(&vec![], None, None) {
        Err(e) => assert_eq!(e.message(), "failed to parse PDDL: no input files provided"),
        Ok(_) => panic!("should fail"),
    }
    let three = vec![String::new(), String::new(), String::new()];
    match load_texts_named(&three, None, None) {
        Err(e) => assert_eq!(e.message(), "failed to parse PDDL: expected 1 or 2 input files"),
        Ok(_) => panic!("should fail"),
    }
}

#[test]
fn load_texts_merges_two_files() {
    let texts = vec![
        "(define (domain d) (:requirements :strips) (:predicates (p)))".to_string(),
        "(define (problem q) (:domain d) (:init (p)) (:goal (p)))".to_string(),
    ];
    match load_texts_named(&texts, None, None) {
        Ok((d, p)) => {
            assert_eq!(d.name, "d");
            assert_eq!(p.name, "q");
        }
        Err(e) => panic!("should load: {}", e.message()),
    }
}

#[test]
fn error_messages() {
    assert_eq!(MiniplanError::NoPlan.message(), "no plan found");
    assert_eq!(MiniplanError::Ground("x".to_string()).message(), "grounding error: x");
    assert_eq!(MiniplanError::InvalidPlanner("q".to_string()).message(), "invalid planner name: q");
    assert_eq!(MiniplanError::InvalidHeuristic("h".to_string()).message(), "invalid heuristic name: h");
    assert_eq!(
        MiniplanError::IncapablePlanner { planner: "bfs".to_string(), missing: "x".to_string() }.message(),
        "planner 'bfs' cannot handle the given task; missing capabilities: \"x\""
    );
}

#[test]
fn registry_builtins_and_unknown_names() {
    let r = Registry::with_builtins();
    let names: Vec<&str> = r.planners().iter().map(|p| p.name).collect();
    for n in ["bfs", "astar", "gbfs", "bibfs-uc", "bidij", "bibae"] {
        assert!(names.contains(&n), "{} should be registered", n);
    }
    let cfg = PlannerConfig::new();
    match r.build_planner("nope", &cfg) {
        Err(MiniplanError::InvalidPlanner(n)) => assert_eq!(n, "nope"),
        _ => panic!("unknown planner should be refused"),
    }
    match r.build_heuristic("nope", &cfg) {
        Err(MiniplanError::InvalidHeuristic(n)) => assert_eq!(n, "nope"),
        _ => panic!("unknown heuristic should be refused"),
    }
    match r.build_planner("bfs", &cfg) {
        Ok(p) => assert_eq!(p.name(), "bfs"),
        Err(_) => panic!("bfs should build"),
    }
    match r.build_heuristic("hff", &cfg) {
        Ok(h) => assert_eq!(h.name(), "hff"),
        Err(_) => panic!("hff should build"),
    }
}

#[test]
fn solver_runs_chosen_planner() {
    let task = make_task(3, &[0], &[2], vec![op(0, "a", &[0], &[1], &[], 1), op(1, "b", &[1], &[2], &[], 1)]);
    let solver = Solver::new();
    let plan = plan_of(solver.solve_task(&task, &PlannerChoice::new("bfs"), &SearchLimits::default()));
    let ids: Vec<usize> = plan.steps.iter().map(|s| s.op_id.0).collect();
    assert_eq!(ids, vec![0, 1]);
    assert_eq!(plan.cost, 2);
    match solver.solve_task(&task, &PlannerChoice::new("nope"), &SearchLimits::default()) {
        Err(MiniplanError::InvalidPlanner(n)) => assert_eq!(n, "nope"),
        _ => panic!("unknown planner should be refused"),
    }
}

#[test]
fn forward_planners_find_cheapest_or_shortest() {
    let task = make_task(
        4,
        &[0],
        &[3],
        vec![
            op(0, "a_to_b", &[0], &[1], &[], 10),
            op(1, "a_to_c", &[0], &[2], &[], 1),
            op(2, "b_to_d", &[1], &[3], &[], 1),
            op(3, "c_to_d", &[2], &[3], &[], 1),
        ],
    );
    let limits = SearchLimits::default();
    let astar = plan_of(Astar::new(Box::new(HAdd)).solve(&task, &limits));
    assert_eq!(astar.cost, 2);
    let bfs = plan_of(Bfs::new().solve(&task, &limits));
    assert_eq!(bfs.len(), 2);
    assert_eq!(bfs.steps[0].op_id, OpId(0));
    let gbfs = plan_of(Gbfs::new(Box::new(HFF)).solve(&task, &limits));
    assert_eq!(gbfs.len(), 2);
}

#[test]
fn bfs_reports_unsolvable_and_node_limit() {
    let task = make_task(3, &[0], &[2], vec![op(0, "a", &[0], &[1], &[], 1)]);
    assert!(matches!(Bfs::new().solve(&task, &SearchLimits::default()), Ok(SearchOutcome::Unsolvable(_))));
    let long = make_task(
        4,
        &[0],
        &[3],
        vec![op(0, "a", &[0], &[1], &[], 1), op(1, "b", &[1], &[2], &[], 1), op(2, "c", &[2], &[3], &[], 1)],
    );
    let tight = SearchLimits { time_budget: None, node_budget: Some(1), memory_mb: None };
    assert!(matches!(Bfs::new().solve(&long, &tight), Ok(SearchOutcome::LimitReached(_))));
}

#[test]
fn state_apply_and_conditional_effects() {
    let mut o = op(0, "o", &[0], &[1], &[0], 1);
    o.conditional.push(CondEffect {
        cond_pos: bits(&[0], 3),
        cond_neg: State::new(3),
        add: bits(&[2], 3),
        del: State::new(3),
    });
    let s = bits(&[0], 3);
    assert!(s.applicable(&o));
    let t = s.apply(&o);
    assert!(!t.contains(FactId(0)));
    assert!(t.contains(FactId(1)));
    assert!(t.contains(FactId(2)));
    assert!(t.satisfies(&bits(&[1, 2], 3), &bits(&[0], 3)));
    assert!(!t.applicable(&o));
}

#[test]
fn capabilities_union_and_contains() {
    let c = PlannerCapabilities::classical().union(PlannerCapabilities::negative_preconds());
    assert!(c.contains(PlannerCapabilities::classical()));
    assert!(c.contains(PlannerCapabilities::negative_preconds()));
    assert!(!c.contains(PlannerCapabilities::conditional_effects()));
    assert!(c.contains(PlannerCapabilities::empty()));
}

#[test]
fn registry_holds_exactly_the_documented_names() {
    let r = Registry::with_builtins();
    let planners: Vec<&str> = r.planners().iter().map(|p| p.name).collect();
    assert_eq!(planners, vec!["bfs", "astar", "gbfs", "bibfs-uc", "bidij", "bibae"]);
    let heuristics: Vec<&str> = r.heuristics().iter().map(|h| h.name).collect();
    assert_eq!(heuristics, vec!["blind", "goal-count", "hadd", "hmax", "hff"]);
    let bidij = r.planners().iter().find(|p| p.name == "bidij").unwrap();
    assert_eq!(bidij.description, "Bidirectional Dijkstra (cost-aware)");
    assert_eq!(bidij.capabilities.bits, 35);
    match r.build_heuristic("zero", &PlannerConfig::new()) {
        Err(MiniplanError::InvalidHeuristic(n)) => assert_eq!(n, "zero"),
        _ => panic!("zero is not a registered heuristic"),
    }
}

#[test]
fn every_registered_planner_reports_unsolvable_tasks() {
    let task = make_task(3, &[0], &[2], vec![op(0, "a", &[0], &[1], &[], 1)]);
    let solver = Solver::new();
    for name in ["bfs", "astar", "gbfs", "bibfs-uc", "bidij", "bibae"] {
        match solver.solve_task(&task, &PlannerChoice::new(name), &SearchLimits::default()) {
            Ok(SearchOutcome::Unsolvable(_)) => {}
            _ => panic!("{} should report the task unsolvable", name),
        }
    }
}
