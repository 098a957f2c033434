use miniplan::error::MiniplanError;
use miniplan::heuristic::{HFF, HZero};
use miniplan::plan::Plan;
use miniplan::search::astar::Astar;
use miniplan::search::bae::Bae;
use miniplan::search::bfs::Bfs;
use miniplan::search::bibfs_uc::BibfsUc;
use miniplan::search::bidij::BiDij;
use miniplan::search::{Planner, SearchLimits, SearchOutcome};
use miniplan::table::KeyMap;
use miniplan::task::{
    CondEffect, Fact, FactId, OpId, Operator, State, Task, TaskMeta, TypeHierarchy,
};

fn bits(on: &[usize], size: usize) -> State {
    let mut state = State::new(size);
    for &b in on {
        state.0.set(b, true);
    }
    state
}

fn make_test_task(
    num_facts: usize,
    init_bits: &[usize],
    goal_pos_bits: &[usize],
    goal_neg_bits: &[usize],
    operators: Vec<Operator>,
) -> Task {
    let mut facts = Vec::new();
    let mut fact_index = KeyMap::new();
    for i in 0..num_facts {
        let fact = Fact {
            predicate: format!("f{}", i),
            args: vec![],
        };
        fact_index.insert(fact.clone(), FactId(i));
        facts.push(fact);
    }
    Task {
        facts,
        fact_index,
        operators,
        init: bits(init_bits, num_facts),
        goal_pos: bits(goal_pos_bits, num_facts),
        goal_neg: bits(goal_neg_bits, num_facts),
        objects: vec![],
        types: TypeHierarchy::new(),
        metadata: TaskMeta {
            domain_name: "test".to_string(),
            problem_name: "test".to_string(),
            requirements: vec![],
        },
    }
}

fn make_op(
    id: usize,
    name: &str,
    pre_pos: &[usize],
    pre_neg: &[usize],
    add: &[usize],
    del: &[usize],
    cost: u32,
) -> Operator {
    Operator {
        id: OpId(id),
        name: name.to_string(),
        pre_pos: bits(pre_pos, 10),
        pre_neg: bits(pre_neg, 10),
        add: bits(add, 10),
        del: bits(del, 10),
        conditional: vec![],
        cost,
    }
}

fn diamond() -> Task {
    make_test_task(
        4,
        &[0],
        &[3],
        &[],
        vec![
            make_op(0, "a_to_b", &[0], &[], &[1], &[], 10),
            make_op(1, "a_to_c", &[0], &[], &[2], &[], 1),
            make_op(2, "b_to_d", &[1], &[], &[3], &[], 1),
            make_op(3, "c_to_d", &[2], &[], &[3], &[], 1),
        ],
    )
}

fn conditional_task() -> Task {
    let mut op = make_op(0, "op_cond", &[0], &[], &[1], &[], 1);
    op.conditional.push(CondEffect {
        cond_pos: bits(&[0], 3),
        cond_neg: State::new(3),
        add: bits(&[2], 3),
        del: State::new(3),
    });
    make_test_task(3, &[0], &[2], &[], vec![op])
}

fn plan_of(outcome: Result<SearchOutcome, MiniplanError>) -> Plan {
    match outcome {
        Ok(SearchOutcome::Plan(plan, _)) => plan,
        _ => panic!("expected a plan"),
    }
}

fn run_both(task: &Task) -> (Plan, Plan) {
    let mut bibfs = BibfsUc::new();
    let mut bfs = Bfs::new();
    let limits = SearchLimits::default();
    let bibfs_outcome = bibfs.solve(task, &limits);
    let bfs_outcome = bfs.solve(task, &limits);
    match (bibfs_outcome, bfs_outcome) {
        (Ok(SearchOutcome::Plan(a, _)), Ok(SearchOutcome::Plan(b, _))) => (a, b),
        _ => panic!("expected plans from both planners"),
    }
}

#[test]
fn test_simple_plan() {
    let task = make_test_task(
        4,
        &[0],
        &[3],
        &[],
        vec![
            make_op(0, "op0", &[0], &[], &[1, 2], &[], 1),
            make_op(1, "op1", &[1, 2], &[], &[3], &[], 1),
        ],
    );
    let (bibfs_plan, bfs_plan) = run_both(&task);
    assert_eq!(bibfs_plan.len(), bfs_plan.len());
    assert_eq!(bibfs_plan.steps[0].op_id, OpId(0));
    assert_eq!(bibfs_plan.steps[1].op_id, OpId(1));
}

#[test]
fn bibfs_uc_test_unsolvable() {
    let task = make_test_task(3, &[0], &[2], &[], vec![make_op(0, "op0", &[0], &[], &[1], &[], 1)]);
    let mut bibfs = BibfsUc::new();
    let outcome = bibfs.solve(&task, &SearchLimits::default());
    assert!(matches!(outcome, Ok(SearchOutcome::Unsolvable(_))));
}

#[test]
fn bibfs_uc_test_conditional_effect_rejected() {
    let task = conditional_task();
    let mut bibfs = BibfsUc::new();
    let result = bibfs.solve(&task, &SearchLimits::default());
    assert!(matches!(result, Err(MiniplanError::UnsupportedConditionalEffects)));
}

#[test]
fn bibfs_uc_test_init_satisfies_goal() {
    let task = make_test_task(3, &[0, 1], &[1], &[], vec![make_op(0, "op0", &[0], &[], &[1], &[], 1)]);
    let mut bibfs = BibfsUc::new();
    let plan = plan_of(bibfs.solve(&task, &SearchLimits::default()));
    assert!(plan.is_empty());
    assert_eq!(plan.cost, 0);
}

#[test]
fn bidij_test_simple_plan_uniform_cost() {
    let task = make_test_task(
        4,
        &[0],
        &[3],
        &[],
        vec![
            make_op(0, "op0", &[0], &[], &[1, 2], &[], 1),
            make_op(1, "op1", &[1, 2], &[], &[3], &[], 1),
        ],
    );
    let mut bidij = BiDij::new();
    let mut bibfs_uc = BibfsUc::new();
    let limits = SearchLimits::default();
    let (bidij_plan, uc_plan) = match (bidij.solve(&task, &limits), bibfs_uc.solve(&task, &limits)) {
        (Ok(SearchOutcome::Plan(a, _)), Ok(SearchOutcome::Plan(b, _))) => (a, b),
        _ => panic!("expected plans from both planners"),
    };
    assert_eq!(bidij_plan.len(), uc_plan.len());
    assert_eq!(bidij_plan.steps[0].op_id, OpId(0));
    assert_eq!(bidij_plan.steps[1].op_id, OpId(1));
}

#[test]
fn bidij_test_cost_aware_prefers_cheaper_path() {
    let task = diamond();
    let mut bidij = BiDij::new();
    let plan = plan_of(bidij.solve(&task, &SearchLimits::default()));
    assert_eq!(plan.cost, 2);
    assert_eq!(plan.len(), 2);
    assert_eq!(plan.steps[0].op_id, OpId(1));
    assert_eq!(plan.steps[1].op_id, OpId(3));
}

#[test]
fn bidij_test_unsolvable() {
    let task = make_test_task(3, &[0], &[2], &[], vec![make_op(0, "op0", &[0], &[], &[1], &[], 1)]);
    let mut bidij = BiDij::new();
    let outcome = bidij.solve(&task, &SearchLimits::default());
    assert!(matches!(outcome, Ok(SearchOutcome::Unsolvable(_))));
}

#[test]
fn bidij_test_conditional_effect_rejected() {
    let task = conditional_task();
    let mut bidij = BiDij::new();
    let result = bidij.solve(&task, &SearchLimits::default());
    assert!(matches!(result, Err(MiniplanError::UnsupportedConditionalEffects)));
}

#[test]
fn bidij_test_init_satisfies_goal() {
    let task = make_test_task(3, &[0, 1], &[1], &[], vec![make_op(0, "op0", &[0], &[], &[1], &[], 1)]);
    let mut bidij = BiDij::new();
    let plan = plan_of(bidij.solve(&task, &SearchLimits::default()));
    assert!(plan.is_empty());
    assert_eq!(plan.cost, 0);
}

#[test]
fn bidij_test_matches_astar_cost() {
    let task = diamond();
    let mut bidij = BiDij::new();
    let mut astar = Astar::new(Box::new(HFF));
    let limits = SearchLimits::default();
    let (bidij_plan, astar_plan) = match (bidij.solve(&task, &limits), astar.solve(&task, &limits)) {
        (Ok(SearchOutcome::Plan(a, _)), Ok(SearchOutcome::Plan(b, _))) => (a, b),
        _ => panic!("expected plans from both planners"),
    };
    assert_eq!(bidij_plan.cost, astar_plan.cost);
    assert_eq!(bidij_plan.cost, 2);
}

#[test]
fn test_stale_pops_skipped() {
    let task = make_test_task(
        5,
        &[0],
        &[4],
        &[],
        vec![
            make_op(0, "op0_0to1_exp", &[0], &[], &[1], &[], 3),
            make_op(1, "op1_0to1_cheap", &[0], &[], &[1], &[], 1),
            make_op(2, "op2_1to2", &[1], &[], &[2], &[], 1),
            make_op(3, "op3_2to3", &[2], &[], &[3], &[], 1),
            make_op(4, "op4_3to4", &[3], &[], &[4], &[], 1),
        ],
    );
    let mut bidij = BiDij::new();
    match bidij.solve(&task, &SearchLimits::default()) {
        Ok(SearchOutcome::Plan(plan, stats)) => {
            assert_eq!(plan.cost, 4);
            assert_eq!(stats.nodes_expanded, 6);
        }
        _ => panic!("expected a plan"),
    }
}

#[test]
fn bidij_test_bucket_index_correctness() {
    let task = make_test_task(
        5,
        &[0],
        &[3, 4],
        &[],
        vec![
            make_op(0, "op0", &[0], &[], &[1, 2], &[], 1),
            make_op(1, "op1", &[1, 2], &[], &[3], &[], 1),
            make_op(2, "op2", &[1, 2], &[], &[4], &[], 1),
        ],
    );
    let mut bidij = BiDij::new();
    let mut astar = Astar::new(Box::new(HFF));
    let limits = SearchLimits::default();
    let (bidij_plan, astar_plan) = match (bidij.solve(&task, &limits), astar.solve(&task, &limits)) {
        (Ok(SearchOutcome::Plan(a, _)), Ok(SearchOutcome::Plan(b, _))) => (a, b),
        _ => panic!("expected plans from both planners"),
    };
    assert_eq!(bidij_plan.cost, astar_plan.cost);
    assert_eq!(bidij_plan.cost, 3);
    assert_eq!(bidij_plan.len(), 3);
}

#[test]
fn bae_test_simple_plan_uniform_cost() {
    let task = make_test_task(
        4,
        &[0],
        &[3],
        &[],
        vec![
            make_op(0, "op0", &[0], &[], &[1, 2], &[], 1),
            make_op(1, "op1", &[1, 2], &[], &[3], &[], 1),
        ],
    );
    let mut bae = Bae::with_defaults();
    let mut bibfs_uc = BibfsUc::new();
    let limits = SearchLimits::default();
    let (bae_plan, uc_plan) = match (bae.solve(&task, &limits), bibfs_uc.solve(&task, &limits)) {
        (Ok(SearchOutcome::Plan(a, _)), Ok(SearchOutcome::Plan(b, _))) => (a, b),
        _ => panic!("expected plans from both planners"),
    };
    assert_eq!(bae_plan.len(), uc_plan.len());
    assert_eq!(bae_plan.steps[0].op_id, OpId(0));
    assert_eq!(bae_plan.steps[1].op_id, OpId(1));
}

#[test]
fn bae_test_cost_aware_prefers_cheaper_path() {
    let task = diamond();
    let mut bae = Bae::with_defaults();
    let plan = plan_of(bae.solve(&task, &SearchLimits::default()));
    assert_eq!(plan.cost, 2);
    assert_eq!(plan.len(), 2);
    assert_eq!(plan.steps[0].op_id, OpId(1));
    assert_eq!(plan.steps[1].op_id, OpId(3));
}

#[test]
fn bae_test_unsolvable() {
    let task = make_test_task(3, &[0], &[2], &[], vec![make_op(0, "op0", &[0], &[], &[1], &[], 1)]);
    let mut bae = Bae::with_defaults();
    let outcome = bae.solve(&task, &SearchLimits::default());
    assert!(matches!(outcome, Ok(SearchOutcome::Unsolvable(_))));
}

#[test]
fn bae_test_conditional_effect_rejected() {
    let task = conditional_task();
    let mut bae = Bae::with_defaults();
    let result = bae.solve(&task, &SearchLimits::default());
    assert!(matches!(result, Err(MiniplanError::UnsupportedConditionalEffects)));
}

#[test]
fn bae_test_init_satisfies_goal() {
    let task = make_test_task(3, &[0, 1], &[1], &[], vec![make_op(0, "op0", &[0], &[], &[1], &[], 1)]);
    let mut bae = Bae::with_defaults();
    let plan = plan_of(bae.solve(&task, &SearchLimits::default()));
    assert!(plan.is_empty());
    assert_eq!(plan.cost, 0);
}

#[test]
fn test_matches_bidij_cost() {
    let task = diamond();
    let mut bae = Bae::with_defaults();
    let mut bidij = BiDij::new();
    let limits = SearchLimits::default();
    let (bae_plan, bidij_plan) = match (bae.solve(&task, &limits), bidij.solve(&task, &limits)) {
        (Ok(SearchOutcome::Plan(a, _)), Ok(SearchOutcome::Plan(b, _))) => (a, b),
        _ => panic!("expected plans from both planners"),
    };
    assert_eq!(bae_plan.cost, bidij_plan.cost);
    assert_eq!(bae_plan.cost, 2);
}

#[test]
fn bae_test_matches_astar_cost() {
    let task = diamond();
    let mut bae = Bae::with_defaults();
    let mut astar = Astar::new(Box::new(HFF));
    let limits = SearchLimits::default();
    let (bae_plan, astar_plan) = match (bae.solve(&task, &limits), astar.solve(&task, &limits)) {
        (Ok(SearchOutcome::Plan(a, _)), Ok(SearchOutcome::Plan(b, _))) => (a, b),
        _ => panic!("expected plans from both planners"),
    };
    assert_eq!(bae_plan.cost, astar_plan.cost);
    assert_eq!(bae_plan.cost, 2);
}

#[test]
fn bae_test_bucket_index_correctness() {
    let task = make_test_task(
        5,
        &[0],
        &[3, 4],
        &[],
        vec![
            make_op(0, "op0", &[0], &[], &[1, 2], &[], 1),
            make_op(1, "op1", &[1, 2], &[], &[3], &[], 1),
            make_op(2, "op2", &[1, 2], &[], &[4], &[], 1),
        ],
    );
    let mut bae = Bae::with_defaults();
    let mut astar = Astar::new(Box::new(HFF));
    let limits = SearchLimits::default();
    let (bae_plan, astar_plan) = match (bae.solve(&task, &limits), astar.solve(&task, &limits)) {
        (Ok(SearchOutcome::Plan(a, _)), Ok(SearchOutcome::Plan(b, _))) => (a, b),
        _ => panic!("expected plans from both planners"),
    };
    assert_eq!(bae_plan.cost, astar_plan.cost);
    assert_eq!(bae_plan.cost, 3);
    assert_eq!(bae_plan.len(), 3);
}

#[test]
fn test_hb_prunes_unreachable_subgoal() {
    let task = make_test_task(
        4,
        &[0],
        &[3],
        &[],
        vec![
            make_op(0, "op0", &[0], &[], &[1], &[], 1),
            make_op(1, "op1", &[1], &[], &[3], &[], 1),
            make_op(2, "op2", &[2], &[], &[3], &[], 1),
        ],
    );
    let mut bae = Bae::with_defaults();
    let mut bidij = BiDij::new();
    let limits = SearchLimits::default();
    let (bae_plan, bae_stats) = match bae.solve(&task, &limits) {
        Ok(SearchOutcome::Plan(plan, stats)) => (plan, stats),
        _ => panic!("expected a plan"),
    };
    let (bidij_plan, bidij_stats) = match bidij.solve(&task, &limits) {
        Ok(SearchOutcome::Plan(plan, stats)) => (plan, stats),
        _ => panic!("expected a plan"),
    };
    assert_eq!(bae_plan.cost, bidij_plan.cost);
    assert!(bae_stats.nodes_expanded <= bidij_stats.nodes_expanded);
}

fn direct_or_detour() -> Task {
    make_test_task(
        3,
        &[0],
        &[2],
        &[],
        vec![
            make_op(0, "direct", &[0], &[], &[2], &[], 10),
            make_op(1, "to_detour", &[0], &[], &[1], &[], 6),
            make_op(2, "from_detour", &[1], &[], &[2], &[], 6),
        ],
    )
}

#[test]
fn astar_zero_heuristic_finds_cheapest_plan() {
    let task = direct_or_detour();
    let astar = Astar::new(Box::new(HZero));
    let plan = plan_of(astar.run(&task, &SearchLimits::default()));
    assert_eq!(plan.cost, 10);
    assert_eq!(plan.len(), 1);
    assert_eq!(plan.steps[0].op_name, "direct");

    let diamond_plan = plan_of(Astar::new(Box::new(HZero)).run(&diamond(), &SearchLimits::default()));
    assert_eq!(diamond_plan.cost, 2);
}

#[test]
fn bidij_stops_once_frontiers_exceed_best_meeting() {
    // The cheaper single-step plan is only met after both frontiers have
    // passed the cost of the detour's meeting, so the detour is returned.
    let task = direct_or_detour();
    let mut bidij = BiDij::new();
    let plan = plan_of(bidij.solve(&task, &SearchLimits::default()));
    assert_eq!(plan.cost, 12);
    assert_eq!(plan.len(), 2);
}
