use miniplan::heuristic::relaxed::{rpg_backward_fact_costs, rpg_fact_costs};
use miniplan::heuristic::{BlindHeuristic, GoalCountHeuristic, HAdd, HFF, HMax, HZero, Heuristic};
use miniplan::search::HValue;
use miniplan::table::KeyMap;
use miniplan::task::{Fact, FactId, OpId, Operator, State, Task, TaskMeta, TypeHierarchy};

fn bits(on: &[usize], size: usize) -> State {
    let mut state = State::new(size);
    for &b in on {
        state.0.set(b, true);
    }
    state
}

fn make_test_task(
    num_facts: usize,
    init_bits: &[usize],
    goal_pos_bits: &[usize],
    goal_neg_bits: &[usize],
    operators: Vec<Operator>,
) -> Task {
    let mut facts = Vec::new();
    let mut fact_index = KeyMap::new();
    for i in 0..num_facts {
        let fact = Fact {
            predicate: format!("f{}", i),
            args: vec![],
        };
        fact_index.insert(fact.clone(), FactId(i));
        facts.push(fact);
    }
    Task {
        facts,
        fact_index,
        operators,
        init: bits(init_bits, num_facts),
        goal_pos: bits(goal_pos_bits, num_facts),
        goal_neg: bits(goal_neg_bits, num_facts),
        objects: vec![],
        types: TypeHierarchy::new(),
        metadata: TaskMeta {
            domain_name: "test".to_string(),
            problem_name: "test".to_string(),
            requirements: vec![],
        },
    }
}

fn make_op(
    id: usize,
    name: &str,
    pre_pos: &[usize],
    pre_neg: &[usize],
    add: &[usize],
    del: &[usize],
    cost: u32,
) -> Operator {
    Operator {
        id: OpId(id),
        name: name.to_string(),
        pre_pos: bits(pre_pos, 10),
        pre_neg: bits(pre_neg, 10),
        add: bits(add, 10),
        del: bits(del, 10),
        conditional: vec![],
        cost,
    }
}

fn chain() -> Task {
    make_test_task(
        4,
        &[0],
        &[3],
        &[],
        vec![
            make_op(0, "op0", &[0], &[], &[1], &[], 1),
            make_op(1, "op1", &[1], &[], &[3], &[], 1),
        ],
    )
}

#[test]
fn test_backward_rpg_goal_facts_cost_zero() {
    let task = make_test_task(
        3,
        &[0],
        &[2],
        &[],
        vec![
            make_op(0, "op0", &[0], &[], &[1], &[], 1),
            make_op(1, "op1", &[1], &[], &[2], &[], 1),
        ],
    );
    let costs = rpg_backward_fact_costs(&task, &task.goal_pos, &task.goal_neg);
    assert_eq!(costs[2], Some(0));
}

#[test]
fn test_backward_rpg_unreachable_fact_stays_infinity() {
    let task = chain();
    let costs = rpg_backward_fact_costs(&task, &task.goal_pos, &task.goal_neg);
    assert_eq!(costs[2], None);
}

#[test]
fn test_backward_rpg_two_step_regression() {
    let task = chain();
    let costs = rpg_backward_fact_costs(&task, &task.goal_pos, &task.goal_neg);
    assert!(costs[1].map_or(true, |c| c >= 1));
    assert!(costs[0].map_or(true, |c| c >= 2));
}

#[test]
fn backward_costs_exact_on_chain() {
    let task = chain();
    let costs = rpg_backward_fact_costs(&task, &task.goal_pos, &task.goal_neg);
    assert_eq!(costs, vec![Some(2), Some(1), None, Some(0)]);
}

#[test]
fn forward_costs_exact_on_chain() {
    let task = chain();
    let costs = rpg_fact_costs(&task, &task.init);
    assert_eq!(costs, vec![Some(0), Some(1), None, Some(2)]);
}

#[test]
fn relaxed_heuristics_on_chain() {
    let task = chain();
    assert_eq!(HAdd.estimate(&task, &task.init), HValue(Some(2)));
    assert_eq!(HMax.estimate(&task, &task.init), HValue(Some(2)));
    assert_eq!(HFF.estimate(&task, &task.init), HValue(Some(2)));
    assert_eq!(HZero.estimate(&task, &task.init), HValue(Some(0)));
    assert_eq!(BlindHeuristic.estimate(&task, &task.init), HValue(Some(1)));
    assert_eq!(GoalCountHeuristic.estimate(&task, &task.init), HValue(Some(1)));
    assert_eq!(HFF.name(), "hff");
}

#[test]
fn relaxed_heuristics_unreachable_goal_is_infinite() {
    let task = make_test_task(3, &[0], &[2], &[], vec![make_op(0, "op0", &[0], &[], &[1], &[], 1)]);
    assert_eq!(HAdd.estimate(&task, &task.init), HValue(None));
    assert_eq!(HMax.estimate(&task, &task.init), HValue(None));
    // The relaxed plan passes over goals the relaxed graph cannot reach.
    assert_eq!(HFF.estimate(&task, &task.init), HValue(Some(0)));
}

#[test]
fn hadd_sums_and_hmax_takes_largest() {
    // Two goals reached by separate operators of cost 2 and 3.
    let task = make_test_task(
        3,
        &[0],
        &[1, 2],
        &[],
        vec![
            make_op(0, "to1", &[0], &[], &[1], &[], 2),
            make_op(1, "to2", &[0], &[], &[2], &[], 3),
        ],
    );
    assert_eq!(HAdd.estimate(&task, &task.init), HValue(Some(5)));
    assert_eq!(HMax.estimate(&task, &task.init), HValue(Some(3)));
    assert_eq!(HFF.estimate(&task, &task.init), HValue(Some(5)));
}

#[test]
fn goal_state_estimates_zero() {
    let task = make_test_task(2, &[0, 1], &[1], &[], vec![]);
    assert_eq!(HAdd.estimate(&task, &task.init), HValue(Some(0)));
    assert_eq!(HFF.estimate(&task, &task.init), HValue(Some(0)));
    assert_eq!(BlindHeuristic.estimate(&task, &task.init), HValue(Some(0)));
    assert_eq!(GoalCountHeuristic.estimate(&task, &task.init), HValue(Some(0)));
}

#[test]
fn hmax_takes_largest_precondition_cost() {
    // One operator adds both preconditions of the next; the cheapest plan
    // costs 2, and h^max does not exceed it.
    let task = make_test_task(
        3,
        &[],
        &[2],
        &[],
        vec![
            make_op(0, "x", &[], &[], &[0, 1], &[], 1),
            make_op(1, "z", &[0, 1], &[], &[2], &[], 1),
        ],
    );
    assert_eq!(HMax.estimate(&task, &task.init), HValue(Some(2)));
    assert_eq!(HAdd.estimate(&task, &task.init), HValue(Some(3)));
}

#[test]
fn relaxed_heuristics_accept_shorter_states() {
    let task = chain();
    let short = bits(&[0], 1);
    assert_eq!(HFF.estimate(&task, &short), HFF.estimate(&task, &task.init));
    assert_eq!(HAdd.estimate(&task, &short), HAdd.estimate(&task, &task.init));
    assert_eq!(HMax.estimate(&task, &short), HMax.estimate(&task, &task.init));
    assert_eq!(HMax.estimate(&task, &short), HValue(Some(2)));
    assert_eq!(BlindHeuristic.estimate(&task, &State::new(0)), HValue(Some(1)));
    assert_eq!(GoalCountHeuristic.estimate(&task, &State::new(0)), HValue(Some(1)));
}
