use miniplan::error::MiniplanError;
use miniplan::ground::ground;
use miniplan::heuristic::HFF;
use miniplan::load_combined_str;
use miniplan::pddl_io::{load_combined_str_named, load_domain_str, load_problem_str, PddlDomain, PddlProblem};
use miniplan::search::astar::Astar;
use miniplan::search::bfs::Bfs;
use miniplan::search::{Planner, SearchLimits};
use miniplan::task::{Fact, Task};

const SIMPLE_DOMAIN: &str = r#"
(define (domain simple-test)
    (:requirements :strips :typing)
    (:types room ball)
    (:predicates (at ?r - room)
                 (at-ball ?b - ball ?r - room)
                 (free)
                 (holding ?b - ball))

    (:action move
        :parameters (?from ?to - room)
        :precondition (at ?from)
        :effect (and (at ?to) (not (at ?from))))

    (:action pick
        :parameters (?b - ball ?r - room)
        :precondition (and (free) (at-ball ?b ?r) (at ?r))
        :effect (and (holding ?b) (not (free)) (not (at-ball ?b ?r))))

    (:action drop
        :parameters (?b - ball ?r - room)
        :precondition (holding ?b)
        :effect (and (free) (at-ball ?b ?r) (not (holding ?b))))
)
"#;

const SIMPLE_PROBLEM: &str = r#"
(define (problem simple-test-1)
    (:domain simple-test)
    (:objects r1 r2 - room
              b1 - ball)
    (:init (at r1) (at-ball b1 r1) (free))
    (:goal (and (at r2) (at-ball b1 r2)))
)
"#;

const BRIEFCASE_DOMAIN: &str = r#"
(define (domain briefcase-world)
    (:requirements :strips :equality :typing :conditional-effects)
    (:types location physob)
    (:constants B - physob)
    (:predicates (at ?x - physob ?y - location)
                 (in ?x - physob))

    (:action mov-B
        :parameters (?m ?l - location)
        :precondition (and (at B ?m) (not (= ?m ?l)))
        :effect (and (at B ?l) (not (at B ?m))))

    (:action put-in
        :parameters (?x - physob ?l - location)
        :precondition (and (at ?x ?l) (at B ?l))
        :effect (in ?x))

    (:action take-out
        :parameters (?x - physob ?l - location)
        :precondition (and (in ?x) (at B ?l))
        :effect (not (in ?x)))
)
"#;

const BRIEFCASE_PROBLEM: &str = r#"
(define (problem get-paid)
    (:domain briefcase-world)
    (:objects home office - location
              p d - physob)
    (:init (at B home) (at P home) (at D home) (in P))
    (:goal (and (at B office) (at D home) (at P home)))
)
"#;

const DOMAIN_WITH_COMMENTS: &str = r#"
; This is a test domain with leading comments
; note: uses (either ...) typing syntax
; another comment with unbalanced ( parens here

(define (domain comment-test)
    (:requirements :strips :typing)
    (:types room ball)
    (:predicates (at ?r - room)
                 (at-ball ?b - ball ?r - room)
                 (free)
                 (holding ?b - ball))

    (:action move
        :parameters (?from ?to - room)
        :precondition (at ?from)
        :effect (and (at ?to) (not (at ?from))))

    (:action pick
        :parameters (?b - ball ?r - room)
        :precondition (and (free) (at-ball ?b ?r) (at ?r))
        :effect (and (holding ?b) (not (free)) (not (at-ball ?b ?r))))

    (:action drop
        :parameters (?b - ball ?r - room)
        :precondition (holding ?b)
        :effect (and (free) (at-ball ?b ?r) (not (holding ?b))))
)
"#;

const PROBLEM_WITH_COMMENTS: &str = r#"
; Problem file also supports leading comments
; goal: move things (careful with parens) around

(define (problem comment-test-1)
    (:domain comment-test)
    (:objects r1 r2 - room
              b1 - ball)
    (:init (at r1) (at-ball b1 r1) (free))
    (:goal (and (at r2) (at-ball b1 r2)))
)
"#;

const COMBINED_WITH_COMMENTS: &str = r#"
; Combined PDDL file with domain and problem
; handles (either cargo plane) typing

; Domain definition below
(define (domain combined-comment)
    (:requirements :strips :typing)
    (:types location)
    (:predicates (at ?x - location))

    (:action go
        :parameters (?from ?to - location)
        :precondition (at ?from)
        :effect (and (at ?to) (not (at ?from))))
)

; Problem definition follows
; goal must be reachable (no tricky parens here)

(define (problem combined-comment-1)
    (:domain combined-comment)
    (:objects a b - location)
    (:init (at a))
    (:goal (and (at b)))
)
"#;

const TWO_DOMAIN_FIXTURE: &str = r#"
(define (domain domain-a)
    (:requirements :strips)
    (:predicates (p))
)

(define (domain domain-b)
    (:requirements :strips)
    (:predicates (q))
)

(define (problem problem-a)
    (:domain domain-a)
    (:init (p))
    (:goal (p))
)
"#;

fn parse(domain: &str, problem: &str) -> (PddlDomain, PddlProblem) {
    let d = match load_domain_str(domain) {
        Ok(d) => d,
        Err(e) => panic!("domain parses: {}", e.message()),
    };
    let p = match load_problem_str(problem) {
        Ok(p) => p,
        Err(e) => panic!("problem parses: {}", e.message()),
    };
    (d, p)
}

fn ground_task(domain: &str, problem: &str) -> Task {
    let (d, p) = parse(domain, problem);
    match ground(&d, &p) {
        Ok(t) => t,
        Err(e) => panic!("grounding succeeds: {}", e.message()),
    }
}

fn ground_error(domain: &str, problem: &str) -> String {
    let (d, p) = parse(domain, problem);
    match ground(&d, &p) {
        Ok(_) => panic!("should fail"),
        Err(e) => e.message(),
    }
}

fn limits() -> SearchLimits {
    SearchLimits {
        time_budget: Some(std::time::Duration::from_secs(30)),
        node_budget: Some(100_000),
        memory_mb: None,
    }
}

fn fact(pred: &str, args: &[&str]) -> Fact {
    Fact {
        predicate: pred.to_string(),
        args: args.iter().map(|a| a.to_string()).collect(),
    }
}

#[test]
fn test_briefcase_parse_and_ground() {
    let task = ground_task(BRIEFCASE_DOMAIN, BRIEFCASE_PROBLEM);
    assert!(!task.operators.is_empty(), "should have grounded operators");
    assert!(!task.goal_pos.is_empty() || !task.goal_neg.is_empty(), "should have goals");
}

#[test]
fn test_simple_parse_and_ground() {
    let task = ground_task(SIMPLE_DOMAIN, SIMPLE_PROBLEM);
    assert!(!task.operators.is_empty(), "should have grounded operators");
    println!("Simple: {} facts, {} operators", task.num_facts(), task.operators.len());
}

#[test]
fn test_simple_solve_bfs() {
    let task = ground_task(SIMPLE_DOMAIN, SIMPLE_PROBLEM);
    let mut planner = Bfs::new();
    match planner.solve(&task, &limits()) {
        Ok(miniplan::SearchOutcome::Plan(plan, _stats)) => {
            assert!(!plan.is_empty(), "BFS should find a plan");
            println!("Simple BFS plan ({} steps):", plan.len());
            for step in &plan.steps {
                println!("  {}", step.op_name);
            }
        }
        Ok(miniplan::SearchOutcome::Unsolvable(_)) => panic!("simple-test should be solvable"),
        Ok(miniplan::SearchOutcome::LimitReached(_)) => panic!("BFS should not hit limits on simple-test"),
        Err(e) => panic!("solve returns: {}", e.message()),
    }
}

#[test]
fn test_briefcase_solve_bfs() {
    let task = ground_task(BRIEFCASE_DOMAIN, BRIEFCASE_PROBLEM);
    println!("Briefcase: {} facts, {} operators", task.num_facts(), task.operators.len());
    let mut planner = Bfs::new();
    match planner.solve(&task, &limits()) {
        Ok(miniplan::SearchOutcome::Plan(plan, stats)) => {
            println!("Briefcase BFS plan ({} steps, expanded {}):", plan.len(), stats.nodes_expanded);
            for step in &plan.steps {
                println!("  {}", step.op_name);
            }
            assert!(!plan.is_empty(), "BFS should find a plan");
        }
        Ok(miniplan::SearchOutcome::Unsolvable(stats)) => {
            println!("Expanded: {}", stats.nodes_expanded);
            panic!("briefcase-world should be solvable");
        }
        Ok(miniplan::SearchOutcome::LimitReached(_)) => panic!("BFS should not hit limits on briefcase-world"),
        Err(e) => panic!("solve returns: {}", e.message()),
    }
}

#[test]
fn test_briefcase_solve_astar_ff() {
    let task = ground_task(BRIEFCASE_DOMAIN, BRIEFCASE_PROBLEM);
    let mut planner = Astar::new(Box::new(HFF));
    match planner.solve(&task, &limits()) {
        Ok(miniplan::SearchOutcome::Plan(plan, _stats)) => {
            assert!(!plan.is_empty(), "A*+FF should find a plan");
        }
        Ok(miniplan::SearchOutcome::Unsolvable(_)) => panic!("briefcase-world should be solvable"),
        Ok(miniplan::SearchOutcome::LimitReached(_)) => panic!("A*+FF should not hit limits on briefcase-world"),
        Err(e) => panic!("solve returns: {}", e.message()),
    }
}

#[test]
fn test_domain_with_leading_comments() {
    let task = ground_task(DOMAIN_WITH_COMMENTS, PROBLEM_WITH_COMMENTS);
    assert!(!task.operators.is_empty(), "should have grounded operators");
}

#[test]
fn test_combined_with_leading_and_interleaved_comments() {
    let (domain, problem) = match load_combined_str(COMBINED_WITH_COMMENTS) {
        Ok(x) => x,
        Err(e) => panic!("combined file with comments parses: {}", e.message()),
    };
    let task = match ground(&domain, &problem) {
        Ok(t) => t,
        Err(e) => panic!("grounding succeeds: {}", e.message()),
    };
    assert!(!task.operators.is_empty(), "should have grounded operators");
    assert!(!task.goal_pos.is_empty() || !task.goal_neg.is_empty(), "should have goals");
}

#[test]
fn test_multi_domain_errors() {
    let msg = match load_combined_str(TWO_DOMAIN_FIXTURE) {
        Ok(_) => panic!("should error on multiple domains"),
        Err(e) => e.message(),
    };
    assert!(msg.contains("domain-a"), "error should list domain-a");
    assert!(msg.contains("domain-b"), "error should list domain-b");

    let (domain, problem) = match load_combined_str_named(TWO_DOMAIN_FIXTURE, Some("domain-a"), None) {
        Ok(x) => x,
        Err(e) => panic!("named selection should succeed: {}", e.message()),
    };
    assert_eq!(domain.name, "domain-a");
    assert_eq!(problem.name, "problem-a");
}

#[test]
fn derived_static_expands_to_facts() {
    let domain = r#"
(define (domain test-derived)
  (:requirements :strips :typing :derived-predicates)
  (:types obj - object)
  (:predicates (color ?x - obj) (done))
  (:derived (red ?x - obj) (color ?x))
  (:action check
    :parameters (?x - obj)
    :precondition (red ?x)
    :effect (done)
  )
)
"#;
    let problem = r#"
(define (problem test-derived-1)
  (:domain test-derived)
  (:objects a - obj)
  (:init (color a))
  (:goal (done))
)
"#;
    let task = ground_task(domain, problem);
    let id = task.fact_id(&fact("red", &["a"])).expect("red(a) fact should exist");
    assert!(task.init.contains(id), "red(a) should be true in init");
    let check_op = task
        .operators
        .iter()
        .find(|op| op.name.starts_with("check"))
        .expect("check operator should exist");
    assert!(task.init.applicable(check_op), "check(a) should be applicable in init");
}

#[test]
fn derived_with_exists_and_equality() {
    let domain = r#"
(define (domain mini-can)
  (:requirements :strips :typing :derived-predicates)
  (:types disc - location)
  (:predicates (smaller ?d1 - disc ?d2 - disc) (on ?d - disc ?x - location) (is-peg ?x - location) (done))
  (:derived (can-place ?d - disc ?x - location)
    (or
      (is-peg ?x)
      (exists (?od - disc)
        (and
          (on ?d ?od)
          (smaller ?d ?od)
        )
      )
    )
  )
  (:action move
    :parameters (?d - disc ?from ?to - location)
    :precondition (can-place ?d ?to)
    :effect (done)
  )
)
"#;
    let problem = r#"
(define (problem mini-can-1)
  (:domain mini-can)
  (:objects d1 d2 - disc peg1 peg2 - location)
  (:init
    (on d1 d2)
    (smaller d1 d2)
    (is-peg peg1)
    (is-peg peg2)
  )
  (:goal (done))
)
"#;
    let task = ground_task(domain, problem);
    let id1 = task.fact_id(&fact("can-place", &["d1", "peg1"]));
    assert!(id1.is_some() && task.init.contains(id1.unwrap()), "can-place(d1,peg1) should be true");
    let id2 = task.fact_id(&fact("can-place", &["d1", "d2"]));
    assert!(id2.is_some() && task.init.contains(id2.unwrap()), "can-place(d1,d2) should be true");
    let id3 = task.fact_id(&fact("can-place", &["d2", "d1"]));
    assert!(id3.map_or(true, |id| !task.init.contains(id)), "can-place(d2,d1) should be false");
}

#[test]
fn derived_rejects_fluent_body() {
    let domain = r#"
(define (domain fluent-body)
  (:requirements :strips :typing :derived-predicates)
  (:predicates (base ?x - obj) (fluent ?x - obj))
  (:derived (derived ?x - obj) (fluent ?x))
  (:action act
    :parameters (?x - obj)
    :precondition ()
    :effect (and (fluent ?x))
  )
)
"#;
    let problem = r#"
(define (problem fluent-body-1)
  (:domain fluent-body)
  (:objects a - obj)
  (:init (base a))
  (:goal (base a))
)
"#;
    let msg = ground_error(domain, problem);
    assert!(msg.contains("fluent"), "error should mention the fluent predicate, got: {}", msg);
}

#[test]
fn derived_rejects_recursive_reference() {
    let domain = r#"
(define (domain recursive-derived)
  (:requirements :strips :typing :derived-predicates)
  (:predicates (base ?x - obj))
  (:derived (intermediate ?x - obj) (base ?x))
  (:derived (top ?x - obj) (intermediate ?x))
)
"#;
    let problem = r#"
(define (problem recursive-1)
  (:domain recursive-derived)
  (:objects a - obj)
  (:init (base a))
  (:goal (base a))
)
"#;
    let msg = ground_error(domain, problem);
    assert!(
        msg.contains("multi-layer") || msg.contains("intermediate"),
        "error should mention multi-layer or the derived predicate, got: {}",
        msg
    );
}

#[test]
fn derived_exact_messages() {
    let problem = r#"
(define (problem p1)
  (:domain d)
  (:objects a - obj)
  (:init (base a))
  (:goal (base a))
)
"#;
    let self_ref = r#"
(define (domain d)
  (:requirements :strips :typing :derived-predicates)
  (:predicates (base ?x - obj))
  (:derived (loop ?x - obj) (and (base ?x) (loop ?x)))
)
"#;
    assert_eq!(
        ground_error(self_ref, problem),
        "grounding error: derived predicate `loop` references itself; recursive derived predicates are not supported"
    );
    let head_fluent = r#"
(define (domain d)
  (:requirements :strips :typing :derived-predicates)
  (:predicates (base ?x - obj))
  (:derived (flag ?x - obj) (base ?x))
  (:action set
    :parameters (?x - obj)
    :precondition (base ?x)
    :effect (flag ?x))
)
"#;
    assert_eq!(
        ground_error(head_fluent, problem),
        "grounding error: derived predicate `flag` appears in action effects; derived predicates cannot be fluents"
    );
    let layered = r#"
(define (domain d)
  (:requirements :strips :typing :derived-predicates)
  (:predicates (base ?x - obj))
  (:derived (one ?x - obj) (base ?x))
  (:derived (two ?x - obj) (one ?x))
)
"#;
    assert_eq!(
        ground_error(layered, problem),
        "grounding error: derived predicate `two` references another derived predicate `one`; multi-layer derived predicates are not yet supported"
    );
}

#[test]
fn goal_false_is_unsatisfiable() {
    let domain = r#"
(define (domain d)
  (:requirements :strips)
  (:predicates (p))
)
"#;
    let problem = r#"
(define (problem p1)
  (:domain d)
  (:init (p))
  (:goal (or))
)
"#;
    let (d, p) = parse(domain, problem);
    match ground(&d, &p) {
        Err(MiniplanError::Ground(m)) => assert_eq!(m, "goal is unsatisfiable (False)"),
        Ok(_) => panic!("should fail"),
        Err(e) => panic!("unexpected error: {}", e.message()),
    }
}

#[test]
fn ground_builds_exact_universe_and_operators() {
    let domain = r#"
(define (domain tiny)
  (:requirements :strips :typing)
  (:types loc)
  (:predicates (at ?l - loc) (done))
  (:action go
    :parameters (?from ?to - loc)
    :precondition (at ?from)
    :effect (and (at ?to) (not (at ?from))))
  (:action finish
    :parameters ()
    :precondition (at b)
    :effect (done))
)
"#;
    let problem = r#"
(define (problem tiny-1)
  (:domain tiny)
  (:objects a b - loc)
  (:init (at a))
  (:goal (done))
)
"#;
    let task = ground_task(domain, problem);
    let names: Vec<String> = task.facts.iter().map(|f| format!("{}{:?}", f.predicate, f.args)).collect();
    assert_eq!(names, vec!["at[\"a\"]", "at[\"b\"]", "done[]"]);
    let ops: Vec<String> = task.operators.iter().map(|o| o.name.clone()).collect();
    assert_eq!(ops, vec!["go(a,a)", "go(a,b)", "go(b,a)", "go(b,b)", "finish"]);
    for (k, op) in task.operators.iter().enumerate() {
        assert_eq!(op.id.0, k);
        assert_eq!(op.cost, 1);
    }
    assert!(task.init.contains(miniplan::task::FactId(0)));
    assert!(!task.init.contains(miniplan::task::FactId(1)));
    assert!(task.goal_pos.contains(miniplan::task::FactId(2)));
    assert_eq!(task.metadata.domain_name, "tiny");
    assert_eq!(task.metadata.problem_name, "tiny-1");
}
