use miniplan::tui::{
    can_solve, compatible_problems, dedup_domain_names, default_planner, heuristic_applies, on_key,
    on_mouse, problem_count_for_domain, reset_to_start, Area, Focus, InputField, Key, KeyAction,
    ListCursor, ModalKind, MouseAction, MouseKind, SolvingState, TuiState,
};

fn names(v: &[&str]) -> Vec<String> {
    v.iter().map(|s| s.to_string()).collect()
}

fn placed_state() -> TuiState {
    let mut s = TuiState::initial(3, &names(&["bfs", "astar", "gbfs"]), 5);
    s.plan_area = Some(Area { x: 40, y: 0, width: 40, height: 20 });
    s.solve_button = Some(Area { x: 0, y: 20, width: 10, height: 1 });
    s.domain_area = Some(Area { x: 0, y: 0, width: 20, height: 10 });
    s.problem_area = Some(Area { x: 20, y: 0, width: 20, height: 10 });
    s.config_area = Some(Area { x: 0, y: 10, width: 40, height: 10 });
    s.config_planner_row = 11;
    s.config_heuristic_row = 12;
    s
}

#[test]
fn dedup_keeps_first_occurrences_and_lists_repeats() {
    let (firsts, repeated) = dedup_domain_names(&names(&["a", "b", "a", "c", "b", "a"]));
    assert_eq!(firsts, vec![0, 1, 3]);
    assert_eq!(repeated, names(&["a", "b"]));
    let (firsts, repeated) = dedup_domain_names(&Vec::new());
    assert!(firsts.is_empty());
    assert!(repeated.is_empty());
}

#[test]
fn default_planner_is_astar_or_first() {
    assert_eq!(default_planner(&names(&["bfs", "astar", "gbfs"])), 1);
    assert_eq!(default_planner(&names(&["bfs", "gbfs"])), 0);
    assert_eq!(default_planner(&Vec::new()), 0);
}

#[test]
fn blind_planners_take_no_heuristic() {
    assert!(!heuristic_applies(&"bfs".to_string()));
    assert!(!heuristic_applies(&"bibfs-uc".to_string()));
    assert!(!heuristic_applies(&"bidij".to_string()));
    assert!(heuristic_applies(&"astar".to_string()));
    assert!(heuristic_applies(&"bae".to_string()));
}

#[test]
fn compatible_problems_match_domain_name() {
    let r = compatible_problems(&names(&["d1", "d2", "d1"]), &"d1".to_string());
    assert_eq!(r, vec![0, 2]);
    assert!(compatible_problems(&names(&["d2"]), &"d1".to_string()).is_empty());
}

#[test]
fn cursor_wraps_both_ways() {
    let mut c = ListCursor::with_len(3);
    assert_eq!(c.selected, Some(0));
    c.previous();
    assert_eq!(c.selected, Some(2));
    c.next();
    assert_eq!(c.selected, Some(0));
    c.next();
    assert_eq!(c.selected, Some(1));
    let mut empty = ListCursor::with_len(0);
    empty.next();
    assert_eq!(empty.selected, None);
}

#[test]
fn initial_state_selects_defaults() {
    let s = TuiState::initial(2, &names(&["bfs", "astar"]), 5);
    assert_eq!(s.focus, Focus::DomainList);
    assert_eq!(s.domains.selected, Some(0));
    assert_eq!(s.selected_planner, 1);
    assert_eq!(s.selected_heuristic, 0);
    assert!(s.heuristic_enabled);
    assert!(s.problem_blocked);
}

#[test]
fn scrolling_moves_plan_only_inside_its_area() {
    let mut s = placed_state();
    s.plan_line_count = 3;
    let (s1, a) = on_mouse(&s, MouseKind::ScrollDown, 50, 5);
    assert_eq!(a, MouseAction::Nothing);
    assert_eq!(s1.plan_scroll_offset, 1);
    let (s2, _) = on_mouse(&s1, MouseKind::ScrollDown, 50, 5);
    assert_eq!(s2.plan_scroll_offset, 2);
    let (s2, _) = on_mouse(&s2, MouseKind::ScrollDown, 50, 5);
    assert_eq!(s2.plan_scroll_offset, 2);
    let (s3, _) = on_mouse(&s1, MouseKind::ScrollDown, 5, 5);
    assert_eq!(s3.plan_scroll_offset, 1);
    let (s4, _) = on_mouse(&s1, MouseKind::ScrollUp, 50, 5);
    assert_eq!(s4.plan_scroll_offset, 0);
    let (s5, _) = on_mouse(&s4, MouseKind::ScrollUp, 50, 5);
    assert_eq!(s5.plan_scroll_offset, 0);
}

#[test]
fn clicks_select_domain_and_press_solve() {
    let s = placed_state();
    let (s1, a) = on_mouse(&s, MouseKind::LeftDown, 5, 3);
    assert_eq!(a, MouseAction::DomainChosen);
    assert_eq!(s1.domains.selected, Some(2));
    assert_eq!(s1.focus, Focus::DomainList);
    let (s2, a) = on_mouse(&s, MouseKind::LeftDown, 5, 0);
    assert_eq!(a, MouseAction::Nothing);
    assert_eq!(s2.domains.selected, Some(0));
    assert_eq!(s2.focus, Focus::DomainList);
    let (_, a) = on_mouse(&s, MouseKind::LeftDown, 3, 20);
    assert_eq!(a, MouseAction::StartSolving);
    let (s3, _) = on_mouse(&s, MouseKind::LeftDown, 50, 5);
    assert_eq!(s3.focus, Focus::PlanScroll);
    let (s4, _) = on_mouse(&s, MouseKind::LeftDown, 25, 2);
    assert_eq!(s4, s);
}

#[test]
fn config_clicks_open_lists_and_pick_entries() {
    let s = placed_state();
    let (s1, _) = on_mouse(&s, MouseKind::LeftDown, 5, 11);
    assert_eq!(s1.modal, Some(ModalKind::Planner));
    assert_eq!(s1.modal_selected, Some(1));
    let (s2, _) = on_mouse(&s, MouseKind::LeftDown, 5, 15);
    assert_eq!(s2.focus, Focus::InputField(InputField::Timeout));
    let mut open = s1;
    open.modal_area = Some(Area { x: 10, y: 5, width: 20, height: 5 });
    let (s3, _) = on_mouse(&open, MouseKind::ScrollDown, 0, 0);
    assert_eq!(s3.modal_selected, Some(2));
    let (s4, a) = on_mouse(&open, MouseKind::LeftDown, 12, 6);
    assert_eq!(a, MouseAction::PlannerChosen);
    assert_eq!(s4.selected_planner, 0);
    assert_eq!(s4.modal, None);
    assert_eq!(s4.modal_area, None);
    let (s5, a) = on_mouse(&open, MouseKind::LeftDown, 12, 9);
    assert_eq!(a, MouseAction::Nothing);
    assert_eq!(s5, open);
}

#[test]
fn keys_move_lists_and_focus() {
    let s = TuiState::initial(3, &names(&["bfs", "astar"]), 5);
    let (s1, a) = on_key(&s, Key::Down);
    assert_eq!(a, KeyAction::DomainChosen);
    assert_eq!(s1.domains.selected, Some(1));
    let (s2, a) = on_key(&s, Key::Char('k'));
    assert_eq!(a, KeyAction::DomainChosen);
    assert_eq!(s2.domains.selected, Some(2));
    let (s3, _) = on_key(&s, Key::Tab);
    assert_eq!(s3.focus, Focus::DomainList);
    let mut open = s;
    open.problem_blocked = false;
    let (s4, _) = on_key(&open, Key::Tab);
    assert_eq!(s4.focus, Focus::ProblemList);
    let (s5, _) = on_key(&s4, Key::Tab);
    assert_eq!(s5.focus, Focus::InputField(InputField::Timeout));
    let (_, a) = on_key(&s, Key::Char('q'));
    assert_eq!(a, KeyAction::Quit);
    let (_, a) = on_key(&s, Key::Char('s'));
    assert_eq!(a, KeyAction::StartSolving);
}

#[test]
fn keys_edit_input_fields() {
    let mut s = TuiState::initial(1, &names(&["astar"]), 5);
    s.focus = Focus::InputField(InputField::MaxNodes);
    let (s1, a) = on_key(&s, Key::Char('7'));
    assert_eq!(a, KeyAction::Type(InputField::MaxNodes, '7'));
    assert_eq!(s1.editing, Some(InputField::MaxNodes));
    let (_, a) = on_key(&s1, Key::Char('q'));
    assert_eq!(a, KeyAction::Type(InputField::MaxNodes, 'q'));
    let (_, a) = on_key(&s1, Key::Delete);
    assert_eq!(a, KeyAction::Erase(InputField::MaxNodes));
    let (s2, _) = on_key(&s1, Key::Enter);
    assert_eq!(s2.editing, None);
    let (_, a) = on_key(&s, Key::Char('q'));
    assert_eq!(a, KeyAction::Quit);
    let (s3, _) = on_key(&s, Key::Tab);
    assert_eq!(s3.focus, Focus::InputField(InputField::OutputPath));
    let (s4, _) = on_key(&s, Key::BackTab);
    assert_eq!(s4.focus, Focus::InputField(InputField::Timeout));
}

#[test]
fn keys_pick_from_planner_list() {
    let mut s = TuiState::initial(1, &names(&["bfs", "astar", "gbfs"]), 5);
    s.modal = Some(ModalKind::Planner);
    s.modal_selected = Some(1);
    let (s1, _) = on_key(&s, Key::Up);
    assert_eq!(s1.modal_selected, Some(0));
    let (s2, _) = on_key(&s1, Key::Up);
    assert_eq!(s2.modal_selected, Some(2));
    let (s3, a) = on_key(&s2, Key::Enter);
    assert_eq!(a, KeyAction::PlannerChosen);
    assert_eq!(s3.selected_planner, 2);
    assert_eq!(s3.modal, None);
    let (s4, a) = on_key(&s2, Key::Escape);
    assert_eq!(a, KeyAction::Nothing);
    assert_eq!(s4.modal, None);
    assert_eq!(s4.selected_planner, 1);
}

#[test]
fn command_bar_clears_and_plan_scrolls_by_key() {
    let mut s = TuiState::initial(1, &names(&["astar"]), 5);
    s.focus = Focus::CommandBar;
    let (_, a) = on_key(&s, Key::Char('c'));
    assert_eq!(a, KeyAction::ClearOutput);
    s.focus = Focus::PlanScroll;
    s.plan_line_count = 2;
    let (s1, _) = on_key(&s, Key::Down);
    assert_eq!(s1.plan_scroll_offset, 1);
    let (s2, _) = on_key(&s1, Key::Down);
    assert_eq!(s2.plan_scroll_offset, 1);
    let (s3, _) = on_key(&s2, Key::Char('k'));
    assert_eq!(s3.plan_scroll_offset, 0);
}

#[test]
fn solving_needs_a_selected_problem_and_reset_returns_to_start() {
    let mut s = TuiState::initial(1, &names(&["astar"]), 5);
    assert!(!can_solve(&s));
    s.problems = ListCursor::with_len(2);
    s.problem_blocked = false;
    assert!(can_solve(&s));
    s.solving = SolvingState::Running;
    assert!(!can_solve(&s));
    s.focus = Focus::PlanScroll;
    s.plan_scroll_offset = 3;
    s.modal = Some(ModalKind::Heuristic);
    let r = reset_to_start(&s);
    assert_eq!(r.focus, Focus::DomainList);
    assert_eq!(r.solving, SolvingState::Idle);
    assert_eq!(r.plan_scroll_offset, 0);
    assert_eq!(r.modal, None);
    assert_eq!(problem_count_for_domain(&names(&["d1", "d2", "d1"]), &"d1".to_string()), 2);
}
