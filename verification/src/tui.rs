//! The decisions of the interactive terminal interface: which widget a mouse
//! event lands on and what it changes, the list cursors, the de-duplication of
//! domain names and the initial selections. Drawing and terminal input stay
//! outside; they hand these functions plain values and take plain values back.

use vstd::prelude::*;

verus! {

/// A widget's rectangle on the screen, in terminal cells.
#[derive(Clone, Copy, Debug, PartialEq, Eq)]
pub struct Area {
    pub x: u16,
    pub y: u16,
    pub width: u16,
    pub height: u16,
}

/// The editable configuration fields.
#[derive(Clone, Copy, Debug, PartialEq, Eq, Structural)]
pub enum InputField {
    Timeout,
    MaxNodes,
    OutputPath,
}

/// Which part of the interface takes keyboard input.
#[derive(Clone, Copy, Debug, PartialEq, Eq)]
pub enum Focus {
    DomainList,
    ProblemList,
    InputField(InputField),
    PlanScroll,
    CommandBar,
    SolveButton,
}

/// The two pop-up lists.
#[derive(Clone, Copy, Debug, PartialEq, Eq)]
pub enum ModalKind {
    Planner,
    Heuristic,
}

/// The mouse events that the interface reacts to; any other is `Other`.
#[derive(Clone, Copy, Debug, PartialEq, Eq)]
pub enum MouseKind {
    ScrollDown,
    ScrollUp,
    LeftDown,
    Other,
}

/// What the caller has to do after a mouse event, beyond taking the new state.
#[derive(Clone, Copy, Debug, PartialEq, Eq)]
pub enum MouseAction {
    Nothing,
    /// The solve button was pressed.
    StartSolving,
    /// Another domain was selected: the problem list is rebuilt for it.
    DomainChosen,
    /// A planner was picked: whether a heuristic applies is decided anew.
    PlannerChosen,
}

/// A scrolling list: the selected row, the first row shown, and the number of rows.
#[derive(Clone, Copy, Debug, PartialEq, Eq)]
pub struct ListCursor {
    pub selected: Option<usize>,
    pub offset: usize,
    pub len: usize,
}

/// Where a search started from the interface stands.
#[derive(Clone, Copy, Debug, PartialEq, Eq)]
pub enum SolvingState {
    Idle,
    Running,
    Completed,
    Failed,
}

/// What the event handling reads and changes of the interface.
#[derive(Clone, Copy, Debug, PartialEq, Eq)]
pub struct TuiState {
    pub focus: Focus,
    /// The input field being edited, if any.
    pub editing: Option<InputField>,
    pub solving: SolvingState,
    pub domains: ListCursor,
    pub problems: ListCursor,
    pub problem_blocked: bool,
    pub plan_scroll_offset: usize,
    pub plan_line_count: usize,
    pub plan_area: Option<Area>,
    pub solve_button: Option<Area>,
    pub domain_area: Option<Area>,
    pub problem_area: Option<Area>,
    pub config_area: Option<Area>,
    pub config_planner_row: u16,
    pub config_heuristic_row: u16,
    pub heuristic_enabled: bool,
    pub modal: Option<ModalKind>,
    pub modal_selected: Option<usize>,
    pub modal_offset: usize,
    pub modal_area: Option<Area>,
    pub selected_planner: usize,
    pub selected_heuristic: usize,
    pub planner_count: usize,
    pub heuristic_count: usize,
}

/// Whether the cell `(col, row)` lies in the area, where there is one.
pub open spec fn hits(a: Option<Area>, col: u16, row: u16) -> bool {
    match a {
        Some(r) => r.x <= col < r.x + r.width && r.y <= row < r.y + r.height,
        None => false,
    }
}

/// The list row under screen row `row`, for a list whose frame starts at
/// `top` (its first item one row lower), counting the rows scrolled away.
pub open spec fn row_index(c: ListCursor, top: u16, row: u16) -> int {
    row - (top + 1) + c.offset
}

/// Whether a click on screen row `row` lands on an item of the list.
pub open spec fn row_hits_item(c: ListCursor, top: u16, row: u16) -> bool {
    top + 1 <= row && row_index(c, top, row) < c.len
}

/// The list after a click on screen row `row`: the item there is selected, if any.
pub open spec fn click_row(c: ListCursor, top: u16, row: u16) -> ListCursor {
    if row_hits_item(c, top, row) {
        ListCursor { selected: Some(row_index(c, top, row) as usize), ..c }
    } else {
        c
    }
}

/// The number of entries in the open pop-up list.
pub open spec fn modal_len(s: TuiState) -> usize {
    match s.modal {
        Some(ModalKind::Planner) => s.planner_count,
        _ => s.heuristic_count,
    }
}

/// Closing the pop-up list: its selection becomes the chosen planner or heuristic.
pub open spec fn close_modal_step(s: TuiState) -> (TuiState, MouseAction) {
    let closed = TuiState { modal: None, modal_area: None, ..s };
    match (s.modal, s.modal_selected) {
        (Some(ModalKind::Planner), Some(i)) => (
            TuiState { selected_planner: if i < s.planner_count { i } else { (s.planner_count - 1) as usize }, ..closed },
            MouseAction::PlannerChosen,
        ),
        (Some(ModalKind::Planner), None) => (closed, MouseAction::PlannerChosen),
        (Some(ModalKind::Heuristic), Some(i)) => (
            TuiState { selected_heuristic: if i < s.heuristic_count { i } else { (s.heuristic_count - 1) as usize }, ..closed },
            MouseAction::Nothing,
        ),
        _ => (closed, MouseAction::Nothing),
    }
}

/// A mouse event while a pop-up list is open.
pub open spec fn modal_mouse_step(s: TuiState, kind: MouseKind, row: u16) -> (TuiState, MouseAction) {
    let i: int = match s.modal_selected { Some(k) => k as int, None => 0 };
    match kind {
        MouseKind::ScrollDown => {
            if i + 1 < modal_len(s) {
                (TuiState { modal_selected: Some((i + 1) as usize), ..s }, MouseAction::Nothing)
            } else {
                (s, MouseAction::Nothing)
            }
        },
        MouseKind::ScrollUp => {
            if i > 0 {
                (TuiState { modal_selected: Some((i - 1) as usize), ..s }, MouseAction::Nothing)
            } else {
                (s, MouseAction::Nothing)
            }
        },
        MouseKind::LeftDown => {
            match s.modal_area {
                Some(r) => {
                    let idx: int = row - r.y - 1 + s.modal_offset;
                    if r.y < row && row + 1 < r.y + r.height && idx < modal_len(s) {
                        close_modal_step(TuiState { modal_selected: Some(idx as usize), ..s })
                    } else {
                        (s, MouseAction::Nothing)
                    }
                },
                None => (s, MouseAction::Nothing),
            }
        },
        MouseKind::Other => (s, MouseAction::Nothing),
    }
}

/// A left click on the configuration panel: the planner row opens the planner
/// list, the heuristic row the heuristic list where a heuristic applies, and
/// any other row moves the focus to the timeout field.
pub open spec fn config_click(s: TuiState, row: u16) -> TuiState {
    if row == s.config_planner_row {
        TuiState { modal: Some(ModalKind::Planner), modal_selected: Some(s.selected_planner), ..s }
    } else if row == s.config_heuristic_row && s.heuristic_enabled {
        TuiState { modal: Some(ModalKind::Heuristic), modal_selected: Some(s.selected_heuristic), ..s }
    } else {
        TuiState { focus: Focus::InputField(InputField::Timeout), ..s }
    }
}

/// A left click with no pop-up open: the first widget under the cell, in the
/// order plan, solve button, domains, problems, configuration, decides.
pub open spec fn left_click(s: TuiState, col: u16, row: u16) -> (TuiState, MouseAction) {
    if hits(s.plan_area, col, row) {
        (TuiState { focus: Focus::PlanScroll, ..s }, MouseAction::Nothing)
    } else if hits(s.solve_button, col, row) {
        (s, MouseAction::StartSolving)
    } else if hits(s.domain_area, col, row) {
        let top = s.domain_area->0.y;
        (
            TuiState { domains: click_row(s.domains, top, row), focus: Focus::DomainList, ..s },
            if row_hits_item(s.domains, top, row) { MouseAction::DomainChosen } else { MouseAction::Nothing },
        )
    } else if hits(s.problem_area, col, row) {
        if s.problem_blocked {
            (s, MouseAction::Nothing)
        } else {
            let top = s.problem_area->0.y;
            (TuiState { problems: click_row(s.problems, top, row), focus: Focus::ProblemList, ..s }, MouseAction::Nothing)
        }
    } else if hits(s.config_area, col, row) {
        (config_click(s, row), MouseAction::Nothing)
    } else {
        (s, MouseAction::Nothing)
    }
}

/// What one mouse event does to the interface.
pub open spec fn mouse_step(s: TuiState, kind: MouseKind, col: u16, row: u16) -> (TuiState, MouseAction) {
    if s.modal is Some {
        modal_mouse_step(s, kind, row)
    } else {
        match kind {
            MouseKind::ScrollDown => {
                if hits(s.plan_area, col, row) && s.plan_scroll_offset + 1 < s.plan_line_count {
                    (TuiState { plan_scroll_offset: (s.plan_scroll_offset + 1) as usize, ..s }, MouseAction::Nothing)
                } else {
                    (s, MouseAction::Nothing)
                }
            },
            MouseKind::ScrollUp => {
                if hits(s.plan_area, col, row) && s.plan_scroll_offset > 0 {
                    (TuiState { plan_scroll_offset: (s.plan_scroll_offset - 1) as usize, ..s }, MouseAction::Nothing)
                } else {
                    (s, MouseAction::Nothing)
                }
            },
            MouseKind::LeftDown => left_click(s, col, row),
            MouseKind::Other => (s, MouseAction::Nothing),
        }
    }
}

/// Whether the cell lies in the area.
pub fn area_hits(a: Option<Area>, col: u16, row: u16) -> (b: bool)
    ensures
        b == hits(a, col, row),
{
    match a {
        Some(r) => {
            let c: u32 = col as u32;
            let w: u32 = row as u32;
            r.x as u32 <= c && c < r.x as u32 + r.width as u32 && r.y as u32 <= w && w < r.y as u32
                + r.height as u32
        },
        None => false,
    }
}

/// Selects the item under a click on screen row `row`, where there is one;
/// says whether there was.
pub fn select_at_row(c: &mut ListCursor, top: u16, row: u16) -> (hit: bool)
    ensures
        hit == row_hits_item(*old(c), top, row),
        *final(c) == click_row(*old(c), top, row),
{
    let inner_top: u32 = top as u32 + 1;
    if (row as u32) < inner_top {
        return false;
    }
    let offset: usize = (row as u32 - inner_top) as usize;
    if c.offset < c.len && offset < c.len - c.offset {
        c.selected = Some(offset + c.offset);
        true
    } else {
        false
    }
}

fn close_modal(s: TuiState) -> (r: (TuiState, MouseAction))
    requires
        modal_len(s) > 0,
    ensures
        r == close_modal_step(s),
{
    let mut next = s;
    next.modal = None;
    next.modal_area = None;
    match (s.modal, s.modal_selected) {
        (Some(ModalKind::Planner), Some(i)) => {
            next.selected_planner = if i < s.planner_count { i } else { s.planner_count - 1 };
            (next, MouseAction::PlannerChosen)
        },
        (Some(ModalKind::Planner), None) => (next, MouseAction::PlannerChosen),
        (Some(ModalKind::Heuristic), Some(i)) => {
            next.selected_heuristic = if i < s.heuristic_count { i } else { s.heuristic_count - 1 };
            (next, MouseAction::Nothing)
        },
        _ => (next, MouseAction::Nothing),
    }
}

fn on_modal_mouse(s: TuiState, kind: MouseKind, row: u16) -> (r: (TuiState, MouseAction))
    ensures
        r == modal_mouse_step(s, kind, row),
{
    let i: usize = match s.modal_selected { Some(k) => k, None => 0 };
    let len: usize = match s.modal { Some(ModalKind::Planner) => s.planner_count, _ => s.heuristic_count };
    let mut next = s;
    match kind {
        MouseKind::ScrollDown => {
            if i < len && i + 1 < len {
                next.modal_selected = Some(i + 1);
            }
            (next, MouseAction::Nothing)
        },
        MouseKind::ScrollUp => {
            if i > 0 {
                next.modal_selected = Some(i - 1);
            }
            (next, MouseAction::Nothing)
        },
        MouseKind::LeftDown => {
            match s.modal_area {
                Some(r) => {
                    let w: u32 = row as u32;
                    if (r.y as u32) < w && w + 1 < r.y as u32 + r.height as u32 {
                        let item_row: usize = (w - r.y as u32 - 1) as usize;
                        if s.modal_offset < len && item_row < len - s.modal_offset {
                            next.modal_selected = Some(item_row + s.modal_offset);
                            close_modal(next)
                        } else {
                            (next, MouseAction::Nothing)
                        }
                    } else {
                        (next, MouseAction::Nothing)
                    }
                },
                None => (next, MouseAction::Nothing),
            }
        },
        MouseKind::Other => (next, MouseAction::Nothing),
    }
}

fn on_left_click(s: TuiState, col: u16, row: u16) -> (r: (TuiState, MouseAction))
    ensures
        r == left_click(s, col, row),
{
    let mut next = s;
    if area_hits(s.plan_area, col, row) {
        next.focus = Focus::PlanScroll;
        (next, MouseAction::Nothing)
    } else if area_hits(s.solve_button, col, row) {
        (next, MouseAction::StartSolving)
    } else if area_hits(s.domain_area, col, row) {
        let top: u16 = match s.domain_area { Some(a) => a.y, None => 0 };
        let hit = select_at_row(&mut next.domains, top, row);
        next.focus = Focus::DomainList;
        (next, if hit { MouseAction::DomainChosen } else { MouseAction::Nothing })
    } else if area_hits(s.problem_area, col, row) {
        if !s.problem_blocked {
            let top: u16 = match s.problem_area { Some(a) => a.y, None => 0 };
            let _ = select_at_row(&mut next.problems, top, row);
            next.focus = Focus::ProblemList;
        }
        (next, MouseAction::Nothing)
    } else if area_hits(s.config_area, col, row) {
        if row == s.config_planner_row {
            next.modal = Some(ModalKind::Planner);
            next.modal_selected = Some(s.selected_planner);
        } else if row == s.config_heuristic_row && s.heuristic_enabled {
            next.modal = Some(ModalKind::Heuristic);
            next.modal_selected = Some(s.selected_heuristic);
        } else {
            next.focus = Focus::InputField(InputField::Timeout);
        }
        (next, MouseAction::Nothing)
    } else {
        (next, MouseAction::Nothing)
    }
}

/// Handles one mouse event: the new state of the interface and what the
/// caller has still to do.
pub fn on_mouse(state: &TuiState, kind: MouseKind, col: u16, row: u16) -> (r: (TuiState, MouseAction))
    ensures
        r == mouse_step(*state, kind, col, row),
{
    let s = *state;
    if s.modal.is_some() {
        return on_modal_mouse(s, kind, row);
    }
    let mut next = s;
    match kind {
        MouseKind::ScrollDown => {
            if area_hits(s.plan_area, col, row) && s.plan_scroll_offset < s.plan_line_count
                && s.plan_scroll_offset + 1 < s.plan_line_count {
                next.plan_scroll_offset = s.plan_scroll_offset + 1;
            }
            (next, MouseAction::Nothing)
        },
        MouseKind::ScrollUp => {
            if area_hits(s.plan_area, col, row) && s.plan_scroll_offset > 0 {
                next.plan_scroll_offset = s.plan_scroll_offset - 1;
            }
            (next, MouseAction::Nothing)
        },
        MouseKind::LeftDown => on_left_click(s, col, row),
        MouseKind::Other => (next, MouseAction::Nothing),
    }
}

/// The characters of each string.
pub open spec fn strings_view(v: Seq<String>) -> Seq<Seq<char>> {
    v.map_values(|t: String| t@)
}

/// The positions at which a name occurs for the first time, in order.
pub open spec fn first_occurrences(names: Seq<Seq<char>>) -> Seq<usize>
    decreases names.len(),
{
    if names.len() == 0 {
        seq![]
    } else {
        let before = names.drop_last();
        if before.contains(names.last()) {
            first_occurrences(before)
        } else {
            first_occurrences(before).push((names.len() - 1) as usize)
        }
    }
}

/// The names that occur more than once, each once, in the order of their
/// second occurrence.
pub open spec fn repeated_names(names: Seq<Seq<char>>) -> Seq<Seq<char>>
    decreases names.len(),
{
    if names.len() == 0 {
        seq![]
    } else {
        let before = names.drop_last();
        let earlier = repeated_names(before);
        if before.contains(names.last()) && !earlier.contains(names.last()) {
            earlier.push(names.last())
        } else {
            earlier
        }
    }
}

fn contains_text(v: &Vec<String>, t: &String) -> (b: bool)
    ensures
        b == strings_view(v@).contains(t@),
{
    let mut k: usize = 0;
    while k < v.len()
        invariant
            k <= v.len(),
            forall|j: int| 0 <= j < k ==> v@[j]@ != t@,
        decreases v.len() - k,
    {
        if v[k] == *t {
            assert(strings_view(v@)[k as int] == t@);
            return true;
        }
        k = k + 1;
    }
    proof {
        if strings_view(v@).contains(t@) {
            let j = choose|j: int| 0 <= j < strings_view(v@).len() && strings_view(v@)[j] == t@;
            assert(v@[j]@ == t@);
        }
    }
    false
}

/// The domains listed once each: the positions of the first occurrence of
/// every name, and the names that occur more than once.
pub fn dedup_domain_names(names: &Vec<String>) -> (r: (Vec<usize>, Vec<String>))
    ensures
        r.0@ == first_occurrences(strings_view(names@)),
        strings_view(r.1@) == repeated_names(strings_view(names@)),
{
    let mut seen: Vec<String> = Vec::new();
    let mut firsts: Vec<usize> = Vec::new();
    let mut repeated: Vec<String> = Vec::new();
    let ghost all = strings_view(names@);
    let mut i: usize = 0;
    while i < names.len()
        invariant
            i <= names.len(),
            all == strings_view(names@),
            strings_view(seen@).to_set() == all.take(i as int).to_set(),
            firsts@ == first_occurrences(all.take(i as int)),
            strings_view(repeated@) == repeated_names(all.take(i as int)),
        decreases names.len() - i,
    {
        let name = names[i].clone();
        let ghost prefix = all.take(i as int);
        let ghost next_prefix = all.take(i as int + 1);
        assert(next_prefix.drop_last() =~= prefix);
        assert(next_prefix.last() == name@);
        assert(next_prefix =~= prefix.push(name@));
        let ghost seen_before = seen@;
        let ghost repeated_before = repeated@;
        if contains_text(&seen, &name) {
            assert(prefix.contains(name@)) by {
                assert(strings_view(seen_before).to_set().contains(name@));
            }
            if !contains_text(&repeated, &name) {
                repeated.push(name);
                assert(strings_view(repeated@) =~= strings_view(repeated_before).push(name@));
            }
            assert(next_prefix.to_set() =~= prefix.to_set()) by {
                prefix.lemma_push_to_set_commute(name@);
            }
        } else {
            assert(!prefix.contains(name@)) by {
                if prefix.contains(name@) {
                    assert(prefix.to_set().contains(name@));
                }
            }
            seen.push(name);
            firsts.push(i);
            assert(strings_view(seen@) =~= strings_view(seen_before).push(name@));
            proof {
                strings_view(seen_before).lemma_push_to_set_commute(name@);
                prefix.lemma_push_to_set_commute(name@);
            }
        }
        i = i + 1;
    }
    assert(all.take(names.len() as int) == all);
    (firsts, repeated)
}

/// The planners that search without a heuristic.
pub open spec fn blind_planner(name: Seq<char>) -> bool {
    name == "bfs"@ || name == "bibfs-uc"@ || name == "bidij"@
}

/// Whether a heuristic can be chosen for the planner of this name: for every
/// planner but the blind ones.
pub fn heuristic_applies(planner: &String) -> (b: bool)
    ensures
        b == !blind_planner(planner@),
{
    let bfs = String::from_str("bfs");
    let bibfs = String::from_str("bibfs-uc");
    let bidij = String::from_str("bidij");
    !(*planner == bfs || *planner == bibfs || *planner == bidij)
}

/// The planner selected at start: the first one named `astar`, else the first.
pub fn default_planner(names: &Vec<String>) -> (r: usize)
    ensures
        strings_view(names@).contains("astar"@) ==> r < names.len() && names@[r as int]@ == "astar"@
            && forall|j: int| 0 <= j < r ==> names@[j]@ != "astar"@,
        !strings_view(names@).contains("astar"@) ==> r == 0,
{
    let astar = String::from_str("astar");
    let mut k: usize = 0;
    while k < names.len()
        invariant
            k <= names.len(),
            astar@ == "astar"@,
            forall|j: int| 0 <= j < k ==> names@[j]@ != "astar"@,
        decreases names.len() - k,
    {
        if names[k] == astar {
            assert(strings_view(names@)[k as int] == "astar"@);
            return k;
        }
        k = k + 1;
    }
    proof {
        if strings_view(names@).contains("astar"@) {
            let j = choose|j: int| 0 <= j < strings_view(names@).len() && strings_view(names@)[j] == "astar"@;
            assert(names@[j]@ == "astar"@);
        }
    }
    0
}

/// The positions, in order, of the entries equal to `t`.
pub open spec fn positions_of(s: Seq<Seq<char>>, t: Seq<char>) -> Seq<usize>
    decreases s.len(),
{
    if s.len() == 0 {
        seq![]
    } else if s.last() == t {
        positions_of(s.drop_last(), t).push((s.len() - 1) as usize)
    } else {
        positions_of(s.drop_last(), t)
    }
}

/// The problems that can be solved in a domain: the positions of those whose
/// domain name is the domain's.
pub fn compatible_problems(problem_domains: &Vec<String>, domain: &String) -> (r: Vec<usize>)
    ensures
        r@ == positions_of(strings_view(problem_domains@), domain@),
{
    let ghost all = strings_view(problem_domains@);
    let mut out: Vec<usize> = Vec::new();
    let mut i: usize = 0;
    while i < problem_domains.len()
        invariant
            i <= problem_domains.len(),
            all == strings_view(problem_domains@),
            out@ == positions_of(all.take(i as int), domain@),
        decreases problem_domains.len() - i,
    {
        assert(all.take(i as int + 1).drop_last() =~= all.take(i as int));
        if problem_domains[i] == *domain {
            out.push(i);
        }
        i = i + 1;
    }
    assert(all.take(problem_domains.len() as int) =~= all);
    out
}

impl ListCursor {
    /// A list of `len` rows, scrolled to the top, its first row selected if it has one.
    pub fn with_len(len: usize) -> (c: Self)
        ensures
            c == (ListCursor { selected: if len > 0 { Some(0usize) } else { None }, offset: 0, len }),
    {
        ListCursor { selected: if len > 0 { Some(0) } else { None }, offset: 0, len }
    }

    /// Moves the selection one row down, from the last row back to the first.
    pub fn next(&mut self)
        ensures
            *final(self) == cursor_next(*old(self)),
    {
        if self.len == 0 {
            return;
        }
        let i: usize = match self.selected {
            Some(i) => if i >= self.len - 1 { 0 } else { i + 1 },
            None => 0,
        };
        self.selected = Some(i);
    }

    /// Moves the selection one row up, from the first row round to the last.
    pub fn previous(&mut self)
        ensures
            *final(self) == cursor_previous(*old(self)),
    {
        if self.len == 0 {
            return;
        }
        let i: usize = match self.selected {
            Some(i) => if i == 0 { self.len - 1 } else { i - 1 },
            None => 0,
        };
        self.selected = Some(i);
    }
}

/// The list with its selection one row down, from the last row back to the
/// first; an empty list stays as it is.
pub open spec fn cursor_next(c: ListCursor) -> ListCursor {
    if c.len == 0 {
        c
    } else {
        ListCursor {
            selected: Some(
                match c.selected {
                    Some(i) => if i + 1 >= c.len { 0usize } else { (i + 1) as usize },
                    None => 0usize,
                },
            ),
            ..c
        }
    }
}

/// The list with its selection one row up, from the first row round to the
/// last; an empty list stays as it is.
pub open spec fn cursor_previous(c: ListCursor) -> ListCursor {
    if c.len == 0 {
        c
    } else {
        ListCursor {
            selected: Some(
                match c.selected {
                    Some(i) => if i == 0 { (c.len - 1) as usize } else { (i - 1) as usize },
                    None => 0usize,
                },
            ),
            ..c
        }
    }
}

impl TuiState {
    /// The interface at start: the domain list focused with its first entry
    /// selected, no problems listed yet, the `astar` planner (or the first)
    /// and the first heuristic chosen, heuristics enabled, no plan and no
    /// widget placed.
    pub fn initial(domain_rows: usize, planners: &Vec<String>, heuristic_count: usize) -> (s: Self)
        ensures
            s.focus == Focus::DomainList,
            s.editing is None,
            s.solving == SolvingState::Idle,
            s.domains == (ListCursor { selected: if domain_rows > 0 { Some(0usize) } else { None }, offset: 0, len: domain_rows }),
            s.problems == (ListCursor { selected: None, offset: 0, len: 0 }),
            s.problem_blocked,
            s.plan_scroll_offset == 0,
            s.plan_line_count == 1,
            s.plan_area is None && s.solve_button is None && s.domain_area is None,
            s.problem_area is None && s.config_area is None && s.modal_area is None,
            s.config_planner_row == 0 && s.config_heuristic_row == 0,
            s.heuristic_enabled,
            s.modal is None && s.modal_selected is None && s.modal_offset == 0,
            strings_view(planners@).contains("astar"@) ==> planners@[s.selected_planner as int]@ == "astar"@
                && forall|j: int| 0 <= j < s.selected_planner ==> planners@[j]@ != "astar"@,
            !strings_view(planners@).contains("astar"@) ==> s.selected_planner == 0,
            s.selected_heuristic == 0,
            s.planner_count == planners.len(),
            s.heuristic_count == heuristic_count,
    {
        TuiState {
            focus: Focus::DomainList,
            editing: None,
            solving: SolvingState::Idle,
            domains: ListCursor::with_len(domain_rows),
            problems: ListCursor::with_len(0),
            problem_blocked: true,
            plan_scroll_offset: 0,
            plan_line_count: 1,
            plan_area: None,
            solve_button: None,
            domain_area: None,
            problem_area: None,
            config_area: None,
            config_planner_row: 0,
            config_heuristic_row: 0,
            heuristic_enabled: true,
            modal: None,
            modal_selected: None,
            modal_offset: 0,
            modal_area: None,
            selected_planner: default_planner(planners),
            selected_heuristic: 0,
            planner_count: planners.len(),
            heuristic_count,
        }
    }
}

/// The keys that the interface reacts to; any other is `Other`.
#[derive(Clone, Copy, Debug, PartialEq, Eq, Structural)]
pub enum Key {
    Up,
    Down,
    Tab,
    BackTab,
    Enter,
    Escape,
    Delete,
    Char(char),
    Other,
}

/// What the caller has to do after a key, beyond taking the new state.
#[derive(Clone, Copy, Debug, PartialEq, Eq)]
pub enum KeyAction {
    Nothing,
    Quit,
    StartSolving,
    /// Another domain was selected: the problem list is rebuilt for it.
    DomainChosen,
    /// A planner was picked: whether a heuristic applies is decided anew.
    PlannerChosen,
    /// The outcome and plan shown are cleared.
    ClearOutput,
    /// The character is appended to the field's text.
    Type(InputField, char),
    /// The last character of the field's text is removed.
    Erase(InputField),
}

/// The action a mouse step asks for, as a key step's.
pub open spec fn as_key_action(a: MouseAction) -> KeyAction {
    match a {
        MouseAction::Nothing => KeyAction::Nothing,
        MouseAction::StartSolving => KeyAction::StartSolving,
        MouseAction::DomainChosen => KeyAction::DomainChosen,
        MouseAction::PlannerChosen => KeyAction::PlannerChosen,
    }
}

/// Up or `k`.
pub open spec fn is_up(k: Key) -> bool {
    k == Key::Up || k == Key::Char('k')
}

/// Down or `j`.
pub open spec fn is_down(k: Key) -> bool {
    k == Key::Down || k == Key::Char('j')
}

/// A key while a pop-up list is open: Escape closes it, Enter takes its
/// selection, up and down move the selection round the list.
pub open spec fn modal_key_step(s: TuiState, key: Key) -> (TuiState, KeyAction) {
    let len = modal_len(s);
    let i: int = match s.modal_selected { Some(k) => k as int, None => 0 };
    if len == 0 {
        (s, KeyAction::Nothing)
    } else if key == Key::Escape {
        (TuiState { modal: None, ..s }, KeyAction::Nothing)
    } else if key == Key::Enter {
        let (n, a) = close_modal_step(s);
        (n, as_key_action(a))
    } else if is_up(key) {
        (TuiState { modal_selected: Some(if i == 0 { (len - 1) as usize } else { (i - 1) as usize }), ..s }, KeyAction::Nothing)
    } else if is_down(key) {
        (TuiState { modal_selected: Some(if i >= len - 1 { 0usize } else { (i + 1) as usize }), ..s }, KeyAction::Nothing)
    } else {
        (s, KeyAction::Nothing)
    }
}

/// The field after `f` in the tab order, and the focus after the last one.
pub open spec fn field_after(f: InputField) -> Focus {
    match f {
        InputField::Timeout => Focus::InputField(InputField::MaxNodes),
        InputField::MaxNodes => Focus::InputField(InputField::OutputPath),
        InputField::OutputPath => Focus::SolveButton,
    }
}

/// The focus before field `f` in the tab order.
pub open spec fn field_before(f: InputField) -> Focus {
    match f {
        InputField::Timeout => Focus::ProblemList,
        InputField::MaxNodes => Focus::InputField(InputField::Timeout),
        InputField::OutputPath => Focus::InputField(InputField::MaxNodes),
    }
}

/// A key on an input field: Enter starts or ends editing, Tab and BackTab
/// move along the fields, a character is typed into a field being edited
/// (or, but for `q` and `s`, starts editing with it), and Delete erases
/// while editing.
pub open spec fn field_key_step(s: TuiState, f: InputField, key: Key) -> (TuiState, KeyAction) {
    let editing = s.editing == Some(f);
    match key {
        Key::Enter => (TuiState { editing: if editing { None } else { Some(f) }, ..s }, KeyAction::Nothing),
        Key::Tab => (TuiState { focus: field_after(f), ..s }, KeyAction::Nothing),
        Key::BackTab => (TuiState { focus: field_before(f), ..s }, KeyAction::Nothing),
        Key::Char(c) => {
            if editing {
                (s, KeyAction::Type(f, c))
            } else if c == 'q' {
                (s, KeyAction::Quit)
            } else if c == 's' {
                (s, KeyAction::StartSolving)
            } else {
                (TuiState { editing: Some(f), ..s }, KeyAction::Type(f, c))
            }
        },
        Key::Delete => if editing { (s, KeyAction::Erase(f)) } else { (s, KeyAction::Nothing) },
        _ => (s, KeyAction::Nothing),
    }
}

/// What one key does to the interface.
pub open spec fn key_step(s: TuiState, key: Key) -> (TuiState, KeyAction) {
    if s.modal is Some {
        modal_key_step(s, key)
    } else {
        match s.focus {
            Focus::DomainList => {
                if is_up(key) {
                    (TuiState { domains: cursor_previous(s.domains), ..s }, KeyAction::DomainChosen)
                } else if is_down(key) {
                    (TuiState { domains: cursor_next(s.domains), ..s }, KeyAction::DomainChosen)
                } else if key == Key::Tab && !s.problem_blocked {
                    (TuiState { focus: Focus::ProblemList, ..s }, KeyAction::Nothing)
                } else if key == Key::Char('q') {
                    (s, KeyAction::Quit)
                } else if key == Key::Char('s') {
                    (s, KeyAction::StartSolving)
                } else {
                    (s, KeyAction::Nothing)
                }
            },
            Focus::ProblemList => {
                if is_up(key) {
                    (TuiState { problems: cursor_previous(s.problems), ..s }, KeyAction::Nothing)
                } else if is_down(key) {
                    (TuiState { problems: cursor_next(s.problems), ..s }, KeyAction::Nothing)
                } else if key == Key::BackTab {
                    (TuiState { focus: Focus::DomainList, ..s }, KeyAction::Nothing)
                } else if key == Key::Tab {
                    (TuiState { focus: Focus::InputField(InputField::Timeout), ..s }, KeyAction::Nothing)
                } else if key == Key::Char('q') {
                    (s, KeyAction::Quit)
                } else {
                    (s, KeyAction::Nothing)
                }
            },
            Focus::InputField(f) => field_key_step(s, f, key),
            Focus::PlanScroll => {
                if is_up(key) && s.plan_scroll_offset > 0 {
                    (TuiState { plan_scroll_offset: (s.plan_scroll_offset - 1) as usize, ..s }, KeyAction::Nothing)
                } else if is_down(key) && s.plan_scroll_offset + 1 < s.plan_line_count {
                    (TuiState { plan_scroll_offset: (s.plan_scroll_offset + 1) as usize, ..s }, KeyAction::Nothing)
                } else if key == Key::Tab {
                    (TuiState { focus: Focus::CommandBar, ..s }, KeyAction::Nothing)
                } else if key == Key::BackTab {
                    (TuiState { focus: Focus::InputField(InputField::OutputPath), ..s }, KeyAction::Nothing)
                } else if key == Key::Char('q') {
                    (s, KeyAction::Quit)
                } else if key == Key::Char('s') {
                    (s, KeyAction::StartSolving)
                } else {
                    (s, KeyAction::Nothing)
                }
            },
            Focus::SolveButton => {
                if key == Key::Enter || key == Key::Char('s') {
                    (s, KeyAction::StartSolving)
                } else if key == Key::Tab {
                    (TuiState { focus: Focus::CommandBar, ..s }, KeyAction::Nothing)
                } else if key == Key::BackTab {
                    (TuiState { focus: Focus::InputField(InputField::OutputPath), ..s }, KeyAction::Nothing)
                } else if key == Key::Char('q') {
                    (s, KeyAction::Quit)
                } else {
                    (s, KeyAction::Nothing)
                }
            },
            Focus::CommandBar => {
                if key == Key::BackTab {
                    (TuiState { focus: Focus::PlanScroll, ..s }, KeyAction::Nothing)
                } else if key == Key::Tab {
                    (TuiState { focus: Focus::DomainList, ..s }, KeyAction::Nothing)
                } else if key == Key::Char('c') {
                    (s, KeyAction::ClearOutput)
                } else if key == Key::Char('q') {
                    (s, KeyAction::Quit)
                } else if key == Key::Char('s') {
                    (s, KeyAction::StartSolving)
                } else {
                    (s, KeyAction::Nothing)
                }
            },
        }
    }
}

fn up_key(k: Key) -> (b: bool)
    ensures
        b == is_up(k),
{
    match k {
        Key::Up => true,
        Key::Char(c) => c == 'k',
        _ => false,
    }
}

fn down_key(k: Key) -> (b: bool)
    ensures
        b == is_down(k),
{
    match k {
        Key::Down => true,
        Key::Char(c) => c == 'j',
        _ => false,
    }
}

fn char_key(k: Key, c: char) -> (b: bool)
    ensures
        b == (k == Key::Char(c)),
{
    match k {
        Key::Char(d) => d == c,
        _ => false,
    }
}

fn on_modal_key(s: TuiState, key: Key) -> (r: (TuiState, KeyAction))
    requires
        s.modal is Some,
    ensures
        r == modal_key_step(s, key),
{
    let len: usize = match s.modal { Some(ModalKind::Planner) => s.planner_count, _ => s.heuristic_count };
    let i: usize = match s.modal_selected { Some(k) => k, None => 0 };
    let mut next = s;
    if len == 0 {
        (next, KeyAction::Nothing)
    } else if key == Key::Escape {
        next.modal = None;
        (next, KeyAction::Nothing)
    } else if key == Key::Enter {
        let (n, a) = close_modal(s);
        let action = match a {
            MouseAction::Nothing => KeyAction::Nothing,
            MouseAction::StartSolving => KeyAction::StartSolving,
            MouseAction::DomainChosen => KeyAction::DomainChosen,
            MouseAction::PlannerChosen => KeyAction::PlannerChosen,
        };
        (n, action)
    } else if up_key(key) {
        next.modal_selected = Some(if i == 0 { len - 1 } else { i - 1 });
        (next, KeyAction::Nothing)
    } else if down_key(key) {
        next.modal_selected = Some(if i >= len - 1 { 0 } else { i + 1 });
        (next, KeyAction::Nothing)
    } else {
        (next, KeyAction::Nothing)
    }
}

fn on_field_key(s: TuiState, f: InputField, key: Key) -> (r: (TuiState, KeyAction))
    ensures
        r == field_key_step(s, f, key),
{
    let editing = s.editing == Some(f);
    let mut next = s;
    match key {
        Key::Enter => {
            next.editing = if editing { None } else { Some(f) };
            (next, KeyAction::Nothing)
        },
        Key::Tab => {
            next.focus = match f {
                InputField::Timeout => Focus::InputField(InputField::MaxNodes),
                InputField::MaxNodes => Focus::InputField(InputField::OutputPath),
                InputField::OutputPath => Focus::SolveButton,
            };
            (next, KeyAction::Nothing)
        },
        Key::BackTab => {
            next.focus = match f {
                InputField::Timeout => Focus::ProblemList,
                InputField::MaxNodes => Focus::InputField(InputField::Timeout),
                InputField::OutputPath => Focus::InputField(InputField::MaxNodes),
            };
            (next, KeyAction::Nothing)
        },
        Key::Char(c) => {
            if editing {
                (next, KeyAction::Type(f, c))
            } else if c == 'q' {
                (next, KeyAction::Quit)
            } else if c == 's' {
                (next, KeyAction::StartSolving)
            } else {
                next.editing = Some(f);
                (next, KeyAction::Type(f, c))
            }
        },
        Key::Delete => if editing { (next, KeyAction::Erase(f)) } else { (next, KeyAction::Nothing) },
        _ => (next, KeyAction::Nothing),
    }
}

/// Handles one key: the new state of the interface and what the caller has
/// still to do.
pub fn on_key(state: &TuiState, key: Key) -> (r: (TuiState, KeyAction))
    ensures
        r == key_step(*state, key),
{
    let s = *state;
    if s.modal.is_some() {
        return on_modal_key(s, key);
    }
    let mut next = s;
    match s.focus {
        Focus::DomainList => {
            if up_key(key) {
                next.domains.previous();
                (next, KeyAction::DomainChosen)
            } else if down_key(key) {
                next.domains.next();
                (next, KeyAction::DomainChosen)
            } else if key == Key::Tab && !s.problem_blocked {
                next.focus = Focus::ProblemList;
                (next, KeyAction::Nothing)
            } else if char_key(key, 'q') {
                (next, KeyAction::Quit)
            } else if char_key(key, 's') {
                (next, KeyAction::StartSolving)
            } else {
                (next, KeyAction::Nothing)
            }
        },
        Focus::ProblemList => {
            if up_key(key) {
                next.problems.previous();
                (next, KeyAction::Nothing)
            } else if down_key(key) {
                next.problems.next();
                (next, KeyAction::Nothing)
            } else if key == Key::BackTab {
                next.focus = Focus::DomainList;
                (next, KeyAction::Nothing)
            } else if key == Key::Tab {
                next.focus = Focus::InputField(InputField::Timeout);
                (next, KeyAction::Nothing)
            } else if char_key(key, 'q') {
                (next, KeyAction::Quit)
            } else {
                (next, KeyAction::Nothing)
            }
        },
        Focus::InputField(f) => on_field_key(s, f, key),
        Focus::PlanScroll => {
            if up_key(key) && s.plan_scroll_offset > 0 {
                next.plan_scroll_offset = s.plan_scroll_offset - 1;
                (next, KeyAction::Nothing)
            } else if down_key(key) && s.plan_scroll_offset < s.plan_line_count
                && s.plan_scroll_offset + 1 < s.plan_line_count {
                next.plan_scroll_offset = s.plan_scroll_offset + 1;
                (next, KeyAction::Nothing)
            } else if key == Key::Tab {
                next.focus = Focus::CommandBar;
                (next, KeyAction::Nothing)
            } else if key == Key::BackTab {
                next.focus = Focus::InputField(InputField::OutputPath);
                (next, KeyAction::Nothing)
            } else if char_key(key, 'q') {
                (next, KeyAction::Quit)
            } else if char_key(key, 's') {
                (next, KeyAction::StartSolving)
            } else {
                (next, KeyAction::Nothing)
            }
        },
        Focus::SolveButton => {
            if key == Key::Enter || char_key(key, 's') {
                (next, KeyAction::StartSolving)
            } else if key == Key::Tab {
                next.focus = Focus::CommandBar;
                (next, KeyAction::Nothing)
            } else if key == Key::BackTab {
                next.focus = Focus::InputField(InputField::OutputPath);
                (next, KeyAction::Nothing)
            } else if char_key(key, 'q') {
                (next, KeyAction::Quit)
            } else {
                (next, KeyAction::Nothing)
            }
        },
        Focus::CommandBar => {
            if key == Key::BackTab {
                next.focus = Focus::PlanScroll;
                (next, KeyAction::Nothing)
            } else if key == Key::Tab {
                next.focus = Focus::DomainList;
                (next, KeyAction::Nothing)
            } else if char_key(key, 'c') {
                (next, KeyAction::ClearOutput)
            } else if char_key(key, 'q') {
                (next, KeyAction::Quit)
            } else if char_key(key, 's') {
                (next, KeyAction::StartSolving)
            } else {
                (next, KeyAction::Nothing)
            }
        },
    }
}

/// Whether a search can be started: a problem is selected and no search runs.
pub fn can_solve(s: &TuiState) -> (b: bool)
    ensures
        b == (!s.problem_blocked && s.problems.selected is Some && s.solving != SolvingState::Running),
{
    !s.problem_blocked && s.problems.selected.is_some() && !matches!(s.solving, SolvingState::Running)
}

/// The interface back at its start: the domain list focused, nothing being
/// edited, no search, no plan scrolled, no pop-up; the caller rebuilds the
/// problem list.
pub fn reset_to_start(s: &TuiState) -> (r: TuiState)
    ensures
        r == (TuiState {
            focus: Focus::DomainList,
            editing: None,
            solving: SolvingState::Idle,
            plan_scroll_offset: 0,
            modal: None,
            modal_area: None,
            ..*s
        }),
{
    let mut r = *s;
    r.focus = Focus::DomainList;
    r.editing = None;
    r.solving = SolvingState::Idle;
    r.plan_scroll_offset = 0;
    r.modal = None;
    r.modal_area = None;
    r
}

/// The number of problems written for a domain of the given name.
pub fn problem_count_for_domain(problem_domains: &Vec<String>, domain: &String) -> (n: usize)
    ensures
        n == positions_of(strings_view(problem_domains@), domain@).len(),
{
    compatible_problems(problem_domains, domain).len()
}

/// A mouse event keeps the plan's scroll offset inside the plan: where it
/// showed one of the plan's lines before, it shows one after.
pub proof fn lemma_mouse_keeps_scroll_inside(s: TuiState, kind: MouseKind, col: u16, row: u16)
    requires
        s.plan_scroll_offset < s.plan_line_count,
    ensures
        mouse_step(s, kind, col, row).0.plan_scroll_offset < mouse_step(s, kind, col, row).0.plan_line_count,
{
}

/// A mouse event changes neither the number of planners, heuristics, domains
/// or problems, nor the rectangles where the widgets were drawn; and it leaves
/// the chosen planner among the planners.
pub proof fn lemma_mouse_keeps_layout(s: TuiState, kind: MouseKind, col: u16, row: u16)
    requires
        s.selected_planner < s.planner_count,
    ensures
        ({
            let n = mouse_step(s, kind, col, row).0;
            &&& n.planner_count == s.planner_count
            &&& n.heuristic_count == s.heuristic_count
            &&& n.domains.len == s.domains.len
            &&& n.problems.len == s.problems.len
            &&& n.plan_area == s.plan_area && n.domain_area == s.domain_area
            &&& n.problem_area == s.problem_area && n.config_area == s.config_area
            &&& n.solve_button == s.solve_button
            &&& n.selected_planner < n.planner_count
        }),
{
}

/// A click on an entry of an open pop-up list closes it.
pub proof fn lemma_modal_click_closes(s: TuiState, col: u16, row: u16)
    requires
        s.modal is Some,
        s.modal_area matches Some(r) && r.y < row && row + 1 < r.y + r.height
            && row - r.y - 1 + s.modal_offset < modal_len(s),
    ensures
        mouse_step(s, MouseKind::LeftDown, col, row).0.modal is None,
{
}

} // verus!
