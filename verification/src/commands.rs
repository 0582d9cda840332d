use vstd::prelude::*;

use crate::actions::Action;
use crate::error::{AppError, AppErrorView};
use crate::layout::{layout_rect, layout_rect_fits, LayoutType, Rect};
use crate::services::layout_service::{acted_on, fits_shift, shift_fits, shifted_rect, LayoutService};
use crate::services::window_service::ignored_message;
use crate::services::workspace_service::{
    joined, out_of_bounds_message, VisibilityChange, WorkspaceService, WorkspacesView,
};
use crate::text::{split_white_space, words};
use crate::tree::{FocusDirection, Layout, SplitDirection, TreeView};
use crate::window::WindowInfo;

verus! {

/// The gap between the windows of a workspace's tree, in pixels.
pub const TREE_GAP: i32 = 8;

/// What the system reported when an action began: the foreground window's
/// handle (0 for none), what the system says of that window, and the work
/// area of its monitor.
pub struct Observation {
    pub foreground_hwnd: isize,
    pub foreground: Result<WindowInfo, AppError>,
    pub work_area: Result<Rect, AppError>,
}

/// Work on the system that an action asks for.
pub enum Effect {
    /// Show a window; a failure is ignored.
    Show(isize),
    /// Hide a window; a failure is ignored.
    Hide(isize),
    /// Move and size a window of the tiling; a failure is reported and the
    /// work goes on.
    Place(isize, Rect),
    /// Move and size the foreground window; a failure is the action's error.
    MoveForeground(isize, Rect),
    /// Give a window the keyboard focus; a failure is the action's error.
    Focus(isize),
    /// Start a program with arguments; a failure is the action's error.
    Launch(String, Vec<String>),
}

/// An effect as a mathematical value.
pub enum EffectView {
    Show(isize),
    Hide(isize),
    Place(isize, Rect),
    MoveForeground(isize, Rect),
    Focus(isize),
    Launch(Seq<char>, Seq<Seq<char>>),
}

impl View for Effect {
    type V = EffectView;

    open spec fn view(&self) -> EffectView {
        match self {
            Effect::Show(h) => EffectView::Show(*h),
            Effect::Hide(h) => EffectView::Hide(*h),
            Effect::Place(h, r) => EffectView::Place(*h, *r),
            Effect::MoveForeground(h, r) => EffectView::MoveForeground(*h, *r),
            Effect::Focus(h) => EffectView::Focus(*h),
            Effect::Launch(p, args) => EffectView::Launch(p@, strings_view(args@)),
        }
    }
}

/// The characters of each string.
pub open spec fn strings_view(s: Seq<String>) -> Seq<Seq<char>> {
    s.map_values(|x: String| x@)
}

/// Each effect as a mathematical value.
pub open spec fn effects_view(s: Seq<Effect>) -> Seq<EffectView> {
    s.map_values(|e: Effect| e@)
}

/// What an action comes to.
pub enum Step {
    /// Perform the effects in order; the action ends with the result, or
    /// with the error of an effect whose failure is the action's error.
    Done(Vec<Effect>, Result<(), AppError>),
    /// Show these windows, then list the visible windows and hand them to
    /// `finish_reset`.
    Reset(Vec<isize>),
    /// A layout computation would leave the range of `i32`, or a tree has no
    /// room for more nodes.
    Overflow,
}

/// A step as a mathematical value.
pub enum Plan {
    Done(Seq<EffectView>, Result<(), AppErrorView>),
    Reset(Seq<isize>),
    Overflow,
}

impl View for Step {
    type V = Plan;

    open spec fn view(&self) -> Plan {
        match self {
            Step::Done(effects, result) => Plan::Done(
                effects_view(effects@),
                match result {
                    Ok(()) => Ok(()),
                    Err(e) => Err(e@),
                },
            ),
            Step::Reset(shown) => Plan::Reset(shown@),
            Step::Overflow => Plan::Overflow,
        }
    }
}

/// The area a tiling action lays windows out in: the reported work area, or
/// a 1920 by 1040 area at the origin when there is none.
pub open spec fn area_of(a: Result<Rect, AppError>) -> Rect {
    match a {
        Ok(r) => r,
        Err(_) => Rect { x: 0, y: 0, width: 1920, height: 1040 },
    }
}

/// Each window moved to its area.
pub open spec fn placements(ls: Seq<(isize, Rect)>) -> Seq<EffectView> {
    ls.map_values(|p: (isize, Rect)| EffectView::Place(p.0, p.1))
}

/// Each window hidden.
pub open spec fn hides(hs: Seq<isize>) -> Seq<EffectView> {
    hs.map_values(|h: isize| EffectView::Hide(h))
}

/// Each window shown.
pub open spec fn shows(hs: Seq<isize>) -> Seq<EffectView> {
    hs.map_values(|h: isize| EffectView::Show(h))
}

/// After the effects `pre`, the windows of the current workspace of `v` go
/// to their areas in `area`.
pub open spec fn relayout(v: WorkspacesView, area: Rect, pre: Seq<EffectView>) -> Plan {
    if v.current_tree().layout_fits(area, TREE_GAP as int) {
        Plan::Done(pre + placements(v.current_tree().layouts(area, TREE_GAP as int)), Ok(()))
    } else {
        Plan::Overflow
    }
}

/// The effects of leaving the current workspace of `v` for `index`.
pub open spec fn switch_effects(v: WorkspacesView, index: usize) -> Seq<EffectView> {
    if index == v.current {
        Seq::empty()
    } else {
        hides(v.lists[v.current as int]) + shows(v.lists[index as int])
    }
}

/// `v` with tree `t` in place of the current one.
pub open spec fn with_current(v: WorkspacesView, t: TreeView) -> WorkspacesView {
    v.with_tree(v.current as int, t)
}

/// The error of a command that has no foreground window to act on.
pub open spec fn refusal(reported: Result<WindowInfo, AppError>) -> AppErrorView {
    match reported {
        Err(e) => e@,
        Ok(w) => AppErrorView::Window(ignored_message(w)),
    }
}

/// How far a move command shifts the foreground window, in pixels.
pub const MOVE_STEP: i32 = 80;

/// Shifting the foreground window by `(dx, dy)` within the work area of its
/// monitor.
pub open spec fn plan_shift(lay: LayoutService, dx: i32, dy: i32, obs: Observation) -> Plan {
    match acted_on(lay.windows(), obs.foreground) {
        None => Plan::Done(Seq::empty(), Err(refusal(obs.foreground))),
        Some(w) => match obs.work_area {
            Err(e) => Plan::Done(Seq::empty(), Err(e@)),
            Ok(a) => if shift_fits(w, a, dx as int, dy as int) {
                Plan::Done(seq![EffectView::MoveForeground(w.hwnd, shifted_rect(w, a, dx as int, dy as int))], Ok(()))
            } else {
                Plan::Overflow
            },
        },
    }
}

/// Moving the focus towards `(dx, dy)` and giving the window there the
/// keyboard focus.
pub open spec fn plan_focus(v: WorkspacesView, dx: i32, dy: i32, area: Rect) -> (WorkspacesView, Plan) {
    let t = v.current_tree();
    if !t.direction_fits(dx, dy, area) {
        (v, Plan::Overflow)
    } else {
        let target = match t.target_in_direction(dx, dy, area) {
            Some(h) => t.find(h),
            None => None,
        };
        match target {
            None => (v, Plan::Done(Seq::empty(), Ok(()))),
            Some(id) => {
                let t1 = TreeView {
                    focused_id: if id < t.nodes.len() {
                        id
                    } else {
                        t.focused_id
                    },
                    ..t
                };
                let v1 = with_current(v, t1);
                match t1.focused_hwnd() {
                    Some(h) => (v1, Plan::Done(seq![EffectView::Focus(h)], Ok(()))),
                    None => (v1, Plan::Done(Seq::empty(), Ok(()))),
                }
            },
        }
    }
}

/// Placing the foreground window by `layout_type` on its monitor.
pub open spec fn plan_place(lay: LayoutService, layout_type: LayoutType, obs: Observation) -> Plan {
    match acted_on(lay.windows(), obs.foreground) {
        None => Plan::Done(Seq::empty(), Err(refusal(obs.foreground))),
        Some(w) => match obs.work_area {
            Err(e) => Plan::Done(Seq::empty(), Err(e@)),
            Ok(a) => if layout_rect_fits(lay.gap_value(), lay.margin_value(), layout_type, a) {
                Plan::Done(
                    seq![EffectView::MoveForeground(w.hwnd, layout_rect(lay.gap_value(), lay.margin_value(), layout_type, a))],
                    Ok(()),
                )
            } else {
                Plan::Overflow
            },
        },
    }
}

/// Starting the terminal: the first word of the command is the program, the
/// other words its arguments.
pub open spec fn plan_launch(command: Seq<char>) -> Plan {
    let ws = words(command);
    if ws.len() == 0 {
        Plan::Done(Seq::empty(), Err(AppErrorView::Service("terminal command is empty"@)))
    } else {
        Plan::Done(seq![EffectView::Launch(ws[0], ws.subrange(1, ws.len() as int))], Ok(()))
    }
}

/// Switching the layout mode of the current workspace, then tiling.
pub open spec fn plan_layout(v: WorkspacesView, layout: Layout, area: Rect) -> (WorkspacesView, Plan) {
    let t = v.current_tree();
    let v1 = with_current(
        v,
        TreeView {
            layout,
            monocle_focused: if layout == Layout::Monocle {
                Some(t.focused_id)
            } else {
                None
            },
            ..t
        },
    );
    (v1, relayout(v1, area, Seq::empty()))
}

/// Setting the split of the focused container, then tiling.
pub open spec fn plan_split(v: WorkspacesView, dir: SplitDirection, area: Rect) -> (WorkspacesView, Plan) {
    if !v.current_tree().has_room(1) {
        (v, Plan::Overflow)
    } else {
        let v1 = with_current(v, v.current_tree().after_set_split(dir));
        (v1, relayout(v1, area, Seq::empty()))
    }
}

/// Taking care of the foreground window, then tiling.
pub open spec fn plan_detect(v: WorkspacesView, obs: Observation, area: Rect) -> (WorkspacesView, Plan) {
    if !v.room(2) {
        (v, Plan::Overflow)
    } else {
        let (v1, hide) = v.after_detect(obs.foreground_hwnd, obs.foreground);
        let pre = match hide {
            Some(h) => seq![EffectView::Hide(h)],
            None => Seq::empty(),
        };
        (v1, relayout(v1, area, pre))
    }
}

/// Making workspace `index` current, then tiling it.
pub open spec fn plan_switch(v: WorkspacesView, index: usize, area: Rect) -> (WorkspacesView, Plan) {
    if index >= v.trees.len() {
        (v, Plan::Done(Seq::empty(), Err(AppErrorView::Service(out_of_bounds_message(index)))))
    } else {
        let v1 = WorkspacesView { current: index, ..v };
        (v1, relayout(v1, area, switch_effects(v, index)))
    }
}

/// Moving the foreground window to workspace `index`, which becomes
/// current, then tiling it.
pub open spec fn plan_move_to(v: WorkspacesView, index: usize, hwnd: isize, area: Rect) -> (WorkspacesView, Plan) {
    if hwnd == 0 {
        (v, Plan::Done(Seq::empty(), Ok(())))
    } else {
        let v1 = v.after_remove(hwnd);
        if index >= v1.trees.len() {
            (v1, Plan::Done(Seq::empty(), Err(AppErrorView::Service(out_of_bounds_message(index)))))
        } else {
            let v2 = WorkspacesView { current: index, ..v1 };
            if !v2.current_tree().has_room(2) {
                (v2, Plan::Overflow)
            } else {
                let v3 = v2.after_add(hwnd);
                (v3, relayout(v3, area, switch_effects(v1, index)))
            }
        }
    }
}

/// The workspace after the current one, the first after the last.
pub open spec fn next_index(v: WorkspacesView) -> usize {
    ((v.current + 1) % (v.trees.len() as int)) as usize
}

/// The workspace before the current one, the last before the first.
pub open spec fn previous_index(v: WorkspacesView) -> usize {
    if v.current == 0 {
        (v.trees.len() - 1) as usize
    } else {
        (v.current - 1) as usize
    }
}

/// What `action` makes of the workspaces `ws`, and the step it comes to,
/// given what the system reported. Every action first follows the real
/// foreground window.
pub open spec fn plan(ws: WorkspacesView, lay: LayoutService, command: Seq<char>, action: Action, obs: Observation) -> (WorkspacesView, Plan) {
    let v = ws.after_sync(obs.foreground_hwnd);
    let area = area_of(obs.work_area);
    match action {
        Action::MoveLeft => (v, plan_shift(lay, (-MOVE_STEP) as i32, 0, obs)),
        Action::MoveDown => (v, plan_shift(lay, 0, MOVE_STEP, obs)),
        Action::MoveUp => (v, plan_shift(lay, 0, (-MOVE_STEP) as i32, obs)),
        Action::MoveRight => (v, plan_shift(lay, MOVE_STEP, 0, obs)),
        Action::FocusLeft => plan_focus(v, -1i32, 0, area),
        Action::FocusDown => plan_focus(v, 0, 1, area),
        Action::FocusUp => plan_focus(v, 0, -1i32, area),
        Action::FocusRight => plan_focus(v, 1, 0, area),
        Action::Fullscreen => (v, plan_place(lay, LayoutType::Fullscreen, obs)),
        Action::Center => (v, plan_place(lay, LayoutType::Centered, obs)),
        Action::LayoutLeftHalf => (v, plan_place(lay, LayoutType::LeftHalf, obs)),
        Action::LayoutRightHalf => (v, plan_place(lay, LayoutType::RightHalf, obs)),
        Action::LayoutTopHalf => (v, plan_place(lay, LayoutType::TopHalf, obs)),
        Action::LayoutBottomHalf => (v, plan_place(lay, LayoutType::BottomHalf, obs)),
        Action::LaunchTerminal => (v, plan_launch(command)),
        Action::LayoutMonocle => plan_layout(v, Layout::Monocle, area),
        Action::LayoutStacking => plan_layout(v, Layout::Stacking, area),
        Action::LayoutSplitH => plan_layout(v, Layout::SplitH, area),
        Action::LayoutSplitV => plan_layout(v, Layout::SplitV, area),
        Action::ToggleSplit => {
            let v1 = with_current(v, v.current_tree().after_toggle_split());
            (v1, relayout(v1, area, Seq::empty()))
        },
        Action::SplitHorizontal => plan_split(v, SplitDirection::Horizontal, area),
        Action::SplitVertical => plan_split(v, SplitDirection::Vertical, area),
        Action::DetectWindow => plan_detect(v, obs, area),
        Action::NextWorkspace => {
            let v1 = WorkspacesView { current: next_index(v), ..v };
            (v1, relayout(v1, area, switch_effects(v, v1.current)))
        },
        Action::PreviousWorkspace => {
            let v1 = WorkspacesView { current: previous_index(v), ..v };
            (v1, relayout(v1, area, switch_effects(v, v1.current)))
        },
        Action::Workspace1 => plan_switch(v, 0, area),
        Action::Workspace2 => plan_switch(v, 1, area),
        Action::Workspace3 => plan_switch(v, 2, area),
        Action::Workspace4 => plan_switch(v, 3, area),
        Action::Workspace5 => plan_switch(v, 4, area),
        Action::MoveToWorkspace1 => plan_move_to(v, 0, obs.foreground_hwnd, area),
        Action::MoveToWorkspace2 => plan_move_to(v, 1, obs.foreground_hwnd, area),
        Action::MoveToWorkspace3 => plan_move_to(v, 2, obs.foreground_hwnd, area),
        Action::MoveToWorkspace4 => plan_move_to(v, 3, obs.foreground_hwnd, area),
        Action::MoveToWorkspace5 => plan_move_to(v, 4, obs.foreground_hwnd, area),
        Action::Reset => (v, Plan::Reset(joined(v.lists, v.lists.len() as int))),
        Action::Quit => (v, Plan::Done(Seq::empty(), Err(AppErrorView::General("quit requested"@)))),
    }
}

/// The rest of a reset once the windows were listed: the workspaces are
/// rebuilt from them and the first one is tiled.
pub open spec fn plan_reset(v: WorkspacesView, listed: Result<Vec<WindowInfo>, AppError>, area: Rect) -> (WorkspacesView, Plan) {
    match listed {
        Err(e) => (v.cleared(), Plan::Done(Seq::empty(), Err(e@))),
        Ok(ws) => if 2 * ws@.len() + 3 > usize::MAX {
            (v, Plan::Overflow)
        } else {
            let v1 = v.after_reset(ws@);
            (v1, relayout(v1, area, Seq::empty()))
        },
    }
}

/// Appending one effect appends its view.
proof fn lemma_effects_push(s: Seq<Effect>, e: Effect)
    ensures
        effects_view(s.push(e)) == effects_view(s).push(e@),
{
    assert(effects_view(s.push(e)) =~= effects_view(s).push(e@));
}

/// Each window of `ls` moved to its area, after `out`.
fn push_placements(ls: &Vec<(isize, Rect)>, out: &mut Vec<Effect>)
    ensures
        effects_view(final(out)@) == effects_view(old(out)@) + placements(ls@),
{
    let ghost start = effects_view(out@);
    let mut i: usize = 0;
    while i < ls.len()
        invariant
            i <= ls@.len(),
            effects_view(out@) == start + placements(ls@.take(i as int)),
        decreases ls@.len() - i,
    {
        let (h, r) = ls[i];
        proof {
            lemma_effects_push(out@, Effect::Place(h, r));
            assert(placements(ls@.take(i + 1)) =~= placements(ls@.take(i as int)).push(EffectView::Place(h, r)));
        }
        out.push(Effect::Place(h, r));
        i += 1;
    }
    assert(ls@.take(ls@.len() as int) =~= ls@);
}

/// Each window of `hs` hidden, after `out`.
fn push_hides(hs: &Vec<isize>, out: &mut Vec<Effect>)
    ensures
        effects_view(final(out)@) == effects_view(old(out)@) + hides(hs@),
{
    let ghost start = effects_view(out@);
    let mut i: usize = 0;
    while i < hs.len()
        invariant
            i <= hs@.len(),
            effects_view(out@) == start + hides(hs@.take(i as int)),
        decreases hs@.len() - i,
    {
        let h = hs[i];
        proof {
            lemma_effects_push(out@, Effect::Hide(h));
            assert(hides(hs@.take(i + 1)) =~= hides(hs@.take(i as int)).push(EffectView::Hide(h)));
        }
        out.push(Effect::Hide(h));
        i += 1;
    }
    assert(hs@.take(hs@.len() as int) =~= hs@);
}

/// Each window of `hs` shown, after `out`.
fn push_shows(hs: &Vec<isize>, out: &mut Vec<Effect>)
    ensures
        effects_view(final(out)@) == effects_view(old(out)@) + shows(hs@),
{
    let ghost start = effects_view(out@);
    let mut i: usize = 0;
    while i < hs.len()
        invariant
            i <= hs@.len(),
            effects_view(out@) == start + shows(hs@.take(i as int)),
        decreases hs@.len() - i,
    {
        let h = hs[i];
        proof {
            lemma_effects_push(out@, Effect::Show(h));
            assert(shows(hs@.take(i + 1)) =~= shows(hs@.take(i as int)).push(EffectView::Show(h)));
        }
        out.push(Effect::Show(h));
        i += 1;
    }
    assert(hs@.take(hs@.len() as int) =~= hs@);
}

/// After the effects `pre`, the windows of the current workspace go to their
/// areas in `area`.
fn relayout_step(ws: &WorkspaceService, area: Rect, pre: Vec<Effect>) -> (r: Step)
    requires
        ws.wf(),
    ensures
        r@ == relayout(ws@, area, effects_view(pre@)),
{
    if !ws.layout_fits(area, TREE_GAP) {
        return Step::Overflow;
    }
    let layouts = ws.apply_current_layout(area, TREE_GAP);
    let mut out = pre;
    push_placements(&layouts, &mut out);
    Step::Done(out, Ok(()))
}

/// The effects of a change of the current workspace.
fn visibility_effects(c: &VisibilityChange) -> (r: Vec<Effect>)
    ensures
        effects_view(r@) == hides(c.hide@) + shows(c.show@),
{
    let mut out: Vec<Effect> = Vec::new();
    assert(effects_view(out@) =~= Seq::<EffectView>::empty());
    push_hides(&c.hide, &mut out);
    push_shows(&c.show, &mut out);
    assert(effects_view(out@) =~= hides(c.hide@) + shows(c.show@));
    out
}

/// The reported work area, or a 1920 by 1040 area at the origin.
fn get_work_area(reported: &Result<Rect, AppError>) -> (r: Rect)
    ensures
        r == area_of(*reported),
{
    match reported {
        Ok(a) => *a,
        Err(_) => Rect::new(0, 0, 1920, 1040),
    }
}

/// Runs the actions of the hotkeys against the workspaces.
pub struct CommandExecutor {
    layout_service: LayoutService,
    workspace_service: WorkspaceService,
    terminal_command: String,
}

impl CommandExecutor {
    pub closed spec fn workspaces(&self) -> WorkspacesView {
        self.workspace_service@
    }

    pub closed spec fn placement(&self) -> LayoutService {
        self.layout_service
    }

    pub closed spec fn command(&self) -> Seq<char> {
        self.terminal_command@
    }

    pub closed spec fn wf(&self) -> bool {
        self.workspace_service.wf()
    }

    /// The executor's invariant gives the structural invariant of its
    /// workspaces, to which the laws of the workspaces apply.
    pub proof fn lemma_wf_ok(&self)
        requires
            self.wf(),
        ensures
            self.workspaces().ok(),
    {
        self.workspace_service.lemma_wf_ok();
    }

    pub fn new(layout_service: LayoutService, workspace_service: WorkspaceService, terminal_command: String) -> (r: Self)
        requires
            workspace_service.wf(),
        ensures
            r.wf(),
            r.workspaces() == workspace_service@,
            r.placement() == layout_service,
            r.command() == terminal_command@,
    {
        CommandExecutor { layout_service, workspace_service, terminal_command }
    }

    /// Whether `action` ends the program.
    pub fn should_quit(&self, action: Action) -> (r: bool)
        ensures
            r == (action == Action::Quit),
    {
        action == Action::Quit
    }

    /// Run `action` against the workspaces, given what the system reported
    /// when it began. The result is what remains to do on the system; the
    /// contract gives it, and the new state, for every action.
    pub fn execute(&mut self, action: Action, obs: Observation) -> (r: Step)
        requires
            old(self).wf(),
        ensures
            final(self).wf(),
            final(self).placement() == old(self).placement(),
            final(self).command() == old(self).command(),
            (final(self).workspaces(), r@) == plan(
                old(self).workspaces(),
                old(self).placement(),
                old(self).command(),
                action,
                obs,
            ),
    {
        let Observation { foreground_hwnd, foreground, work_area } = obs;
        self.workspace_service.sync_focus(foreground_hwnd);
        let area = get_work_area(&work_area);
        match action {
            Action::MoveLeft => self.shift_foreground(-MOVE_STEP, 0, foreground_hwnd, foreground, work_area),
            Action::MoveDown => self.shift_foreground(0, MOVE_STEP, foreground_hwnd, foreground, work_area),
            Action::MoveUp => self.shift_foreground(0, -MOVE_STEP, foreground_hwnd, foreground, work_area),
            Action::MoveRight => self.shift_foreground(MOVE_STEP, 0, foreground_hwnd, foreground, work_area),
            Action::FocusLeft => self.focus_in(FocusDirection::left(), area),
            Action::FocusDown => self.focus_in(FocusDirection::down(), area),
            Action::FocusUp => self.focus_in(FocusDirection::up(), area),
            Action::FocusRight => self.focus_in(FocusDirection::right(), area),
            Action::Fullscreen => self.place_foreground(LayoutType::Fullscreen, foreground, work_area),
            Action::Center => self.place_foreground(LayoutType::Centered, foreground, work_area),
            Action::LayoutLeftHalf => self.place_foreground(LayoutType::LeftHalf, foreground, work_area),
            Action::LayoutRightHalf => self.place_foreground(LayoutType::RightHalf, foreground, work_area),
            Action::LayoutTopHalf => self.place_foreground(LayoutType::TopHalf, foreground, work_area),
            Action::LayoutBottomHalf => self.place_foreground(LayoutType::BottomHalf, foreground, work_area),
            Action::LaunchTerminal => self.launch_terminal(),
            Action::LayoutMonocle => self.switch_layout(Layout::Monocle, area),
            Action::LayoutStacking => self.switch_layout(Layout::Stacking, area),
            Action::LayoutSplitH => self.switch_layout(Layout::SplitH, area),
            Action::LayoutSplitV => self.switch_layout(Layout::SplitV, area),
            Action::ToggleSplit => self.toggle(area),
            Action::SplitHorizontal => self.split(SplitDirection::Horizontal, area),
            Action::SplitVertical => self.split(SplitDirection::Vertical, area),
            Action::DetectWindow => self.detect(foreground_hwnd, foreground, area),
            Action::NextWorkspace => self.cycle(true, area),
            Action::PreviousWorkspace => self.cycle(false, area),
            Action::Workspace1 => self.switch_workspace(0, area),
            Action::Workspace2 => self.switch_workspace(1, area),
            Action::Workspace3 => self.switch_workspace(2, area),
            Action::Workspace4 => self.switch_workspace(3, area),
            Action::Workspace5 => self.switch_workspace(4, area),
            Action::MoveToWorkspace1 => self.move_to_workspace(0, foreground_hwnd, area),
            Action::MoveToWorkspace2 => self.move_to_workspace(1, foreground_hwnd, area),
            Action::MoveToWorkspace3 => self.move_to_workspace(2, foreground_hwnd, area),
            Action::MoveToWorkspace4 => self.move_to_workspace(3, foreground_hwnd, area),
            Action::MoveToWorkspace5 => self.move_to_workspace(4, foreground_hwnd, area),
            Action::Reset => Step::Reset(self.workspace_service.managed_windows()),
            Action::Quit => {
                let out: Vec<Effect> = Vec::new();
                assert(effects_view(out@) =~= Seq::<EffectView>::empty());
                Step::Done(out, Err(AppError::General(String::from_str("quit requested"))))
            },
        }
    }

    fn shift_foreground(
        &self,
        dx: i32,
        dy: i32,
        hwnd: isize,
        foreground: Result<WindowInfo, AppError>,
        work_area: Result<Rect, AppError>,
    ) -> (r: Step)
        ensures
            r@ == plan_shift(self.placement(), dx, dy, Observation { foreground_hwnd: hwnd, foreground, work_area }),
    {
        let fits = match (&foreground, &work_area) {
            (Ok(w), Ok(a)) => self.layout_service.ignores(w) || fits_shift(w, *a, dx, dy),
            _ => true,
        };
        if !fits {
            return Step::Overflow;
        }
        let mut out: Vec<Effect> = Vec::new();
        match self.layout_service.move_window_rel(hwnd, dx, dy, foreground, work_area) {
            Ok((h, rect)) => {
                proof {
                    lemma_effects_push(out@, Effect::MoveForeground(h, rect));
                }
                out.push(Effect::MoveForeground(h, rect));
                assert(effects_view(out@) =~= seq![EffectView::MoveForeground(h, rect)]);
                Step::Done(out, Ok(()))
            },
            Err(e) => {
                assert(effects_view(out@) =~= Seq::<EffectView>::empty());
                Step::Done(out, Err(e))
            },
        }
    }

    fn focus_in(&mut self, dir: FocusDirection, area: Rect) -> (r: Step)
        requires
            old(self).wf(),
        ensures
            final(self).wf(),
            final(self).placement() == old(self).placement(),
            final(self).command() == old(self).command(),
            (final(self).workspaces(), r@) == plan_focus(old(self).workspaces(), dir.dx, dir.dy, area),
    {
        if !self.workspace_service.direction_fits(&dir, area) {
            return Step::Overflow;
        }
        let mut out: Vec<Effect> = Vec::new();
        assert(effects_view(out@) =~= Seq::<EffectView>::empty());
        proof {
            self.workspace_service.lemma_wf_ok();
        }
        match self.workspace_service.focus_direction(&dir, area) {
            Some(target) => {
                self.workspace_service.focus_container(target);
                proof {
                    self.workspace_service.lemma_wf_ok();
                }
                match self.workspace_service.current_tree().focused_hwnd() {
                    Some(hwnd) => {
                        proof {
                            lemma_effects_push(out@, Effect::Focus(hwnd));
                        }
                        out.push(Effect::Focus(hwnd));
                        assert(effects_view(out@) =~= seq![EffectView::Focus(hwnd)]);
                    },
                    None => {},
                }
            },
            None => {},
        }
        Step::Done(out, Ok(()))
    }

    fn place_foreground(&self, layout_type: LayoutType, foreground: Result<WindowInfo, AppError>, work_area: Result<Rect, AppError>) -> (r: Step)
        ensures
            r@ == plan_place(self.placement(), layout_type, Observation { foreground_hwnd: 0, foreground, work_area }),
    {
        let fits = match (&foreground, &work_area) {
            (Ok(w), Ok(a)) => self.layout_service.ignores(w) || self.layout_service.layout_fits(layout_type, *a),
            _ => true,
        };
        if !fits {
            return Step::Overflow;
        }
        let mut out: Vec<Effect> = Vec::new();
        match self.layout_service.apply_layout(layout_type, foreground, work_area) {
            Ok((hwnd, rect)) => {
                proof {
                    lemma_effects_push(out@, Effect::MoveForeground(hwnd, rect));
                }
                out.push(Effect::MoveForeground(hwnd, rect));
                assert(effects_view(out@) =~= seq![EffectView::MoveForeground(hwnd, rect)]);
                Step::Done(out, Ok(()))
            },
            Err(e) => {
                assert(effects_view(out@) =~= Seq::<EffectView>::empty());
                Step::Done(out, Err(e))
            },
        }
    }

    fn launch_terminal(&self) -> (r: Step)
        ensures
            r@ == plan_launch(self.command()),
    {
        let parts = split_white_space(self.terminal_command.as_str());
        let ghost ws = words(self.terminal_command@);
        if parts.len() == 0 {
            let out: Vec<Effect> = Vec::new();
            assert(effects_view(out@) =~= Seq::<EffectView>::empty());
            return Step::Done(out, Err(AppError::Service(String::from_str("terminal command is empty"))));
        }
        let program = String::from_str(parts[0]);
        let mut args: Vec<String> = Vec::new();
        let mut i: usize = 1;
        while i < parts.len()
            invariant
                1 <= i <= parts@.len(),
                parts@.len() == ws.len(),
                forall|k: int| 0 <= k < parts@.len() ==> (#[trigger] parts@[k])@ == ws[k],
                strings_view(args@) == ws.subrange(1, i as int),
            decreases parts@.len() - i,
        {
            let a = String::from_str(parts[i]);
            assert(strings_view(args@.push(a)) =~= strings_view(args@).push(a@));
            args.push(a);
            assert(ws.subrange(1, i + 1) =~= ws.subrange(1, i as int).push(ws[i as int]));
            i += 1;
        }
        let mut out: Vec<Effect> = Vec::new();
        let e = Effect::Launch(program, args);
        proof {
            lemma_effects_push(out@, e);
        }
        out.push(e);
        assert(effects_view(out@) =~= seq![EffectView::Launch(ws[0], ws.subrange(1, ws.len() as int))]);
        Step::Done(out, Ok(()))
    }

    fn switch_layout(&mut self, layout: Layout, area: Rect) -> (r: Step)
        requires
            old(self).wf(),
        ensures
            final(self).wf(),
            final(self).placement() == old(self).placement(),
            final(self).command() == old(self).command(),
            (final(self).workspaces(), r@) == plan_layout(old(self).workspaces(), layout, area),
    {
        self.workspace_service.set_layout(layout);
        let pre: Vec<Effect> = Vec::new();
        assert(effects_view(pre@) =~= Seq::<EffectView>::empty());
        relayout_step(&self.workspace_service, area, pre)
    }

    fn toggle(&mut self, area: Rect) -> (r: Step)
        requires
            old(self).wf(),
        ensures
            final(self).wf(),
            final(self).placement() == old(self).placement(),
            final(self).command() == old(self).command(),
            final(self).workspaces() == with_current(old(self).workspaces(), old(self).workspaces().current_tree().after_toggle_split()),
            r@ == relayout(final(self).workspaces(), area, Seq::empty()),
    {
        self.workspace_service.toggle_split();
        let pre: Vec<Effect> = Vec::new();
        assert(effects_view(pre@) =~= Seq::<EffectView>::empty());
        relayout_step(&self.workspace_service, area, pre)
    }

    fn split(&mut self, dir: SplitDirection, area: Rect) -> (r: Step)
        requires
            old(self).wf(),
        ensures
            final(self).wf(),
            final(self).placement() == old(self).placement(),
            final(self).command() == old(self).command(),
            (final(self).workspaces(), r@) == plan_split(old(self).workspaces(), dir, area),
    {
        proof {
            self.workspace_service.lemma_wf_ok();
        }
        if self.workspace_service.current_tree().node_count() > usize::MAX - 1 {
            return Step::Overflow;
        }
        match dir {
            SplitDirection::Horizontal => self.workspace_service.set_split_horizontal(),
            SplitDirection::Vertical => self.workspace_service.set_split_vertical(),
        }
        let pre: Vec<Effect> = Vec::new();
        assert(effects_view(pre@) =~= Seq::<EffectView>::empty());
        relayout_step(&self.workspace_service, area, pre)
    }

    fn detect(&mut self, hwnd: isize, foreground: Result<WindowInfo, AppError>, area: Rect) -> (r: Step)
        requires
            old(self).wf(),
        ensures
            final(self).wf(),
            final(self).placement() == old(self).placement(),
            final(self).command() == old(self).command(),
            (final(self).workspaces(), r@) == plan_detect(
                old(self).workspaces(),
                Observation { foreground_hwnd: hwnd, foreground, work_area: Ok(area) },
                area,
            ),
    {
        if !self.workspace_service.has_room(2) {
            return Step::Overflow;
        }
        let hide = self.workspace_service.detect_and_manage_window(hwnd, foreground);
        let mut pre: Vec<Effect> = Vec::new();
        assert(effects_view(pre@) =~= Seq::<EffectView>::empty());
        match hide {
            Some(h) => {
                proof {
                    lemma_effects_push(pre@, Effect::Hide(h));
                }
                pre.push(Effect::Hide(h));
                assert(effects_view(pre@) =~= seq![EffectView::Hide(h)]);
            },
            None => {},
        }
        relayout_step(&self.workspace_service, area, pre)
    }

    fn cycle(&mut self, forward: bool, area: Rect) -> (r: Step)
        requires
            old(self).wf(),
        ensures
            final(self).wf(),
            final(self).placement() == old(self).placement(),
            final(self).command() == old(self).command(),
            final(self).workspaces() == (WorkspacesView {
                current: if forward {
                    next_index(old(self).workspaces())
                } else {
                    previous_index(old(self).workspaces())
                },
                ..old(self).workspaces()
            }),
            r@ == relayout(
                final(self).workspaces(),
                area,
                switch_effects(old(self).workspaces(), final(self).workspaces().current),
            ),
    {
        let change = if forward {
            self.workspace_service.next_workspace()
        } else {
            self.workspace_service.previous_workspace()
        };
        let pre = match change {
            Ok(c) => visibility_effects(&c),
            Err(_) => Vec::new(),
        };
        relayout_step(&self.workspace_service, area, pre)
    }

    fn switch_workspace(&mut self, index: usize, area: Rect) -> (r: Step)
        requires
            old(self).wf(),
        ensures
            final(self).wf(),
            final(self).placement() == old(self).placement(),
            final(self).command() == old(self).command(),
            (final(self).workspaces(), r@) == plan_switch(old(self).workspaces(), index, area),
    {
        match self.workspace_service.switch_to(index) {
            Ok(c) => {
                let pre = visibility_effects(&c);
                relayout_step(&self.workspace_service, area, pre)
            },
            Err(e) => {
                let out: Vec<Effect> = Vec::new();
                assert(effects_view(out@) =~= Seq::<EffectView>::empty());
                Step::Done(out, Err(e))
            },
        }
    }

    fn move_to_workspace(&mut self, index: usize, hwnd: isize, area: Rect) -> (r: Step)
        requires
            old(self).wf(),
        ensures
            final(self).wf(),
            final(self).placement() == old(self).placement(),
            final(self).command() == old(self).command(),
            (final(self).workspaces(), r@) == plan_move_to(old(self).workspaces(), index, hwnd, area),
    {
        if hwnd == 0 {
            let out: Vec<Effect> = Vec::new();
            assert(effects_view(out@) =~= Seq::<EffectView>::empty());
            return Step::Done(out, Ok(()));
        }
        self.workspace_service.remove_window_from_current(hwnd);
        let pre = match self.workspace_service.switch_to(index) {
            Ok(c) => visibility_effects(&c),
            Err(e) => {
                let out: Vec<Effect> = Vec::new();
                assert(effects_view(out@) =~= Seq::<EffectView>::empty());
                return Step::Done(out, Err(e));
            },
        };
        proof {
            self.workspace_service.lemma_wf_ok();
        }
        if self.workspace_service.current_tree().node_count() > usize::MAX - 2 {
            return Step::Overflow;
        }
        self.workspace_service.add_window_to_current(hwnd);
        relayout_step(&self.workspace_service, area, pre)
    }

    /// The rest of a reset, once the windows that the system lists as
    /// visible are known: the workspaces are rebuilt and the first is tiled
    /// in the reported work area.
    pub fn finish_reset(&mut self, listed: Result<Vec<WindowInfo>, AppError>, work_area: Result<Rect, AppError>) -> (r: Step)
        requires
            old(self).wf(),
        ensures
            final(self).wf(),
            final(self).placement() == old(self).placement(),
            final(self).command() == old(self).command(),
            (final(self).workspaces(), r@) == plan_reset(old(self).workspaces(), listed, area_of(work_area)),
    {
        let too_many = match &listed {
            Ok(ws) => ws.len() > (usize::MAX - 3) / 2,
            Err(_) => false,
        };
        if too_many {
            return Step::Overflow;
        }
        let area = get_work_area(&work_area);
        match self.workspace_service.reset(listed) {
            Ok(()) => {
                let pre: Vec<Effect> = Vec::new();
                assert(effects_view(pre@) =~= Seq::<EffectView>::empty());
                relayout_step(&self.workspace_service, area, pre)
            },
            Err(e) => {
                let out: Vec<Effect> = Vec::new();
                assert(effects_view(out@) =~= Seq::<EffectView>::empty());
                Step::Done(out, Err(e))
            },
        }
    }
}

} // verus!
