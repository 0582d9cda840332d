use vstd::prelude::*;

use crate::config::IgnoreConfig;
use crate::error::AppError;
use crate::layout::Rect;
use crate::rules::{first_match, RuleEngine, WindowRule};
use crate::services::layout_service::acted_on;
use crate::services::window_service::{managed, WindowService};
use crate::text::{decimal, decimal_string};
use crate::tree::{
    initial_tree, lemma_add_window_growth, lemma_find_some, ContainerTree, FocusDirection, Layout, SplitDirection,
    TreeView,
};
use crate::window::WindowInfo;
use crate::workspace::{vec_contains, vec_without, without_item};

verus! {

/// The workspaces as a mathematical value: one tree and one list of the
/// windows placed there per workspace, the current workspace, and the rules.
pub struct WorkspacesView {
    pub trees: Seq<TreeView>,
    pub current: usize,
    pub rules: Seq<WindowRule>,
    pub lists: Seq<Seq<isize>>,
    pub windows: WindowService,
}

/// Windows to hide and windows to show when the current workspace changes.
pub struct VisibilityChange {
    pub hide: Vec<isize>,
    pub show: Vec<isize>,
}

impl VisibilityChange {
    /// The change of a switch from the current workspace of `v` to `index`:
    /// nothing when they are the same; else the windows of the one left, to
    /// hide, and of the one entered, to show.
    pub open spec fn is_switch(self, v: WorkspacesView, index: usize) -> bool {
        if index == v.current {
            self.hide@.len() == 0 && self.show@.len() == 0
        } else {
            self.hide@ == v.lists[v.current as int] && self.show@ == v.lists[index as int]
        }
    }
}

/// The lists `lists` one after the other.
pub open spec fn joined(lists: Seq<Seq<isize>>, n: int) -> Seq<isize>
    decreases n,
{
    if n <= 0 {
        Seq::empty()
    } else {
        joined(lists, n - 1) + lists[n - 1]
    }
}

/// The workspace that the rules give a window: the target of the first rule
/// that applies, when it names one below `count`.
pub open spec fn rule_target(rules: Seq<WindowRule>, w: WindowInfo) -> Option<usize> {
    match first_match(rules, w) {
        Some(k) => rules[k].target_workspace,
        None => None,
    }
}

impl WorkspacesView {
    /// The structural invariant: as many lists as trees, at least one
    /// workspace, a current one among them, and well-formed trees.
    pub open spec fn ok(self) -> bool {
        &&& self.trees.len() == self.lists.len()
        &&& self.trees.len() > 0
        &&& self.current < self.trees.len()
        &&& forall|i: int| 0 <= i < self.trees.len() ==> (#[trigger] self.trees[i]).valid()
    }

    pub open spec fn current_tree(self) -> TreeView {
        self.trees[self.current as int]
    }

    /// Every tree has room for `k` more nodes.
    pub open spec fn room(self, k: int) -> bool {
        forall|i: int| 0 <= i < self.trees.len() ==> (#[trigger] self.trees[i]).has_room(k)
    }

    /// This state with tree `i` replaced by `t`.
    pub open spec fn with_tree(self, i: int, t: TreeView) -> WorkspacesView {
        WorkspacesView { trees: self.trees.update(i, t), ..self }
    }

    /// Window `h` added to tree `i` and to its list.
    pub open spec fn placed(self, i: int, h: isize) -> WorkspacesView {
        WorkspacesView {
            trees: self.trees.update(i, self.trees[i].after_add_window(h).0),
            lists: self.lists.update(i, self.lists[i].push(h)),
            ..self
        }
    }

    /// Every workspace empty again, the first one current.
    pub open spec fn cleared(self) -> WorkspacesView {
        WorkspacesView {
            trees: Seq::new(self.trees.len(), |i: int| initial_tree()),
            lists: Seq::new(self.trees.len(), |i: int| Seq::<isize>::empty()),
            current: 0,
            ..self
        }
    }

    /// The workspace that window `w` goes to when the workspaces are rebuilt.
    pub open spec fn home_of(self, w: WindowInfo) -> int {
        match rule_target(self.rules, w) {
            Some(t) => if t < self.trees.len() {
                t as int
            } else {
                0
            },
            None => 0,
        }
    }

    /// The first `n` windows of `ws` placed, each on its workspace.
    pub open spec fn placed_all(self, ws: Seq<WindowInfo>, n: int) -> WorkspacesView
        decreases n,
    {
        if n <= 0 {
            self
        } else {
            let v = self.placed_all(ws, n - 1);
            v.placed(v.home_of(ws[n - 1]), ws[n - 1].hwnd)
        }
    }

    /// The state after a rebuild from the listed windows `ws`.
    pub open spec fn after_reset(self, ws: Seq<WindowInfo>) -> WorkspacesView {
        let c = self.cleared();
        let m = managed(self.windows.config(), ws);
        c.placed_all(m, m.len() as int)
    }

    /// The state after `add_window_to_current(h)`.
    pub open spec fn after_add(self, h: isize) -> WorkspacesView {
        let i = self.current as int;
        WorkspacesView {
            trees: self.trees.update(i, self.trees[i].after_add_window(h).0),
            lists: self.lists.update(
                i,
                if self.lists[i].contains(h) {
                    self.lists[i]
                } else {
                    self.lists[i].push(h)
                },
            ),
            ..self
        }
    }

    /// The state after `remove_window_from_current(h)`.
    pub open spec fn after_remove(self, h: isize) -> WorkspacesView {
        let i = self.current as int;
        WorkspacesView {
            trees: self.trees.update(i, self.trees[i].after_remove_window(h)),
            lists: self.lists.update(i, without_item(self.lists[i], h)),
            ..self
        }
    }

    /// The state after the foreground window `fg` was found to have focus.
    pub open spec fn after_sync(self, fg: isize) -> WorkspacesView {
        let t = self.current_tree();
        if fg == 0 {
            self
        } else {
            match t.find(fg) {
                Some(id) => if t.focused_id != id && id < t.nodes.len() {
                    self.with_tree(self.current as int, TreeView { focused_id: id, ..t })
                } else {
                    self
                },
                None => self,
            }
        }
    }

    /// The state after `detect_and_manage_window`, and the window to hide.
    pub open spec fn after_detect(self, fg: isize, reported: Result<WindowInfo, AppError>) -> (WorkspacesView, Option<isize>) {
        if fg == 0 {
            (self, None)
        } else {
            match acted_on(self.windows, reported) {
                None => (self, None),
                Some(w) => match rule_target(self.rules, w) {
                    Some(t) if t != self.current && t < self.trees.len() => (self.placed(t as int, fg), Some(fg)),
                    _ => if self.current_tree().find(fg) is None {
                        (self.after_add(fg), None)
                    } else {
                        (self, None)
                    },
                },
            }
        }
    }
}

/// The message of the error for a workspace index out of range.
pub open spec fn out_of_bounds_message(index: usize) -> Seq<char> {
    "workspace index "@ + decimal(index as nat) + " out of bounds"@
}

/// Workspaces, each with its tree of windows, and the rules that assign
/// new windows to them.
pub struct WorkspaceService {
    window_service: WindowService,
    trees: Vec<ContainerTree>,
    current_index: usize,
    rule_engine: RuleEngine,
    workspace_window_map: Vec<Vec<isize>>,
}

impl View for WorkspaceService {
    type V = WorkspacesView;

    closed spec fn view(&self) -> WorkspacesView {
        WorkspacesView {
            trees: self.trees@.map_values(|t: ContainerTree| t@),
            current: self.current_index,
            rules: self.rule_engine@,
            lists: self.workspace_window_map@.map_values(|l: Vec<isize>| l@),
            windows: self.window_service,
        }
    }
}

impl WorkspaceService {
    /// The invariant that every operation keeps.
    pub closed spec fn wf(&self) -> bool {
        &&& self@.ok()
        &&& forall|i: int| 0 <= i < self.trees@.len() ==> (#[trigger] self.trees@[i]).wf()
    }

    /// The invariant gives the structural invariant of the view.
    pub proof fn lemma_wf_ok(&self)
        requires
            self.wf(),
        ensures
            self@.ok(),
    {
    }

    proof fn lemma_tree(&self, i: int)
        requires
            self.wf(),
            0 <= i < self.trees@.len(),
        ensures
            self.trees@[i].wf(),
            self@.trees[i] == self.trees@[i]@,
            self@.trees.len() == self.trees@.len(),
            self@.lists.len() == self.workspace_window_map@.len(),
    {
    }

    /// Well-formed trees give well-formed tree values.
    proof fn lemma_trees_ok(&self)
        requires
            forall|i: int| 0 <= i < self.trees@.len() ==> (#[trigger] self.trees@[i]).wf(),
        ensures
            forall|i: int| 0 <= i < self@.trees.len() ==> (#[trigger] self@.trees[i]).valid(),
    {
        assert forall|i: int| 0 <= i < self@.trees.len() implies (#[trigger] self@.trees[i]).valid() by {
            self.trees@[i].lemma_wf_structure();
        }
    }

    /// A state that differs from `o` in the tree and the list of workspace
    /// `i` alone, with a well-formed tree there, keeps the invariant.
    proof fn lemma_changed_at(&self, o: WorkspaceService, i: int)
        requires
            o.wf(),
            0 <= i < o.trees@.len(),
            self.trees@.len() == o.trees@.len(),
            self.workspace_window_map@.len() == o.workspace_window_map@.len(),
            forall|k: int| 0 <= k < o.trees@.len() && k != i ==> self.trees@[k] == o.trees@[k],
            forall|k: int|
                0 <= k < o.workspace_window_map@.len() && k != i ==> self.workspace_window_map@[k]
                    == o.workspace_window_map@[k],
            self.trees@[i].wf(),
            self.current_index == o.current_index,
            self.rule_engine@ == o.rule_engine@,
            self.window_service == o.window_service,
        ensures
            self.wf(),
            self@ == (WorkspacesView {
                trees: o@.trees.update(i, self.trees@[i]@),
                lists: o@.lists.update(i, self.workspace_window_map@[i]@),
                ..o@
            }),
    {
        assert forall|k: int| 0 <= k < self.trees@.len() implies (#[trigger] self.trees@[k]).wf() by {
            if k != i {
                assert(self.trees@[k] == o.trees@[k]);
            }
        }
        self.lemma_trees_ok();
        assert(self@.trees =~= o@.trees.update(i, self.trees@[i]@));
        assert(self@.lists =~= o@.lists.update(i, self.workspace_window_map@[i]@));
    }

    /// Workspaces with empty trees, the first one current. A service without
    /// workspaces has no current tree: its invariant does not hold.
    pub fn new(window_service: WindowService, workspace_count: usize) -> (r: Self)
        ensures
            r.wf() <==> workspace_count > 0,
            r@ == (WorkspacesView {
                trees: Seq::new(workspace_count as nat, |i: int| initial_tree()),
                current: 0,
                rules: Seq::empty(),
                lists: Seq::new(workspace_count as nat, |i: int| Seq::<isize>::empty()),
                windows: window_service,
            }),
    {
        let mut trees: Vec<ContainerTree> = Vec::new();
        let mut lists: Vec<Vec<isize>> = Vec::new();
        let mut i: usize = 0;
        while i < workspace_count
            invariant
                i <= workspace_count,
                trees@.len() == i,
                lists@.len() == i,
                forall|k: int| 0 <= k < i ==> (#[trigger] trees@[k]).wf() && trees@[k]@ == initial_tree(),
                forall|k: int| 0 <= k < i ==> (#[trigger] lists@[k])@ == Seq::<isize>::empty(),
            decreases workspace_count - i,
        {
            trees.push(ContainerTree::new());
            lists.push(Vec::new());
            i += 1;
        }
        let r = WorkspaceService {
            window_service,
            trees,
            current_index: 0,
            rule_engine: RuleEngine::new(),
            workspace_window_map: lists,
        };
        assert(r@.trees =~= Seq::new(workspace_count as nat, |i: int| initial_tree()));
        assert(r@.lists =~= Seq::new(workspace_count as nat, |i: int| Seq::<isize>::empty()));
        proof {
            r.lemma_trees_ok();
        }
        r
    }

    /// The tree of the current workspace.
    pub fn current_tree(&self) -> (r: &ContainerTree)
        requires
            self.wf(),
        ensures
            r.wf(),
            r@ == self@.current_tree(),
    {
        proof {
            self.lemma_tree(self.current_index as int);
        }
        &self.trees[self.current_index]
    }

    /// Window `hwnd` added to the tree of workspace `i` and to its list.
    fn place(&mut self, i: usize, hwnd: isize)
        requires
            old(self).wf(),
            i < old(self)@.trees.len(),
            old(self)@.trees[i as int].has_room(2),
        ensures
            final(self).wf(),
            final(self)@ == old(self)@.placed(i as int, hwnd),
    {
        proof {
            self.lemma_tree(i as int);
        }
        let ghost old_trees = self.trees@;
        let ghost old_lists = self.workspace_window_map@;
        self.trees[i].add_window(hwnd);
        self.workspace_window_map[i].push(hwnd);
        proof {
            assert(self.trees@ == old_trees.update(i as int, self.trees@[i as int]));
            assert forall|k: int| 0 <= k < self.trees@.len() implies (#[trigger] self.trees@[k]).wf() by {
                if k != i {
                    assert(self.trees@[k] == old_trees[k]);
                }
            }
            assert(self@.trees =~= old(self)@.trees.update(i as int, old(self)@.trees[i as int].after_add_window(hwnd).0));
            assert(self@.lists =~= old(self)@.lists.update(i as int, old(self)@.lists[i as int].push(hwnd)));
            self.lemma_trees_ok();
        }
    }

    /// Window `hwnd` joins the current workspace: its tree, and its list
    /// unless listed there already.
    pub fn add_window_to_current(&mut self, hwnd: isize)
        requires
            old(self).wf(),
            old(self)@.current_tree().has_room(2),
        ensures
            final(self).wf(),
            final(self)@ == old(self)@.after_add(hwnd),
    {
        let ghost o = *self;
        let i = self.current_index;
        proof {
            self.lemma_tree(i as int);
        }
        self.trees[i].add_window(hwnd);
        if !vec_contains(&self.workspace_window_map[i], hwnd) {
            self.workspace_window_map[i].push(hwnd);
        }
        proof {
            self.lemma_changed_at(o, i as int);
        }
    }

    /// Window `hwnd` leaves the current workspace: its tree and its list.
    pub fn remove_window_from_current(&mut self, hwnd: isize)
        requires
            old(self).wf(),
        ensures
            final(self).wf(),
            final(self)@ == old(self)@.after_remove(hwnd),
    {
        let ghost o = *self;
        let i = self.current_index;
        proof {
            self.lemma_tree(i as int);
        }
        self.trees[i].remove_window(hwnd);
        let kept = vec_without(&self.workspace_window_map[i], hwnd);
        assert(o@.lists[i as int] == o.workspace_window_map@[i as int]@);

        self.workspace_window_map.set(i, kept);
        proof {
            self.lemma_changed_at(o, i as int);
            assert(self.workspace_window_map@[i as int]@ == kept@);
            assert(self@.lists == o@.lists.update(i as int, kept@));
            assert(self@.lists =~= o@.after_remove(hwnd).lists);
        }
    }

    /// Follow the real foreground window: when `foreground` is a window of
    /// the current workspace that is not focused there, it gets the focus.
    /// `foreground` is 0 when no window is in the foreground.
    pub fn sync_focus(&mut self, foreground: isize)
        requires
            old(self).wf(),
        ensures
            final(self).wf(),
            final(self)@ == old(self)@.after_sync(foreground),
    {
        if foreground == 0 {
            return;
        }
        let ghost o = *self;
        let i = self.current_index;
        proof {
            self.lemma_tree(i as int);
        }
        match self.trees[i].find_window(foreground) {
            Some(id) => {
                if self.trees[i].focused_id() != id {
                    proof {
                        lemma_find_some(o@.current_tree(), foreground);
                    }
                    self.trees[i].focus_container(id);
                    proof {
                        self.lemma_changed_at(o, i as int);
                        assert(self@.lists =~= o@.lists);
                        assert(self@.trees =~= o@.after_sync(foreground).trees);
                    }
                }
            },
            None => {},
        }
    }

    /// Flip the split of the current workspace's focused container.
    pub fn toggle_split(&mut self)
        requires
            old(self).wf(),
        ensures
            final(self).wf(),
            final(self)@ == old(self)@.with_tree(old(self)@.current as int, old(self)@.current_tree().after_toggle_split()),
    {
        let ghost o = *self;
        let i = self.current_index;
        proof {
            self.lemma_tree(i as int);
        }
        self.trees[i].toggle_split();
        proof {
            self.lemma_changed_at(o, i as int);
            assert(self@.lists =~= o@.lists);
        }
    }

    /// Split the current workspace's focused container side by side.
    pub fn set_split_horizontal(&mut self)
        requires
            old(self).wf(),
            old(self)@.current_tree().has_room(1),
        ensures
            final(self).wf(),
            final(self)@ == old(self)@.with_tree(
                old(self)@.current as int,
                old(self)@.current_tree().after_set_split(SplitDirection::Horizontal),
            ),
    {
        let ghost o = *self;
        let i = self.current_index;
        proof {
            self.lemma_tree(i as int);
        }
        self.trees[i].set_split_horizontal();
        proof {
            self.lemma_changed_at(o, i as int);
            assert(self@.lists =~= o@.lists);
        }
    }

    /// Split the current workspace's focused container one above the other.
    pub fn set_split_vertical(&mut self)
        requires
            old(self).wf(),
            old(self)@.current_tree().has_room(1),
        ensures
            final(self).wf(),
            final(self)@ == old(self)@.with_tree(
                old(self)@.current as int,
                old(self)@.current_tree().after_set_split(SplitDirection::Vertical),
            ),
    {
        let ghost o = *self;
        let i = self.current_index;
        proof {
            self.lemma_tree(i as int);
        }
        self.trees[i].set_split_vertical();
        proof {
            self.lemma_changed_at(o, i as int);
            assert(self@.lists =~= o@.lists);
        }
    }

    /// Switch the layout mode of the current workspace.
    pub fn set_layout(&mut self, layout: Layout)
        requires
            old(self).wf(),
        ensures
            final(self).wf(),
            final(self)@ == old(self)@.with_tree(
                old(self)@.current as int,
                TreeView {
                    layout,
                    monocle_focused: if layout == Layout::Monocle {
                        Some(old(self)@.current_tree().focused_id)
                    } else {
                        None
                    },
                    ..old(self)@.current_tree()
                },
            ),
    {
        let ghost o = *self;
        let i = self.current_index;
        proof {
            self.lemma_tree(i as int);
        }
        self.trees[i].set_layout(layout);
        proof {
            self.lemma_changed_at(o, i as int);
            assert(self@.lists =~= o@.lists);
        }
    }

    /// Trade places between the focused window of the current workspace and
    /// its nearest neighbour on the side `dir`; whether one was found.
    pub fn move_focused(&mut self, dir: &FocusDirection, monitor_area: Rect) -> (moved: bool)
        requires
            old(self).wf(),
            old(self)@.current_tree().direction_fits(dir.dx, dir.dy, monitor_area),
        ensures
            final(self).wf(),
            (final(self)@.current_tree(), moved) == old(self)@.current_tree().after_move_focused(dir.dx, dir.dy, monitor_area),
            final(self)@ == old(self)@.with_tree(old(self)@.current as int, final(self)@.current_tree()),
    {
        let ghost o = *self;
        let i = self.current_index;
        proof {
            self.lemma_tree(i as int);
        }
        let moved = self.trees[i].move_focused_in_direction(dir, monitor_area);
        proof {
            self.lemma_changed_at(o, i as int);
            assert(self@.lists =~= o@.lists);
        }
        moved
    }

    /// The node of the window nearest to the focused one of the current
    /// workspace on the side `dir`.
    pub fn focus_direction(&mut self, dir: &FocusDirection, monitor_area: Rect) -> (r: Option<usize>)
        requires
            old(self).wf(),
            old(self)@.current_tree().direction_fits(dir.dx, dir.dy, monitor_area),
        ensures
            final(self).wf(),
            final(self)@ == old(self)@,
            r == match old(self)@.current_tree().target_in_direction(dir.dx, dir.dy, monitor_area) {
                Some(t) => old(self)@.current_tree().find(t),
                None => None,
            },
    {
        let ghost o = *self;
        let i = self.current_index;
        proof {
            self.lemma_tree(i as int);
        }
        let r = self.trees[i].focus_direction(dir, monitor_area);
        proof {
            self.lemma_changed_at(o, i as int);
            assert(self@.lists =~= o@.lists);
            assert(self@.trees =~= o@.trees);
        }
        r
    }

    /// Focus node `id` of the current workspace's tree, when it exists.
    pub fn focus_container(&mut self, id: usize)
        requires
            old(self).wf(),
        ensures
            final(self).wf(),
            final(self)@ == old(self)@.with_tree(
                old(self)@.current as int,
                TreeView {
                    focused_id: if id < old(self)@.current_tree().nodes.len() {
                        id
                    } else {
                        old(self)@.current_tree().focused_id
                    },
                    ..old(self)@.current_tree()
                },
            ),
    {
        let ghost o = *self;
        let i = self.current_index;
        proof {
            self.lemma_tree(i as int);
        }
        self.trees[i].focus_container(id);
        proof {
            self.lemma_changed_at(o, i as int);
            assert(self@.lists =~= o@.lists);
        }
    }

    /// Whether every tree has room for `k` more nodes.
    pub fn has_room(&self, k: usize) -> (r: bool)
        requires
            self.wf(),
        ensures
            r == self@.room(k as int),
    {
        let mut i: usize = 0;
        while i < self.trees.len()
            invariant
                self.wf(),
                i <= self.trees@.len(),
                forall|j: int| 0 <= j < i ==> (#[trigger] self@.trees[j]).has_room(k as int),
            decreases self.trees@.len() - i,
        {
            proof {
                self.lemma_tree(i as int);
            }
            if self.trees[i].node_count() > usize::MAX - k {
                assert(!self@.trees[i as int].has_room(k as int));
                return false;
            }
            i += 1;
        }
        true
    }

    /// Whether the layout of the current workspace in `area` with `gap`
    /// computes within `i32`.
    pub fn layout_fits(&self, area: Rect, gap: i32) -> (r: bool)
        requires
            self.wf(),
        ensures
            r == self@.current_tree().layout_fits(area, gap as int),
    {
        self.current_tree().layout_fits(area, gap)
    }

    /// Whether the search for a neighbour on the side `dir` in the current
    /// workspace computes within `i32`.
    pub fn direction_fits(&self, dir: &FocusDirection, area: Rect) -> (r: bool)
        requires
            self.wf(),
        ensures
            r == self@.current_tree().direction_fits(dir.dx, dir.dy, area),
    {
        self.current_tree().direction_fits(dir, area)
    }

    /// The windows of all workspaces, workspace by workspace.
    pub fn managed_windows(&self) -> (r: Vec<isize>)
        requires
            self.wf(),
        ensures
            r@ == joined(self@.lists, self@.lists.len() as int),
    {
        let mut out: Vec<isize> = Vec::new();
        let mut i: usize = 0;
        while i < self.workspace_window_map.len()
            invariant
                i <= self.workspace_window_map@.len(),
                out@ == joined(self@.lists, i as int),
            decreases self.workspace_window_map@.len() - i,
        {
            let list = &self.workspace_window_map[i];
            let ghost before = out@;
            let mut j: usize = 0;
            while j < list.len()
                invariant
                    j <= list@.len(),
                    out@ == before + list@.take(j as int),
                decreases list@.len() - j,
            {
                out.push(list[j]);
                assert(list@.take(j + 1) =~= list@.take(j as int).push(list@[j as int]));
                j += 1;
            }
            assert(list@.take(list@.len() as int) =~= list@);
            assert(self@.lists[i as int] == list@);
            i += 1;
        }
        out
    }

    /// The workspace that the rules give `w` on a rebuild.
    fn home_of(&self, w: &WindowInfo) -> (r: usize)
        requires
            self.wf(),
        ensures
            r == self@.home_of(*w),
            r < self@.trees.len(),
    {
        match self.rule_engine.match_window(w) {
            Some(rule) => match rule.target_workspace {
                Some(t) => if t < self.trees.len() {
                    t
                } else {
                    0
                },
                None => 0,
            },
            None => 0,
        }
    }

    /// Rebuild the workspaces from the windows that the system lists: all
    /// workspaces are emptied and the first becomes current; then each window
    /// that is not left alone goes to the workspace its first applying rule
    /// names, or else to the first. A listing error is returned after the
    /// workspaces were emptied.
    pub fn reset(&mut self, listed: Result<Vec<WindowInfo>, AppError>) -> (r: Result<(), AppError>)
        requires
            old(self).wf(),
            listed matches Ok(ws) ==> 2 * ws@.len() + 3 <= usize::MAX,
        ensures
            final(self).wf(),
            match listed {
                Err(e) => r == Err::<(), AppError>(e) && final(self)@ == old(self)@.cleared(),
                Ok(ws) => r is Ok && final(self)@ == old(self)@.after_reset(ws@),
            },
    {
        let n = self.trees.len();
        let mut trees: Vec<ContainerTree> = Vec::new();
        let mut lists: Vec<Vec<isize>> = Vec::new();
        let mut k: usize = 0;
        while k < n
            invariant
                k <= n,
                trees@.len() == k,
                lists@.len() == k,
                forall|j: int| 0 <= j < k ==> (#[trigger] trees@[j]).wf() && trees@[j]@ == initial_tree(),
                forall|j: int| 0 <= j < k ==> (#[trigger] lists@[j])@ == Seq::<isize>::empty(),
            decreases n - k,
        {
            trees.push(ContainerTree::new());
            lists.push(Vec::new());
            k += 1;
        }
        self.trees = trees;
        self.workspace_window_map = lists;
        self.current_index = 0;
        proof {
            self.lemma_trees_ok();
            assert(self@.trees =~= old(self)@.cleared().trees);
            assert(self@.lists =~= old(self)@.cleared().lists);
        }
        let ghost base = self@;
        assert(base == old(self)@.cleared());
        let windows = match self.window_service.enumerate_visible_windows(listed) {
            Ok(ws) => ws,
            Err(e) => {
                return Err(e);
            },
        };
        proof {
            lemma_managed_len(self.window_service.config(), listed->Ok_0@, listed->Ok_0@.len() as int);
        }
        let mut i: usize = 0;
        while i < windows.len()
            invariant
                self.wf(),
                i <= windows@.len(),
                2 * windows@.len() + 3 <= usize::MAX,
                self@.trees.len() == base.trees.len(),
                self@ == base.placed_all(windows@, i as int),
                forall|t: int| 0 <= t < self@.trees.len() ==> (#[trigger] self@.trees[t]).nodes.len() <= 1 + 2 * i,
            decreases windows@.len() - i,
        {
            let target = self.home_of(&windows[i]);
            let hwnd = windows[i].hwnd;
            let ghost before = self@;
            proof {
                lemma_add_window_growth(self@.trees[target as int], hwnd);
            }
            self.place(target, hwnd);
            proof {
                assert forall|t: int| 0 <= t < self@.trees.len() implies (#[trigger] self@.trees[t]).nodes.len() <= 1 + 2 * (i + 1) by {
                    if t != target {
                        assert(self@.trees[t] == before.trees[t]);
                    }
                }
            }
            i += 1;
        }
        Ok(())
    }

    /// Make the workspace `index` current. The change lists the windows of
    /// the workspace left, to hide, and those of the workspace entered, to
    /// show; it is empty when `index` is current already.
    pub fn switch_to(&mut self, index: usize) -> (r: Result<VisibilityChange, AppError>)
        requires
            old(self).wf(),
        ensures
            final(self).wf(),
            if index >= old(self)@.trees.len() {
                &&& final(self)@ == old(self)@
                &&& (r matches Err(AppError::Service(m)) && m@ == out_of_bounds_message(index))
            } else {
                &&& final(self)@ == (WorkspacesView { current: index, ..old(self)@ })
                &&& (r matches Ok(c) && c.is_switch(old(self)@, index))
            },
    {
        if index >= self.trees.len() {
            let mut m = String::from_str("workspace index ");
            let digits = decimal_string(index);
            m.append(digits.as_str());
            m.append(" out of bounds");
            return Err(AppError::Service(m));
        }
        if index == self.current_index {
            return Ok(VisibilityChange { hide: Vec::new(), show: Vec::new() });
        }
        let old_index = self.current_index;
        self.current_index = index;
        Ok(self.apply_visibility(old_index, index))
    }

    /// The windows of workspace `old_idx`, to hide, and of `new_idx`, to show.
    fn apply_visibility(&self, old_idx: usize, new_idx: usize) -> (r: VisibilityChange)
        requires
            self.wf(),
            old_idx < self@.lists.len(),
            new_idx < self@.lists.len(),
        ensures
            r.hide@ == self@.lists[old_idx as int],
            r.show@ == self@.lists[new_idx as int],
    {
        let hide = copy_list(&self.workspace_window_map[old_idx]);
        let show = copy_list(&self.workspace_window_map[new_idx]);
        VisibilityChange { hide, show }
    }

    /// Make the next workspace current, the first after the last.
    pub fn next_workspace(&mut self) -> (r: Result<VisibilityChange, AppError>)
        requires
            old(self).wf(),
        ensures
            final(self).wf(),
            final(self)@ == (WorkspacesView {
                current: ((old(self)@.current + 1) % (old(self)@.trees.len() as int)) as usize,
                ..old(self)@
            }),
            r matches Ok(c) && c.is_switch(old(self)@, final(self)@.current),
    {
        proof {
            self.lemma_tree(self.current_index as int);
        }
        let len = self.trees.len();
        let next = (self.current_index + 1) % len;
        self.switch_to(next)
    }

    /// Make the previous workspace current, the last before the first.
    pub fn previous_workspace(&mut self) -> (r: Result<VisibilityChange, AppError>)
        requires
            old(self).wf(),
        ensures
            final(self).wf(),
            final(self)@ == (WorkspacesView {
                current: if old(self)@.current == 0 {
                    (old(self)@.trees.len() - 1) as usize
                } else {
                    (old(self)@.current - 1) as usize
                },
                ..old(self)@
            }),
            r matches Ok(c) && c.is_switch(old(self)@, final(self)@.current),
    {
        proof {
            self.lemma_tree(self.current_index as int);
        }
        let prev = if self.current_index == 0 {
            self.trees.len() - 1
        } else {
            self.current_index - 1
        };
        self.switch_to(prev)
    }

    /// Take care of the foreground window `foreground` (0 for none), which
    /// the system reported as `reported`. A window that is not left alone and
    /// that a rule assigns to another workspace goes there, and is returned
    /// to be hidden; otherwise it joins the current workspace, unless it is
    /// there already.
    pub fn detect_and_manage_window(&mut self, foreground: isize, reported: Result<WindowInfo, AppError>) -> (hide: Option<isize>)
        requires
            old(self).wf(),
            old(self)@.room(2),
        ensures
            final(self).wf(),
            (final(self)@, hide) == old(self)@.after_detect(foreground, reported),
    {
        if foreground == 0 {
            return None;
        }
        let info = match self.window_service.get_foreground_window(reported) {
            Ok(info) => info,
            Err(_) => {
                return None;
            },
        };
        match self.rule_engine.match_window(&info) {
            Some(rule) => match rule.target_workspace {
                Some(t) => {
                    if t != self.current_index && t < self.trees.len() {
                        self.place(t, foreground);
                        return Some(foreground);
                    }
                },
                None => {},
            },
            None => {},
        }
        proof {
            self.lemma_tree(self.current_index as int);
        }
        if self.trees[self.current_index].find_window(foreground).is_none() {
            self.add_window_to_current(foreground);
        }
        None
    }

    /// The windows of the current workspace and the area each gets in
    /// `monitor_area`, `gap` apart.
    pub fn apply_current_layout(&self, monitor_area: Rect, gap: i32) -> (r: Vec<(isize, Rect)>)
        requires
            self.wf(),
            self@.current_tree().layout_fits(monitor_area, gap as int),
        ensures
            r@ == self@.current_tree().layouts(monitor_area, gap as int),
    {
        self.current_tree().calculate_layouts(monitor_area, gap)
    }

    pub fn add_rule(&mut self, rule: WindowRule)
        ensures
            final(self).wf() == old(self).wf(),
            final(self)@ == (WorkspacesView { rules: old(self)@.rules.push(rule), ..old(self)@ }),
    {
        self.rule_engine.add_rule(rule);
    }
}

/// A copy of `v`.
fn copy_list(v: &Vec<isize>) -> (r: Vec<isize>)
    ensures
        r@ == v@,
{
    let mut out: Vec<isize> = Vec::new();
    let mut i: usize = 0;
    while i < v.len()
        invariant
            i <= v@.len(),
            out@ == v@.take(i as int),
        decreases v@.len() - i,
    {
        out.push(v[i]);
        assert(v@.take(i + 1) =~= v@.take(i as int).push(v@[i as int]));
        i += 1;
    }
    assert(v@.take(v@.len() as int) =~= v@);
    out
}

/// Leaving windows out keeps the list no longer.
pub proof fn lemma_managed_len(cfg: IgnoreConfig, ws: Seq<WindowInfo>, n: int)
    requires
        0 <= n <= ws.len(),
    ensures
        crate::services::window_service::managed_prefix(cfg, ws, n).len() <= n,
    decreases n,
{
    if n > 0 {
        lemma_managed_len(cfg, ws, n - 1);
    }
}

} // verus!
