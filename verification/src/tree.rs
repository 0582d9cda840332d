use vstd::prelude::*;

use crate::layout::Rect;

verus! {

/// How a container splits its area among its children.
#[derive(Clone, Copy, PartialEq, Eq, Debug, Structural)]
pub enum SplitDirection {
    Horizontal,
    Vertical,
}

impl SplitDirection {
    /// The other direction.
    pub open spec fn toggled(self) -> SplitDirection {
        match self {
            SplitDirection::Horizontal => SplitDirection::Vertical,
            SplitDirection::Vertical => SplitDirection::Horizontal,
        }
    }

    pub fn toggle(self) -> (r: Self)
        ensures
            r == self.toggled(),
    {
        match self {
            SplitDirection::Horizontal => SplitDirection::Vertical,
            SplitDirection::Vertical => SplitDirection::Horizontal,
        }
    }
}

/// The layout mode of a whole tree.
#[derive(Clone, Copy, PartialEq, Eq, Debug, Structural)]
pub enum Layout {
    SplitH,
    SplitV,
    Monocle,
    Stacking,
}

/// A unit step on screen: `dx` to the right, `dy` downwards.
#[derive(Clone, Debug)]
pub struct FocusDirection {
    pub dx: i32,
    pub dy: i32,
}

impl FocusDirection {
    /// One step to the left.
    pub fn left() -> (r: Self)
        ensures
            r.dx == -1 && r.dy == 0,
    {
        FocusDirection { dx: -1, dy: 0 }
    }

    /// One step to the right.
    pub fn right() -> (r: Self)
        ensures
            r.dx == 1 && r.dy == 0,
    {
        FocusDirection { dx: 1, dy: 0 }
    }

    /// One step up.
    pub fn up() -> (r: Self)
        ensures
            r.dx == 0 && r.dy == -1,
    {
        FocusDirection { dx: 0, dy: -1 }
    }

    /// One step down.
    pub fn down() -> (r: Self)
        ensures
            r.dx == 0 && r.dy == 1,
    {
        FocusDirection { dx: 0, dy: 1 }
    }
}

/// What a node of the tree holds, as a mathematical value.
pub struct NodeView {
    pub id: usize,
    pub parent: Option<usize>,
    pub children: Seq<usize>,
    pub hwnd: Option<isize>,
    pub direction: SplitDirection,
}

/// The whole tree as a mathematical value: the node arena, indexed by node id,
/// and the tree's scalar state.
pub struct TreeView {
    pub nodes: Seq<NodeView>,
    pub root_id: usize,
    pub focused_id: usize,
    pub next_id: usize,
    pub layout: Layout,
    pub monocle_focused: Option<usize>,
}

/// The window handles held by the first `n` nodes, in node order.
pub open spec fn windows_prefix(nodes: Seq<NodeView>, n: int) -> Seq<isize>
    decreases n,
{
    if n <= 0 {
        Seq::empty()
    } else {
        let rest = windows_prefix(nodes, n - 1);
        match nodes[n - 1].hwnd {
            Some(h) => rest.push(h),
            None => rest,
        }
    }
}

/// The ids of those of the first `n` nodes that hold a window, in node order.
pub open spec fn window_ids_prefix(nodes: Seq<NodeView>, n: int) -> Seq<usize>
    decreases n,
{
    if n <= 0 {
        Seq::empty()
    } else {
        let rest = window_ids_prefix(nodes, n - 1);
        match nodes[n - 1].hwnd {
            Some(_) => rest.push(nodes[n - 1].id),
            None => rest,
        }
    }
}

/// The id of the first of the first `n` nodes that holds window `h`.
pub open spec fn find_prefix(nodes: Seq<NodeView>, h: isize, n: int) -> Option<usize>
    decreases n,
{
    if n <= 0 {
        None
    } else {
        match find_prefix(nodes, h, n - 1) {
            Some(id) => Some(id),
            None => if nodes[n - 1].hwnd == Some(h) {
                Some(nodes[n - 1].id)
            } else {
                None
            },
        }
    }
}

/// The position of the first `x` among the first `n` entries of `s`.
pub open spec fn position_prefix(s: Seq<usize>, x: usize, n: int) -> Option<int>
    decreases n,
{
    if n <= 0 {
        None
    } else {
        match position_prefix(s, x, n - 1) {
            Some(k) => Some(k),
            None => if s[n - 1] == x {
                Some(n - 1)
            } else {
                None
            },
        }
    }
}

/// The position of the first `x` in `s`.
pub open spec fn position(s: Seq<usize>, x: usize) -> Option<int> {
    position_prefix(s, x, s.len() as int)
}

/// `s` with its first `a` replaced by `b`; `s` itself when `a` does not occur.
pub open spec fn replace_first(s: Seq<usize>, a: usize, b: usize) -> Seq<usize> {
    match position(s, a) {
        Some(k) => s.update(k, b),
        None => s,
    }
}

/// `s` without any `x`, order kept.
pub open spec fn without(s: Seq<usize>, x: usize) -> Seq<usize>
    decreases s.len(),
{
    if s.len() == 0 {
        s
    } else {
        let r = without(s.drop_last(), x);
        if s.last() != x {
            r.push(s.last())
        } else {
            r
        }
    }
}

/// A fresh window node.
pub open spec fn leaf_view(id: usize, parent: usize, h: isize) -> NodeView {
    NodeView {
        id,
        parent: Some(parent),
        children: Seq::empty(),
        hwnd: Some(h),
        direction: SplitDirection::Vertical,
    }
}

/// A fresh container node.
pub open spec fn container_view(
    id: usize,
    parent: usize,
    children: Seq<usize>,
    direction: SplitDirection,
) -> NodeView {
    NodeView { id, parent: Some(parent), children, hwnd: None, direction }
}

/// Division that truncates toward zero, as machine division does; `b > 0`.
pub open spec fn tdiv(a: int, b: int) -> int {
    if a >= 0 {
        a / b
    } else {
        -((-a) / b)
    }
}

/// `x`, raised to at least 1.
pub open spec fn at_least_one(x: int) -> int {
    if x < 1 {
        1
    } else {
        x
    }
}

/// Whether `x` is a value of `i32`.
pub open spec fn in_i32(x: int) -> bool {
    i32::MIN <= x <= i32::MAX
}

/// The size of each of `n` cells that share `size` with `gap` between them.
pub open spec fn cell_size(size: int, gap: int, n: int) -> int {
    tdiv(size - gap * (n - 1), n)
}

/// The area of child `i` of `n` that split `area` in direction `dir`.
pub open spec fn child_area(area: Rect, gap: int, dir: SplitDirection, n: int, i: int) -> Rect {
    match dir {
        SplitDirection::Horizontal => {
            let cell = cell_size(area.width as int, gap, n);
            Rect {
                x: (area.x + i * (cell + gap)) as i32,
                y: area.y,
                width: at_least_one(cell) as i32,
                height: area.height,
            }
        },
        SplitDirection::Vertical => {
            let cell = cell_size(area.height as int, gap, n);
            Rect {
                x: area.x,
                y: (area.y + i * (cell + gap)) as i32,
                width: area.width,
                height: at_least_one(cell) as i32,
            }
        },
    }
}

/// Computing the area of child `i` of `n` stays within `i32`.
pub open spec fn child_area_fits(area: Rect, gap: int, dir: SplitDirection, n: int, i: int) -> bool {
    let size = match dir {
        SplitDirection::Horizontal => area.width as int,
        SplitDirection::Vertical => area.height as int,
    };
    let pos = match dir {
        SplitDirection::Horizontal => area.x as int,
        SplitDirection::Vertical => area.y as int,
    };
    let cell = cell_size(size, gap, n);
    &&& n <= i32::MAX
    &&& in_i32(gap * (n - 1))
    &&& in_i32(size - gap * (n - 1))
    &&& in_i32(cell + gap)
    &&& in_i32(i * (cell + gap))
    &&& in_i32(pos + i * (cell + gap))
}

/// The children among `ch` that take part in the layout, in order.
pub open spec fn live_prefix(v: TreeView, ch: Seq<usize>, n: int) -> Seq<usize>
    decreases n,
{
    if n <= 0 {
        Seq::empty()
    } else {
        let rest = live_prefix(v, ch, n - 1);
        if v.is_live(ch[n - 1] as int) {
            rest.push(ch[n - 1])
        } else {
            rest
        }
    }
}

pub open spec fn live_children(v: TreeView, ch: Seq<usize>) -> Seq<usize> {
    live_prefix(v, ch, ch.len() as int)
}

/// The windows under node `id` and the area each gets when the node gets
/// `area`: a window takes the whole area; a container with one taking part
/// child passes the area on; with more, it splits the area into equal cells
/// along its direction, `gap` apart.
pub open spec fn layout_node(v: TreeView, id: int, area: Rect, gap: int, fuel: nat) -> Seq<(isize, Rect)>
    decreases fuel, 0int,
{
    if fuel == 0 || !(0 <= id < v.nodes.len()) {
        Seq::empty()
    } else {
        let node = v.nodes[id];
        match node.hwnd {
            Some(h) => seq![(h, area)],
            None => {
                let lc = live_children(v, node.children);
                if lc.len() == 0 {
                    Seq::empty()
                } else if lc.len() == 1 {
                    layout_node(v, lc[0] as int, area, gap, (fuel - 1) as nat)
                } else {
                    layout_children(v, lc, area, gap, node.direction, lc.len() as int, (fuel - 1) as nat)
                }
            },
        }
    }
}

/// The layouts of the first `k` of the children `lc` that split `area`.
pub open spec fn layout_children(
    v: TreeView,
    lc: Seq<usize>,
    area: Rect,
    gap: int,
    dir: SplitDirection,
    k: int,
    fuel: nat,
) -> Seq<(isize, Rect)>
    decreases fuel, k + 1,
{
    if k <= 0 {
        Seq::empty()
    } else {
        layout_children(v, lc, area, gap, dir, k - 1, fuel) + layout_node(
            v,
            lc[k - 1] as int,
            child_area(area, gap, dir, lc.len() as int, k - 1),
            gap,
            fuel,
        )
    }
}

/// The layout of node `id` computes within `i32`.
pub open spec fn fits_node(v: TreeView, id: int, area: Rect, gap: int, fuel: nat) -> bool
    decreases fuel, 0int,
{
    if fuel == 0 || !(0 <= id < v.nodes.len()) {
        true
    } else {
        let node = v.nodes[id];
        match node.hwnd {
            Some(h) => true,
            None => {
                let lc = live_children(v, node.children);
                if lc.len() == 0 {
                    true
                } else if lc.len() == 1 {
                    fits_node(v, lc[0] as int, area, gap, (fuel - 1) as nat)
                } else {
                    fits_children(v, lc, area, gap, node.direction, lc.len() as int, (fuel - 1) as nat)
                }
            },
        }
    }
}

/// The layouts of the first `k` of the children `lc` compute within `i32`.
pub open spec fn fits_children(
    v: TreeView,
    lc: Seq<usize>,
    area: Rect,
    gap: int,
    dir: SplitDirection,
    k: int,
    fuel: nat,
) -> bool
    decreases fuel, k + 1,
{
    if k <= 0 {
        true
    } else {
        &&& fits_children(v, lc, area, gap, dir, k - 1, fuel)
        &&& child_area_fits(area, gap, dir, lc.len() as int, k - 1)
        &&& fits_node(v, lc[k - 1] as int, child_area(area, gap, dir, lc.len() as int, k - 1), gap, fuel)
    }
}

/// Whether `rect` lies wholly on the side `(dx, dy)` of `cur`; false unless
/// `(dx, dy)` is one of the four unit steps.
pub open spec fn in_direction(dx: i32, dy: i32, cur: Rect, rect: Rect) -> bool {
    if dx == -1 && dy == 0 {
        rect.x + rect.width <= cur.x
    } else if dx == 1 && dy == 0 {
        rect.x >= cur.x + cur.width
    } else if dx == 0 && dy == -1 {
        rect.y + rect.height <= cur.y
    } else if dx == 0 && dy == 1 {
        rect.y >= cur.y + cur.height
    } else {
        false
    }
}

/// Four times the squared distance between the centres of `a` and `b`.
pub open spec fn dist4(a: Rect, b: Rect) -> int {
    let ddx = (2 * a.x + a.width) - (2 * b.x + b.width);
    let ddy = (2 * a.y + a.height) - (2 * b.y + b.height);
    ddx * ddx + ddy * ddy
}

/// Entry `k` of `ls` is another window than `cur_h`, on the side `(dx, dy)`.
pub open spec fn is_candidate(ls: Seq<(isize, Rect)>, cur_h: isize, cur: Rect, dx: i32, dy: i32, k: int) -> bool {
    0 <= k < ls.len() && ls[k].0 != cur_h && in_direction(dx, dy, cur, ls[k].1)
}

/// Entry `k` is the nearest candidate, and the first among the nearest.
pub open spec fn is_best(ls: Seq<(isize, Rect)>, cur_h: isize, cur: Rect, dx: i32, dy: i32, k: int) -> bool {
    &&& is_candidate(ls, cur_h, cur, dx, dy, k)
    &&& forall|j: int|
        #![trigger is_candidate(ls, cur_h, cur, dx, dy, j)]
        is_candidate(ls, cur_h, cur, dx, dy, j) ==> dist4(cur, ls[k].1) <= dist4(cur, ls[j].1)
    &&& forall|j: int|
        #![trigger is_candidate(ls, cur_h, cur, dx, dy, j)]
        0 <= j < k && is_candidate(ls, cur_h, cur, dx, dy, j) ==> dist4(cur, ls[j].1) > dist4(cur, ls[k].1)
}

/// The window of the nearest candidate on the side `(dx, dy)` of `cur`.
pub open spec fn best_target(ls: Seq<(isize, Rect)>, cur_h: isize, cur: Rect, dx: i32, dy: i32) -> Option<isize> {
    if exists|k: int| is_best(ls, cur_h, cur, dx, dy, k) {
        Some(ls[choose|k: int| is_best(ls, cur_h, cur, dx, dy, k)].0)
    } else {
        None
    }
}

/// The sums that the side test adds up stay within `i32`.
pub open spec fn side_sums_fit(ls: Seq<(isize, Rect)>, cur_h: isize, cur: Rect, dx: i32, dy: i32) -> bool {
    forall|k: int|
        0 <= k < ls.len() && (#[trigger] ls[k]).0 != cur_h ==> {
            &&& (dx == -1 && dy == 0 ==> in_i32(ls[k].1.x + ls[k].1.width))
            &&& (dx == 1 && dy == 0 ==> in_i32(cur.x + cur.width))
            &&& (dx == 0 && dy == -1 ==> in_i32(ls[k].1.y + ls[k].1.height))
            &&& (dx == 0 && dy == 1 ==> in_i32(cur.y + cur.height))
        }
}

/// The area of the first entry of window `h` among the first `n` of `ls`.
pub open spec fn rect_prefix(ls: Seq<(isize, Rect)>, h: isize, n: int) -> Option<Rect>
    decreases n,
{
    if n <= 0 {
        None
    } else {
        match rect_prefix(ls, h, n - 1) {
            Some(r) => Some(r),
            None => if ls[n - 1].0 == h {
                Some(ls[n - 1].1)
            } else {
                None
            },
        }
    }
}

impl TreeView {
    /// All windows of the tree, in node order.
    pub open spec fn windows(self) -> Seq<isize> {
        windows_prefix(self.nodes, self.nodes.len() as int)
    }

    /// The ids of all nodes that hold a window, in node order.
    pub open spec fn window_ids(self) -> Seq<usize> {
        window_ids_prefix(self.nodes, self.nodes.len() as int)
    }

    /// The node that holds window `h`, if any.
    pub open spec fn find(self, h: isize) -> Option<usize> {
        find_prefix(self.nodes, h, self.nodes.len() as int)
    }

    /// The window of the node `id`, if that node exists and holds one.
    pub open spec fn hwnd_of(self, id: int) -> Option<isize> {
        if 0 <= id < self.nodes.len() {
            self.nodes[id].hwnd
        } else {
            None
        }
    }

    /// The window of the focused node, if it holds one.
    pub open spec fn focused_hwnd(self) -> Option<isize> {
        self.hwnd_of(self.focused_id as int)
    }

    /// A node that takes part in the layout: a window, or a container with children.
    pub open spec fn is_live(self, id: int) -> bool {
        0 <= id < self.nodes.len() && (self.nodes[id].hwnd is Some
            || self.nodes[id].children.len() > 0)
    }

    /// The windows shown under the tree's layout mode.
    pub open spec fn visible(self) -> Seq<isize> {
        if self.layout == Layout::Monocle {
            match self.monocle_focused {
                Some(id) => match self.hwnd_of(id as int) {
                    Some(h) => seq![h],
                    None => Seq::empty(),
                },
                None => Seq::empty(),
            }
        } else {
            self.windows()
        }
    }

    pub open spec fn ids_ok(self) -> bool {
        &&& self.nodes.len() > 0
        &&& self.next_id == self.nodes.len()
        &&& forall|i: int| 0 <= i < self.nodes.len() ==> #[trigger] self.nodes[i].id == i
    }

    pub open spec fn root_ok(self) -> bool {
        &&& self.root_id == 0
        &&& self.nodes[0].parent is None
        &&& self.nodes[0].hwnd is None
        &&& self.focused_id < self.nodes.len()
    }

    /// Every parent exists and holds no window.
    pub open spec fn parents_ok(self) -> bool {
        forall|i: int|
            0 <= i < self.nodes.len() && (#[trigger] self.nodes[i].parent) is Some ==> {
                let p = self.nodes[i].parent->0 as int;
                &&& 0 <= p < self.nodes.len()
                &&& self.nodes[p].hwnd is None
            }
    }

    /// Every child exists, points back to its parent, and occurs once.
    pub open spec fn children_ok(self) -> bool {
        &&& forall|i: int, k: int|
            #![trigger self.nodes[i].children[k]]
            0 <= i < self.nodes.len() && 0 <= k < self.nodes[i].children.len() ==> {
                let c = self.nodes[i].children[k] as int;
                &&& 0 <= c < self.nodes.len()
                &&& self.nodes[c].parent == Some(i as usize)
            }
        &&& forall|i: int|
            0 <= i < self.nodes.len() ==> (#[trigger] self.nodes[i].children).no_duplicates()
    }

    /// No window is held by two nodes.
    pub open spec fn hwnds_unique(self) -> bool {
        forall|i: int, j: int|
            #![trigger self.nodes[i].hwnd, self.nodes[j].hwnd]
            0 <= i < self.nodes.len() && 0 <= j < self.nodes.len() && i != j
                && self.nodes[i].hwnd is Some ==> self.nodes[i].hwnd != self.nodes[j].hwnd
    }

    /// Every window is listed among its parent's children.
    pub open spec fn leaves_attached(self) -> bool {
        forall|i: int|
            0 <= i < self.nodes.len() && (#[trigger] self.nodes[i].hwnd) is Some
                && self.nodes[i].parent is Some ==> self.nodes[self.nodes[i].parent->0 as int].children.contains(
                i as usize,
            )
    }

    /// Every window but node `n` is listed among its parent's children.
    pub open spec fn leaves_attached_except(self, n: int) -> bool {
        forall|i: int|
            0 <= i < self.nodes.len() && i != n && (#[trigger] self.nodes[i].hwnd) is Some
                && self.nodes[i].parent is Some ==> self.nodes[self.nodes[i].parent->0 as int].children.contains(
                i as usize,
            )
    }

    /// The structural invariant, except that window node `n` may be missing
    /// from its parent's children.
    pub open spec fn well_formed_except(self, n: int) -> bool {
        &&& self.ids_ok()
        &&& self.root_ok()
        &&& self.parents_ok()
        &&& self.children_ok()
        &&& self.hwnds_unique()
        &&& self.leaves_attached_except(n)
    }

    /// The structural invariant of a container tree.
    pub open spec fn well_formed(self) -> bool {
        &&& self.ids_ok()
        &&& self.root_ok()
        &&& self.parents_ok()
        &&& self.children_ok()
        &&& self.hwnds_unique()
        &&& self.leaves_attached()
    }

    /// This tree with node `i` replaced by `n`.
    pub open spec fn set_node(self, i: int, n: NodeView) -> TreeView {
        TreeView { nodes: self.nodes.update(i, n), ..self }
    }

    /// Window node `f` moves into a fresh container that takes its place among
    /// the children of `f`'s parent.
    pub open spec fn wrapped(self, f: usize, dir: SplitDirection) -> TreeView {
        let fnode = self.nodes[f as int];
        let p = fnode.parent->0;
        let c = self.nodes.len() as usize;
        let pnode = self.nodes[p as int];
        TreeView {
            nodes: self.nodes.update(f as int, NodeView { parent: Some(c), ..fnode }).update(
                p as int,
                NodeView { children: replace_first(pnode.children, f, c), ..pnode },
            ).push(container_view(c, p, seq![f], dir)),
            next_id: (self.next_id + 1) as usize,
            ..self
        }
    }

    /// A focused window that has a parent gets a container of its own, which
    /// takes its place in the parent and becomes the focused node.
    pub open spec fn after_ensure_container(self) -> TreeView {
        let f = self.focused_id;
        let fnode = self.nodes[f as int];
        if fnode.hwnd is None || fnode.parent is None {
            self
        } else {
            TreeView {
                focused_id: self.nodes.len() as usize,
                ..self.wrapped(f, fnode.direction)
            }
        }
    }

    /// The node whose split `toggle_split` flips: the parent of a focused
    /// window, else the focused node itself.
    pub open spec fn split_target(self) -> usize {
        let f = self.focused_id;
        if self.nodes[f as int].hwnd is Some && self.nodes[f as int].parent is Some {
            self.nodes[f as int].parent->0
        } else {
            f
        }
    }

    pub open spec fn after_toggle_split(self) -> TreeView {
        let t = self.split_target();
        let tnode = self.nodes[t as int];
        TreeView {
            nodes: self.nodes.update(t as int, NodeView { direction: tnode.direction.toggled(), ..tnode }),
            focused_id: t,
            ..self
        }
    }

    pub open spec fn after_set_split(self, dir: SplitDirection) -> TreeView {
        let v = self.after_ensure_container();
        let f = v.focused_id;
        v.set_node(f as int, NodeView { direction: dir, ..v.nodes[f as int] })
    }

    /// This tree with a fresh window node `h` under `parent`, not yet listed
    /// among the parent's children.
    pub open spec fn with_leaf(self, parent: usize, h: isize) -> TreeView {
        TreeView {
            nodes: self.nodes.push(leaf_view(self.nodes.len() as usize, parent, h)),
            next_id: (self.next_id + 1) as usize,
            ..self
        }
    }

    /// This tree with `c` appended to the children of `p`.
    pub open spec fn with_child(self, p: usize, c: usize) -> TreeView {
        self.set_node(p as int, NodeView { children: self.nodes[p as int].children.push(c), ..self.nodes[p as int] })
    }

    /// What `add_window(h)` makes of the tree, and the node it returns.
    pub open spec fn after_add_window(self, h: isize) -> (TreeView, usize) {
        match self.find(h) {
            Some(e) => (TreeView { focused_id: e, ..self }, e),
            None => {
                let f = self.focused_id;
                let fnode = self.nodes[f as int];
                let len = self.nodes.len() as usize;
                if fnode.parent is None {
                    let v = self.with_leaf(self.root_id, h).with_child(self.root_id, len);
                    (TreeView { focused_id: len, ..v }, len)
                } else if fnode.hwnd is Some {
                    let p = fnode.parent->0;
                    let n = (len + 1) as usize;
                    let v = self.wrapped(f, self.nodes[p as int].direction).with_leaf(len, h).with_child(
                        len,
                        n,
                    );
                    (TreeView { focused_id: n, ..v }, n)
                } else {
                    let v = self.with_leaf(f, h).with_child(f, len);
                    (TreeView { focused_id: len, ..v }, len)
                }
            },
        }
    }

    /// Empty containers, starting with `c`, leave their parents one after the
    /// other up the tree, stopping at the root; focus on a removed container
    /// moves to its parent.
    pub open spec fn after_cleanup(self, c: usize, fuel: nat) -> TreeView
        decreases fuel,
    {
        if fuel == 0 || c >= self.nodes.len() {
            self
        } else {
            match self.nodes[c as int].parent {
                None => self,
                Some(gp) => if gp >= self.nodes.len() {
                    self
                } else {
                    let gnode = self.nodes[gp as int];
                    let v1 = TreeView {
                        focused_id: if self.focused_id == c {
                            gp
                        } else {
                            self.focused_id
                        },
                        ..self.set_node(gp as int, NodeView { children: without(gnode.children, c), ..gnode })
                    };
                    if gp != self.root_id && v1.nodes[gp as int].children.len() == 0
                        && v1.nodes[gp as int].hwnd is None {
                        v1.after_cleanup(gp, (fuel - 1) as nat)
                    } else {
                        v1
                    }
                },
            }
        }
    }

    /// The state of `remove_window(h)` once the window node `t` has left the
    /// children of its parent and empty containers are cleaned up, before `t`
    /// itself is cleared.
    #[verifier::opaque]
    pub open spec fn after_detach(self, t: usize) -> TreeView {
        match self.nodes[t as int].parent {
            None => self,
            Some(pid) => {
                let pnode = self.nodes[pid as int];
                let ch = without(pnode.children, t);
                let va = TreeView {
                    focused_id: if self.focused_id == t {
                        if ch.len() == 0 {
                            pid
                        } else {
                            ch[0]
                        }
                    } else {
                        self.focused_id
                    },
                    ..self.set_node(pid as int, NodeView { children: ch, ..pnode })
                };
                if pid != self.root_id && ch.len() == 0 && pnode.hwnd is None {
                    va.after_cleanup(pid, self.nodes.len() as nat)
                } else {
                    va
                }
            },
        }
    }

    /// What `remove_window(h)` makes of the tree: the node holding `h` leaves
    /// its parent, empty containers above it are cleaned up, and the node is
    /// cleared.
    pub open spec fn after_remove_window(self, h: isize) -> TreeView {
        match self.find(h) {
            None => self,
            Some(t) => {
                let v1 = self.after_detach(t);
                v1.set_node(
                    t as int,
                    NodeView { hwnd: None, children: Seq::empty(), ..v1.nodes[t as int] },
                )
            },
        }
    }

    /// The index of the focused node among the window nodes; the first when
    /// the focused node holds no window.
    pub open spec fn focus_index(self) -> int {
        match position(self.window_ids(), self.focused_id) {
            Some(k) => k,
            None => 0,
        }
    }

    /// Focus moves to the next window node in node order, wrapping around.
    pub open spec fn after_focus_next(self) -> TreeView {
        let w = self.window_ids();
        if w.len() == 0 {
            self
        } else {
            TreeView { focused_id: w[(self.focus_index() + 1) % (w.len() as int)], ..self }
        }
    }

    /// Focus moves to the previous window node in node order, wrapping around.
    pub open spec fn after_focus_prev(self) -> TreeView {
        let w = self.window_ids();
        if w.len() == 0 {
            self
        } else {
            let k = self.focus_index();
            TreeView {
                focused_id: if k == 0 {
                    w[w.len() - 1]
                } else {
                    w[k - 1]
                },
                ..self
            }
        }
    }

    /// Nodes `a` and `b` trade places: each takes the other's parent and the
    /// other's slot among that parent's children.
    pub open spec fn after_swap(self, a: usize, b: usize) -> TreeView {
        let na = self.nodes[a as int];
        let nb = self.nodes[b as int];
        if a == b || na.parent is None || nb.parent is None {
            self
        } else {
            let pa = na.parent->0;
            let pb = nb.parent->0;
            let v1 = self.set_node(a as int, NodeView { parent: Some(pb), ..na }).set_node(
                b as int,
                NodeView { parent: Some(pa), ..nb },
            );
            if pa == pb {
                let ch = v1.nodes[pa as int].children;
                match (position(ch, a), position(ch, b)) {
                    (Some(x), Some(y)) => v1.set_node(
                        pa as int,
                        NodeView { children: ch.update(x, ch[y]).update(y, ch[x]), ..v1.nodes[pa as int] },
                    ),
                    _ => v1,
                }
            } else {
                let v2 = v1.set_node(
                    pa as int,
                    NodeView { children: replace_first(v1.nodes[pa as int].children, a, b), ..v1.nodes[pa as int] },
                );
                v2.set_node(
                    pb as int,
                    NodeView { children: replace_first(v2.nodes[pb as int].children, b, a), ..v2.nodes[pb as int] },
                )
            }
        }
    }

    /// The windows shown and the area of each: under monocle and stacking
    /// every shown window gets the whole area; otherwise the tree splits it
    /// from the root down.
    pub open spec fn layouts(self, area: Rect, gap: int) -> Seq<(isize, Rect)> {
        if self.layout == Layout::Monocle || self.layout == Layout::Stacking {
            self.visible().map_values(|h: isize| (h, area))
        } else {
            layout_node(self, self.root_id as int, area, gap, self.nodes.len() as nat)
        }
    }

    /// The layout computes within `i32`.
    pub open spec fn layout_fits(self, area: Rect, gap: int) -> bool {
        if self.layout == Layout::Monocle || self.layout == Layout::Stacking {
            true
        } else {
            fits_node(self, self.root_id as int, area, gap, self.nodes.len() as nat)
        }
    }

    /// The focused window's area in the layout of `area` without gaps.
    pub open spec fn focused_rect(self, area: Rect) -> Option<Rect> {
        match self.focused_hwnd() {
            None => None,
            Some(h) => {
                let ls = self.layouts(area, 0);
                rect_prefix(ls, h, ls.len() as int)
            },
        }
    }

    /// The window nearest to the focused one on the side `(dx, dy)`, in the
    /// layout of `area` without gaps.
    pub open spec fn target_in_direction(self, dx: i32, dy: i32, area: Rect) -> Option<isize> {
        match (self.focused_hwnd(), self.focused_rect(area)) {
            (Some(h), Some(cur)) => best_target(self.layouts(area, 0), h, cur, dx, dy),
            _ => None,
        }
    }

    /// The side test for `(dx, dy)` computes within `i32`.
    pub open spec fn direction_fits(self, dx: i32, dy: i32, area: Rect) -> bool {
        &&& self.layout_fits(area, 0)
        &&& match (self.focused_hwnd(), self.focused_rect(area)) {
            (Some(h), Some(cur)) => side_sums_fit(self.layouts(area, 0), h, cur, dx, dy),
            _ => true,
        }
    }

    /// What `move_focused_in_direction` makes of the tree, and whether it
    /// found a window to trade places with.
    pub open spec fn after_move_focused(self, dx: i32, dy: i32, area: Rect) -> (TreeView, bool) {
        match self.target_in_direction(dx, dy, area) {
            None => (self, false),
            Some(t) => match self.find(t) {
                None => (self, false),
                Some(tid) => (self.after_swap(self.focused_id, tid), true),
            },
        }
    }

    /// The invariant of a tree that the operations build: well formed, with
    /// ranks that grow from parent to child, so that no node is its own
    /// ancestor.
    pub open spec fn valid(self) -> bool {
        &&& self.well_formed()
        &&& exists|r: Seq<nat>| ranks_ok(self.nodes, r)
    }

    /// Room for `k` more nodes.
    pub open spec fn has_room(self, k: int) -> bool {
        self.nodes.len() + k <= usize::MAX
    }
}

/// A tree of one empty root container that splits vertically.
pub open spec fn initial_tree() -> TreeView {
    TreeView {
        nodes: seq![
            NodeView {
                id: 0,
                parent: None,
                children: Seq::empty(),
                hwnd: None,
                direction: SplitDirection::Vertical,
            },
        ],
        root_id: 0,
        focused_id: 0,
        next_id: 1,
        layout: Layout::SplitV,
        monocle_focused: None,
    }
}

/// Adding a window adds at most two nodes.
pub proof fn lemma_add_window_growth(v: TreeView, h: isize)
    requires
        v.well_formed(),
    ensures
        v.nodes.len() <= v.after_add_window(h).0.nodes.len() <= v.nodes.len() + 2,
{
    if v.find(h) is None {
        let f = v.focused_id;
        let fnode = v.nodes[f as int];
        let len = v.nodes.len() as usize;
        if fnode.parent is None {
            let w = v.with_leaf(v.root_id, h);
            assert(w.nodes.len() == v.nodes.len() + 1);
            assert(w.with_child(v.root_id, len).nodes.len() == w.nodes.len());
        } else if fnode.hwnd is Some {
            let p = fnode.parent->0;
            assert(v.nodes[f as int].parent is Some);
            let w0 = v.wrapped(f, v.nodes[p as int].direction);
            assert(w0.nodes.len() == v.nodes.len() + 1);
            let w1 = w0.with_leaf(len, h);
            assert(w1.nodes.len() == v.nodes.len() + 2);
            assert(w1.with_child(len, (len + 1) as usize).nodes.len() == w1.nodes.len());
        } else {
            let w = v.with_leaf(f, h);
            assert(w.nodes.len() == v.nodes.len() + 1);
            assert(w.with_child(f, len).nodes.len() == w.nodes.len());
        }
    }
}

/// Ranks strictly grow from parent to child and stay below the node count,
/// so every walk up the parent links ends.
pub open spec fn ranks_ok(nodes: Seq<NodeView>, r: Seq<nat>) -> bool {
    &&& r.len() == nodes.len()
    &&& forall|i: int| 0 <= i < nodes.len() ==> #[trigger] r[i] < nodes.len()
    &&& forall|i: int|
        0 <= i < nodes.len() && (#[trigger] nodes[i].parent) is Some ==> r[nodes[i].parent->0 as int]
            < r[i]
}

struct Node {
    id: usize,
    parent: Option<usize>,
    children: Vec<usize>,
    hwnd: Option<isize>,
    direction: SplitDirection,
}

impl View for Node {
    type V = NodeView;

    closed spec fn view(&self) -> NodeView {
        NodeView {
            id: self.id,
            parent: self.parent,
            children: self.children@,
            hwnd: self.hwnd,
            direction: self.direction,
        }
    }
}

/// A tree of split containers whose leaves are windows, kept in an arena
/// indexed by node id.
pub struct ContainerTree {
    nodes: Vec<Node>,
    root_id: usize,
    focused_id: usize,
    next_id: usize,
    layout: Layout,
    monocle_focused: Option<usize>,
    rank: Ghost<Seq<nat>>,
}

impl View for ContainerTree {
    type V = TreeView;

    closed spec fn view(&self) -> TreeView {
        TreeView {
            nodes: self.nodes@.map_values(|n: Node| n@),
            root_id: self.root_id,
            focused_id: self.focused_id,
            next_id: self.next_id,
            layout: self.layout,
            monocle_focused: self.monocle_focused,
        }
    }
}

impl ContainerTree {
    /// The invariant that every operation keeps.
    pub closed spec fn wf(&self) -> bool {
        self@.well_formed() && ranks_ok(self@.nodes, self.rank@)
    }

    /// A well-formed tree is well formed as a mathematical value.
    pub proof fn lemma_wf_structure(&self)
        requires
            self.wf(),
        ensures
            self@.well_formed(),
            self@.valid(),
    {
        assert(ranks_ok(self@.nodes, self.rank@));
    }

    proof fn lemma_view_index(&self, i: int)
        requires
            0 <= i < self.nodes@.len(),
        ensures
            self@.nodes[i] == self.nodes@[i]@,
            self@.nodes.len() == self.nodes@.len(),
    {
    }

    pub fn new() -> (t: Self)
        ensures
            t.wf(),
            t@ == initial_tree(),
    {
        let root = Node {
            id: 0,
            parent: None,
            children: Vec::new(),
            hwnd: None,
            direction: SplitDirection::Vertical,
        };
        let mut nodes: Vec<Node> = Vec::new();
        nodes.push(root);
        let ghost r: Seq<nat> = seq![0nat];
        let t = ContainerTree {
            nodes,
            root_id: 0,
            focused_id: 0,
            next_id: 1,
            layout: Layout::SplitV,
            monocle_focused: None,
            rank: Ghost(r),
        };
        assert(t@.nodes =~= seq![
            NodeView {
                id: 0,
                parent: None,
                children: Seq::empty(),
                hwnd: None,
                direction: SplitDirection::Vertical,
            },
        ]);
        t
    }

    pub fn root_id(&self) -> (r: usize)
        ensures
            r == self@.root_id,
    {
        self.root_id
    }

    pub fn focused_id(&self) -> (r: usize)
        ensures
            r == self@.focused_id,
    {
        self.focused_id
    }

    pub fn get_layout(&self) -> (r: Layout)
        ensures
            r == self@.layout,
    {
        self.layout
    }

    pub fn node_count(&self) -> (r: usize)
        ensures
            r == self@.nodes.len(),
    {
        self.nodes.len()
    }

    pub fn focused_hwnd(&self) -> (r: Option<isize>)
        ensures
            r == self@.focused_hwnd(),
    {
        if self.focused_id < self.nodes.len() {
            proof {
                self.lemma_view_index(self.focused_id as int);
            }
            self.nodes[self.focused_id].hwnd
        } else {
            None
        }
    }

    /// The split direction of node `node_id`; `Vertical` for a node that does not exist.
    pub fn get_split_direction(&self, node_id: usize) -> (r: SplitDirection)
        ensures
            r == (if node_id < self@.nodes.len() {
                self@.nodes[node_id as int].direction
            } else {
                SplitDirection::Vertical
            }),
    {
        if node_id < self.nodes.len() {
            proof {
                self.lemma_view_index(node_id as int);
            }
            self.nodes[node_id].direction
        } else {
            SplitDirection::Vertical
        }
    }

    /// The node that holds window `hwnd`, if any.
    pub fn find_window(&self, hwnd: isize) -> (r: Option<usize>)
        ensures
            r == self@.find(hwnd),
    {
        let mut i: usize = 0;
        while i < self.nodes.len()
            invariant
                i <= self.nodes@.len(),
                self@.nodes.len() == self.nodes@.len(),
                find_prefix(self@.nodes, hwnd, i as int) is None,
            decreases self.nodes@.len() - i,
        {
            proof {
                self.lemma_view_index(i as int);
            }
            match self.nodes[i].hwnd {
                Some(h) => {
                    if h == hwnd {
                        assert(find_prefix(self@.nodes, hwnd, i + 1) == Some(self@.nodes[i as int].id));
                        proof {
                            lemma_find_prefix_stable(self@.nodes, hwnd, i + 1, self@.nodes.len() as int);
                        }
                        return Some(self.nodes[i].id);
                    }
                },
                None => {},
            }
            i += 1;
        }
        None
    }

    /// Focus node `id`, if it exists.
    pub fn focus_container(&mut self, id: usize)
        requires
            old(self).wf(),
        ensures
            final(self).wf(),
            final(self)@ == (TreeView {
                focused_id: if id < old(self)@.nodes.len() {
                    id
                } else {
                    old(self)@.focused_id
                },
                ..old(self)@
            }),
    {
        if id < self.nodes.len() {
            self.focused_id = id;
        }
    }

    /// All windows of the tree, in node order.
    pub fn all_windows(&self) -> (r: Vec<isize>)
        ensures
            r@ == self@.windows(),
    {
        let mut out: Vec<isize> = Vec::new();
        let mut i: usize = 0;
        while i < self.nodes.len()
            invariant
                i <= self.nodes@.len(),
                self@.nodes.len() == self.nodes@.len(),
                out@ == windows_prefix(self@.nodes, i as int),
            decreases self.nodes@.len() - i,
        {
            proof {
                self.lemma_view_index(i as int);
            }
            match self.nodes[i].hwnd {
                Some(h) => out.push(h),
                None => {},
            }
            i += 1;
        }
        out
    }

    /// The number of windows in the tree.
    pub fn window_count(&self) -> (r: usize)
        ensures
            r == self@.windows().len(),
    {
        let mut count: usize = 0;
        let mut i: usize = 0;
        while i < self.nodes.len()
            invariant
                i <= self.nodes@.len(),
                self@.nodes.len() == self.nodes@.len(),
                count == windows_prefix(self@.nodes, i as int).len(),
            decreases self.nodes@.len() - i,
        {
            proof {
                self.lemma_view_index(i as int);
                lemma_windows_prefix_len(self@.nodes, i as int);
            }
            match self.nodes[i].hwnd {
                Some(_) => {
                    count = count + 1;
                },
                None => {},
            }
            i += 1;
        }
        count
    }

    fn allocate_id(&mut self) -> (id: usize)
        requires
            old(self).next_id < usize::MAX,
        ensures
            id == old(self).next_id,
            final(self).next_id == old(self).next_id + 1,
            final(self).nodes == old(self).nodes,
            final(self).root_id == old(self).root_id,
            final(self).focused_id == old(self).focused_id,
            final(self).layout == old(self).layout,
            final(self).monocle_focused == old(self).monocle_focused,
            final(self).rank == old(self).rank,
    {
        let id = self.next_id;
        self.next_id = self.next_id + 1;
        id
    }

    /// Append a window node under `parent`; it is not yet listed among the
    /// parent's children.
    fn add_leaf(&mut self, hwnd: isize, parent: Option<usize>) -> (id: usize)
        requires
            old(self).wf(),
            old(self)@.has_room(1),
            old(self)@.find(hwnd) is None,
            parent is Some,
            parent->0 < old(self)@.nodes.len(),
            old(self)@.nodes[parent->0 as int].hwnd is None,
        ensures
            final(self)@.well_formed_except(id as int),
            ranks_ok(final(self)@.nodes, final(self).rank@),
            id == old(self)@.nodes.len(),
            final(self)@ == old(self)@.with_leaf(parent->0, hwnd),
            final(self).rank@ == old(self).rank@.push(old(self).rank@[parent->0 as int] + 1),
    {
        proof {
            lemma_find_none(self@.nodes, hwnd, self@.nodes.len() as int);
        }
        let id = self.allocate_id();
        let node = Node {
            id,
            parent,
            children: Vec::new(),
            hwnd: Some(hwnd),
            direction: SplitDirection::Vertical,
        };
        self.nodes.push(node);
        proof {
            let r = self.rank@;
            self.rank@ = r.push(r[parent->0 as int] + 1);
        }
        assert(self@.nodes =~= old(self)@.nodes.push(leaf_view(id, parent->0, hwnd)));
        id
    }

    /// List the fresh window node `n` among its parent's children.
    fn attach_leaf(&mut self, n: usize)
        requires
            old(self)@.well_formed_except(n as int),
            ranks_ok(old(self)@.nodes, old(self).rank@),
            n == old(self)@.nodes.len() - 1,
            old(self)@.nodes[n as int].parent is Some,
            !old(self)@.nodes[old(self)@.nodes[n as int].parent->0 as int].children.contains(n),
        ensures
            final(self).wf(),
            final(self)@ == old(self)@.with_child(old(self)@.nodes[n as int].parent->0, n),
    {
        let ghost v0 = self@;
        proof {
            self.lemma_view_index(n as int);
        }
        let p = match self.nodes[n].parent {
            Some(p) => p,
            None => {
                return;
            },
        };
        proof {
            self.lemma_view_index(p as int);
        }
        self.nodes[p].children.push(n);
        let ghost w = v0.set_node(p as int, NodeView { children: v0.nodes[p as int].children.push(n), ..v0.nodes[p as int] });
        assert(self@.nodes =~= w.nodes);
        assert forall|i: int, j: int|
            #![trigger w.nodes[i].children[j]]
            0 <= i < w.nodes.len() && 0 <= j < w.nodes[i].children.len() implies {
                let ch = w.nodes[i].children[j] as int;
                &&& 0 <= ch < w.nodes.len()
                &&& w.nodes[ch].parent == Some(i as usize)
            } by {
            if i == p as int && j < v0.nodes[p as int].children.len() {
                assert(w.nodes[i].children[j] == v0.nodes[i].children[j]);
            }
        }
        assert(w.children_ok());
        assert forall|i: int|
            0 <= i < w.nodes.len() && (#[trigger] w.nodes[i].hwnd) is Some
                && w.nodes[i].parent is Some implies w.nodes[w.nodes[i].parent->0 as int].children.contains(
                i as usize,
            ) by {
            if i == n as int {
                assert(w.nodes[p as int].children.last() == n);
            } else {
                let q = v0.nodes[i].parent->0 as int;
                assert(v0.nodes[q].children.contains(i as usize));
                let jj = choose|jj: int| 0 <= jj < v0.nodes[q].children.len() && v0.nodes[q].children[jj] == i as usize;
                assert(w.nodes[q].children[jj] == i as usize);
            }
        }
    }

    /// Append an empty container under `parent`; it is not yet listed among
    /// the parent's children.
    fn add_container(&mut self, direction: SplitDirection, parent: Option<usize>) -> (id: usize)
        requires
            old(self).wf(),
            old(self)@.has_room(1),
            parent is Some,
            parent->0 < old(self)@.nodes.len(),
            old(self)@.nodes[parent->0 as int].hwnd is None,
        ensures
            final(self).wf(),
            id == old(self)@.nodes.len(),
            final(self)@ == (TreeView {
                nodes: old(self)@.nodes.push(
                    container_view(id, parent->0, Seq::empty(), direction),
                ),
                next_id: (old(self)@.next_id + 1) as usize,
                ..old(self)@
            }),
            final(self).rank@ == old(self).rank@.push(old(self).rank@[parent->0 as int] + 1),
    {
        let id = self.allocate_id();
        let node = Node { id, parent, children: Vec::new(), hwnd: None, direction };
        self.nodes.push(node);
        proof {
            let r = self.rank@;
            self.rank@ = r.push(r[parent->0 as int] + 1);
        }
        assert(self@.nodes =~= old(self)@.nodes.push(
            container_view(id, parent->0, Seq::empty(), direction),
        ));
        id
    }

    /// Move window node `f` into a fresh container placed where `f` was.
    fn wrap_leaf(&mut self, f: usize, direction: SplitDirection) -> (c: usize)
        requires
            old(self).wf(),
            old(self)@.has_room(1),
            f < old(self)@.nodes.len(),
            old(self)@.nodes[f as int].hwnd is Some,
            old(self)@.nodes[f as int].parent is Some,
        ensures
            final(self).wf(),
            c == old(self)@.nodes.len(),
            final(self)@ == old(self)@.wrapped(f, direction),
    {
        let ghost v0 = self@;
        let ghost r0 = self.rank@;
        proof {
            self.lemma_view_index(f as int);
        }
        let parent_id = match self.nodes[f].parent {
            Some(p) => p,
            None => {
                return 0;
            },
        };
        proof {
            self.lemma_view_index(parent_id as int);
            assert(parent_id != f);
        }
        let container_id = self.add_container(direction, Some(parent_id));
        let ghost n1 = self.nodes@;
        let ghost vn1 = self@;
        proof {
            self.lemma_view_index(parent_id as int);
        }
        assert(n1[parent_id as int]@ == v0.nodes[parent_id as int]);
        self.nodes[f].parent = Some(container_id);
        let ghost n2 = self.nodes@;
        assert(n2[parent_id as int] == n1[parent_id as int]);
        self.nodes[container_id].children.push(f);
        let ghost n3 = self.nodes@;
        assert(n3[parent_id as int] == n2[parent_id as int]);
        proof {
            self.lemma_view_index(parent_id as int);
            assert(self.nodes@[parent_id as int]@ == v0.nodes[parent_id as int]);
        }
        let pos = position_in(&self.nodes[parent_id].children, f);
        proof {
            lemma_replace_first_facts(v0.nodes[parent_id as int].children, f, container_id);
        }
        match pos {
            Some(k) => {
                self.nodes[parent_id].children.set(k, container_id);
            },
            None => {},
        }
        proof {
            self.rank@ = self.rank@.update(f as int, r0[parent_id as int] + 2);
        }
        let ghost w = v0.wrapped(f, direction);
        assert forall|i: int| 0 <= i < w.nodes.len() implies self@.nodes[i] == w.nodes[i] by {
            self.lemma_view_index(i);
            assert(vn1.nodes[i] == n1[i]@);
            if i == container_id as int {
                assert(n3[i].children@ == n2[i].children@.push(f));
                assert(n2[i].children@ =~= Seq::<usize>::empty());
                assert(n3[i].children@ =~= seq![f]);
            } else if i == f as int {
                assert(n1[i]@ == v0.nodes[i]);
            } else if i == parent_id as int {
            } else {
                assert(n1[i]@ == v0.nodes[i]);
            }
        }
        assert(self@.nodes =~= w.nodes);
        proof {
            lemma_wrapped_wf(v0, r0, f, direction, self.rank@);
        }
        container_id
    }

    /// Make the focused leaf its own container so the next window splits inside it.
    fn ensure_focused_is_container(&mut self)
        requires
            old(self).wf(),
            old(self)@.has_room(1),
        ensures
            final(self).wf(),
            final(self)@ == old(self)@.after_ensure_container(),
    {
        let f = self.focused_id;
        proof {
            self.lemma_view_index(f as int);
        }
        if self.nodes[f].hwnd.is_none() {
            return;
        }
        if self.nodes[f].parent.is_none() {
            return;
        }
        let direction = self.nodes[f].direction;
        let container_id = self.wrap_leaf(f, direction);
        self.focused_id = container_id;
    }

    pub fn toggle_split(&mut self)
        requires
            old(self).wf(),
        ensures
            final(self).wf(),
            final(self)@ == old(self)@.after_toggle_split(),
    {
        proof {
            self.lemma_view_index(self.focused_id as int);
        }
        if self.nodes[self.focused_id].hwnd.is_some() {
            match self.nodes[self.focused_id].parent {
                Some(pid) => {
                    self.focused_id = pid;
                },
                None => {},
            }
        }
        let t = self.focused_id;
        proof {
            self.lemma_view_index(t as int);
        }
        let dir = self.nodes[t].direction.toggle();
        self.nodes[t].direction = dir;
        proof {
            self.lemma_view_index(t as int);
        }
        assert(self@.nodes =~= old(self)@.after_toggle_split().nodes);
    }

    pub fn set_split_horizontal(&mut self)
        requires
            old(self).wf(),
            old(self)@.has_room(1),
        ensures
            final(self).wf(),
            final(self)@ == old(self)@.after_set_split(SplitDirection::Horizontal),
    {
        self.ensure_focused_is_container();
        self.set_focused_direction(SplitDirection::Horizontal);
    }

    pub fn set_split_vertical(&mut self)
        requires
            old(self).wf(),
            old(self)@.has_room(1),
        ensures
            final(self).wf(),
            final(self)@ == old(self)@.after_set_split(SplitDirection::Vertical),
    {
        self.ensure_focused_is_container();
        self.set_focused_direction(SplitDirection::Vertical);
    }

    fn set_focused_direction(&mut self, dir: SplitDirection)
        requires
            old(self).wf(),
        ensures
            final(self).wf(),
            final(self)@ == old(self)@.set_node(
                old(self)@.focused_id as int,
                NodeView { direction: dir, ..old(self)@.nodes[old(self)@.focused_id as int] },
            ),
    {
        let f = self.focused_id;
        proof {
            self.lemma_view_index(f as int);
        }
        self.nodes[f].direction = dir;
        proof {
            self.lemma_view_index(f as int);
        }
        assert(self@.nodes =~= old(self)@.set_node(
            f as int,
            NodeView { direction: dir, ..old(self)@.nodes[f as int] },
        ).nodes);
    }

    /// Add a window next to the focused node. The new window becomes a sibling.
    /// The parent container's split direction determines placement.
    #[verifier::rlimit(40)]
    pub fn add_window(&mut self, hwnd: isize) -> (id: usize)
        requires
            old(self).wf(),
            old(self)@.find(hwnd) is Some || old(self)@.has_room(2),
        ensures
            final(self).wf(),
            (final(self)@, id) == old(self)@.after_add_window(hwnd),
    {
        match self.find_window(hwnd) {
            Some(existing_id) => {
                proof {
                    lemma_find_some(self@, hwnd);
                }
                self.focused_id = existing_id;
                return existing_id;
            },
            None => {},
        }
        let f = self.focused_id;
        proof {
            self.lemma_view_index(f as int);
        }
        match self.nodes[f].parent {
            None => {
                let root = self.root_id;
                let new_id = self.add_leaf(hwnd, Some(root));
                proof {
                    self.lemma_fresh_not_child(root, new_id);
                }
                self.attach_leaf(new_id);
                self.focused_id = new_id;
                new_id
            },
            Some(parent_id) => {
                assert(self@.nodes[f as int].parent == Some(parent_id));
                if self.nodes[f].hwnd.is_some() {
                    proof {
                        self.lemma_view_index(parent_id as int);
                    }
                    let parent_direction = self.nodes[parent_id].direction;
                    let ghost before = self@;
                    let container_id = self.wrap_leaf(f, parent_direction);
                    proof {
                        lemma_find_none(before.nodes, hwnd, before.nodes.len() as int);
                        assert forall|j: int| 0 <= j < self@.nodes.len() implies self@.nodes[j].hwnd != Some(hwnd) by {
                            if j < before.nodes.len() {
                                assert(self@.nodes[j].hwnd == before.nodes[j].hwnd);
                            }
                        }
                        lemma_find_absent(self@.nodes, hwnd, self@.nodes.len() as int);
                    }
                    let new_id = self.add_leaf(hwnd, Some(container_id));
                    proof {
                        self.lemma_fresh_not_child(container_id, new_id);
                    }
                    self.attach_leaf(new_id);
                    self.focused_id = new_id;
                    new_id
                } else {
                    let new_id = self.add_leaf(hwnd, Some(f));
                    proof {
                        self.lemma_fresh_not_child(f, new_id);
                    }
                    self.attach_leaf(new_id);
                    self.focused_id = new_id;
                    new_id
                }
            },
        }
    }

    /// A freshly appended node is no child of an older node yet.
    proof fn lemma_fresh_not_child(&self, p: usize, n: usize)
        requires
            self@.well_formed_except(n as int),
            n == self@.nodes.len() - 1,
            p < n,
            self@.nodes[n as int].parent == Some(p),
            self@.nodes[p as int].children.len() == 0 || (forall|k: int|
                0 <= k < self@.nodes[p as int].children.len() ==> self@.nodes[p as int].children[k] < n),
        ensures
            !self@.nodes[p as int].children.contains(n),
    {
    }

    pub fn remove_window(&mut self, hwnd: isize)
        requires
            old(self).wf(),
        ensures
            final(self).wf(),
            final(self)@ == old(self)@.after_remove_window(hwnd),
    {
        let target_id = match self.find_window(hwnd) {
            Some(id) => id,
            None => {
                return;
            },
        };
        proof {
            lemma_find_some(self@, hwnd);
        }
        let ghost v0 = self@;
        self.detach_window(target_id);
        let ghost v1 = self@;
        proof {
            lemma_detach_keeps(v0, target_id);
            self.lemma_view_index(target_id as int);
        }
        let ghost e1 = self.nodes@;
        self.nodes[target_id].hwnd = None;
        self.nodes[target_id].children.clear();
        let ghost w = v1.set_node(
            target_id as int,
            NodeView { hwnd: None, children: Seq::empty(), ..v1.nodes[target_id as int] },
        );
        assert forall|i: int| 0 <= i < w.nodes.len() implies self@.nodes[i] == w.nodes[i] by {
            self.lemma_view_index(i);
            assert(v1.nodes[i] == e1[i]@);
            if i == target_id as int {
                assert(self.nodes@[i].children@ =~= Seq::<usize>::empty());
            }
        }
        assert(self@.nodes =~= w.nodes);
        proof {
            lemma_clear_window_wf(v1, self.rank@, target_id as int, w);
        }
    }

    /// Take window node `t` out of its parent's children, move focus off it,
    /// and clean up the containers left empty.
    #[verifier::rlimit(40)]
    fn detach_window(&mut self, target_id: usize)
        requires
            old(self).wf(),
            target_id < old(self)@.nodes.len(),
            old(self)@.nodes[target_id as int].hwnd is Some,
        ensures
            final(self)@.well_formed_except(target_id as int),
            ranks_ok(final(self)@.nodes, final(self).rank@),
            final(self)@ == old(self)@.after_detach(target_id),
    {
        proof {
            reveal(TreeView::after_detach);
            self.lemma_view_index(target_id as int);
        }
        let ghost v0 = self@;
        let parent_id = self.nodes[target_id].parent;
        match parent_id {
            Some(pid) => {
                assert(self@.nodes[target_id as int].parent == Some(pid));
                proof {
                    self.lemma_view_index(pid as int);
                }
                let kept = without_vec(&self.nodes[pid].children, target_id);
                self.nodes[pid].children = kept;
                proof {
                    self.lemma_view_index(pid as int);
                    lemma_without_facts(v0.nodes[pid as int].children, target_id);
                    assert(self@.nodes =~= v0.set_node(
                        pid as int,
                        NodeView { children: without(v0.nodes[pid as int].children, target_id), ..v0.nodes[pid as int] },
                    ).nodes);
                }
                if self.focused_id == target_id {
                    if self.nodes[pid].children.len() == 0 {
                        self.focused_id = pid;
                    } else {
                        self.focused_id = self.nodes[pid].children[0];
                        proof {
                            let nc = without(v0.nodes[pid as int].children, target_id);
                            assert(nc.contains(nc[0]));
                            let jj = choose|jj: int|
                                0 <= jj < v0.nodes[pid as int].children.len() && v0.nodes[pid as int].children[jj] == nc[0];
                            assert(v0.nodes[pid as int].children[jj] < v0.nodes.len());
                        }
                    }
                }
                proof {
                    lemma_remove_child_wf(v0, self.rank@, pid, target_id, target_id as int, self@);
                }
                if pid != self.root_id && self.nodes[pid].children.len() == 0
                    && self.nodes[pid].hwnd.is_none() {
                    let ghost fuel = self.nodes@.len() as nat;
                    self.cleanup_empty_container(pid, Ghost(fuel), Ghost(target_id as int));
                }
            },
            None => {
                proof {
                    lemma_wf_except_weaken(self@, target_id as int);
                }
            },
        }
    }

    #[verifier::rlimit(40)]
    fn cleanup_empty_container(&mut self, container_id: usize, Ghost(fuel): Ghost<nat>, Ghost(exc): Ghost<int>)
        requires
            old(self)@.well_formed_except(exc),
            ranks_ok(old(self)@.nodes, old(self).rank@),
            container_id < old(self)@.nodes.len(),
            old(self)@.nodes[container_id as int].hwnd is None,
            fuel > old(self).rank@[container_id as int],
        ensures
            final(self)@.well_formed_except(exc),
            ranks_ok(final(self)@.nodes, final(self).rank@),
            final(self).rank@ == old(self).rank@,
            final(self)@ == old(self)@.after_cleanup(container_id, fuel),
        decreases fuel,
    {
        proof {
            self.lemma_view_index(container_id as int);
        }
        let ghost v0 = self@;
        match self.nodes[container_id].parent {
            Some(gpid) => {
                assert(self@.nodes[container_id as int].parent == Some(gpid));
                proof {
                    self.lemma_view_index(gpid as int);
                }
                let kept = without_vec(&self.nodes[gpid].children, container_id);
                self.nodes[gpid].children = kept;
                if self.focused_id == container_id {
                    self.focused_id = gpid;
                }
                proof {
                    self.lemma_view_index(gpid as int);
                    lemma_without_facts(v0.nodes[gpid as int].children, container_id);
                    assert(self@.nodes =~= v0.set_node(
                        gpid as int,
                        NodeView { children: without(v0.nodes[gpid as int].children, container_id), ..v0.nodes[gpid as int] },
                    ).nodes);
                    lemma_remove_child_wf(v0, self.rank@, gpid, container_id, exc, self@);
                }
                if gpid != self.root_id && self.nodes[gpid].children.len() == 0
                    && self.nodes[gpid].hwnd.is_none() {
                    self.cleanup_empty_container(gpid, Ghost((fuel - 1) as nat), Ghost(exc));
                }
            },
            None => {},
        }
    }

    /// The ids of all window nodes, in node order.
    fn window_node_ids(&self) -> (r: Vec<usize>)
        requires
            self.wf(),
        ensures
            r@ == self@.window_ids(),
    {
        let mut out: Vec<usize> = Vec::new();
        let mut i: usize = 0;
        while i < self.nodes.len()
            invariant
                i <= self.nodes@.len(),
                self@.nodes.len() == self.nodes@.len(),
                out@ == window_ids_prefix(self@.nodes, i as int),
            decreases self.nodes@.len() - i,
        {
            proof {
                self.lemma_view_index(i as int);
            }
            if self.nodes[i].hwnd.is_some() {
                out.push(self.nodes[i].id);
            }
            i += 1;
        }
        out
    }

    pub fn focus_next_leaf(&mut self)
        requires
            old(self).wf(),
        ensures
            final(self).wf(),
            final(self)@ == old(self)@.after_focus_next(),
    {
        let windows = self.window_node_ids();
        if windows.len() == 0 {
            return;
        }
        let pos = match position_in(&windows, self.focused_id) {
            Some(k) => k,
            None => 0,
        };
        proof {
            lemma_position_prefix(windows@, self.focused_id, windows@.len() as int);
            lemma_window_ids_valid(self@, self@.nodes.len() as int);
        }
        let next = (pos + 1) % windows.len();
        self.focused_id = windows[next];
    }

    pub fn focus_prev_leaf(&mut self)
        requires
            old(self).wf(),
        ensures
            final(self).wf(),
            final(self)@ == old(self)@.after_focus_prev(),
    {
        let windows = self.window_node_ids();
        if windows.len() == 0 {
            return;
        }
        let pos = match position_in(&windows, self.focused_id) {
            Some(k) => k,
            None => 0,
        };
        proof {
            lemma_position_prefix(windows@, self.focused_id, windows@.len() as int);
            lemma_window_ids_valid(self@, self@.nodes.len() as int);
        }
        let prev = if pos == 0 {
            windows.len() - 1
        } else {
            pos - 1
        };
        self.focused_id = windows[prev];
    }

    /// Swap two window nodes in the tree by exchanging their positions.
    fn swap_nodes(&mut self, a_id: usize, b_id: usize)
        requires
            old(self).wf(),
            a_id < old(self)@.nodes.len(),
            b_id < old(self)@.nodes.len(),
            old(self)@.nodes[a_id as int].hwnd is Some,
            old(self)@.nodes[b_id as int].hwnd is Some,
        ensures
            final(self).wf(),
            final(self)@ == old(self)@.after_swap(a_id, b_id),
    {
        if a_id == b_id {
            return;
        }
        let ghost v0 = self@;
        let ghost r0 = self.rank@;
        proof {
            self.lemma_view_index(a_id as int);
            self.lemma_view_index(b_id as int);
        }
        let (a_parent, b_parent) = match (self.nodes[a_id].parent, self.nodes[b_id].parent) {
            (Some(pa), Some(pb)) => (pa, pb),
            _ => {
                return;
            },
        };
        assert(v0.nodes[a_id as int].parent == Some(a_parent));
        assert(v0.nodes[b_id as int].parent == Some(b_parent));
        let ghost e0 = self.nodes@;
        self.nodes[a_id].parent = Some(b_parent);
        self.nodes[b_id].parent = Some(a_parent);
        let ghost e1 = self.nodes@;
        let ghost v1 = v0.set_node(a_id as int, NodeView { parent: Some(b_parent), ..v0.nodes[a_id as int] }).set_node(
            b_id as int,
            NodeView { parent: Some(a_parent), ..v0.nodes[b_id as int] },
        );
        assert forall|i: int| 0 <= i < v1.nodes.len() implies e1[i]@ == v1.nodes[i] by {
            self.lemma_view_index(i);
            assert(v0.nodes[i] == e0[i]@);
        }
        if a_parent == b_parent {
            let a_pos = position_in(&self.nodes[a_parent].children, a_id);
            let b_pos = position_in(&self.nodes[a_parent].children, b_id);
            proof {
                lemma_position_prefix(e1[a_parent as int].children@, a_id, e1[a_parent as int].children@.len() as int);
                lemma_position_prefix(e1[a_parent as int].children@, b_id, e1[a_parent as int].children@.len() as int);
            }
            match (a_pos, b_pos) {
                (Some(x), Some(y)) => {
                    let cx = self.nodes[a_parent].children[x];
                    let cy = self.nodes[a_parent].children[y];
                    self.nodes[a_parent].children.set(x, cy);
                    self.nodes[a_parent].children.set(y, cx);
                },
                _ => {},
            }
        } else {
            let a_pos = position_in(&self.nodes[a_parent].children, a_id);
            proof {
                lemma_position_prefix(e1[a_parent as int].children@, a_id, e1[a_parent as int].children@.len() as int);
            }
            match a_pos {
                Some(k) => {
                    self.nodes[a_parent].children.set(k, b_id);
                },
                None => {},
            }
            let ghost e2 = self.nodes@;
            let b_pos = position_in(&self.nodes[b_parent].children, b_id);
            proof {
                lemma_position_prefix(e2[b_parent as int].children@, b_id, e2[b_parent as int].children@.len() as int);
            }
            match b_pos {
                Some(k) => {
                    self.nodes[b_parent].children.set(k, a_id);
                },
                None => {},
            }
        }
        proof {
            self.rank@ = r0.update(a_id as int, r0[b_id as int]).update(b_id as int, r0[a_id as int]);
        }
        let ghost w = v0.after_swap(a_id, b_id);
        assert forall|i: int| 0 <= i < w.nodes.len() implies self@.nodes[i] == w.nodes[i] by {
            self.lemma_view_index(i);
            lemma_replace_first_facts(v1.nodes[a_parent as int].children, a_id, b_id);
            lemma_replace_first_facts(v1.nodes[b_parent as int].children, b_id, a_id);
        }
        assert(self@.nodes =~= w.nodes);
        proof {
            lemma_swap_wf(v0, r0, a_id, b_id, self.rank@);
        }
    }

    /// The windows shown under the tree's layout mode.
    pub fn visible_windows(&self) -> (r: Vec<isize>)
        ensures
            r@ == self@.visible(),
    {
        if self.layout == Layout::Monocle {
            match self.monocle_focused {
                Some(id) => {
                    let mut out: Vec<isize> = Vec::new();
                    if id < self.nodes.len() {
                        proof {
                            self.lemma_view_index(id as int);
                        }
                        match self.nodes[id].hwnd {
                            Some(h) => {
                                out.push(h);
                                assert(out@ =~= seq![h]);
                            },
                            None => {},
                        }
                    }
                    return out;
                },
                None => {
                    return Vec::new();
                },
            }
        }
        self.all_windows()
    }

    /// Recursive layout calculation
    pub fn calculate_layouts(&self, area: Rect, gap: i32) -> (r: Vec<(isize, Rect)>)
        requires
            self.wf(),
            self@.layout_fits(area, gap as int),
        ensures
            r@ == self@.layouts(area, gap as int),
    {
        if self.layout == Layout::Monocle || self.layout == Layout::Stacking {
            let visible = self.visible_windows();
            let mut out: Vec<(isize, Rect)> = Vec::new();
            let mut i: usize = 0;
            while i < visible.len()
                invariant
                    i <= visible@.len(),
                    out@ =~= visible@.take(i as int).map_values(|h: isize| (h, area)),
                decreases visible@.len() - i,
            {
                out.push((visible[i], area));
                assert(visible@.take(i + 1) =~= visible@.take(i as int).push(visible@[i as int]));
                i += 1;
            }
            assert(visible@.take(visible@.len() as int) =~= visible@);
            return out;
        }
        let mut results: Vec<(isize, Rect)> = Vec::new();
        proof {
            assert(self.rank@[0] < self@.nodes.len());
        }
        self.calculate_node(self.root_id, area, gap, &mut results, Ghost(self.nodes@.len() as nat));
        assert(results@ =~= self@.layouts(area, gap as int));
        results
    }

    fn is_leaf_or_has_windows(&self, node_id: usize) -> (r: bool)
        ensures
            r == self@.is_live(node_id as int),
    {
        if node_id < self.nodes.len() {
            proof {
                self.lemma_view_index(node_id as int);
            }
            self.nodes[node_id].hwnd.is_some() || self.nodes[node_id].children.len() > 0
        } else {
            false
        }
    }

    /// The children of `node_id` that take part in the layout.
    fn live_children_of(&self, node_id: usize) -> (r: Vec<usize>)
        requires
            self.wf(),
            node_id < self@.nodes.len(),
        ensures
            r@ == live_children(self@, self@.nodes[node_id as int].children),
            forall|k: int| 0 <= k < r@.len() ==> self@.nodes[node_id as int].children.contains(#[trigger] r@[k]),
    {
        proof {
            self.lemma_view_index(node_id as int);
        }
        let children = &self.nodes[node_id].children;
        let ghost ch = children@;
        let mut out: Vec<usize> = Vec::new();
        let mut i: usize = 0;
        while i < children.len()
            invariant
                i <= ch.len(),
                children@ == ch,
                ch == self@.nodes[node_id as int].children,
                out@ == live_prefix(self@, ch, i as int),
                forall|k: int| 0 <= k < out@.len() ==> ch.contains(#[trigger] out@[k]),
            decreases ch.len() - i,
        {
            let c = children[i];
            if self.is_leaf_or_has_windows(c) {
                out.push(c);
                assert(ch[i as int] == c);
            }
            i += 1;
        }
        out
    }

    fn calculate_node(
        &self,
        node_id: usize,
        area: Rect,
        gap: i32,
        results: &mut Vec<(isize, Rect)>,
        Ghost(fuel): Ghost<nat>,
    )
        requires
            self.wf(),
            fits_node(self@, node_id as int, area, gap as int, fuel),
            node_id < self@.nodes.len() ==> fuel + self.rank@[node_id as int] >= self@.nodes.len(),
        ensures
            final(results)@ == old(results)@ + layout_node(self@, node_id as int, area, gap as int, fuel),
        decreases fuel,
    {
        if node_id >= self.nodes.len() {
            assert(final(results)@ =~= old(results)@ + layout_node(self@, node_id as int, area, gap as int, fuel));
            return;
        }
        proof {
            self.lemma_view_index(node_id as int);
            assert(self.rank@[node_id as int] < self@.nodes.len());
        }
        match self.nodes[node_id].hwnd {
            Some(hwnd) => {
                results.push((hwnd, area));
                assert(final(results)@ =~= old(results)@ + layout_node(self@, node_id as int, area, gap as int, fuel));
                return;
            },
            None => {},
        }
        let leaf_children = self.live_children_of(node_id);
        let ghost lc = leaf_children@;
        proof {
            assert forall|k: int| 0 <= k < lc.len() implies {
                &&& #[trigger] lc[k] < self@.nodes.len()
                &&& self.rank@[lc[k] as int] > self.rank@[node_id as int]
            } by {
                let ch = self@.nodes[node_id as int].children;
                assert(ch.contains(lc[k]));
                let j = choose|j: int| 0 <= j < ch.len() && ch[j] == lc[k];
                assert(self@.nodes[node_id as int].children[j] == lc[k]);
                assert(self@.nodes[lc[k] as int].parent == Some(node_id));
            }
        }
        if leaf_children.len() == 0 {
            assert(final(results)@ =~= old(results)@ + layout_node(self@, node_id as int, area, gap as int, fuel));
            return;
        }
        let n = leaf_children.len();
        if n == 1 {
            self.calculate_node(leaf_children[0], area, gap, results, Ghost((fuel - 1) as nat));
            return;
        }
        let ghost dir = self@.nodes[node_id as int].direction;
        let ghost f1 = (fuel - 1) as nat;
        let ghost start = results@;
        proof {
            lemma_fits_children_each(self@, lc, area, gap as int, dir, n as int, f1);
        }
        let n32 = n as i32;
        match self.nodes[node_id].direction {
            SplitDirection::Horizontal => {
                assert(child_area_fits(area, gap as int, dir, lc.len() as int, 0));
                let cell_width = (area.width - gap * (n32 - 1)) / n32;
                assert(cell_width == cell_size(area.width as int, gap as int, n as int));
                let mut i: usize = 0;
                while i < n
                    invariant
                        n == lc.len(),
                        leaf_children@ == lc,
                        n >= 2,
                        n32 == n,
                        i <= n,
                        dir == SplitDirection::Horizontal,
                        cell_width == cell_size(area.width as int, gap as int, n as int),
                        self.wf(),
                        fuel >= 1,
                        f1 == fuel - 1,
                        forall|k: int| 0 <= k < lc.len() ==> #[trigger] lc[k] < self@.nodes.len()
                            && self.rank@[lc[k] as int] > self.rank@[node_id as int],
                        node_id < self@.nodes.len(),
                        fuel + self.rank@[node_id as int] >= self@.nodes.len(),
                        forall|k: int|
                            #![trigger lc[k]]
                            #![trigger child_area_fits(area, gap as int, dir, lc.len() as int, k)]
                            0 <= k < n ==> {
                                &&& child_area_fits(area, gap as int, dir, lc.len() as int, k)
                                &&& fits_node(self@, lc[k] as int, child_area(area, gap as int, dir, lc.len() as int, k), gap as int, f1)
                            },
                        results@ == start + layout_children(self@, lc, area, gap as int, dir, i as int, f1),
                    decreases n - i,
                {
                    assert(child_area_fits(area, gap as int, dir, lc.len() as int, i as int));
                    let x = area.x + (i as i32) * (cell_width + gap);
                    let w = if cell_width < 1 {
                        1
                    } else {
                        cell_width
                    };
                    let child_area_rect = Rect::new(x, area.y, w, area.height);
                    assert(child_area_rect == child_area(area, gap as int, dir, n as int, i as int));
                    let ghost before = results@;
                    self.calculate_node(leaf_children[i], child_area_rect, gap, results, Ghost(f1));
                    assert(results@ =~= start + layout_children(self@, lc, area, gap as int, dir, i + 1, f1));
                    i += 1;
                }
            },
            SplitDirection::Vertical => {
                assert(child_area_fits(area, gap as int, dir, lc.len() as int, 0));
                let cell_height = (area.height - gap * (n32 - 1)) / n32;
                assert(cell_height == cell_size(area.height as int, gap as int, n as int));
                let mut i: usize = 0;
                while i < n
                    invariant
                        n == lc.len(),
                        leaf_children@ == lc,
                        n >= 2,
                        n32 == n,
                        i <= n,
                        dir == SplitDirection::Vertical,
                        cell_height == cell_size(area.height as int, gap as int, n as int),
                        self.wf(),
                        fuel >= 1,
                        f1 == fuel - 1,
                        forall|k: int| 0 <= k < lc.len() ==> #[trigger] lc[k] < self@.nodes.len()
                            && self.rank@[lc[k] as int] > self.rank@[node_id as int],
                        node_id < self@.nodes.len(),
                        fuel + self.rank@[node_id as int] >= self@.nodes.len(),
                        forall|k: int|
                            #![trigger lc[k]]
                            #![trigger child_area_fits(area, gap as int, dir, lc.len() as int, k)]
                            0 <= k < n ==> {
                                &&& child_area_fits(area, gap as int, dir, lc.len() as int, k)
                                &&& fits_node(self@, lc[k] as int, child_area(area, gap as int, dir, lc.len() as int, k), gap as int, f1)
                            },
                        results@ == start + layout_children(self@, lc, area, gap as int, dir, i as int, f1),
                    decreases n - i,
                {
                    assert(child_area_fits(area, gap as int, dir, lc.len() as int, i as int));
                    let y = area.y + (i as i32) * (cell_height + gap);
                    let h = if cell_height < 1 {
                        1
                    } else {
                        cell_height
                    };
                    let child_area_rect = Rect::new(area.x, y, area.width, h);
                    assert(child_area_rect == child_area(area, gap as int, dir, n as int, i as int));
                    self.calculate_node(leaf_children[i], child_area_rect, gap, results, Ghost(f1));
                    assert(results@ =~= start + layout_children(self@, lc, area, gap as int, dir, i + 1, f1));
                    i += 1;
                }
            },
        }
        assert(results@ =~= old(results)@ + layout_node(self@, node_id as int, area, gap as int, fuel));
    }

    /// Whether the layout of node `node_id` in `area` computes within `i32`.
    fn node_fits(&self, node_id: usize, area: Rect, gap: i32, Ghost(fuel): Ghost<nat>) -> (r: bool)
        requires
            self.wf(),
            node_id < self@.nodes.len() ==> fuel + self.rank@[node_id as int] >= self@.nodes.len(),
        ensures
            r == fits_node(self@, node_id as int, area, gap as int, fuel),
        decreases fuel,
    {
        if node_id >= self.nodes.len() {
            return true;
        }
        proof {
            self.lemma_view_index(node_id as int);
            assert(self.rank@[node_id as int] < self@.nodes.len());
        }
        if self.nodes[node_id].hwnd.is_some() {
            return true;
        }
        let leaf_children = self.live_children_of(node_id);
        let ghost lc = leaf_children@;
        proof {
            assert forall|k: int| 0 <= k < lc.len() implies {
                &&& #[trigger] lc[k] < self@.nodes.len()
                &&& self.rank@[lc[k] as int] > self.rank@[node_id as int]
            } by {
                let ch = self@.nodes[node_id as int].children;
                assert(ch.contains(lc[k]));
                let j = choose|j: int| 0 <= j < ch.len() && ch[j] == lc[k];
                assert(self@.nodes[node_id as int].children[j] == lc[k]);
                assert(self@.nodes[lc[k] as int].parent == Some(node_id));
            }
        }
        let n = leaf_children.len();
        if n == 0 {
            return true;
        }
        if n == 1 {
            return self.node_fits(leaf_children[0], area, gap, Ghost((fuel - 1) as nat));
        }
        let dir = self.nodes[node_id].direction;
        let ghost f1 = (fuel - 1) as nat;
        assert(fits_node(self@, node_id as int, area, gap as int, fuel) == fits_children(self@, lc, area, gap as int, dir, n as int, f1));
        let mut i: usize = 0;
        while i < n
            invariant
                fits_node(self@, node_id as int, area, gap as int, fuel) == fits_children(self@, lc, area, gap as int, dir, n as int, f1),
                n == lc.len(),
                leaf_children@ == lc,
                n >= 2,
                i <= n,
                dir == self@.nodes[node_id as int].direction,
                self.wf(),
                fuel >= 1,
                f1 == fuel - 1,
                forall|k: int| 0 <= k < lc.len() ==> #[trigger] lc[k] < self@.nodes.len()
                    && self.rank@[lc[k] as int] > self.rank@[node_id as int],
                node_id < self@.nodes.len(),
                fuel + self.rank@[node_id as int] >= self@.nodes.len(),
                fits_children(self@, lc, area, gap as int, dir, i as int, f1),
            decreases n - i,
        {
            let child = match child_area_checked(area, gap, dir, n, i) {
                Some(c) => c,
                None => {
                    proof {
                        if fits_children(self@, lc, area, gap as int, dir, n as int, f1) {
                            lemma_fits_children_each(self@, lc, area, gap as int, dir, n as int, f1);
                            assert(child_area_fits(area, gap as int, dir, lc.len() as int, i as int));
                        }
                    }
                    return false;
                },
            };
            if !self.node_fits(leaf_children[i], child, gap, Ghost(f1)) {
                proof {
                    if fits_children(self@, lc, area, gap as int, dir, n as int, f1) {
                        lemma_fits_children_each(self@, lc, area, gap as int, dir, n as int, f1);
                        assert(fits_node(self@, lc[i as int] as int, child_area(area, gap as int, dir, lc.len() as int, i as int), gap as int, f1));
                    }
                }
                return false;
            }
            i += 1;
        }
        true
    }

    /// Whether computing the layout of `area` with `gap` stays within `i32`.
    pub fn layout_fits(&self, area: Rect, gap: i32) -> (r: bool)
        requires
            self.wf(),
        ensures
            r == self@.layout_fits(area, gap as int),
    {
        if self.layout == Layout::Monocle || self.layout == Layout::Stacking {
            return true;
        }
        proof {
            assert(self.rank@[0] < self@.nodes.len());
        }
        self.node_fits(self.root_id, area, gap, Ghost(self.nodes@.len() as nat))
    }

    /// Whether the search for a window on the side `dir` of the focused one
    /// computes within `i32`.
    pub fn direction_fits(&self, dir: &FocusDirection, area: Rect) -> (r: bool)
        requires
            self.wf(),
        ensures
            r == self@.direction_fits(dir.dx, dir.dy, area),
    {
        if !self.layout_fits(area, 0) {
            return false;
        }
        let h = match self.focused_hwnd() {
            Some(h) => h,
            None => {
                return true;
            },
        };
        let layouts = self.calculate_layouts(area, 0);
        let cur = match rect_of(&layouts, h) {
            Some(c) => c,
            None => {
                return true;
            },
        };
        side_sums_check(&layouts, h, cur, dir)
    }

    /// Spatial focus navigation across all windows in the tree: the node of
    /// the nearest window on the side `dir` of the focused window. Distances
    /// between window centres are compared exactly, in integers.
    pub fn focus_direction(&mut self, dir: &FocusDirection, area: Rect) -> (r: Option<usize>)
        requires
            old(self).wf(),
            old(self)@.direction_fits(dir.dx, dir.dy, area),
        ensures
            final(self)@ == old(self)@,
            final(self).wf(),
            r == match old(self)@.target_in_direction(dir.dx, dir.dy, area) {
                Some(t) => old(self)@.find(t),
                None => None,
            },
    {
        let current_hwnd = match self.focused_hwnd() {
            Some(h) => h,
            None => {
                return None;
            },
        };
        let layouts = self.calculate_layouts(area, 0);
        let current_rect = match rect_of(&layouts, current_hwnd) {
            Some(r) => r,
            None => {
                return None;
            },
        };
        match best_in_direction(&layouts, current_hwnd, current_rect, dir) {
            Some(target_hwnd) => self.find_window(target_hwnd),
            None => None,
        }
    }

    /// Move the focused window within the tree in the given direction.
    /// This swaps positions by restructuring the tree, not by pixel movement.
    pub fn move_focused_in_direction(&mut self, dir: &FocusDirection, area: Rect) -> (moved: bool)
        requires
            old(self).wf(),
            old(self)@.direction_fits(dir.dx, dir.dy, area),
        ensures
            final(self).wf(),
            (final(self)@, moved) == old(self)@.after_move_focused(dir.dx, dir.dy, area),
    {
        let focused_hwnd = match self.focused_hwnd() {
            Some(h) => h,
            None => {
                return false;
            },
        };
        let layouts = self.calculate_layouts(area, 0);
        let current_rect = match rect_of(&layouts, focused_hwnd) {
            Some(r) => r,
            None => {
                return false;
            },
        };
        let target_hwnd = match best_in_direction(&layouts, focused_hwnd, current_rect, dir) {
            Some(h) => h,
            None => {
                return false;
            },
        };
        let target_id = match self.find_window(target_hwnd) {
            Some(id) => id,
            None => {
                return false;
            },
        };
        proof {
            lemma_find_some(self@, target_hwnd);
        }
        self.swap_nodes(self.focused_id, target_id);
        true
    }

    /// Switch the layout mode; monocle remembers the node focused now.
    pub fn set_layout(&mut self, layout: Layout)
        requires
            old(self).wf(),
        ensures
            final(self).wf(),
            final(self)@ == (TreeView {
                layout,
                monocle_focused: if layout == Layout::Monocle {
                    Some(old(self)@.focused_id)
                } else {
                    None
                },
                ..old(self)@
            }),
    {
        self.layout = layout;
        if layout == Layout::Monocle {
            self.monocle_focused = Some(self.focused_id);
        } else {
            self.monocle_focused = None;
        }
    }
}

/// Once a window is found in a prefix, longer prefixes find the same node.
pub proof fn lemma_find_prefix_stable(nodes: Seq<NodeView>, h: isize, n: int, m: int)
    requires
        0 <= n <= m,
        find_prefix(nodes, h, n) is Some,
    ensures
        find_prefix(nodes, h, m) == find_prefix(nodes, h, n),
    decreases m - n,
{
    if m > n {
        lemma_find_prefix_stable(nodes, h, n, m - 1);
    }
}

/// A found window is held by the node found, and by no other.
pub proof fn lemma_find_some(v: TreeView, h: isize)
    requires
        v.well_formed(),
        v.find(h) is Some,
    ensures
        v.find(h)->0 < v.nodes.len(),
        v.nodes[v.find(h)->0 as int].hwnd == Some(h),
{
    lemma_find_prefix_some(v.nodes, h, v.nodes.len() as int);
}

/// A window found in a prefix is held by the node found.
pub proof fn lemma_find_prefix_some(nodes: Seq<NodeView>, h: isize, n: int)
    requires
        0 <= n <= nodes.len(),
        find_prefix(nodes, h, n) is Some,
    ensures
        exists|j: int|
            0 <= j < n && nodes[j].hwnd == Some(h) && nodes[j].id == find_prefix(nodes, h, n)->0,
    decreases n,
{
    if n > 0 {
        if find_prefix(nodes, h, n - 1) is Some {
            lemma_find_prefix_some(nodes, h, n - 1);
        } else {
            assert(nodes[n - 1].hwnd == Some(h));
        }
    }
}

/// A prefix with no node holding `h` finds nothing.
pub proof fn lemma_find_absent(nodes: Seq<NodeView>, h: isize, n: int)
    requires
        0 <= n <= nodes.len(),
        forall|j: int| 0 <= j < n ==> nodes[j].hwnd != Some(h),
    ensures
        find_prefix(nodes, h, n) is None,
    decreases n,
{
    if n > 0 {
        lemma_find_absent(nodes, h, n - 1);
    }
}

/// A prefix in which window `h` is not found holds no node with `h`.
pub proof fn lemma_find_none(nodes: Seq<NodeView>, h: isize, n: int)
    requires
        0 <= n <= nodes.len(),
        find_prefix(nodes, h, n) is None,
    ensures
        forall|j: int| 0 <= j < n ==> nodes[j].hwnd != Some(h),
    decreases n,
{
    if n > 0 {
        lemma_find_none(nodes, h, n - 1);
    }
}

/// What `position` finds.
pub proof fn lemma_position_prefix(s: Seq<usize>, x: usize, n: int)
    requires
        0 <= n <= s.len(),
    ensures
        match position_prefix(s, x, n) {
            Some(k) => 0 <= k < n && s[k] == x && forall|j: int| 0 <= j < k ==> s[j] != x,
            None => forall|j: int| 0 <= j < n ==> s[j] != x,
        },
    decreases n,
{
    if n > 0 {
        lemma_position_prefix(s, x, n - 1);
    }
}

/// `replace_first` changes the first `a`, if any, into `b` and nothing else.
pub proof fn lemma_replace_first_facts(s: Seq<usize>, a: usize, b: usize)
    ensures
        replace_first(s, a, b).len() == s.len(),
        s.contains(a) <==> position(s, a) is Some,
        position(s, a) matches Some(k) ==> 0 <= k < s.len() && s[k] == a && replace_first(s, a, b)
            == s.update(k, b) && forall|j: int| 0 <= j < k ==> s[j] != a,
        position(s, a) is None ==> replace_first(s, a, b) == s,
{
    lemma_position_prefix(s, a, s.len() as int);
    if s.contains(a) {
        let j = choose|j: int| 0 <= j < s.len() && s[j] == a;
        assert(s[j] == a);
    }
}

/// The position of `x` in `v`.
fn position_in(v: &Vec<usize>, x: usize) -> (r: Option<usize>)
    ensures
        match r {
            Some(k) => position(v@, x) == Some(k as int),
            None => position(v@, x) is None,
        },
{
    let mut i: usize = 0;
    while i < v.len()
        invariant
            i <= v@.len(),
            position_prefix(v@, x, i as int) is None,
        decreases v@.len() - i,
    {
        if v[i] == x {
            assert(position_prefix(v@, x, i + 1) == Some(i as int));
            proof {
                lemma_position_stable(v@, x, i + 1, v@.len() as int);
            }
            return Some(i);
        }
        i += 1;
    }
    None
}

/// Detaching a window node only edits children lists and focus.
pub proof fn lemma_detach_keeps(v: TreeView, t: usize)
    requires
        t < v.nodes.len(),
        v.nodes[t as int].parent matches Some(p) ==> p < v.nodes.len(),
    ensures
        v.after_detach(t).nodes.len() == v.nodes.len(),
        v.after_detach(t).root_id == v.root_id,
        v.after_detach(t).next_id == v.next_id,
        v.after_detach(t).layout == v.layout,
        v.after_detach(t).monocle_focused == v.monocle_focused,
        forall|i: int|
            0 <= i < v.nodes.len() ==> (#[trigger] v.after_detach(t).nodes[i]).hwnd == v.nodes[i].hwnd
                && v.after_detach(t).nodes[i].parent == v.nodes[i].parent
                && v.after_detach(t).nodes[i].id == v.nodes[i].id
                && v.after_detach(t).nodes[i].direction == v.nodes[i].direction,
{
    reveal(TreeView::after_detach);
    match v.nodes[t as int].parent {
        None => {},
        Some(pid) => {
            let pnode = v.nodes[pid as int];
            let ch = without(pnode.children, t);
            let va = TreeView {
                focused_id: if v.focused_id == t {
                    if ch.len() == 0 {
                        pid
                    } else {
                        ch[0]
                    }
                } else {
                    v.focused_id
                },
                ..v.set_node(pid as int, NodeView { children: ch, ..pnode })
            };
            if pid != v.root_id && ch.len() == 0 && pnode.hwnd is None {
                lemma_cleanup_keeps(va, pid, v.nodes.len() as nat);
            }
        },
    }
}

/// A fresh window node under a container keeps the invariant, except that
/// it is not yet listed among the container's children.
proof fn lemma_with_leaf_wf(v: TreeView, r: Seq<nat>, parent: usize, h: isize)
    requires
        v.well_formed(),
        ranks_ok(v.nodes, r),
        v.has_room(1),
        v.find(h) is None,
        parent < v.nodes.len(),
        v.nodes[parent as int].hwnd is None,
    ensures
        v.with_leaf(parent, h).well_formed_except(v.nodes.len() as int),
        ranks_ok(v.with_leaf(parent, h).nodes, r.push(r[parent as int] + 1)),
        !v.with_leaf(parent, h).nodes[parent as int].children.contains(v.nodes.len() as usize),
{
    lemma_find_none(v.nodes, h, v.nodes.len() as int);
    let w = v.with_leaf(parent, h);
    let n = v.nodes.len();
    if v.nodes[parent as int].children.contains(n as usize) {
        let j = choose|j: int| 0 <= j < v.nodes[parent as int].children.len() && v.nodes[parent as int].children[j] == n as usize;
        assert(v.nodes[parent as int].children[j] < n);
    }
    assert forall|i: int, j: int|
        #![trigger w.nodes[i].children[j]]
        0 <= i < w.nodes.len() && 0 <= j < w.nodes[i].children.len() implies {
            let ch = w.nodes[i].children[j] as int;
            &&& 0 <= ch < w.nodes.len()
            &&& w.nodes[ch].parent == Some(i as usize)
        } by {
        assert(w.nodes[i] == v.nodes[i]);
        assert(v.nodes[i].children[j] < n);
    }
    let r2 = r.push(r[parent as int] + 1);
    assert forall|i: int| 0 <= i < w.nodes.len() && (#[trigger] w.nodes[i].parent) is Some implies r2[w.nodes[i].parent->0 as int]
        < r2[i] by {
        if i < n {
            assert(w.nodes[i] == v.nodes[i]);
        }
    }
}

/// Listing the fresh window node `n` among its parent's children restores
/// the invariant.
proof fn lemma_with_child_wf(v: TreeView, r: Seq<nat>, n: usize)
    requires
        v.well_formed_except(n as int),
        ranks_ok(v.nodes, r),
        n == v.nodes.len() - 1,
        v.nodes[n as int].parent is Some,
        !v.nodes[v.nodes[n as int].parent->0 as int].children.contains(n),
    ensures
        v.with_child(v.nodes[n as int].parent->0, n).well_formed(),
        ranks_ok(v.with_child(v.nodes[n as int].parent->0, n).nodes, r),
{
    let v0 = v;
    let p = v.nodes[n as int].parent->0;
    let w = v0.with_child(p, n);
    assert forall|i: int, j: int|
        #![trigger w.nodes[i].children[j]]
        0 <= i < w.nodes.len() && 0 <= j < w.nodes[i].children.len() implies {
            let ch = w.nodes[i].children[j] as int;
            &&& 0 <= ch < w.nodes.len()
            &&& w.nodes[ch].parent == Some(i as usize)
        } by {
        if i == p as int && j < v0.nodes[p as int].children.len() {
            assert(w.nodes[i].children[j] == v0.nodes[i].children[j]);
        }
    }
    assert(w.children_ok());
    assert forall|i: int|
        0 <= i < w.nodes.len() && (#[trigger] w.nodes[i].hwnd) is Some
            && w.nodes[i].parent is Some implies w.nodes[w.nodes[i].parent->0 as int].children.contains(
            i as usize,
        ) by {
        if i == n as int {
            assert(w.nodes[p as int].children.last() == n);
        } else {
            let q = v0.nodes[i].parent->0 as int;
            assert(v0.nodes[q].children.contains(i as usize));
            let jj = choose|jj: int| 0 <= jj < v0.nodes[q].children.len() && v0.nodes[q].children[jj] == i as usize;
            assert(w.nodes[q].children[jj] == i as usize);
        }
    }
}

/// Adding a window keeps a valid tree valid.
pub proof fn law_add_keeps_valid(v: TreeView, h: isize)
    requires
        v.valid(),
        v.has_room(2),
    ensures
        v.after_add_window(h).0.valid(),
{
    let r = choose|r: Seq<nat>| ranks_ok(v.nodes, r);
    match v.find(h) {
        Some(e) => {
            lemma_find_some(v, h);
            assert(ranks_ok(v.after_add_window(h).0.nodes, r));
        },
        None => {
            let f = v.focused_id;
            let fnode = v.nodes[f as int];
            let len = v.nodes.len() as usize;
            let (w, id) = v.after_add_window(h);
            if fnode.parent is None {
                lemma_with_leaf_wf(v, r, v.root_id, h);
                let v1 = v.with_leaf(v.root_id, h);
                let r1 = r.push(r[v.root_id as int] + 1);
                lemma_with_child_wf(v1, r1, len);
                assert(ranks_ok(w.nodes, r1));
            } else if fnode.hwnd is Some {
                assert(v.nodes[f as int].parent is Some);
                let p = fnode.parent->0;
                let r2 = r.push(r[p as int] + 1).update(f as int, r[p as int] + 2);
                lemma_wrapped_wf(v, r, f, v.nodes[p as int].direction, r2);
                let v1 = v.wrapped(f, v.nodes[p as int].direction);
                assert(v1.find(h) is None) by {
                    lemma_find_none(v.nodes, h, v.nodes.len() as int);
                    assert forall|j: int| 0 <= j < v1.nodes.len() implies v1.nodes[j].hwnd != Some(h) by {
                        if j < v.nodes.len() {
                            assert(v1.nodes[j].hwnd == v.nodes[j].hwnd);
                        }
                    }
                    lemma_find_absent(v1.nodes, h, v1.nodes.len() as int);
                }
                lemma_with_leaf_wf(v1, r2, len, h);
                let v2 = v1.with_leaf(len, h);
                let r3 = r2.push(r2[len as int] + 1);
                lemma_with_child_wf(v2, r3, (len + 1) as usize);
                assert(ranks_ok(w.nodes, r3));
            } else {
                lemma_with_leaf_wf(v, r, f, h);
                let v1 = v.with_leaf(f, h);
                let r1 = r.push(r[f as int] + 1);
                lemma_with_child_wf(v1, r1, len);
                assert(ranks_ok(w.nodes, r1));
            }
        },
    }
}

/// Cleaning up empty containers keeps the invariant and the ranks.
pub proof fn lemma_cleanup_wf(v: TreeView, r: Seq<nat>, c: usize, fuel: nat, exc: int)
    requires
        v.well_formed_except(exc),
        ranks_ok(v.nodes, r),
        c < v.nodes.len(),
        v.nodes[c as int].hwnd is None,
        fuel > r[c as int],
    ensures
        v.after_cleanup(c, fuel).well_formed_except(exc),
        ranks_ok(v.after_cleanup(c, fuel).nodes, r),
    decreases fuel,
{
    match v.nodes[c as int].parent {
        None => {},
        Some(gp) => {
            assert(v.nodes[c as int].parent is Some);
            let gnode = v.nodes[gp as int];
            let v1 = TreeView {
                focused_id: if v.focused_id == c {
                    gp
                } else {
                    v.focused_id
                },
                ..v.set_node(gp as int, NodeView { children: without(gnode.children, c), ..gnode })
            };
            lemma_remove_child_wf(v, r, gp, c, exc, v1);
            if gp != v.root_id && v1.nodes[gp as int].children.len() == 0 && v1.nodes[gp as int].hwnd is None {
                assert(r[gp as int] < r[c as int]);
                lemma_cleanup_wf(v1, r, gp, (fuel - 1) as nat, exc);
            }
        },
    }
}

/// Taking window node `t` out of its parent keeps the invariant, except
/// for `t` itself, and the ranks.
pub proof fn lemma_detach_wf(v: TreeView, r: Seq<nat>, t: usize)
    requires
        v.well_formed(),
        ranks_ok(v.nodes, r),
        t < v.nodes.len(),
        v.nodes[t as int].hwnd is Some,
    ensures
        v.after_detach(t).well_formed_except(t as int),
        ranks_ok(v.after_detach(t).nodes, r),
{
    reveal(TreeView::after_detach);
    lemma_wf_except_weaken(v, t as int);
    match v.nodes[t as int].parent {
        None => {},
        Some(pid) => {
            assert(v.nodes[t as int].parent is Some);
            let pnode = v.nodes[pid as int];
            let ch = without(pnode.children, t);
            lemma_without_facts(pnode.children, t);
            if v.focused_id == t && ch.len() > 0 {
                assert(ch.contains(ch[0]));
                let jj = choose|jj: int| 0 <= jj < pnode.children.len() && pnode.children[jj] == ch[0];
                assert(v.nodes[pid as int].children[jj] < v.nodes.len());
            }
            let va = TreeView {
                focused_id: if v.focused_id == t {
                    if ch.len() == 0 {
                        pid
                    } else {
                        ch[0]
                    }
                } else {
                    v.focused_id
                },
                ..v.set_node(pid as int, NodeView { children: ch, ..pnode })
            };
            lemma_remove_child_wf(v, r, pid, t, t as int, va);
            if pid != v.root_id && ch.len() == 0 && pnode.hwnd is None {
                assert(r[pid as int] < v.nodes.len());
                lemma_cleanup_wf(va, r, pid, v.nodes.len() as nat, t as int);
            }
        },
    }
}

/// Removing a window keeps a valid tree valid.
pub proof fn law_remove_keeps_valid(v: TreeView, h: isize)
    requires
        v.valid(),
    ensures
        v.after_remove_window(h).valid(),
{
    let r = choose|r: Seq<nat>| ranks_ok(v.nodes, r);
    lemma_remove_wf(v, r, h);
}

/// Removing a window keeps the invariant and the ranks.
pub proof fn lemma_remove_wf(v: TreeView, r: Seq<nat>, h: isize)
    requires
        v.well_formed(),
        ranks_ok(v.nodes, r),
    ensures
        v.after_remove_window(h).well_formed(),
        ranks_ok(v.after_remove_window(h).nodes, r),
{
    match v.find(h) {
        None => {},
        Some(t) => {
            lemma_find_some(v, h);
            lemma_detach_wf(v, r, t);
            lemma_detach_keeps(v, t);
            let v1 = v.after_detach(t);
            lemma_clear_window_wf(
                v1,
                r,
                t as int,
                v1.set_node(t as int, NodeView { hwnd: None, children: Seq::empty(), ..v1.nodes[t as int] }),
            );
        },
    }
}

/// The full invariant implies the one with an exemption.
proof fn lemma_wf_except_weaken(v: TreeView, n: int)
    requires
        v.well_formed(),
    ensures
        v.well_formed_except(n),
{
}

/// Cleaning up empty containers only edits children lists and focus.
pub proof fn lemma_cleanup_keeps(v: TreeView, c: usize, fuel: nat)
    ensures
        v.after_cleanup(c, fuel).nodes.len() == v.nodes.len(),
        v.after_cleanup(c, fuel).root_id == v.root_id,
        v.after_cleanup(c, fuel).next_id == v.next_id,
        v.after_cleanup(c, fuel).layout == v.layout,
        v.after_cleanup(c, fuel).monocle_focused == v.monocle_focused,
        forall|i: int|
            0 <= i < v.nodes.len() ==> (#[trigger] v.after_cleanup(c, fuel).nodes[i]).hwnd == v.nodes[i].hwnd
                && v.after_cleanup(c, fuel).nodes[i].parent == v.nodes[i].parent
                && v.after_cleanup(c, fuel).nodes[i].id == v.nodes[i].id
                && v.after_cleanup(c, fuel).nodes[i].direction == v.nodes[i].direction,
    decreases fuel,
{
    if fuel > 0 && c < v.nodes.len() {
        match v.nodes[c as int].parent {
            None => {},
            Some(gp) => if gp < v.nodes.len() {
                let gnode = v.nodes[gp as int];
                let v1 = TreeView {
                    focused_id: if v.focused_id == c {
                        gp
                    } else {
                        v.focused_id
                    },
                    ..v.set_node(gp as int, NodeView { children: without(gnode.children, c), ..gnode })
                };
                if gp != v.root_id && v1.nodes[gp as int].children.len() == 0
                    && v1.nodes[gp as int].hwnd is None {
                    lemma_cleanup_keeps(v1, gp, (fuel - 1) as nat);
                }
            },
        }
    }
}

/// What `without` keeps.
pub proof fn lemma_without_facts(s: Seq<usize>, x: usize)
    ensures
        without(s, x).len() <= s.len(),
        forall|e: usize| #[trigger] without(s, x).contains(e) <==> (s.contains(e) && e != x),
        s.no_duplicates() ==> without(s, x).no_duplicates(),
        !s.contains(x) ==> without(s, x) == s,
    decreases s.len(),
{
    if s.len() > 0 {
        let d = s.drop_last();
        lemma_without_facts(d, x);
        let r = without(d, x);
        let ws = without(s, x);
        assert forall|e: usize| #[trigger] ws.contains(e) <==> (s.contains(e) && e != x) by {
            if s.contains(e) && e != x {
                let j = choose|j: int| 0 <= j < s.len() && s[j] == e;
                if j < s.len() - 1 {
                    assert(d[j] == e);
                    assert(d.contains(e));
                    assert(r.contains(e));
                    let k = choose|k: int| 0 <= k < r.len() && r[k] == e;
                    assert(ws[k] == e);
                } else {
                    assert(s.last() == e);
                    assert(ws[r.len() as int] == e);
                }
            }
            if ws.contains(e) {
                let j = choose|j: int| 0 <= j < ws.len() && ws[j] == e;
                if j < r.len() {
                    assert(ws[j] == r[j]);
                    assert(r.contains(e));
                    assert(d.contains(e));
                    let jj = choose|jj: int| 0 <= jj < d.len() && d[jj] == e;
                    assert(s[jj] == e);
                } else {
                    assert(s.last() != x);
                    assert(e == s.last());
                    assert(s[s.len() - 1] == e);
                }
            }
        }
        if s.no_duplicates() {
            assert(d.no_duplicates()) by {
                assert forall|a: int, b: int| 0 <= a < d.len() && 0 <= b < d.len() && a != b implies d[a] != d[b] by {
                    assert(s[a] == d[a] && s[b] == d[b]);
                }
            }
            if s.last() != x {
                assert(!d.contains(s.last())) by {
                    if d.contains(s.last()) {
                        let j = choose|j: int| 0 <= j < d.len() && d[j] == s.last();
                        assert(s[j] == s[s.len() - 1]);
                    }
                }
                assert(!r.contains(s.last()));
                assert forall|a: int, b: int|
                    0 <= a < without(s, x).len() && 0 <= b < without(s, x).len() && a != b implies without(s, x)[a]
                    != without(s, x)[b] by {
                    if a == r.len() as int {
                        assert(r.contains(without(s, x)[b]));
                    } else if b == r.len() as int {
                        assert(r.contains(without(s, x)[a]));
                    }
                }
            }
        }
        if !s.contains(x) {
            assert(!d.contains(x)) by {
                if d.contains(x) {
                    let j = choose|j: int| 0 <= j < d.len() && d[j] == x;
                    assert(s[j] == x);
                }
            }
            assert(s.last() != x);
            assert(s =~= d.push(s.last()));
        }
    }
}

/// `v` without any `x`.
fn without_vec(v: &Vec<usize>, x: usize) -> (r: Vec<usize>)
    ensures
        r@ == without(v@, x),
{
    let mut out: Vec<usize> = Vec::new();
    let mut i: usize = 0;
    while i < v.len()
        invariant
            i <= v@.len(),
            out@ == without(v@.take(i as int), x),
        decreases v@.len() - i,
    {
        assert(v@.take(i + 1).drop_last() =~= v@.take(i as int));
        if v[i] != x {
            out.push(v[i]);
        }
        i += 1;
    }
    assert(v@.take(v@.len() as int) =~= v@);
    out
}

/// Dropping child `c` from the children of `p`, with focus kept on a node,
/// keeps the structure, provided `c` holds no window or is the exempt node.
proof fn lemma_remove_child_wf(v: TreeView, r: Seq<nat>, p: usize, c: usize, exc: int, w: TreeView)
    requires
        v.well_formed_except(exc),
        ranks_ok(v.nodes, r),
        p < v.nodes.len(),
        c < v.nodes.len(),
        c as int == exc || v.nodes[c as int].hwnd is None,
        w.nodes == v.set_node(p as int, NodeView { children: without(v.nodes[p as int].children, c), ..v.nodes[p as int] }).nodes,
        w.root_id == v.root_id,
        w.next_id == v.next_id,
        w.focused_id < w.nodes.len(),
    ensures
        w.well_formed_except(exc),
        ranks_ok(w.nodes, r),
{
    let old_ch = v.nodes[p as int].children;
    let new_ch = without(old_ch, c);
    lemma_without_facts(old_ch, c);
    assert(w.ids_ok());
    assert(w.root_ok());
    assert(w.parents_ok());
    assert forall|i: int, j: int|
        #![trigger w.nodes[i].children[j]]
        0 <= i < w.nodes.len() && 0 <= j < w.nodes[i].children.len() implies {
            let ch = w.nodes[i].children[j] as int;
            &&& 0 <= ch < w.nodes.len()
            &&& w.nodes[ch].parent == Some(i as usize)
        } by {
        if i == p as int {
            assert(new_ch.contains(new_ch[j]));
            let jj = choose|jj: int| 0 <= jj < old_ch.len() && old_ch[jj] == new_ch[j];
            assert(v.nodes[i].children[jj] == new_ch[j]);
        } else {
            assert(w.nodes[i].children[j] == v.nodes[i].children[j]);
        }
    }
    assert forall|i: int| 0 <= i < w.nodes.len() implies (#[trigger] w.nodes[i].children).no_duplicates() by {
        if i == p as int {
            assert(v.nodes[i].children.no_duplicates());
        } else {
            assert(w.nodes[i].children == v.nodes[i].children);
        }
    }
    assert(w.children_ok());
    assert(w.hwnds_unique());
    assert forall|i: int|
        0 <= i < w.nodes.len() && i != exc && (#[trigger] w.nodes[i].hwnd) is Some
            && w.nodes[i].parent is Some implies w.nodes[w.nodes[i].parent->0 as int].children.contains(
            i as usize,
        ) by {
        let q = v.nodes[i].parent->0 as int;
        assert(v.nodes[q].children.contains(i as usize));
        if q == p as int {
            assert(i != c as int);
            assert(new_ch.contains(i as usize));
        }
    }
    assert(w.leaves_attached_except(exc));
    assert forall|i: int|
        0 <= i < w.nodes.len() && (#[trigger] w.nodes[i].parent) is Some implies r[w.nodes[i].parent->0 as int]
        < r[i] by {
        assert(v.nodes[i].parent == w.nodes[i].parent);
    }
}

/// Clearing the exempt window node makes the structure whole again.
proof fn lemma_clear_window_wf(v: TreeView, r: Seq<nat>, t: int, w: TreeView)
    requires
        v.well_formed_except(t),
        ranks_ok(v.nodes, r),
        0 <= t < v.nodes.len(),
        v.nodes[t].hwnd is Some,
        w == v.set_node(t, NodeView { hwnd: None, children: Seq::empty(), ..v.nodes[t] }),
    ensures
        w.well_formed(),
        ranks_ok(w.nodes, r),
{
    assert(w.ids_ok());
    assert(w.root_ok());
    assert(w.parents_ok());
    assert forall|i: int, j: int|
        #![trigger w.nodes[i].children[j]]
        0 <= i < w.nodes.len() && 0 <= j < w.nodes[i].children.len() implies {
            let ch = w.nodes[i].children[j] as int;
            &&& 0 <= ch < w.nodes.len()
            &&& w.nodes[ch].parent == Some(i as usize)
        } by {
        assert(i != t);
        assert(w.nodes[i].children[j] == v.nodes[i].children[j]);
    }
    assert forall|i: int| 0 <= i < w.nodes.len() implies (#[trigger] w.nodes[i].children).no_duplicates() by {
        if i != t {
            assert(w.nodes[i].children == v.nodes[i].children);
        }
    }
    assert(w.children_ok());
    assert(w.hwnds_unique());
    assert forall|i: int|
        0 <= i < w.nodes.len() && (#[trigger] w.nodes[i].hwnd) is Some
            && w.nodes[i].parent is Some implies w.nodes[w.nodes[i].parent->0 as int].children.contains(
            i as usize,
        ) by {
        assert(i != t);
        assert(v.nodes[i].hwnd is Some);
        let q = v.nodes[i].parent->0 as int;
        assert(v.nodes[q].hwnd is None);
        assert(q != t);
        assert(v.nodes[q].children.contains(i as usize));
    }
    assert(w.leaves_attached());
    assert forall|i: int|
        0 <= i < w.nodes.len() && (#[trigger] w.nodes[i].parent) is Some implies r[w.nodes[i].parent->0 as int]
        < r[i] by {
        assert(v.nodes[i].parent == w.nodes[i].parent);
    }
}

/// Once found in a prefix, the position stays the same in longer prefixes.
pub proof fn lemma_position_stable(s: Seq<usize>, x: usize, n: int, m: int)
    requires
        0 <= n <= m,
        position_prefix(s, x, n) is Some,
    ensures
        position_prefix(s, x, m) == position_prefix(s, x, n),
    decreases m - n,
{
    if m > n {
        lemma_position_stable(s, x, n, m - 1);
    }
}

/// Wrapping a window node in a fresh container keeps the tree well formed.
proof fn lemma_wrapped_wf(v: TreeView, r: Seq<nat>, f: usize, dir: SplitDirection, r2: Seq<nat>)
    requires
        v.well_formed(),
        ranks_ok(v.nodes, r),
        v.has_room(1),
        f < v.nodes.len(),
        v.nodes[f as int].hwnd is Some,
        v.nodes[f as int].parent is Some,
        r2 == r.push(r[v.nodes[f as int].parent->0 as int] + 1).update(
            f as int,
            r[v.nodes[f as int].parent->0 as int] + 2,
        ),
    ensures
        v.wrapped(f, dir).well_formed(),
        ranks_ok(v.wrapped(f, dir).nodes, r2),
{
    let w = v.wrapped(f, dir);
    let p = v.nodes[f as int].parent->0;
    let c = v.nodes.len() as usize;
    let old_ch = v.nodes[p as int].children;
    let new_ch = replace_first(old_ch, f, c);
    lemma_replace_first_facts(old_ch, f, c);
    assert(old_ch.contains(f));
    let k = position(old_ch, f)->0;
    assert(w.nodes.len() == v.nodes.len() + 1);
    assert(w.nodes[p as int].children == new_ch);
    assert(w.nodes[c as int].children == seq![f]);
    assert(w.ids_ok());
    assert(w.root_ok());
    assert(w.parents_ok());
    assert forall|i: int, j: int|
        #![trigger w.nodes[i].children[j]]
        0 <= i < w.nodes.len() && 0 <= j < w.nodes[i].children.len() implies {
            let ch = w.nodes[i].children[j] as int;
            &&& 0 <= ch < w.nodes.len()
            &&& w.nodes[ch].parent == Some(i as usize)
        } by {
        if i == p as int {
            if j == k {
            } else {
                assert(new_ch[j] == old_ch[j]);
                assert(v.nodes[i].children[j] == old_ch[j]);
                assert(old_ch[j] != f);
            }
        } else if i == c as int {
        } else {
            assert(w.nodes[i].children[j] == v.nodes[i].children[j]);
            if v.nodes[i].children[j] == f {
                assert(v.nodes[f as int].parent == Some(i as usize));
            }
        }
    }
    assert forall|i: int| 0 <= i < w.nodes.len() implies (#[trigger] w.nodes[i].children).no_duplicates() by {
        if i == p as int {
            assert forall|a: int, b: int| 0 <= a < new_ch.len() && 0 <= b < new_ch.len() && a != b implies new_ch[a] != new_ch[b] by {
                if a == k {
                    assert(v.nodes[p as int].children[b] < v.nodes.len());
                } else if b == k {
                    assert(v.nodes[p as int].children[a] < v.nodes.len());
                }
            }
        }
    }
    assert(w.children_ok());
    assert(w.hwnds_unique());
    assert forall|i: int|
        0 <= i < w.nodes.len() && (#[trigger] w.nodes[i].hwnd) is Some
            && w.nodes[i].parent is Some implies w.nodes[w.nodes[i].parent->0 as int].children.contains(
            i as usize,
        ) by {
        if i == f as int {
            assert(w.nodes[c as int].children[0] == f);
        } else {
            let q = v.nodes[i].parent->0 as int;
            assert(v.nodes[q].children.contains(i as usize));
            let jj = choose|jj: int| 0 <= jj < v.nodes[q].children.len() && v.nodes[q].children[jj] == i as usize;
            if q == p as int {
                assert(new_ch[jj] == i as usize);
            }
        }
    }
    assert(w.leaves_attached());
    assert forall|i: int| 0 <= i < w.nodes.len() implies #[trigger] r2[i] < w.nodes.len() by {
        if i < v.nodes.len() {
            assert(r[i] < v.nodes.len());
        }
    }
    assert forall|i: int|
        0 <= i < w.nodes.len() && (#[trigger] w.nodes[i].parent) is Some implies r2[w.nodes[i].parent->0 as int]
        < r2[i] by {
        if i < v.nodes.len() && i != f as int {
            let q = v.nodes[i].parent->0 as int;
            assert(r[q] < r[i]);
            if q == f as int {
                assert(v.nodes[f as int].hwnd is None);
            }
        }
    }
}

/// Window node ids are valid, hold windows, and strictly increase.
pub proof fn lemma_window_ids_valid(v: TreeView, n: int)
    requires
        v.ids_ok(),
        0 <= n <= v.nodes.len(),
    ensures
        forall|k: int|
            0 <= k < window_ids_prefix(v.nodes, n).len() ==> {
                let id = #[trigger] window_ids_prefix(v.nodes, n)[k];
                &&& id < n
                &&& v.nodes[id as int].hwnd is Some
            },
        forall|k1: int, k2: int|
            0 <= k1 < k2 < window_ids_prefix(v.nodes, n).len() ==> #[trigger] window_ids_prefix(
                v.nodes,
                n,
            )[k1] < #[trigger] window_ids_prefix(v.nodes, n)[k2],
    decreases n,
{
    if n > 0 {
        lemma_window_ids_valid(v, n - 1);
        assert(v.nodes[n - 1].id == n - 1);
    }
}

/// Swapping two window nodes keeps the tree well formed.
#[verifier::rlimit(100)]
proof fn lemma_swap_wf(v: TreeView, r: Seq<nat>, a: usize, b: usize, r2: Seq<nat>)
    requires
        v.well_formed(),
        ranks_ok(v.nodes, r),
        a < v.nodes.len(),
        b < v.nodes.len(),
        a != b,
        v.nodes[a as int].hwnd is Some,
        v.nodes[b as int].hwnd is Some,
        v.nodes[a as int].parent is Some,
        v.nodes[b as int].parent is Some,
        r2 == r.update(a as int, r[b as int]).update(b as int, r[a as int]),
    ensures
        v.after_swap(a, b).well_formed(),
        ranks_ok(v.after_swap(a, b).nodes, r2),
{
    let w = v.after_swap(a, b);
    let pa = v.nodes[a as int].parent->0;
    let pb = v.nodes[b as int].parent->0;
    let ca = v.nodes[pa as int].children;
    let cb = v.nodes[pb as int].children;
    assert(ca.contains(a));
    assert(cb.contains(b));
    lemma_replace_first_facts(ca, a, b);
    lemma_replace_first_facts(cb, b, a);
    lemma_position_prefix(ca, a, ca.len() as int);
    lemma_position_prefix(ca, b, ca.len() as int);
    assert(pa != a && pa != b && pb != a && pb != b);
    let x = position(ca, a)->0;
    let y = position(cb, b)->0;
    assert(w.nodes.len() == v.nodes.len());
    assert(w.ids_ok());
    assert(w.root_ok());
    assert(w.parents_ok());
    assert(w.hwnds_unique());
    // the children lists of the two parents after the swap
    if pa == pb {
        assert(position(ca, b) == Some(y));
        assert(w.nodes[pa as int].children == ca.update(x, ca[y]).update(y, ca[x]));
    } else {
        assert(!ca.contains(b)) by {
            if ca.contains(b) {
                let j = choose|j: int| 0 <= j < ca.len() && ca[j] == b;
                assert(v.nodes[pa as int].children[j] == b);
            }
        }
        assert(!cb.contains(a)) by {
            if cb.contains(a) {
                let j = choose|j: int| 0 <= j < cb.len() && cb[j] == a;
                assert(v.nodes[pb as int].children[j] == a);
            }
        }
        assert(w.nodes[pa as int].children == ca.update(x, b));
        assert(w.nodes[pb as int].children == cb.update(y, a));
    }
    assert forall|i: int, j: int|
        #![trigger w.nodes[i].children[j]]
        0 <= i < w.nodes.len() && 0 <= j < w.nodes[i].children.len() implies {
            let ch = w.nodes[i].children[j] as int;
            &&& 0 <= ch < w.nodes.len()
            &&& w.nodes[ch].parent == Some(i as usize)
        } by {
        if i == pa as int || i == pb as int {
            if i == pa as int {
                assert(ca[j] < v.nodes.len());
                assert(v.nodes[i].children[j] == ca[j]);
            } else {
                assert(cb[j] < v.nodes.len());
                assert(v.nodes[i].children[j] == cb[j]);
            }
            if pa == pb {
                assert(v.nodes[i].children[x] == a);
            }
        } else {
            assert(w.nodes[i].children[j] == v.nodes[i].children[j]);
            let ch = v.nodes[i].children[j];
            if ch == a {
                assert(v.nodes[a as int].parent == Some(i as usize));
            }
            if ch == b {
                assert(v.nodes[b as int].parent == Some(i as usize));
            }
        }
    }
    assert forall|i: int| 0 <= i < w.nodes.len() implies (#[trigger] w.nodes[i].children).no_duplicates() by {
        if i == pa as int || i == pb as int {
            let wc = w.nodes[i].children;
            let oc = v.nodes[i].children;
            assert(oc.no_duplicates());
            assert forall|s: int, t: int| 0 <= s < wc.len() && 0 <= t < wc.len() && s != t implies wc[s] != wc[t] by {
                if pa == pb {
                } else if i == pa as int {
                    if s == x {
                        assert(!ca.contains(b));
                        assert(ca.contains(ca[t]));
                    } else if t == x {
                        assert(ca.contains(ca[s]));
                    }
                } else {
                    if s == y {
                        assert(cb.contains(cb[t]));
                    } else if t == y {
                        assert(cb.contains(cb[s]));
                    }
                }
            }
        } else {
            assert(w.nodes[i].children == v.nodes[i].children);
        }
    }
    assert(w.children_ok());
    assert forall|i: int|
        0 <= i < w.nodes.len() && (#[trigger] w.nodes[i].hwnd) is Some
            && w.nodes[i].parent is Some implies w.nodes[w.nodes[i].parent->0 as int].children.contains(
            i as usize,
        ) by {
        if i == a as int {
            if pa == pb {
                assert(w.nodes[pb as int].children[y] == a);
            } else {
                assert(w.nodes[pb as int].children[y] == a);
            }
        } else if i == b as int {
            if pa == pb {
                assert(w.nodes[pa as int].children[x] == b);
            } else {
                assert(w.nodes[pa as int].children[x] == b);
            }
        } else {
            let q = v.nodes[i].parent->0 as int;
            assert(v.nodes[q].children.contains(i as usize));
            let jj = choose|jj: int| 0 <= jj < v.nodes[q].children.len() && v.nodes[q].children[jj] == i as usize;
            if q == pa as int || q == pb as int {
                assert(jj != x || q != pa as int);
                assert(w.nodes[q].children[jj] == i as usize);
            }
        }
    }
    assert(w.leaves_attached());
    assert forall|i: int| 0 <= i < w.nodes.len() implies #[trigger] r2[i] < w.nodes.len() by {
        assert(r[i] < v.nodes.len());
    }
    assert forall|i: int|
        0 <= i < w.nodes.len() && (#[trigger] w.nodes[i].parent) is Some implies r2[w.nodes[i].parent->0 as int]
        < r2[i] by {
        if i != a as int && i != b as int {
            let q = v.nodes[i].parent->0 as int;
            assert(r[q] < r[i]);
            assert(q != a as int && q != b as int);
        } else {
            assert(r[pa as int] < r[a as int]);
            assert(r[pb as int] < r[b as int]);
        }
    }
}

/// Each of the first `k` children fits when they fit together.
pub proof fn lemma_fits_children_each(
    v: TreeView,
    lc: Seq<usize>,
    area: Rect,
    gap: int,
    dir: SplitDirection,
    k: int,
    fuel: nat,
)
    requires
        fits_children(v, lc, area, gap, dir, k, fuel),
    ensures
        forall|j: int|
            #![trigger lc[j]]
            #![trigger child_area_fits(area, gap, dir, lc.len() as int, j)]
            0 <= j < k ==> {
                &&& child_area_fits(area, gap, dir, lc.len() as int, j)
                &&& fits_node(v, lc[j] as int, child_area(area, gap, dir, lc.len() as int, j), gap, fuel)
            },
    decreases k,
{
    if k > 0 {
        lemma_fits_children_each(v, lc, area, gap, dir, k - 1, fuel);
        assert(fits_children(v, lc, area, gap, dir, k, fuel));
        assert(child_area_fits(area, gap, dir, lc.len() as int, k - 1));
    }
}

/// The area of child `i` of `n` that split `area` along `dir`, when computing
/// it stays within `i32`.
fn child_area_checked(area: Rect, gap: i32, dir: SplitDirection, n: usize, i: usize) -> (r: Option<Rect>)
    requires
        2 <= n,
        i < n,
    ensures
        r is Some <==> child_area_fits(area, gap as int, dir, n as int, i as int),
        r matches Some(c) ==> c == child_area(area, gap as int, dir, n as int, i as int),
{
    if n > 0x7fff_ffff {
        return None;
    }
    let n128 = n as i128;
    let g = gap as i128;
    let i128v = i as i128;
    assert(-0x8000_0000 * 0x7fff_ffff <= g * (n128 - 1) <= 0x7fff_ffff * 0x7fff_ffff) by (nonlinear_arith)
        requires
            -0x8000_0000 <= g <= 0x7fff_ffff,
            1 <= n128 - 1 <= 0x7fff_ffff,
    ;
    let gn = g * (n128 - 1);
    if gn < -0x8000_0000 || gn > 0x7fff_ffff {
        return None;
    }
    let (size, pos) = match dir {
        SplitDirection::Horizontal => (area.width as i128, area.x as i128),
        SplitDirection::Vertical => (area.height as i128, area.y as i128),
    };
    let rem = size - gn;
    if rem < -0x8000_0000 || rem > 0x7fff_ffff {
        return None;
    }
    let cell = rem / n128;
    assert(cell == tdiv(rem as int, n as int));
    assert(-0x8000_0000 <= cell <= 0x7fff_ffff) by (nonlinear_arith)
        requires
            -0x8000_0000 <= rem <= 0x7fff_ffff,
            n128 >= 2,
            cell == tdiv(rem as int, n128 as int),
    ;
    let cg = cell + g;
    if cg < -0x8000_0000 || cg > 0x7fff_ffff {
        return None;
    }
    assert(-0x8000_0000 * 0x7fff_ffff <= i128v * cg <= 0x7fff_ffff * 0x7fff_ffff) by (nonlinear_arith)
        requires
            -0x8000_0000 <= cg <= 0x7fff_ffff,
            0 <= i128v <= 0x7fff_ffff,
    ;
    let off = i128v * cg;
    if off < -0x8000_0000 || off > 0x7fff_ffff {
        return None;
    }
    let p = pos + off;
    if p < -0x8000_0000 || p > 0x7fff_ffff {
        return None;
    }
    let c32 = cell as i32;
    let len = if c32 < 1 {
        1
    } else {
        c32
    };
    let p32 = p as i32;
    match dir {
        SplitDirection::Horizontal => Some(Rect::new(p32, area.y, len, area.height)),
        SplitDirection::Vertical => Some(Rect::new(area.x, p32, area.width, len)),
    }
}

/// Whether the side test for `dir` over `ls` computes within `i32`.
fn side_sums_check(ls: &Vec<(isize, Rect)>, cur_h: isize, cur: Rect, dir: &FocusDirection) -> (r: bool)
    ensures
        r == side_sums_fit(ls@, cur_h, cur, dir.dx, dir.dy),
{
    let dx = dir.dx;
    let dy = dir.dy;
    let mut i: usize = 0;
    while i < ls.len()
        invariant
            i <= ls@.len(),
            dx == dir.dx,
            dy == dir.dy,
            forall|k: int|
                0 <= k < i && (#[trigger] ls@[k]).0 != cur_h ==> {
                    &&& (dx == -1 && dy == 0 ==> in_i32(ls@[k].1.x + ls@[k].1.width))
                    &&& (dx == 1 && dy == 0 ==> in_i32(cur.x + cur.width))
                    &&& (dx == 0 && dy == -1 ==> in_i32(ls@[k].1.y + ls@[k].1.height))
                    &&& (dx == 0 && dy == 1 ==> in_i32(cur.y + cur.height))
                },
        decreases ls@.len() - i,
    {
        let (h, rect) = ls[i];
        if h != cur_h {
            let ok = if dx == -1 && dy == 0 {
                let s = rect.x as i64 + rect.width as i64;
                -0x8000_0000 <= s && s <= 0x7fff_ffff
            } else if dx == 1 && dy == 0 {
                let s = cur.x as i64 + cur.width as i64;
                -0x8000_0000 <= s && s <= 0x7fff_ffff
            } else if dx == 0 && dy == -1 {
                let s = rect.y as i64 + rect.height as i64;
                -0x8000_0000 <= s && s <= 0x7fff_ffff
            } else if dx == 0 && dy == 1 {
                let s = cur.y as i64 + cur.height as i64;
                -0x8000_0000 <= s && s <= 0x7fff_ffff
            } else {
                true
            };
            if !ok {
                assert(ls@[i as int].0 != cur_h);
                return false;
            }
        }
        i += 1;
    }
    true
}

/// The area of window `h` in `ls`, if it occurs.
fn rect_of(ls: &Vec<(isize, Rect)>, h: isize) -> (r: Option<Rect>)
    ensures
        r == rect_prefix(ls@, h, ls@.len() as int),
{
    let mut i: usize = 0;
    while i < ls.len()
        invariant
            i <= ls@.len(),
            rect_prefix(ls@, h, i as int) is None,
        decreases ls@.len() - i,
    {
        if ls[i].0 == h {
            assert(rect_prefix(ls@, h, i + 1) == Some(ls@[i as int].1));
            proof {
                lemma_rect_prefix_stable(ls@, h, i + 1, ls@.len() as int);
            }
            return Some(ls[i].1);
        }
        i += 1;
    }
    None
}

/// Once found in a prefix, the area stays the same in longer prefixes.
pub proof fn lemma_rect_prefix_stable(ls: Seq<(isize, Rect)>, h: isize, n: int, m: int)
    requires
        0 <= n <= m,
        rect_prefix(ls, h, n) is Some,
    ensures
        rect_prefix(ls, h, m) == rect_prefix(ls, h, n),
    decreases m - n,
{
    if m > n {
        lemma_rect_prefix_stable(ls, h, n, m - 1);
    }
}

/// At most one entry is the first nearest candidate.
pub proof fn lemma_best_unique(ls: Seq<(isize, Rect)>, cur_h: isize, cur: Rect, dx: i32, dy: i32, k1: int, k2: int)
    requires
        is_best(ls, cur_h, cur, dx, dy, k1),
        is_best(ls, cur_h, cur, dx, dy, k2),
    ensures
        k1 == k2,
{
    if k1 < k2 {
        assert(is_candidate(ls, cur_h, cur, dx, dy, k1));
    } else if k2 < k1 {
        assert(is_candidate(ls, cur_h, cur, dx, dy, k2));
    }
}

/// The nearest window other than `cur_h` on the side `dir` of `cur`; the
/// first one among equally near ones.
fn best_in_direction(ls: &Vec<(isize, Rect)>, cur_h: isize, cur: Rect, dir: &FocusDirection) -> (r: Option<isize>)
    requires
        side_sums_fit(ls@, cur_h, cur, dir.dx, dir.dy),
    ensures
        r == best_target(ls@, cur_h, cur, dir.dx, dir.dy),
{
    let ghost s = ls@;
    let dx = dir.dx;
    let dy = dir.dy;
    let mut best: Option<isize> = None;
    let mut best_dist: i128 = 0;
    let ghost mut best_k: int = -1;
    let cx1: i128 = 2 * (cur.x as i128) + (cur.width as i128);
    let cy1: i128 = 2 * (cur.y as i128) + (cur.height as i128);
    let mut i: usize = 0;
    while i < ls.len()
        invariant
            s == ls@,
            i <= s.len(),
            dx == dir.dx,
            dy == dir.dy,
            side_sums_fit(s, cur_h, cur, dx, dy),
            cx1 == 2 * cur.x + cur.width,
            cy1 == 2 * cur.y + cur.height,
            best is None ==> forall|j: int| 0 <= j < i ==> !#[trigger] is_candidate(s, cur_h, cur, dx, dy, j),
            best is Some ==> {
                &&& 0 <= best_k < i
                &&& best == Some(s[best_k].0)
                &&& best_dist == dist4(cur, s[best_k].1)
                &&& is_candidate(s, cur_h, cur, dx, dy, best_k)
                &&& forall|j: int|
                    #![trigger is_candidate(s, cur_h, cur, dx, dy, j)]
                    0 <= j < i && is_candidate(s, cur_h, cur, dx, dy, j) ==> dist4(cur, s[best_k].1) <= dist4(
                        cur,
                        s[j].1,
                    )
                &&& forall|j: int|
                    #![trigger is_candidate(s, cur_h, cur, dx, dy, j)]
                    0 <= j < best_k && is_candidate(s, cur_h, cur, dx, dy, j) ==> dist4(cur, s[j].1) > dist4(
                        cur,
                        s[best_k].1,
                    )
            },
        decreases s.len() - i,
    {
        let (h, rect) = ls[i];
        if h != cur_h {
            assert(s[i as int].0 != cur_h);
            let valid = if dx == -1 && dy == 0 {
                rect.x + rect.width <= cur.x
            } else if dx == 1 && dy == 0 {
                rect.x >= cur.x + cur.width
            } else if dx == 0 && dy == -1 {
                rect.y + rect.height <= cur.y
            } else if dx == 0 && dy == 1 {
                rect.y >= cur.y + cur.height
            } else {
                false
            };
            assert(valid == is_candidate(s, cur_h, cur, dx, dy, i as int));
            if valid {
                let cx2: i128 = 2 * (rect.x as i128) + (rect.width as i128);
                let cy2: i128 = 2 * (rect.y as i128) + (rect.height as i128);
                let ddx: i128 = cx1 - cx2;
                let ddy: i128 = cy1 - cy2;
                assert(0 <= ddx * ddx <= 0x100_0000_0000_0000_0000) by (nonlinear_arith)
                    requires
                        -0x4_0000_0000 <= ddx <= 0x4_0000_0000,
                ;
                assert(0 <= ddy * ddy <= 0x100_0000_0000_0000_0000) by (nonlinear_arith)
                    requires
                        -0x4_0000_0000 <= ddy <= 0x4_0000_0000,
                ;
                let dist: i128 = ddx * ddx + ddy * ddy;
                assert(dist == dist4(cur, rect));
                let better = match best {
                    None => true,
                    Some(_) => dist < best_dist,
                };
                if better {
                    best = Some(h);
                    best_dist = dist;
                    proof {
                        best_k = i as int;
                    }
                }
            }
        } else {
            assert(!is_candidate(s, cur_h, cur, dx, dy, i as int));
        }
        i += 1;
    }
    match best {
        Some(_) => {
            assert(is_best(s, cur_h, cur, dx, dy, best_k));
            proof {
                let k = choose|k: int| is_best(s, cur_h, cur, dx, dy, k);
                lemma_best_unique(s, cur_h, cur, dx, dy, k, best_k);
            }
        },
        None => {
            assert(!exists|k: int| is_best(s, cur_h, cur, dx, dy, k));
        },
    }
    best
}

/// A prefix holds at most as many windows as nodes.
pub proof fn lemma_windows_prefix_len(nodes: Seq<NodeView>, n: int)
    requires
        0 <= n,
    ensures
        windows_prefix(nodes, n).len() <= n,
    decreases n,
{
    if n > 0 {
        lemma_windows_prefix_len(nodes, n - 1);
    }
}

} // verus!
