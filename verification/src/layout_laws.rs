use vstd::prelude::*;

use crate::layout::Rect;
use crate::properties::{law_layout_lists_tree_windows, law_set_split_reads_back, law_windows_unique_and_found};
use crate::tree::{
    is_best, layout_children, layout_node, lemma_find_some, lemma_replace_first_facts, live_children, live_prefix,
    ranks_ok, rect_prefix, child_area, Layout, SplitDirection, TreeView,
};

verus! {

/// Each entry of `s` replaced by the entries that `t` makes of it, in order.
pub open spec fn expand(s: Seq<(isize, Rect)>, t: spec_fn((isize, Rect)) -> Seq<(isize, Rect)>) -> Seq<(isize, Rect)>
    decreases s.len(),
{
    if s.len() == 0 {
        Seq::empty()
    } else {
        expand(s.drop_last(), t) + t(s.last())
    }
}

proof fn lemma_expand_concat(
    a: Seq<(isize, Rect)>,
    b: Seq<(isize, Rect)>,
    t: spec_fn((isize, Rect)) -> Seq<(isize, Rect)>,
)
    ensures
        expand(a + b, t) == expand(a, t) + expand(b, t),
    decreases b.len(),
{
    if b.len() == 0 {
        assert(a + b =~= a);
        assert(expand(a, t) + expand(b, t) =~= expand(a, t));
    } else {
        lemma_expand_concat(a, b.drop_last(), t);
        assert((a + b).drop_last() =~= a + b.drop_last());
        assert((a + b).last() == b.last());
        let ea = expand(a, t);
        let eb = expand(b.drop_last(), t);
        let tl = t(b.last());
        assert((ea + eb) + tl =~= ea + (eb + tl));
    }
}

proof fn lemma_expand_single(e: (isize, Rect), t: spec_fn((isize, Rect)) -> Seq<(isize, Rect)>)
    ensures
        expand(seq![e], t) == t(e),
{
    assert(seq![e].drop_last() =~= Seq::<(isize, Rect)>::empty());
    assert(expand(Seq::<(isize, Rect)>::empty(), t) + t(e) =~= t(e));
}

/// Container `x` of `v` stands at `m(x)` in `w`: a container with the same
/// split whose children are those of `x`, each taken through `m`, and each of
/// which takes part in the layout of `w` just when it does in `v`.
pub open spec fn container_matches(v: TreeView, w: TreeView, m: spec_fn(usize) -> usize, x: int) -> bool {
    let y = m(x as usize) as int;
    let ch = v.nodes[x].children;
    &&& 0 <= y < w.nodes.len()
    &&& w.nodes[y].hwnd is None
    &&& w.nodes[y].direction == v.nodes[x].direction
    &&& w.nodes[y].children == ch.map_values(m)
    &&& forall|j: int| 0 <= j < ch.len() ==> w.is_live(m(#[trigger] ch[j]) as int) == v.is_live(ch[j] as int)
}

/// Window node `x` of `v` stands at `m(x)` in `w`, where, given any area and
/// more than `k` steps, it lays out as what `t` makes of its own entry.
pub open spec fn leaf_matches(
    v: TreeView,
    w: TreeView,
    m: spec_fn(usize) -> usize,
    t: spec_fn((isize, Rect)) -> Seq<(isize, Rect)>,
    gap: int,
    k: nat,
    x: int,
) -> bool {
    let y = m(x as usize) as int;
    let h = v.nodes[x].hwnd->0;
    forall|a: Rect, f: nat| f > k ==> #[trigger] layout_node(w, y, a, gap, f) == t((h, a))
}

/// Every node of `v` has its counterpart in `w`.
pub open spec fn corresponds(
    v: TreeView,
    w: TreeView,
    m: spec_fn(usize) -> usize,
    t: spec_fn((isize, Rect)) -> Seq<(isize, Rect)>,
    gap: int,
    k: nat,
) -> bool {
    &&& forall|x: int|
        0 <= x < v.nodes.len() && v.nodes[x].hwnd is None ==> #[trigger] container_matches(v, w, m, x)
    &&& forall|x: int|
        0 <= x < v.nodes.len() && v.nodes[x].hwnd is Some ==> #[trigger] leaf_matches(v, w, m, t, gap, k, x)
}

proof fn lemma_live_maps(v: TreeView, w: TreeView, m: spec_fn(usize) -> usize, ch: Seq<usize>, n: int)
    requires
        0 <= n <= ch.len(),
        forall|j: int| 0 <= j < ch.len() ==> w.is_live(m(#[trigger] ch[j]) as int) == v.is_live(ch[j] as int),
    ensures
        live_prefix(w, ch.map_values(m), n) == live_prefix(v, ch, n).map_values(m),
    decreases n,
{
    if n > 0 {
        lemma_live_maps(v, w, m, ch, n - 1);
        let rest = live_prefix(v, ch, n - 1);
        assert(ch.map_values(m)[n - 1] == m(ch[n - 1]));
        assert(w.is_live(m(ch[n - 1]) as int) == v.is_live(ch[n - 1] as int));
        if v.is_live(ch[n - 1] as int) {
            assert(rest.push(ch[n - 1]).map_values(m) =~= rest.map_values(m).push(m(ch[n - 1])));
        }
    }
}

/// The children that take part in a layout are children.
pub proof fn lemma_live_from_children(v: TreeView, ch: Seq<usize>, n: int)
    requires
        0 <= n <= ch.len(),
    ensures
        forall|j: int|
            0 <= j < live_prefix(v, ch, n).len() ==> ch.contains(#[trigger] live_prefix(v, ch, n)[j]),
    decreases n,
{
    if n > 0 {
        lemma_live_from_children(v, ch, n - 1);
        let rest = live_prefix(v, ch, n - 1);
        assert forall|j: int| 0 <= j < live_prefix(v, ch, n).len() implies ch.contains(
            #[trigger] live_prefix(v, ch, n)[j],
        ) by {
            if j < rest.len() {
                assert(live_prefix(v, ch, n)[j] == rest[j]);
            } else {
                assert(live_prefix(v, ch, n)[j] == ch[n - 1]);
            }
        }
    }
}

proof fn lemma_node_maps(
    v: TreeView,
    w: TreeView,
    m: spec_fn(usize) -> usize,
    t: spec_fn((isize, Rect)) -> Seq<(isize, Rect)>,
    r: Seq<nat>,
    id: int,
    area: Rect,
    gap: int,
    fuel: nat,
    wfuel: nat,
    k: nat,
)
    requires
        v.well_formed(),
        ranks_ok(v.nodes, r),
        corresponds(v, w, m, t, gap, k),
        0 <= id < v.nodes.len(),
        fuel + r[id] >= v.nodes.len(),
        wfuel >= fuel + k,
    ensures
        layout_node(w, m(id as usize) as int, area, gap, wfuel) == expand(layout_node(v, id, area, gap, fuel), t),
    decreases fuel, 0int,
{
    let node = v.nodes[id];
    match node.hwnd {
        Some(h) => {
            assert(leaf_matches(v, w, m, t, gap, k, id));
            assert(layout_node(v, id, area, gap, fuel) == seq![(h, area)]);
            lemma_expand_single((h, area), t);
        },
        None => {
            assert(container_matches(v, w, m, id));
            let ch = node.children;
            let lc = live_children(v, ch);
            lemma_live_maps(v, w, m, ch, ch.len() as int);
            lemma_live_from_children(v, ch, ch.len() as int);
            assert forall|j: int| 0 <= j < lc.len() implies 0 <= #[trigger] lc[j] < v.nodes.len() && (fuel - 1)
                + r[lc[j] as int] >= v.nodes.len() by {
                assert(ch.contains(lc[j]));
                let i = choose|i: int| 0 <= i < ch.len() && ch[i] == lc[j];
                assert(v.nodes[id].children[i] == lc[j]);
            }
            let y = m(id as usize) as int;
            assert(w.nodes[y].children == ch.map_values(m));
            assert(live_children(w, w.nodes[y].children) == lc.map_values(m));
            if lc.len() == 0 {
                assert(layout_node(v, id, area, gap, fuel) =~= Seq::<(isize, Rect)>::empty());
            } else if lc.len() == 1 {
                lemma_node_maps(v, w, m, t, r, lc[0] as int, area, gap, (fuel - 1) as nat, (wfuel - 1) as nat, k);
                assert(lc.map_values(m)[0] == m(lc[0]));
            } else {
                lemma_children_maps(
                    v,
                    w,
                    m,
                    t,
                    r,
                    lc,
                    area,
                    gap,
                    node.direction,
                    lc.len() as int,
                    (fuel - 1) as nat,
                    (wfuel - 1) as nat,
                    k,
                );
            }
        },
    }
}

proof fn lemma_children_maps(
    v: TreeView,
    w: TreeView,
    m: spec_fn(usize) -> usize,
    t: spec_fn((isize, Rect)) -> Seq<(isize, Rect)>,
    r: Seq<nat>,
    lc: Seq<usize>,
    area: Rect,
    gap: int,
    dir: crate::tree::SplitDirection,
    kk: int,
    fuel: nat,
    wfuel: nat,
    k: nat,
)
    requires
        v.well_formed(),
        ranks_ok(v.nodes, r),
        corresponds(v, w, m, t, gap, k),
        0 <= kk <= lc.len(),
        forall|j: int|
            0 <= j < lc.len() ==> 0 <= #[trigger] lc[j] < v.nodes.len() && fuel + r[lc[j] as int] >= v.nodes.len(),
        wfuel >= fuel + k,
    ensures
        layout_children(w, lc.map_values(m), area, gap, dir, kk, wfuel) == expand(
            layout_children(v, lc, area, gap, dir, kk, fuel),
            t,
        ),
    decreases fuel, kk + 1,
{
    if kk > 0 {
        lemma_children_maps(v, w, m, t, r, lc, area, gap, dir, kk - 1, fuel, wfuel, k);
        let a = crate::tree::child_area(area, gap, dir, lc.len() as int, kk - 1);
        assert(lc.map_values(m)[kk - 1] == m(lc[kk - 1]));
        assert(0 <= lc[kk - 1] < v.nodes.len());
        lemma_node_maps(v, w, m, t, r, lc[kk - 1] as int, a, gap, fuel, wfuel, k);
        lemma_expand_concat(
            layout_children(v, lc, area, gap, dir, kk - 1, fuel),
            layout_node(v, lc[kk - 1] as int, a, gap, fuel),
            t,
        );
    } else {
        assert(layout_children(v, lc, area, gap, dir, kk, fuel) =~= Seq::<(isize, Rect)>::empty());
    }
}

/// When every node of `v` has its counterpart in `w` and the roots match, the
/// split layout of `w` is that of `v` with each entry expanded by `t`.
proof fn lemma_layout_maps(
    v: TreeView,
    w: TreeView,
    m: spec_fn(usize) -> usize,
    t: spec_fn((isize, Rect)) -> Seq<(isize, Rect)>,
    area: Rect,
    gap: int,
    k: nat,
)
    requires
        v.valid(),
        corresponds(v, w, m, t, gap, k),
        m(v.root_id) == w.root_id,
        w.nodes.len() >= v.nodes.len() + k,
    ensures
        layout_node(w, w.root_id as int, area, gap, w.nodes.len() as nat) == expand(
            layout_node(v, v.root_id as int, area, gap, v.nodes.len() as nat),
            t,
        ),
{
    let r = choose|r: Seq<nat>| ranks_ok(v.nodes, r);
    lemma_node_maps(v, w, m, t, r, v.root_id as int, area, gap, v.nodes.len() as nat, w.nodes.len() as nat, k);
}

/// Each entry left as it is.
pub open spec fn keep_entry() -> spec_fn((isize, Rect)) -> Seq<(isize, Rect)> {
    |e: (isize, Rect)| seq![e]
}

proof fn lemma_expand_keep(s: Seq<(isize, Rect)>)
    ensures
        expand(s, keep_entry()) == s,
    decreases s.len(),
{
    if s.len() > 0 {
        lemma_expand_keep(s.drop_last());
        assert(s.drop_last() + seq![s.last()] =~= s);
    }
}

/// Every node id kept.
pub open spec fn same_ids() -> spec_fn(usize) -> usize {
    |x: usize| x
}

/// Node `f` moved to `c`, every other id kept.
pub open spec fn moved_id(f: usize, c: usize) -> spec_fn(usize) -> usize {
    |x: usize| if x == f { c } else { x }
}

/// A window node with a parent is listed once among the parent's children,
/// and among no other node's children.
proof fn lemma_window_slot(v: TreeView, f: int)
    requires
        v.well_formed(),
        0 <= f < v.nodes.len(),
        v.nodes[f].hwnd is Some,
        v.nodes[f].parent is Some,
    ensures
        ({
            let p = v.nodes[f].parent->0 as int;
            &&& 0 <= p < v.nodes.len()
            &&& p != f
            &&& v.nodes[p].hwnd is None
            &&& v.nodes[p].children.contains(f as usize)
            &&& forall|x: int, j: int|
                0 <= x < v.nodes.len() && x != p && 0 <= j < v.nodes[x].children.len() ==> #[trigger] v.nodes[x].children[j] != f
        }),
{
    let p = v.nodes[f].parent->0 as int;
    assert forall|x: int, j: int|
        0 <= x < v.nodes.len() && x != p && 0 <= j < v.nodes[x].children.len() implies #[trigger] v.nodes[x].children[j]
        != f by {
        if v.nodes[x].children[j] == f {
            assert(v.nodes[f].parent == Some(x as usize));
        }
    }
}

/// Setting the split while a window is focused keeps every area of the
/// layout: the window moves into a container of its own, which takes its
/// place and passes its whole area on.
pub proof fn law_set_split_keeps_layout(v: TreeView, dir: SplitDirection, area: Rect, gap: int)
    requires
        v.valid(),
        v.has_room(1),
        v.focused_hwnd() is Some,
    ensures
        v.after_set_split(dir).layouts(area, gap) == v.layouts(area, gap),
{
    let f = v.focused_id;
    let fnode = v.nodes[f as int];
    let w = v.after_set_split(dir);
    let len = v.nodes.len();
    let c = len as usize;
    assert(fnode.hwnd is Some);
    if fnode.parent is Some {
        let p = fnode.parent->0;
        lemma_window_slot(v, f as int);
        lemma_replace_first_facts(v.nodes[p as int].children, f, c);
        assert(w.nodes.len() == len + 1);
        assert(w.nodes[len as int] == crate::tree::container_view(c, p, seq![f], dir));
        assert(w.nodes[f as int].hwnd == fnode.hwnd);
        assert(w.nodes[p as int].children == crate::tree::replace_first(v.nodes[p as int].children, f, c));
        assert(w.nodes[p as int].hwnd is None && w.nodes[p as int].direction == v.nodes[p as int].direction);
        assert(forall|i: int| 0 <= i < len && i != f && i != p ==> #[trigger] w.nodes[i] == v.nodes[i]);
    } else {
        assert(w.nodes.len() == len);
        assert(forall|i: int| 0 <= i < len && i != f ==> #[trigger] w.nodes[i] == v.nodes[i]);
        assert(w.nodes[f as int].hwnd == fnode.hwnd && w.nodes[f as int].children == fnode.children);
    }
    assert(forall|i: int| 0 <= i < len ==> (#[trigger] w.nodes[i]).hwnd == v.nodes[i].hwnd);
    assert(forall|i: int| 0 <= i < len ==> (#[trigger] w.nodes[i]).children.len() == v.nodes[i].children.len());
    if v.layout == Layout::Monocle || v.layout == Layout::Stacking {
        law_set_split_reads_back(v, dir);
        assert(forall|i: int| #[trigger] w.hwnd_of(i) == v.hwnd_of(i));
        assert(w.visible() == v.visible());
    } else {
        let t = keep_entry();
        if fnode.parent is Some {
            let p = fnode.parent->0;
            let m = moved_id(f, c);
            let kf = crate::tree::position(v.nodes[p as int].children, f)->0;
            assert forall|x: int| 0 <= x < v.nodes.len() && v.nodes[x].hwnd is None implies #[trigger] container_matches(
                v,
                w,
                m,
                x,
            ) by {
                let ch = v.nodes[x].children;
                assert(x != f);
                if x == p as int {
                    assert(w.nodes[x].children =~= ch.map_values(m)) by {
                        assert forall|i: int| 0 <= i < ch.len() && i != kf implies ch[i] != f by {
                            assert(ch.no_duplicates());
                        }
                    }
                } else {
                    assert(w.nodes[x].children =~= ch.map_values(m));
                }
                assert forall|j: int| 0 <= j < ch.len() implies w.is_live(m(#[trigger] ch[j]) as int) == v.is_live(
                    ch[j] as int,
                ) by {
                    assert(0 <= ch[j] < len);
                    assert(v.nodes[x].children[j] == ch[j]);
                }
            }
            assert forall|x: int| 0 <= x < v.nodes.len() && v.nodes[x].hwnd is Some implies #[trigger] leaf_matches(
                v,
                w,
                m,
                t,
                gap,
                1,
                x,
            ) by {
                let h = v.nodes[x].hwnd->0;
                assert forall|a: Rect, fl: nat| fl > 1 implies #[trigger] layout_node(w, m(x as usize) as int, a, gap, fl)
                    == t((h, a)) by {
                    if x == f as int {
                        assert(w.is_live(f as int));
                        assert(live_prefix(w, seq![f], 0) =~= Seq::<usize>::empty());
                        assert(live_children(w, seq![f]) =~= seq![f]);
                        assert(layout_node(w, f as int, a, gap, (fl - 1) as nat) == seq![(h, a)]);
                    }
                }
            }
            lemma_layout_maps(v, w, m, t, area, gap, 1);
        } else {
            let m = same_ids();
            assert forall|x: int| 0 <= x < v.nodes.len() && v.nodes[x].hwnd is None implies #[trigger] container_matches(
                v,
                w,
                m,
                x,
            ) by {
                let ch = v.nodes[x].children;
                assert(w.nodes[x].children =~= ch.map_values(m));
            }
            assert forall|x: int| 0 <= x < v.nodes.len() && v.nodes[x].hwnd is Some implies #[trigger] leaf_matches(
                v,
                w,
                m,
                t,
                gap,
                0,
                x,
            ) by {
                let h = v.nodes[x].hwnd->0;
                assert forall|a: Rect, fl: nat| fl > 0 implies #[trigger] layout_node(w, m(x as usize) as int, a, gap, fl)
                    == t((h, a)) by {
                }
            }
            lemma_layout_maps(v, w, m, t, area, gap, 0);
        }
        lemma_expand_keep(v.layouts(area, gap));
    }
}

/// `x` with windows `a` and `b` traded.
pub open spec fn swapped(x: isize, a: isize, b: isize) -> isize {
    if x == a {
        b
    } else if x == b {
        a
    } else {
        x
    }
}

/// The entries of `ls` with windows `a` and `b` traded, each area kept.
pub open spec fn swap_windows(ls: Seq<(isize, Rect)>, a: isize, b: isize) -> Seq<(isize, Rect)> {
    ls.map_values(|e: (isize, Rect)| (swapped(e.0, a, b), e.1))
}

/// An entry with windows `a` and `b` traded.
pub open spec fn swap_entry(a: isize, b: isize) -> spec_fn((isize, Rect)) -> Seq<(isize, Rect)> {
    |e: (isize, Rect)| seq![(swapped(e.0, a, b), e.1)]
}

/// Node ids `a` and `b` traded.
pub open spec fn swap_ids(a: usize, b: usize) -> spec_fn(usize) -> usize {
    |x: usize| if x == a { b } else if x == b { a } else { x }
}

proof fn lemma_expand_swap(s: Seq<(isize, Rect)>, a: isize, b: isize)
    ensures
        expand(s, swap_entry(a, b)) == swap_windows(s, a, b),
    decreases s.len(),
{
    if s.len() > 0 {
        lemma_expand_swap(s.drop_last(), a, b);
        assert(swap_windows(s, a, b) =~= swap_windows(s.drop_last(), a, b) + seq![
            (swapped(s.last().0, a, b), s.last().1),
        ]);
    } else {
        assert(swap_windows(s, a, b) =~= Seq::<(isize, Rect)>::empty());
    }
}

/// A window that the layout of node `id` lists is held by `id` itself or by
/// a node with a parent.
proof fn lemma_entry_nodes(v: TreeView, id: int, area: Rect, gap: int, fuel: nat)
    requires
        v.well_formed(),
    ensures
        forall|k: int, j: int|
            #![trigger layout_node(v, id, area, gap, fuel)[k], v.nodes[j]]
            0 <= k < layout_node(v, id, area, gap, fuel).len() && 0 <= j < v.nodes.len() && v.nodes[j].hwnd == Some(
                layout_node(v, id, area, gap, fuel)[k].0,
            ) ==> j == id || v.nodes[j].parent is Some,
    decreases fuel, 0int,
{
    if fuel > 0 && 0 <= id < v.nodes.len() {
        let node = v.nodes[id];
        match node.hwnd {
            Some(h) => {
                assert(layout_node(v, id, area, gap, fuel) == seq![(h, area)]);
                assert forall|k: int, j: int|
                    #![trigger layout_node(v, id, area, gap, fuel)[k], v.nodes[j]]
                    0 <= k < layout_node(v, id, area, gap, fuel).len() && 0 <= j < v.nodes.len() && v.nodes[j].hwnd
                        == Some(layout_node(v, id, area, gap, fuel)[k].0) implies j == id || v.nodes[j].parent is Some by {
                    if j != id {
                        assert(v.nodes[id].hwnd != v.nodes[j].hwnd);
                    }
                }
            },
            None => {
                let lc = live_children(v, node.children);
                lemma_live_from_children(v, node.children, node.children.len() as int);
                assert forall|i: int| 0 <= i < lc.len() implies 0 <= #[trigger] lc[i] < v.nodes.len()
                    && v.nodes[lc[i] as int].parent is Some by {
                    assert(node.children.contains(lc[i]));
                    let q = choose|q: int| 0 <= q < node.children.len() && node.children[q] == lc[i];
                    assert(v.nodes[id].children[q] == lc[i]);
                }
                if lc.len() == 1 {
                    lemma_entry_nodes(v, lc[0] as int, area, gap, (fuel - 1) as nat);
                    assert(layout_node(v, id, area, gap, fuel) == layout_node(v, lc[0] as int, area, gap, (fuel - 1) as nat));
                } else if lc.len() > 1 {
                    lemma_entry_nodes_children(v, lc, area, gap, node.direction, lc.len() as int, (fuel - 1) as nat);
                    assert(layout_node(v, id, area, gap, fuel) == layout_children(
                        v,
                        lc,
                        area,
                        gap,
                        node.direction,
                        lc.len() as int,
                        (fuel - 1) as nat,
                    ));
                } else {
                    assert(layout_node(v, id, area, gap, fuel).len() == 0);
                }
            },
        }
    }
}

proof fn lemma_entry_nodes_children(
    v: TreeView,
    lc: Seq<usize>,
    area: Rect,
    gap: int,
    dir: SplitDirection,
    kk: int,
    fuel: nat,
)
    requires
        v.well_formed(),
        0 <= kk <= lc.len(),
        forall|i: int| 0 <= i < lc.len() ==> 0 <= #[trigger] lc[i] < v.nodes.len() && v.nodes[lc[i] as int].parent is Some,
    ensures
        forall|k: int, j: int|
            #![trigger layout_children(v, lc, area, gap, dir, kk, fuel)[k], v.nodes[j]]
            0 <= k < layout_children(v, lc, area, gap, dir, kk, fuel).len() && 0 <= j < v.nodes.len()
                && v.nodes[j].hwnd == Some(layout_children(v, lc, area, gap, dir, kk, fuel)[k].0) ==> v.nodes[j].parent is Some,
    decreases fuel, kk + 1,
{
    if kk > 0 {
        lemma_entry_nodes_children(v, lc, area, gap, dir, kk - 1, fuel);
        let a = crate::tree::child_area(area, gap, dir, lc.len() as int, kk - 1);
        lemma_entry_nodes(v, lc[kk - 1] as int, a, gap, fuel);
        let first = layout_children(v, lc, area, gap, dir, kk - 1, fuel);
        let last = layout_node(v, lc[kk - 1] as int, a, gap, fuel);
        assert(layout_children(v, lc, area, gap, dir, kk, fuel) == first + last);
        assert forall|k: int, j: int|
            #![trigger (first + last)[k], v.nodes[j]]
            0 <= k < (first + last).len() && 0 <= j < v.nodes.len() && v.nodes[j].hwnd == Some((first + last)[k].0)
                implies v.nodes[j].parent is Some by {
            if k < first.len() {
                assert((first + last)[k] == first[k]);
            } else {
                assert((first + last)[k] == last[k - first.len()]);
            }
        }
    }
}

proof fn lemma_rect_prefix_found(ls: Seq<(isize, Rect)>, h: isize, n: int)
    requires
        0 <= n <= ls.len(),
        rect_prefix(ls, h, n) is Some,
    ensures
        exists|k: int| 0 <= k < n && ls[k].0 == h,
    decreases n,
{
    if n > 0 && rect_prefix(ls, h, n - 1) is Some {
        lemma_rect_prefix_found(ls, h, n - 1);
    }
}

/// A move that finds a window to trade places with trades their areas: the
/// split layout afterwards is the one before with the focused window and its
/// target swapped, every area in its place.
pub proof fn law_move_swaps_areas(v: TreeView, dx: i32, dy: i32, area: Rect, gap: int)
    requires
        v.valid(),
        v.layout == Layout::SplitH || v.layout == Layout::SplitV,
        v.after_move_focused(dx, dy, area).1,
    ensures
        v.after_move_focused(dx, dy, area).0.layouts(area, gap) == swap_windows(
            v.layouts(area, gap),
            v.focused_hwnd()->0,
            v.target_in_direction(dx, dy, area)->0,
        ),
{
    let len = v.nodes.len();
    let a = v.focused_id;
    let hf = v.focused_hwnd()->0;
    let ht = v.target_in_direction(dx, dy, area)->0;
    let b = v.find(ht)->0;
    let ls = v.layouts(area, 0);
    let cur = v.focused_rect(area)->0;
    assert(v.focused_hwnd() is Some && v.focused_rect(area) is Some);
    assert(exists|k: int| is_best(ls, hf, cur, dx, dy, k));
    let kt = choose|k: int| is_best(ls, hf, cur, dx, dy, k);
    assert(ls[kt].0 == ht && ht != hf);
    lemma_find_some(v, ht);
    lemma_rect_prefix_found(ls, hf, ls.len() as int);
    let kf = choose|k: int| 0 <= k < ls.len() && ls[k].0 == hf;
    lemma_entry_nodes(v, 0, area, 0, len as nat);
    assert(v.nodes[a as int].hwnd == Some(hf));
    assert(v.nodes[b as int].hwnd == Some(ht));
    assert(ls[kf].0 == hf);
    assert(a as int == 0 || v.nodes[a as int].parent is Some);
    assert(b as int == 0 || v.nodes[b as int].parent is Some);
    assert(a != b);
    let w = v.after_swap(a, b);
    assert(w == v.after_move_focused(dx, dy, area).0);
    let pa = v.nodes[a as int].parent->0;
    let pb = v.nodes[b as int].parent->0;
    lemma_window_slot(v, a as int);
    lemma_window_slot(v, b as int);
    let cha = v.nodes[pa as int].children;
    let chb = v.nodes[pb as int].children;
    lemma_replace_first_facts(cha, a, b);
    lemma_replace_first_facts(chb, b, a);
    let xa = crate::tree::position(cha, a)->0;
    let xb = crate::tree::position(chb, b)->0;
    assert(cha.no_duplicates() && chb.no_duplicates());
    assert(w.nodes.len() == len);
    if pa == pb {
        assert(w.nodes[pa as int].children == cha.update(xa, cha[xb]).update(xb, cha[xa]));
    } else {
        assert(w.nodes[pa as int].children == cha.update(xa, b));
        assert(w.nodes[pb as int].children == chb.update(xb, a));
    }
    assert(forall|i: int| 0 <= i < len && i != a && i != b && i != pa && i != pb ==> #[trigger] w.nodes[i] == v.nodes[i]);
    assert(forall|i: int| 0 <= i < len ==> (#[trigger] w.nodes[i]).hwnd == v.nodes[i].hwnd);
    assert(forall|i: int| 0 <= i < len ==> (#[trigger] w.nodes[i]).children.len() == v.nodes[i].children.len());
    assert(forall|i: int| 0 <= i < len && v.nodes[i].hwnd is None ==> (#[trigger] w.nodes[i]).direction == v.nodes[i].direction);
    let m = swap_ids(a, b);
    let t = swap_entry(hf, ht);
    assert forall|x: int| 0 <= x < v.nodes.len() && v.nodes[x].hwnd is None implies #[trigger] container_matches(
        v,
        w,
        m,
        x,
    ) by {
        let ch = v.nodes[x].children;
        assert(x != a && x != b);
        if x == pa as int && pa == pb {
            assert forall|i: int| 0 <= i < ch.len() && i != xa && i != xb implies ch[i] != a && ch[i] != b by {
            }
            assert(w.nodes[x].children =~= ch.map_values(m));
        } else if x == pa as int {
            assert forall|i: int| 0 <= i < ch.len() && i != xa implies ch[i] != a && ch[i] != b by {
            }
            assert(w.nodes[x].children =~= ch.map_values(m));
        } else if x == pb as int {
            assert forall|i: int| 0 <= i < ch.len() && i != xb implies ch[i] != a && ch[i] != b by {
            }
            assert(w.nodes[x].children =~= ch.map_values(m));
        } else {
            assert forall|i: int| 0 <= i < ch.len() implies ch[i] != a && ch[i] != b by {
                assert(v.nodes[x].children[i] == ch[i]);
            }
            assert(w.nodes[x].children =~= ch.map_values(m));
        }
        assert forall|j: int| 0 <= j < ch.len() implies w.is_live(m(#[trigger] ch[j]) as int) == v.is_live(
            ch[j] as int,
        ) by {
            assert(0 <= ch[j] < len);
            assert(v.nodes[x].children[j] == ch[j]);
        }
    }
    assert forall|x: int| 0 <= x < v.nodes.len() && v.nodes[x].hwnd is Some implies #[trigger] leaf_matches(
        v,
        w,
        m,
        t,
        gap,
        0,
        x,
    ) by {
        let h = v.nodes[x].hwnd->0;
        if x != a && x != b {
            assert(v.nodes[a as int].hwnd != v.nodes[x].hwnd);
            assert(v.nodes[b as int].hwnd != v.nodes[x].hwnd);
        }
        assert forall|ar: Rect, fl: nat| fl > 0 implies #[trigger] layout_node(w, m(x as usize) as int, ar, gap, fl) == t(
            (h, ar),
        ) by {
        }
    }
    lemma_layout_maps(v, w, m, t, area, gap, 0);
    lemma_expand_swap(v.layouts(area, gap), hf, ht);
}

/// An entry of window `f` split in two along `dir`, `f` keeping the first
/// cell and `h` taking the second; any other entry kept.
pub open spec fn split_entry(f: isize, h: isize, gap: int, dir: SplitDirection) -> spec_fn((isize, Rect)) -> Seq<
    (isize, Rect),
> {
    |e: (isize, Rect)|
        if e.0 == f {
            seq![(f, child_area(e.1, gap, dir, 2, 0)), (h, child_area(e.1, gap, dir, 2, 1))]
        } else {
            seq![e]
        }
}

/// Adding a new window while a window with a parent container is focused
/// splits the focused window's area in two along the parent's split: the
/// focused window keeps the first cell, the new one takes the second, and
/// every other entry of the split layout stays as it was.
pub proof fn law_add_splits_focused_area(v: TreeView, h: isize, area: Rect, gap: int)
    requires
        v.valid(),
        v.has_room(2),
        v.layout == Layout::SplitH || v.layout == Layout::SplitV,
        v.find(h) is None,
        v.focused_hwnd() is Some,
        v.nodes[v.focused_id as int].parent is Some,
    ensures
        v.after_add_window(h).0.layouts(area, gap) == expand(
            v.layouts(area, gap),
            split_entry(
                v.focused_hwnd()->0,
                h,
                gap,
                v.nodes[v.nodes[v.focused_id as int].parent->0 as int].direction,
            ),
        ),
{
    let len = v.nodes.len();
    let f = v.focused_id;
    let fnode = v.nodes[f as int];
    let hf = fnode.hwnd->0;
    let p = fnode.parent->0;
    let d = v.nodes[p as int].direction;
    let c = len as usize;
    let n = (len + 1) as usize;
    let w = v.after_add_window(h).0;
    lemma_window_slot(v, f as int);
    lemma_replace_first_facts(v.nodes[p as int].children, f, c);
    assert(w.nodes.len() == len + 2);
    assert(w.nodes[len as int].hwnd is None);
    assert(w.nodes[len as int].children == seq![f, n]);
    assert(w.nodes[len as int].direction == d);
    assert(w.nodes[len + 1int].hwnd == Some(h));
    assert(w.nodes[f as int].hwnd == fnode.hwnd);
    assert(w.nodes[p as int].children == crate::tree::replace_first(v.nodes[p as int].children, f, c));
    assert(w.nodes[p as int].hwnd is None && w.nodes[p as int].direction == v.nodes[p as int].direction);
    assert(forall|i: int| 0 <= i < len && i != f && i != p ==> #[trigger] w.nodes[i] == v.nodes[i]);
    assert(forall|i: int| 0 <= i < len ==> (#[trigger] w.nodes[i]).hwnd == v.nodes[i].hwnd);
    assert(forall|i: int| 0 <= i < len ==> (#[trigger] w.nodes[i]).children.len() == v.nodes[i].children.len());
    let t = split_entry(hf, h, gap, d);
    let m = moved_id(f, c);
    let kf = crate::tree::position(v.nodes[p as int].children, f)->0;
    assert forall|x: int| 0 <= x < v.nodes.len() && v.nodes[x].hwnd is None implies #[trigger] container_matches(
        v,
        w,
        m,
        x,
    ) by {
        let ch = v.nodes[x].children;
        assert(x != f);
        if x == p as int {
            assert(w.nodes[x].children =~= ch.map_values(m)) by {
                assert forall|i: int| 0 <= i < ch.len() && i != kf implies ch[i] != f by {
                    assert(ch.no_duplicates());
                }
            }
        } else {
            assert(w.nodes[x].children =~= ch.map_values(m));
        }
        assert forall|j: int| 0 <= j < ch.len() implies w.is_live(m(#[trigger] ch[j]) as int) == v.is_live(
            ch[j] as int,
        ) by {
            assert(0 <= ch[j] < len);
            assert(v.nodes[x].children[j] == ch[j]);
        }
    }
    assert forall|x: int| 0 <= x < v.nodes.len() && v.nodes[x].hwnd is Some implies #[trigger] leaf_matches(
        v,
        w,
        m,
        t,
        gap,
        1,
        x,
    ) by {
        let hx = v.nodes[x].hwnd->0;
        if x != f as int {
            assert(v.nodes[f as int].hwnd != v.nodes[x].hwnd);
        }
        assert forall|a: Rect, fl: nat| fl > 1 implies #[trigger] layout_node(w, m(x as usize) as int, a, gap, fl)
            == t((hx, a)) by {
            if x == f as int {
                let ch2 = seq![f, n];
                assert(w.is_live(f as int) && w.is_live(n as int));
                assert(live_prefix(w, ch2, 0) =~= Seq::<usize>::empty());
                assert(live_prefix(w, ch2, 1) =~= seq![f]);
                assert(live_children(w, ch2) =~= ch2);
                let a0 = child_area(a, gap, d, 2, 0);
                let a1 = child_area(a, gap, d, 2, 1);
                let fm = (fl - 1) as nat;
                assert(layout_node(w, f as int, a0, gap, fm) == seq![(hf, a0)]);
                assert(layout_node(w, n as int, a1, gap, fm) == seq![(h, a1)]);
                assert(layout_children(w, ch2, a, gap, d, 0, fm) =~= Seq::<(isize, Rect)>::empty());
                assert(layout_children(w, ch2, a, gap, d, 1, fm) =~= seq![(hf, a0)]);
                assert(layout_children(w, ch2, a, gap, d, 2, fm) =~= seq![(hf, a0), (h, a1)]);
            }
        }
    }
    lemma_layout_maps(v, w, m, t, area, gap, 1);
}

proof fn lemma_expand_split_others(s: Seq<(isize, Rect)>, f: isize, h: isize, gap: int, dir: SplitDirection)
    requires
        forall|k: int| 0 <= k < s.len() ==> (#[trigger] s[k]).0 != f,
    ensures
        expand(s, split_entry(f, h, gap, dir)) == s,
    decreases s.len(),
{
    if s.len() > 0 {
        lemma_expand_split_others(s.drop_last(), f, h, gap, dir);
        assert(s.last() == s[s.len() - 1]);
        assert(s.drop_last() + seq![s.last()] =~= s);
    } else {
        assert(expand(s, split_entry(f, h, gap, dir)) =~= s);
    }
}

/// Adding a new window while a window with a parent container is focused
/// replaces the focused window's entry, at whatever place it stands in the
/// split layout, by the two halves of its area, and leaves the entries
/// before and after it as they were.
pub proof fn law_add_splits_focused_area_at(v: TreeView, h: isize, area: Rect, gap: int, i: int)
    requires
        v.valid(),
        v.has_room(2),
        v.layout == Layout::SplitH || v.layout == Layout::SplitV,
        v.find(h) is None,
        v.focused_hwnd() is Some,
        v.nodes[v.focused_id as int].parent is Some,
        0 <= i < v.layouts(area, gap).len(),
        v.layouts(area, gap)[i].0 == v.focused_hwnd()->0,
    ensures
        ({
            let ls = v.layouts(area, gap);
            let hf = v.focused_hwnd()->0;
            let d = v.nodes[v.nodes[v.focused_id as int].parent->0 as int].direction;
            v.after_add_window(h).0.layouts(area, gap) == ls.subrange(0, i) + seq![
                (hf, child_area(ls[i].1, gap, d, 2, 0)),
                (h, child_area(ls[i].1, gap, d, 2, 1)),
            ] + ls.subrange(i + 1, ls.len() as int)
        }),
{
    let ls = v.layouts(area, gap);
    let hf = v.focused_hwnd()->0;
    let d = v.nodes[v.nodes[v.focused_id as int].parent->0 as int].direction;
    let t = split_entry(hf, h, gap, d);
    law_add_splits_focused_area(v, h, area, gap);
    law_layout_lists_each_window_once(v, area, gap);
    let before = ls.subrange(0, i);
    let after = ls.subrange(i + 1, ls.len() as int);
    assert(ls =~= before + seq![ls[i]] + after);
    assert forall|k: int| 0 <= k < before.len() implies (#[trigger] before[k]).0 != hf by {
        assert(before[k] == ls[k]);
    }
    assert forall|k: int| 0 <= k < after.len() implies (#[trigger] after[k]).0 != hf by {
        assert(after[k] == ls[i + 1 + k]);
    }
    lemma_expand_split_others(before, hf, h, gap, d);
    lemma_expand_split_others(after, hf, h, gap, d);
    lemma_expand_concat(before + seq![ls[i]], after, t);
    lemma_expand_concat(before, seq![ls[i]], t);
    lemma_expand_single(ls[i], t);
}

/// The node `k` steps up the parent links from `j`; -1 once the links run out.
pub open spec fn ancestor(v: TreeView, j: int, k: nat) -> int
    decreases k,
{
    if k == 0 {
        j
    } else {
        let a = ancestor(v, j, (k - 1) as nat);
        if 0 <= a < v.nodes.len() && v.nodes[a].parent is Some {
            v.nodes[a].parent->0 as int
        } else {
            -1
        }
    }
}

proof fn lemma_ancestor_add(v: TreeView, j: int, k: nat, l: nat)
    ensures
        ancestor(v, j, k + l) == ancestor(v, ancestor(v, j, k), l),
    decreases l,
{
    if l > 0 {
        lemma_ancestor_add(v, j, k, (l - 1) as nat);
        assert((k + l - 1) as nat == k + (l - 1) as nat);
    }
}

/// Ranks fall by at least one at every step up.
proof fn lemma_ancestor_rank(v: TreeView, r: Seq<nat>, j: int, k: nat)
    requires
        v.well_formed(),
        ranks_ok(v.nodes, r),
        0 <= j < v.nodes.len(),
        ancestor(v, j, k) >= 0,
    ensures
        ancestor(v, j, k) < v.nodes.len(),
        r[ancestor(v, j, k)] + k <= r[j],
    decreases k,
{
    if k > 0 {
        let a = ancestor(v, j, (k - 1) as nat);
        assert(0 <= a < v.nodes.len() && v.nodes[a].parent is Some);
        lemma_ancestor_rank(v, r, j, (k - 1) as nat);
    }
}

/// No node lies below two different children of one container.
proof fn lemma_siblings_apart(v: TreeView, r: Seq<nat>, j: int, s1: nat, s2: nat, x: int)
    requires
        v.well_formed(),
        ranks_ok(v.nodes, r),
        0 <= j < v.nodes.len(),
        0 <= x < v.nodes.len(),
        0 <= ancestor(v, j, s1) < v.nodes.len(),
        0 <= ancestor(v, j, s2) < v.nodes.len(),
        v.nodes[ancestor(v, j, s1)].parent == Some(x as usize),
        v.nodes[ancestor(v, j, s2)].parent == Some(x as usize),
    ensures
        ancestor(v, j, s1) == ancestor(v, j, s2),
{
    let c1 = ancestor(v, j, s1);
    let c2 = ancestor(v, j, s2);
    if s1 < s2 {
        let d = (s2 - s1) as nat;
        lemma_ancestor_add(v, j, s1, d);
        lemma_ancestor_add(v, c1, 1, (d - 1) as nat);
        assert(ancestor(v, c1, 0) == c1);
        assert(ancestor(v, c1, 1) == x);
        lemma_ancestor_rank(v, r, x, (d - 1) as nat);
        assert(r[x] < r[c2]);
    } else if s2 < s1 {
        let d = (s1 - s2) as nat;
        lemma_ancestor_add(v, j, s2, d);
        lemma_ancestor_add(v, c2, 1, (d - 1) as nat);
        assert(ancestor(v, c2, 0) == c2);
        assert(ancestor(v, c2, 1) == x);
        lemma_ancestor_rank(v, r, x, (d - 1) as nat);
        assert(r[x] < r[c1]);
    }
}

proof fn lemma_live_no_duplicates(v: TreeView, ch: Seq<usize>, n: int)
    requires
        0 <= n <= ch.len(),
        ch.no_duplicates(),
    ensures
        live_prefix(v, ch, n).no_duplicates(),
        forall|j: int, q: int|
            0 <= j < live_prefix(v, ch, n).len() && n <= q < ch.len() ==> #[trigger] live_prefix(v, ch, n)[j]
                != #[trigger] ch[q],
    decreases n,
{
    if n > 0 {
        lemma_live_no_duplicates(v, ch, n - 1);
        let rest = live_prefix(v, ch, n - 1);
        let lp = live_prefix(v, ch, n);
        assert forall|j: int, q: int| 0 <= j < lp.len() && n <= q < ch.len() implies #[trigger] lp[j] != #[trigger] ch[q] by {
            if j < rest.len() {
                assert(lp[j] == rest[j]);
            } else {
                assert(lp[j] == ch[n - 1]);
            }
        }
        assert forall|a: int, b: int| 0 <= a < lp.len() && 0 <= b < lp.len() && a != b implies lp[a] != lp[b] by {
            if a < rest.len() && b < rest.len() {
                assert(lp[a] == rest[a] && lp[b] == rest[b]);
            } else if a < rest.len() {
                assert(lp[a] == rest[a] && lp[b] == ch[n - 1]);
            } else if b < rest.len() {
                assert(lp[b] == rest[b] && lp[a] == ch[n - 1]);
            }
        }
    }
}

/// Window `h` is held by node `id` or a node below it.
pub open spec fn held_at(v: TreeView, h: isize, id: int) -> bool {
    exists|j: int, s: nat|
        #![trigger ancestor(v, j, s)]
        0 <= j < v.nodes.len() && v.nodes[j].hwnd == Some(h) && ancestor(v, j, s) == id
}

/// Window `h` is held by a node that lies below one of the first `kk`
/// children `lc`.
pub open spec fn held_below(v: TreeView, h: isize, lc: Seq<usize>, kk: int) -> bool {
    exists|j: int, s: nat, i: int|
        #![trigger ancestor(v, j, s), lc[i]]
        0 <= j < v.nodes.len() && v.nodes[j].hwnd == Some(h) && 0 <= i < kk && ancestor(v, j, s) == lc[i] as int
}

/// Every window that the layout of node `id` lists is held by a node below
/// `id`, and no window is listed twice.
proof fn lemma_node_distinct(v: TreeView, r: Seq<nat>, id: int, area: Rect, gap: int, fuel: nat)
    requires
        v.well_formed(),
        ranks_ok(v.nodes, r),
    ensures
        forall|e: int|
            0 <= e < layout_node(v, id, area, gap, fuel).len() ==> held_at(
                v,
                (#[trigger] layout_node(v, id, area, gap, fuel)[e]).0,
                id,
            ),
        forall|e1: int, e2: int|
            0 <= e1 < e2 < layout_node(v, id, area, gap, fuel).len() ==> (#[trigger] layout_node(
                v,
                id,
                area,
                gap,
                fuel,
            )[e1]).0 != (#[trigger] layout_node(v, id, area, gap, fuel)[e2]).0,
    decreases fuel, 0int,
{
    let ls = layout_node(v, id, area, gap, fuel);
    if fuel > 0 && 0 <= id < v.nodes.len() {
        let node = v.nodes[id];
        match node.hwnd {
            Some(h) => {
                assert(ls == seq![(h, area)]);
                assert(ancestor(v, id, 0) == id);
                assert(0 <= id < v.nodes.len() && v.nodes[id].hwnd == Some(h) && ancestor(v, id, 0) == id);
                assert(held_at(v, h, id));
                assert forall|e: int| 0 <= e < ls.len() implies held_at(v, (#[trigger] ls[e]).0, id) by {
                    assert(ls[e].0 == h);
                }
            },
            None => {
                let ch = node.children;
                let lc = live_children(v, ch);
                lemma_live_from_children(v, ch, ch.len() as int);
                lemma_live_no_duplicates(v, ch, ch.len() as int);
                assert forall|i: int| 0 <= i < lc.len() implies 0 <= #[trigger] lc[i] < v.nodes.len()
                    && v.nodes[lc[i] as int].parent == Some(id as usize) by {
                    assert(ch.contains(lc[i]));
                    let q = choose|q: int| 0 <= q < ch.len() && ch[q] == lc[i];
                    assert(v.nodes[id].children[q] == lc[i]);
                }
                if lc.len() == 1 {
                    let c = lc[0] as int;
                    lemma_node_distinct(v, r, c, area, gap, (fuel - 1) as nat);
                    assert(ls == layout_node(v, c, area, gap, (fuel - 1) as nat));
                    assert forall|e: int| 0 <= e < ls.len() implies held_at(v, (#[trigger] ls[e]).0, id) by {
                        assert(held_at(v, ls[e].0, c));
                        let (j, s) = choose|j: int, s: nat| #![trigger ancestor(v, j, s)]
                            0 <= j < v.nodes.len() && v.nodes[j].hwnd == Some(ls[e].0) && ancestor(v, j, s) == c;
                        assert(ancestor(v, j, s + 1) == id);
                        assert(0 <= j < v.nodes.len() && v.nodes[j].hwnd == Some(ls[e].0) && ancestor(v, j, s + 1) == id);
                    }
                } else if lc.len() > 1 {
                    let cs = layout_children(v, lc, area, gap, node.direction, lc.len() as int, (fuel - 1) as nat);
                    lemma_children_distinct(v, r, id, lc, area, gap, node.direction, lc.len() as int, (fuel - 1) as nat);
                    assert(ls == cs);
                    assert forall|e: int| 0 <= e < ls.len() implies held_at(v, (#[trigger] ls[e]).0, id) by {
                        assert(held_below(v, cs[e].0, lc, lc.len() as int));
                        let (j, s, i) = choose|j: int, s: nat, i: int| #![trigger ancestor(v, j, s), lc[i]]
                            0 <= j < v.nodes.len() && v.nodes[j].hwnd == Some(cs[e].0) && 0 <= i < lc.len()
                                && ancestor(v, j, s) == lc[i] as int;
                        assert(0 <= lc[i] < v.nodes.len());
                        assert(ancestor(v, j, s + 1) == id);
                        assert(0 <= j < v.nodes.len() && v.nodes[j].hwnd == Some(ls[e].0) && ancestor(v, j, s + 1) == id);
                    }
                } else {
                    assert(ls.len() == 0);
                }
            },
        }
    }
}

proof fn lemma_children_distinct(
    v: TreeView,
    r: Seq<nat>,
    x: int,
    lc: Seq<usize>,
    area: Rect,
    gap: int,
    dir: SplitDirection,
    kk: int,
    fuel: nat,
)
    requires
        v.well_formed(),
        ranks_ok(v.nodes, r),
        0 <= kk <= lc.len(),
        0 <= x < v.nodes.len(),
        lc.no_duplicates(),
        forall|i: int|
            0 <= i < lc.len() ==> 0 <= #[trigger] lc[i] < v.nodes.len() && v.nodes[lc[i] as int].parent == Some(
                x as usize,
            ),
    ensures
        forall|e: int|
            0 <= e < layout_children(v, lc, area, gap, dir, kk, fuel).len() ==> held_below(
                v,
                (#[trigger] layout_children(v, lc, area, gap, dir, kk, fuel)[e]).0,
                lc,
                kk,
            ),
        forall|e1: int, e2: int|
            0 <= e1 < e2 < layout_children(v, lc, area, gap, dir, kk, fuel).len() ==> (
            #[trigger] layout_children(v, lc, area, gap, dir, kk, fuel)[e1]).0 != (
            #[trigger] layout_children(v, lc, area, gap, dir, kk, fuel)[e2]).0,
    decreases fuel, kk + 1,
{
    if kk > 0 {
        lemma_children_distinct(v, r, x, lc, area, gap, dir, kk - 1, fuel);
        let c = lc[kk - 1] as int;
        let a = child_area(area, gap, dir, lc.len() as int, kk - 1);
        lemma_node_distinct(v, r, c, a, gap, fuel);
        let first = layout_children(v, lc, area, gap, dir, kk - 1, fuel);
        let last = layout_node(v, c, a, gap, fuel);
        let all = layout_children(v, lc, area, gap, dir, kk, fuel);
        assert(all == first + last);
        assert forall|e: int| 0 <= e < all.len() implies held_below(v, (#[trigger] all[e]).0, lc, kk) by {
            if e < first.len() {
                assert(all[e] == first[e]);
                assert(held_below(v, first[e].0, lc, kk - 1));
                let (j, s, i) = choose|j: int, s: nat, i: int| #![trigger ancestor(v, j, s), lc[i]]
                    0 <= j < v.nodes.len() && v.nodes[j].hwnd == Some(first[e].0) && 0 <= i < kk - 1
                        && ancestor(v, j, s) == lc[i] as int;
                assert(0 <= j < v.nodes.len() && v.nodes[j].hwnd == Some(all[e].0) && 0 <= i < kk && ancestor(v, j, s)
                    == lc[i] as int);
            } else {
                assert(all[e] == last[e - first.len()]);
                assert(held_at(v, last[e - first.len()].0, c));
                let (j, s) = choose|j: int, s: nat| #![trigger ancestor(v, j, s)]
                    0 <= j < v.nodes.len() && v.nodes[j].hwnd == Some(last[e - first.len()].0)
                        && ancestor(v, j, s) == c;
                assert(0 <= j < v.nodes.len() && v.nodes[j].hwnd == Some(all[e].0) && 0 <= kk - 1 < kk && ancestor(
                    v,
                    j,
                    s,
                ) == lc[kk - 1] as int);
            }
        }
        assert forall|e1: int, e2: int| 0 <= e1 < e2 < all.len() implies (#[trigger] all[e1]).0 != (
        #[trigger] all[e2]).0 by {
            if e2 < first.len() {
                assert(all[e1] == first[e1] && all[e2] == first[e2]);
            } else if e1 >= first.len() {
                assert(all[e1] == last[e1 - first.len()] && all[e2] == last[e2 - first.len()]);
            } else {
                assert(all[e1] == first[e1] && all[e2] == last[e2 - first.len()]);
                if all[e1].0 == all[e2].0 {
                    assert(held_below(v, first[e1].0, lc, kk - 1));
                    let (j1, s1, i1) = choose|j: int, s: nat, i: int| #![trigger ancestor(v, j, s), lc[i]]
                        0 <= j < v.nodes.len() && v.nodes[j].hwnd == Some(first[e1].0) && 0 <= i < kk - 1
                            && ancestor(v, j, s) == lc[i] as int;
                    assert(held_at(v, last[e2 - first.len()].0, c));
                    let (j2, s2) = choose|j: int, s: nat| #![trigger ancestor(v, j, s)]
                        0 <= j < v.nodes.len() && v.nodes[j].hwnd == Some(last[e2 - first.len()].0)
                            && ancestor(v, j, s) == c;
                    if j1 != j2 {
                        assert(v.nodes[j1].hwnd != v.nodes[j2].hwnd);
                    }
                    assert(0 <= lc[i1] < v.nodes.len());
                    lemma_siblings_apart(v, r, j1, s1, s2, x);
                    assert(lc[i1] != lc[kk - 1]);
                }
            }
        }
    } else {
        assert(layout_children(v, lc, area, gap, dir, kk, fuel).len() == 0);
    }
}

/// No window gets two entries in a layout.
pub proof fn law_layout_lists_each_window_once(v: TreeView, area: Rect, gap: int)
    requires
        v.valid(),
    ensures
        forall|j: int, k: int|
            0 <= j < k < v.layouts(area, gap).len() ==> (#[trigger] v.layouts(area, gap)[j]).0 != (
            #[trigger] v.layouts(area, gap)[k]).0,
{
    let ls = v.layouts(area, gap);
    if v.layout == Layout::Monocle {
        assert(ls.len() <= 1);
    } else if v.layout == Layout::Stacking {
        law_windows_unique_and_found(v, 0);
        assert forall|j: int, k: int| 0 <= j < k < ls.len() implies (#[trigger] ls[j]).0 != (#[trigger] ls[k]).0 by {
            assert(ls[j].0 == v.windows()[j] && ls[k].0 == v.windows()[k]);
        }
    } else {
        let r = choose|r: Seq<nat>| ranks_ok(v.nodes, r);
        lemma_node_distinct(v, r, v.root_id as int, area, gap, v.nodes.len() as nat);
    }
}

/// Node `j` hangs from node `x` by `s` links, each node on the way listed
/// among its parent's children.
pub open spec fn hangs_from(v: TreeView, j: int, x: int, s: nat) -> bool
    decreases s,
{
    if s == 0 {
        j == x
    } else {
        &&& 0 <= j < v.nodes.len()
        &&& v.nodes[j].parent is Some
        &&& 0 <= v.nodes[j].parent->0 < v.nodes.len()
        &&& v.nodes[v.nodes[j].parent->0 as int].children.contains(j as usize)
        &&& hangs_from(v, v.nodes[j].parent->0 as int, x, (s - 1) as nat)
    }
}

/// The first link down from `x` towards a node that hangs from it.
proof fn lemma_hangs_step(v: TreeView, j: int, x: int, s: nat)
    requires
        hangs_from(v, j, x, s),
        s > 0,
    ensures
        exists|c: int|
            0 <= c < v.nodes.len() && v.nodes[x].children.contains(c as usize) && #[trigger] hangs_from(
                v,
                j,
                c,
                (s - 1) as nat,
            ),
    decreases s,
{
    let p = v.nodes[j].parent->0 as int;
    if s == 1 {
        assert(hangs_from(v, p, x, 0));
        assert(hangs_from(v, j, j, (s - 1) as nat));
        assert(0 <= j < v.nodes.len() && v.nodes[x].children.contains(j as usize));
    } else {
        lemma_hangs_step(v, p, x, (s - 1) as nat);
        let c = choose|c: int|
            0 <= c < v.nodes.len() && v.nodes[x].children.contains(c as usize) && #[trigger] hangs_from(
                v,
                p,
                c,
                (s - 2) as nat,
            );
        assert(hangs_from(v, j, c, (s - 1) as nat));
    }
}

/// A node from which another hangs by at least one link has children.
proof fn lemma_hangs_has_children(v: TreeView, j: int, x: int, s: nat)
    requires
        hangs_from(v, j, x, s),
        s > 0,
    ensures
        0 <= x < v.nodes.len(),
        v.nodes[x].children.len() > 0,
    decreases s,
{
    if s > 1 {
        lemma_hangs_has_children(v, v.nodes[j].parent->0 as int, x, (s - 1) as nat);
    } else {
        let p = v.nodes[j].parent->0 as int;
        assert(hangs_from(v, p, x, 0));
        assert(v.nodes[p].children.contains(j as usize));
    }
}

/// A child that takes part in the layout is among the live children.
proof fn lemma_live_includes(v: TreeView, ch: Seq<usize>, n: int, q: int)
    requires
        0 <= q < n <= ch.len(),
        v.is_live(ch[q] as int),
    ensures
        live_prefix(v, ch, n).contains(ch[q]),
    decreases n,
{
    if q < n - 1 {
        lemma_live_includes(v, ch, n - 1, q);
        let rest = live_prefix(v, ch, n - 1);
        let i = choose|i: int| 0 <= i < rest.len() && rest[i] == ch[q];
        if v.is_live(ch[n - 1] as int) {
            assert(live_prefix(v, ch, n)[i] == ch[q]);
        }
    } else {
        assert(live_prefix(v, ch, n).last() == ch[q]);
    }
}

/// Every entry of the layout of child `i` is an entry of the layouts of the
/// first `kk` children.
proof fn lemma_children_include(
    v: TreeView,
    lc: Seq<usize>,
    area: Rect,
    gap: int,
    dir: SplitDirection,
    kk: int,
    fuel: nat,
    i: int,
    h: isize,
)
    requires
        0 <= i < kk <= lc.len(),
        exists|k: int|
            0 <= k < layout_node(v, lc[i] as int, child_area(area, gap, dir, lc.len() as int, i), gap, fuel).len()
                && (#[trigger] layout_node(v, lc[i] as int, child_area(area, gap, dir, lc.len() as int, i), gap, fuel)[k]).0
                == h,
    ensures
        exists|k: int|
            0 <= k < layout_children(v, lc, area, gap, dir, kk, fuel).len() && (#[trigger] layout_children(
                v,
                lc,
                area,
                gap,
                dir,
                kk,
                fuel,
            )[k]).0 == h,
    decreases kk,
{
    let first = layout_children(v, lc, area, gap, dir, kk - 1, fuel);
    let last = layout_node(v, lc[kk - 1] as int, child_area(area, gap, dir, lc.len() as int, kk - 1), gap, fuel);
    let all = layout_children(v, lc, area, gap, dir, kk, fuel);
    assert(all == first + last);
    if i < kk - 1 {
        lemma_children_include(v, lc, area, gap, dir, kk - 1, fuel, i, h);
        let k = choose|k: int| 0 <= k < first.len() && (#[trigger] first[k]).0 == h;
        assert(all[k] == first[k]);
    } else {
        let k = choose|k: int| 0 <= k < last.len() && (#[trigger] last[k]).0 == h;
        assert(all[first.len() + k] == last[k]);
    }
}

/// A window that hangs from node `x` has an entry in the layout of `x`.
proof fn lemma_hanging_laid_out(
    v: TreeView,
    r: Seq<nat>,
    j: int,
    x: int,
    s: nat,
    area: Rect,
    gap: int,
    fuel: nat,
)
    requires
        v.well_formed(),
        ranks_ok(v.nodes, r),
        0 <= j < v.nodes.len(),
        v.nodes[j].hwnd is Some,
        0 <= x < v.nodes.len(),
        hangs_from(v, j, x, s),
        fuel + r[x] >= v.nodes.len(),
    ensures
        exists|k: int|
            0 <= k < layout_node(v, x, area, gap, fuel).len() && (#[trigger] layout_node(v, x, area, gap, fuel)[k]).0
                == v.nodes[j].hwnd->0,
    decreases s,
{
    let h = v.nodes[j].hwnd->0;
    let ls = layout_node(v, x, area, gap, fuel);
    if s == 0 {
        assert(ls == seq![(h, area)]);
        assert(ls[0].0 == h);
    } else {
        lemma_hangs_step(v, j, x, s);
        let c = choose|c: int|
            0 <= c < v.nodes.len() && v.nodes[x].children.contains(c as usize) && #[trigger] hangs_from(
                v,
                j,
                c,
                (s - 1) as nat,
            );
        let ch = v.nodes[x].children;
        let q = choose|q: int| 0 <= q < ch.len() && ch[q] == c as usize;
        assert(v.nodes[x].children[q] == c as usize);
        assert(v.nodes[c].parent == Some(x as usize));
        assert(v.nodes[x].hwnd is None);
        if s > 1 {
            lemma_hangs_has_children(v, j, c, (s - 1) as nat);
        }
        assert(v.is_live(c));
        lemma_live_includes(v, ch, ch.len() as int, q);
        let lc = live_children(v, ch);
        let i = choose|i: int| 0 <= i < lc.len() && lc[i] == c as usize;
        if lc.len() == 1 {
            lemma_hanging_laid_out(v, r, j, c, (s - 1) as nat, area, gap, (fuel - 1) as nat);
        } else {
            let a = child_area(area, gap, v.nodes[x].direction, lc.len() as int, i);
            lemma_hanging_laid_out(v, r, j, c, (s - 1) as nat, a, gap, (fuel - 1) as nat);
            lemma_children_include(
                v,
                lc,
                area,
                gap,
                v.nodes[x].direction,
                lc.len() as int,
                (fuel - 1) as nat,
                i,
                h,
            );
        }
    }
}

/// In an attached tree a split layout gives each window of the tree exactly
/// one entry and lists no other window.
pub proof fn law_each_window_laid_out_once(v: TreeView, area: Rect, gap: int)
    requires
        v.valid(),
        v.layout == Layout::SplitH || v.layout == Layout::SplitV,
        crate::attachment::attached(v),
    ensures
        forall|h: isize|
            v.windows().contains(h) <==> exists|k: int|
                0 <= k < v.layouts(area, gap).len() && (#[trigger] v.layouts(area, gap)[k]).0 == h,
        forall|j: int, k: int|
            0 <= j < k < v.layouts(area, gap).len() ==> (#[trigger] v.layouts(area, gap)[j]).0 != (
            #[trigger] v.layouts(area, gap)[k]).0,
{
    let ls = v.layouts(area, gap);
    law_layout_lists_each_window_once(v, area, gap);
    law_layout_lists_tree_windows(v, area, gap);
    let r = choose|r: Seq<nat>| ranks_ok(v.nodes, r);
    assert forall|h: isize| v.windows().contains(h) <==> exists|k: int| 0 <= k < ls.len() && (#[trigger] ls[k]).0 == h by {
        law_windows_unique_and_found(v, h);
        if v.windows().contains(h) {
            crate::tree::lemma_find_some(v, h);
            let j = v.find(h)->0 as int;
            assert(v.nodes[j].hwnd is Some);
            let s = choose|s: nat| hangs_from(v, j, v.root_id as int, s);
            lemma_hanging_laid_out(v, r, j, 0, s, area, gap, v.nodes.len() as nat);
        }
    }
}

} // verus!
