use vstd::prelude::*;

use crate::layout_laws::hangs_from;
use crate::tree::{
    lemma_cleanup_keeps, lemma_detach_keeps, lemma_detach_wf, lemma_without_facts, without, ranks_ok, NodeView,
    initial_tree, lemma_find_some, lemma_replace_first_facts, lemma_window_ids_valid, replace_first, Layout,
    SplitDirection, TreeView,
};

verus! {

/// Every window, and the focused node, hangs from the root by listed links.
/// The first tree is attached, and every operation on the tree keeps it so,
/// except focusing a node that is neither the root nor a window.
pub open spec fn attached(v: TreeView) -> bool {
    &&& forall|j: int|
        0 <= j < v.nodes.len() && #[trigger] v.nodes[j].hwnd is Some ==> exists|s: nat|
            hangs_from(v, j, v.root_id as int, s)
    &&& exists|s: nat| hangs_from(v, v.focused_id as int, v.root_id as int, s)
}

/// Whether a node hangs from another depends on the nodes alone.
proof fn lemma_hangs_same_nodes(v: TreeView, w: TreeView, j: int, x: int, s: nat)
    requires
        v.nodes == w.nodes,
        hangs_from(v, j, x, s),
    ensures
        hangs_from(w, j, x, s),
    decreases s,
{
    if s > 0 {
        lemma_hangs_same_nodes(v, w, v.nodes[j].parent->0 as int, x, (s - 1) as nat);
    }
}

/// Node `j` hangs from `x` one link further than its parent `q` does.
proof fn lemma_hangs_extend(w: TreeView, j: int, q: int, x: int, s: nat)
    requires
        0 <= j < w.nodes.len(),
        0 <= q < w.nodes.len(),
        q <= usize::MAX,
        w.nodes[j].parent == Some(q as usize),
        w.nodes[q].children.contains(j as usize),
        hangs_from(w, q, x, s),
    ensures
        hangs_from(w, j, x, s + 1),
{
    assert((s + 1 - 1) as nat == s);
    assert(w.nodes[j].parent->0 as int == q);
}

/// Links that `w` keeps for every node but `b1` and `b2`, each a window or
/// a node without children (a negative id names no node), keep every other
/// node hanging as it did.
proof fn lemma_hangs_frame(v: TreeView, w: TreeView, j: int, x: int, s: nat, b1: int, b2: int)
    requires
        v.parents_ok(),
        hangs_from(v, j, x, s),
        j != b1 && j != b2,
        0 <= b1 < v.nodes.len() ==> v.nodes[b1].hwnd is Some || v.nodes[b1].children.len() == 0,
        0 <= b2 < v.nodes.len() ==> v.nodes[b2].hwnd is Some || v.nodes[b2].children.len() == 0,
        w.nodes.len() >= v.nodes.len(),
        forall|k: int|
            0 <= k < v.nodes.len() && k != b1 && k != b2 && #[trigger] v.nodes[k].parent is Some ==> {
                let q = v.nodes[k].parent->0 as int;
                &&& w.nodes[k].parent == v.nodes[k].parent
                &&& (v.nodes[q].children.contains(k as usize) ==> w.nodes[q].children.contains(k as usize))
            },
    ensures
        hangs_from(w, j, x, s),
    decreases s,
{
    if s > 0 {
        let q = v.nodes[j].parent->0 as int;
        assert(0 <= j < v.nodes.len() && v.nodes[j].parent is Some);
        assert(v.nodes[q].hwnd is None);
        assert(v.nodes[q].children.len() > 0);
        assert(w.nodes[j].parent == v.nodes[j].parent);
        assert(w.nodes[q].children.contains(j as usize));
        lemma_hangs_frame(v, w, q, x, (s - 1) as nat, b1, b2);
    }
}

/// The first tree has no window, and its focused node is the root.
pub proof fn law_initial_tree_attached()
    ensures
        attached(initial_tree()),
{
    let v = initial_tree();
    assert(hangs_from(v, v.focused_id as int, v.root_id as int, 0));
}

/// A new window listed under container `q`, which hangs from the root,
/// keeps the tree attached when it becomes the focused node.
#[verifier::rlimit(100)]
proof fn lemma_leaf_added_attached(v: TreeView, w: TreeView, q: int, sq: nat)
    requires
        v.parents_ok(),
        attached(v),
        0 <= q < v.nodes.len(),
        v.nodes.len() + 1 <= usize::MAX,
        hangs_from(v, q, v.root_id as int, sq),
        w.root_id == v.root_id,
        w.focused_id == v.nodes.len(),
        w.nodes.len() == v.nodes.len() + 1,
        w.nodes[v.nodes.len() as int].parent == Some(q as usize),
        w.nodes[q].children == v.nodes[q].children.push(v.nodes.len() as usize),
        forall|i: int| 0 <= i < v.nodes.len() ==> #[trigger] w.nodes[i].parent == v.nodes[i].parent,
        forall|i: int| 0 <= i < v.nodes.len() ==> #[trigger] w.nodes[i].hwnd == v.nodes[i].hwnd,
        forall|i: int| 0 <= i < v.nodes.len() && i != q ==> #[trigger] w.nodes[i].children == v.nodes[i].children,
    ensures
        attached(w),
{
    let len = v.nodes.len();
    assert forall|k: int|
        0 <= k < v.nodes.len() && #[trigger] v.nodes[k].parent is Some implies {
            let p = v.nodes[k].parent->0 as int;
            &&& w.nodes[k].parent == v.nodes[k].parent
            &&& (v.nodes[p].children.contains(k as usize) ==> w.nodes[p].children.contains(k as usize))
        } by {
        let p = v.nodes[k].parent->0 as int;
        if p == q && v.nodes[p].children.contains(k as usize) {
            let i = choose|i: int| 0 <= i < v.nodes[p].children.len() && v.nodes[p].children[i] == k as usize;
            assert(w.nodes[p].children[i] == k as usize);
        }
    }
    lemma_hangs_frame(v, w, q, v.root_id as int, sq, -1, -1);
    assert(w.nodes[q].children[v.nodes[q].children.len() as int] == len as usize);
    lemma_hangs_extend(w, len as int, q, v.root_id as int, sq);
    assert forall|j: int| 0 <= j < w.nodes.len() && #[trigger] w.nodes[j].hwnd is Some implies exists|s: nat|
        hangs_from(w, j, w.root_id as int, s) by {
        if j < len {
            assert(v.nodes[j].hwnd is Some);
            let s = choose|s: nat| hangs_from(v, j, v.root_id as int, s);
            lemma_hangs_frame(v, w, j, v.root_id as int, s, -1, -1);
        } else {
            assert(hangs_from(w, j, w.root_id as int, sq + 1));
        }
    }
    assert(hangs_from(w, w.focused_id as int, w.root_id as int, sq + 1));
}

/// Window `f` under container `p` moving into a new container `c`, which
/// takes its place and also holds a new window `n`, keeps the tree attached
/// when `n` becomes the focused node.
#[verifier::rlimit(100)]
proof fn lemma_wrap_added_attached(v: TreeView, w: TreeView, f: int, p: int, sp: nat)
    requires
        v.parents_ok(),
        attached(v),
        0 <= f < v.nodes.len(),
        0 <= p < v.nodes.len(),
        f != p,
        v.nodes[f].hwnd is Some,
        v.nodes[f].parent == Some(p as usize),
        v.nodes[p].children.contains(f as usize),
        v.nodes.len() + 2 <= usize::MAX,
        hangs_from(v, p, v.root_id as int, sp),
        w.root_id == v.root_id,
        w.focused_id == v.nodes.len() + 1,
        w.nodes.len() == v.nodes.len() + 2,
        w.nodes[f].parent == Some(v.nodes.len() as usize),
        w.nodes[v.nodes.len() as int].parent == Some(p as usize),
        w.nodes[v.nodes.len() as int].children == seq![f as usize, (v.nodes.len() + 1) as usize],
        w.nodes[v.nodes.len() + 1int].parent == Some(v.nodes.len() as usize),
        w.nodes[p].children == replace_first(v.nodes[p].children, f as usize, v.nodes.len() as usize),
        forall|i: int|
            0 <= i < v.nodes.len() && i != f ==> #[trigger] w.nodes[i].parent == v.nodes[i].parent,
        forall|i: int| 0 <= i < v.nodes.len() ==> #[trigger] w.nodes[i].hwnd == v.nodes[i].hwnd,
        forall|i: int| 0 <= i < v.nodes.len() && i != p ==> #[trigger] w.nodes[i].children == v.nodes[i].children,
    ensures
        attached(w),
{
    let len = v.nodes.len();
    let c = len as int;
    let n = len + 1int;
    let chp = v.nodes[p].children;
    lemma_replace_first_facts(chp, f as usize, c as usize);
    let kf = crate::tree::position(chp, f as usize)->0;
    assert forall|k: int|
        0 <= k < v.nodes.len() && k != f && #[trigger] v.nodes[k].parent is Some implies {
            let q = v.nodes[k].parent->0 as int;
            &&& w.nodes[k].parent == v.nodes[k].parent
            &&& (v.nodes[q].children.contains(k as usize) ==> w.nodes[q].children.contains(k as usize))
        } by {
        let q = v.nodes[k].parent->0 as int;
        if q == p && v.nodes[q].children.contains(k as usize) {
            let i = choose|i: int| 0 <= i < v.nodes[q].children.len() && v.nodes[q].children[i] == k as usize;
            assert(i != kf);
            assert(w.nodes[q].children[i] == k as usize);
        }
    }
    lemma_hangs_frame(v, w, p, v.root_id as int, sp, f, -1);
    assert(w.nodes[p].children[kf] == c as usize);
    lemma_hangs_extend(w, c, p, v.root_id as int, sp);
    assert(w.nodes[c].children[0] == f as usize);
    assert(w.nodes[c].children[1] == n as usize);
    lemma_hangs_extend(w, f, c, v.root_id as int, sp + 1);
    lemma_hangs_extend(w, n, c, v.root_id as int, sp + 1);
    assert forall|j: int| 0 <= j < w.nodes.len() && #[trigger] w.nodes[j].hwnd is Some implies exists|s: nat|
        hangs_from(w, j, w.root_id as int, s) by {
        if j < len && j != f {
            assert(v.nodes[j].hwnd is Some);
            let s = choose|s: nat| hangs_from(v, j, v.root_id as int, s);
            lemma_hangs_frame(v, w, j, v.root_id as int, s, f, -1);
        } else if j == f {
            assert(hangs_from(w, j, w.root_id as int, sp + 2));
        } else if j == c {
        } else {
            assert(j == n);
            assert(hangs_from(w, j, w.root_id as int, sp + 2));
        }
    }
    assert(hangs_from(w, w.focused_id as int, w.root_id as int, sp + 2));
}

/// Adding a window keeps every window and the focused node hanging from the
/// root.
pub proof fn law_add_keeps_attached(v: TreeView, h: isize)
    requires
        v.valid(),
        v.has_room(2),
        attached(v),
    ensures
        attached(v.after_add_window(h).0),
{
    let w = v.after_add_window(h).0;
    let len = v.nodes.len();
    let f = v.focused_id;
    let fnode = v.nodes[f as int];
    let sf = choose|s: nat| hangs_from(v, f as int, v.root_id as int, s);
    match v.find(h) {
        Some(e) => {
            lemma_find_some(v, h);
            assert(v.nodes[e as int].hwnd is Some);
            assert(w.nodes == v.nodes && w.focused_id == e && w.root_id == v.root_id);
            assert forall|j: int| 0 <= j < w.nodes.len() && #[trigger] w.nodes[j].hwnd is Some implies exists|s: nat|
                hangs_from(w, j, w.root_id as int, s) by {
                assert(v.nodes[j].hwnd is Some);
                let s = choose|s: nat| hangs_from(v, j, v.root_id as int, s);
                lemma_hangs_same_nodes(v, w, j, v.root_id as int, s);
            }
            let se = choose|s: nat| hangs_from(v, e as int, v.root_id as int, s);
            lemma_hangs_same_nodes(v, w, e as int, v.root_id as int, se);
        },
        None => {
            if fnode.parent is None {
                assert(sf == 0) by {
                    if sf > 0 {
                        assert(v.nodes[f as int].parent is Some);
                    }
                }
                assert(f == 0);
                lemma_leaf_added_attached(v, w, 0, sf);
            } else if fnode.hwnd is None {
                lemma_leaf_added_attached(v, w, f as int, sf);
            } else {
                let p = fnode.parent->0;
                assert(sf > 0);
                let sp = (sf - 1) as nat;
                assert(hangs_from(v, p as int, 0, sp));
                assert(v.nodes[p as int].children.contains(f));
                assert(w.nodes[len as int].children =~= seq![f, (len + 1) as usize]);
                lemma_wrap_added_attached(v, w, f as int, p as int, sp);
            }
        },
    }
}

/// A tree whose links are those of an attached tree, and whose focused node
/// hangs from the root, is attached.
proof fn lemma_links_kept_attached(v: TreeView, w: TreeView, sf: nat)
    requires
        v.parents_ok(),
        attached(v),
        w.root_id == v.root_id,
        w.nodes.len() == v.nodes.len(),
        forall|i: int| 0 <= i < v.nodes.len() ==> #[trigger] w.nodes[i].parent == v.nodes[i].parent,
        forall|i: int| 0 <= i < v.nodes.len() ==> #[trigger] w.nodes[i].hwnd == v.nodes[i].hwnd,
        forall|i: int| 0 <= i < v.nodes.len() ==> #[trigger] w.nodes[i].children == v.nodes[i].children,
        hangs_from(v, w.focused_id as int, v.root_id as int, sf),
    ensures
        attached(w),
{
    assert forall|j: int| 0 <= j < w.nodes.len() && #[trigger] w.nodes[j].hwnd is Some implies exists|s: nat|
        hangs_from(w, j, w.root_id as int, s) by {
        assert(v.nodes[j].hwnd is Some);
        let s = choose|s: nat| hangs_from(v, j, v.root_id as int, s);
        lemma_hangs_frame(v, w, j, v.root_id as int, s, -1, -1);
    }
    lemma_hangs_frame(v, w, w.focused_id as int, v.root_id as int, sf, -1, -1);
}

/// A focused window that hangs from the root hangs through its parent.
proof fn lemma_window_parent_hangs(v: TreeView, f: int, sf: nat)
    requires
        v.root_ok(),
        0 <= f < v.nodes.len(),
        v.nodes[f].hwnd is Some,
        hangs_from(v, f, v.root_id as int, sf),
    ensures
        sf > 0,
        v.nodes[f].parent is Some,
        hangs_from(v, v.nodes[f].parent->0 as int, v.root_id as int, (sf - 1) as nat),
        v.nodes[v.nodes[f].parent->0 as int].children.contains(f as usize),
{
}

/// Toggling the split keeps the tree attached.
pub proof fn law_toggle_keeps_attached(v: TreeView)
    requires
        v.valid(),
        attached(v),
    ensures
        attached(v.after_toggle_split()),
{
    let w = v.after_toggle_split();
    let f = v.focused_id as int;
    let sf = choose|s: nat| hangs_from(v, f, v.root_id as int, s);
    let t = v.split_target() as int;
    assert(0 <= t < v.nodes.len());
    assert(forall|i: int| 0 <= i < v.nodes.len() && i != t ==> #[trigger] w.nodes[i] == v.nodes[i]);
    if v.nodes[f].hwnd is Some && v.nodes[f].parent is Some {
        lemma_window_parent_hangs(v, f, sf);
        lemma_links_kept_attached(v, w, (sf - 1) as nat);
    } else {
        lemma_links_kept_attached(v, w, sf);
    }
}

/// Setting the split keeps the tree attached.
pub proof fn law_set_split_keeps_attached(v: TreeView, dir: SplitDirection)
    requires
        v.valid(),
        v.has_room(1),
        attached(v),
    ensures
        attached(v.after_set_split(dir)),
{
    let w = v.after_set_split(dir);
    let len = v.nodes.len();
    let f = v.focused_id as int;
    let fnode = v.nodes[f];
    let sf = choose|s: nat| hangs_from(v, f, v.root_id as int, s);
    if fnode.hwnd is None || fnode.parent is None {
        assert(forall|i: int| 0 <= i < len && i != f ==> #[trigger] w.nodes[i] == v.nodes[i]);
        lemma_links_kept_attached(v, w, sf);
    } else {
        lemma_window_parent_hangs(v, f, sf);
        let p = fnode.parent->0 as int;
        let c = len as int;
        let sp = (sf - 1) as nat;
        lemma_replace_first_facts(v.nodes[p].children, f as usize, c as usize);
        let kf = crate::tree::position(v.nodes[p].children, f as usize)->0;
        assert(w.nodes.len() == len + 1);
        assert(w.focused_id == c);
        assert(w.nodes[c].parent == Some(p as usize));
        assert(w.nodes[c].children == seq![f as usize]);
        assert(w.nodes[f].parent == Some(c as usize));
        assert(w.nodes[p].children == replace_first(v.nodes[p].children, f as usize, c as usize));
        assert(forall|i: int| 0 <= i < len && i != f && i != p ==> #[trigger] w.nodes[i] == v.nodes[i]);
        assert(w.nodes[p].hwnd == v.nodes[p].hwnd && w.nodes[f].hwnd == v.nodes[f].hwnd);
        assert(p != f);
        assert forall|k: int|
            0 <= k < v.nodes.len() && k != f && #[trigger] v.nodes[k].parent is Some implies {
                let q = v.nodes[k].parent->0 as int;
                &&& w.nodes[k].parent == v.nodes[k].parent
                &&& (v.nodes[q].children.contains(k as usize) ==> w.nodes[q].children.contains(k as usize))
            } by {
            let q = v.nodes[k].parent->0 as int;
            if q == p && v.nodes[q].children.contains(k as usize) {
                let i = choose|i: int| 0 <= i < v.nodes[q].children.len() && v.nodes[q].children[i] == k as usize;
                assert(i != kf);
                assert(w.nodes[q].children[i] == k as usize);
            }
        }
        lemma_hangs_frame(v, w, p, v.root_id as int, sp, f, -1);
        assert(w.nodes[p].children[kf] == c as usize);
        lemma_hangs_extend(w, c, p, v.root_id as int, sp);
        assert(w.nodes[c].children[0] == f as usize);
        lemma_hangs_extend(w, f, c, v.root_id as int, sp + 1);
        assert forall|j: int| 0 <= j < w.nodes.len() && #[trigger] w.nodes[j].hwnd is Some implies exists|s: nat|
            hangs_from(w, j, w.root_id as int, s) by {
            assert(w.root_id == v.root_id);
            if j < len && j != f {
                assert(v.nodes[j].hwnd is Some);
                let s = choose|s: nat| hangs_from(v, j, v.root_id as int, s);
                lemma_hangs_frame(v, w, j, v.root_id as int, s, f, -1);
                assert(hangs_from(w, j, w.root_id as int, s));
            } else if j == f {
                assert(hangs_from(w, j, w.root_id as int, sp + 2));
            } else {
                assert(j == c);
                assert(w.nodes[c].hwnd is None);
            }
        }
        assert(hangs_from(w, w.focused_id as int, w.root_id as int, sp + 1));
    }
}

/// Moving focus to the next or the previous window keeps the tree attached.
pub proof fn law_focus_step_keeps_attached(v: TreeView)
    requires
        v.valid(),
        attached(v),
    ensures
        attached(v.after_focus_next()),
        attached(v.after_focus_prev()),
{
    let ids = v.window_ids();
    lemma_window_ids_valid(v, v.nodes.len() as int);
    let f = v.focused_id as int;
    let sf = choose|s: nat| hangs_from(v, f, v.root_id as int, s);
    if ids.len() == 0 {
        lemma_links_kept_attached(v, v.after_focus_next(), sf);
        lemma_links_kept_attached(v, v.after_focus_prev(), sf);
    } else {
        let n1 = v.after_focus_next().focused_id as int;
        let n2 = v.after_focus_prev().focused_id as int;
        let k = v.focus_index();
        assert(0 <= k < ids.len()) by {
            crate::tree::lemma_position_prefix(ids, v.focused_id, ids.len() as int);
        }
        let k1 = (k + 1) % (ids.len() as int);
        assert(n1 == ids[k1]);
        assert(v.nodes[n1].hwnd is Some);
        let s1 = choose|s: nat| hangs_from(v, n1, v.root_id as int, s);
        lemma_links_kept_attached(v, v.after_focus_next(), s1);
        let k2 = if k == 0 {
            ids.len() - 1
        } else {
            k - 1
        };
        assert(n2 == ids[k2]);
        assert(v.nodes[n2].hwnd is Some);
        let s2 = choose|s: nat| hangs_from(v, n2, v.root_id as int, s);
        lemma_links_kept_attached(v, v.after_focus_prev(), s2);
    }
}

/// Focusing the root, a node that holds a window or no node at all, or
/// changing the layout mode, keeps the tree attached.
pub proof fn law_focus_and_layout_keep_attached(v: TreeView, id: usize, layout: Layout)
    requires
        v.valid(),
        attached(v),
        id == v.root_id || id >= v.nodes.len() || v.nodes[id as int].hwnd is Some,
    ensures
        attached(
            TreeView {
                focused_id: if id < v.nodes.len() {
                    id
                } else {
                    v.focused_id
                },
                ..v
            },
        ),
        attached(
            TreeView {
                layout,
                monocle_focused: if layout == Layout::Monocle {
                    Some(v.focused_id)
                } else {
                    None
                },
                ..v
            },
        ),
{
    let sf = choose|s: nat| hangs_from(v, v.focused_id as int, v.root_id as int, s);
    let w = TreeView {
        focused_id: if id < v.nodes.len() {
            id
        } else {
            v.focused_id
        },
        ..v
    };
    if id >= v.nodes.len() {
        lemma_links_kept_attached(v, w, sf);
    } else if id == v.root_id {
        assert(hangs_from(v, id as int, v.root_id as int, 0));
        lemma_links_kept_attached(v, w, 0);
    } else {
        let s = choose|s: nat| hangs_from(v, id as int, v.root_id as int, s);
        lemma_links_kept_attached(v, w, s);
    }
    lemma_links_kept_attached(
        v,
        TreeView {
            layout,
            monocle_focused: if layout == Layout::Monocle {
                Some(v.focused_id)
            } else {
                None
            },
            ..v
        },
        sf,
    );
}

/// Two windows that trade places keep the tree attached.
#[verifier::rlimit(100)]
proof fn lemma_swap_attached(v: TreeView, a: int, b: int)
    requires
        v.valid(),
        attached(v),
        0 <= a < v.nodes.len(),
        0 <= b < v.nodes.len(),
        a != b,
        v.nodes[a].hwnd is Some,
        v.nodes[b].hwnd is Some,
        v.focused_id == a,
    ensures
        attached(v.after_swap(a as usize, b as usize)),
{
    let w = v.after_swap(a as usize, b as usize);
    let len = v.nodes.len();
    let sa = choose|s: nat| hangs_from(v, a, v.root_id as int, s);
    let sb = choose|s: nat| hangs_from(v, b, v.root_id as int, s);
    lemma_window_parent_hangs(v, a, sa);
    lemma_window_parent_hangs(v, b, sb);
    let pa = v.nodes[a].parent->0 as int;
    let pb = v.nodes[b].parent->0 as int;
    let cha = v.nodes[pa].children;
    let chb = v.nodes[pb].children;
    lemma_replace_first_facts(cha, a as usize, b as usize);
    lemma_replace_first_facts(chb, b as usize, a as usize);
    let xa = crate::tree::position(cha, a as usize)->0;
    let xb = crate::tree::position(chb, b as usize)->0;
    assert(cha.no_duplicates() && chb.no_duplicates());
    assert(v.nodes[pa].hwnd is None && v.nodes[pb].hwnd is None);
    assert(w.nodes.len() == len);
    assert(w.root_id == v.root_id && w.focused_id == v.focused_id);
    assert(w.nodes[a].parent == Some(pb as usize));
    assert(w.nodes[b].parent == Some(pa as usize));
    if pa == pb {
        assert(w.nodes[pa].children == cha.update(xa, cha[xb]).update(xb, cha[xa]));
        assert(w.nodes[pb].children[xb] == a as usize);
        assert(w.nodes[pa].children[xa] == b as usize);
    } else {
        assert(w.nodes[pa].children == cha.update(xa, b as usize));
        assert(w.nodes[pb].children == chb.update(xb, a as usize));
        assert(w.nodes[pb].children[xb] == a as usize);
        assert(w.nodes[pa].children[xa] == b as usize);
    }
    assert(forall|i: int| 0 <= i < len && i != a && i != b && i != pa && i != pb ==> #[trigger] w.nodes[i] == v.nodes[i]);
    assert(forall|i: int| 0 <= i < len ==> #[trigger] w.nodes[i].hwnd == v.nodes[i].hwnd);
    assert forall|k: int|
        0 <= k < v.nodes.len() && k != a && k != b && #[trigger] v.nodes[k].parent is Some implies {
            let q = v.nodes[k].parent->0 as int;
            &&& w.nodes[k].parent == v.nodes[k].parent
            &&& (v.nodes[q].children.contains(k as usize) ==> w.nodes[q].children.contains(k as usize))
        } by {
        let q = v.nodes[k].parent->0 as int;
        if (q == pa || q == pb) && v.nodes[q].children.contains(k as usize) {
            let i = choose|i: int| 0 <= i < v.nodes[q].children.len() && v.nodes[q].children[i] == k as usize;
            if q == pa {
                assert(i != xa);
            }
            if q == pb {
                assert(i != xb);
            }
            if pa == pb {
                assert(i != xa && i != xb);
            }
            assert(w.nodes[q].children[i] == k as usize);
        }
    }
    let spa = (sa - 1) as nat;
    let spb = (sb - 1) as nat;
    lemma_hangs_frame(v, w, pa, v.root_id as int, spa, a, b);
    lemma_hangs_frame(v, w, pb, v.root_id as int, spb, a, b);
    lemma_hangs_extend(w, a, pb, v.root_id as int, spb);
    lemma_hangs_extend(w, b, pa, v.root_id as int, spa);
    assert forall|j: int| 0 <= j < w.nodes.len() && #[trigger] w.nodes[j].hwnd is Some implies exists|s: nat|
        hangs_from(w, j, w.root_id as int, s) by {
        if j == a {
            assert(hangs_from(w, j, w.root_id as int, spb + 1));
        } else if j == b {
            assert(hangs_from(w, j, w.root_id as int, spa + 1));
        } else {
            assert(v.nodes[j].hwnd is Some);
            let s = choose|s: nat| hangs_from(v, j, v.root_id as int, s);
            lemma_hangs_frame(v, w, j, v.root_id as int, s, a, b);
            assert(hangs_from(w, j, w.root_id as int, s));
        }
    }
    assert(hangs_from(w, w.focused_id as int, w.root_id as int, spb + 1));
}

/// Moving the focused window keeps the tree attached.
pub proof fn law_move_keeps_attached(v: TreeView, dx: i32, dy: i32, area: crate::layout::Rect)
    requires
        v.valid(),
        attached(v),
    ensures
        attached(v.after_move_focused(dx, dy, area).0),
{
    if v.after_move_focused(dx, dy, area).1 {
        let a = v.focused_id;
        let hf = v.focused_hwnd()->0;
        let ht = v.target_in_direction(dx, dy, area)->0;
        let b = v.find(ht)->0;
        let ls = v.layouts(area, 0);
        let cur = v.focused_rect(area)->0;
        assert(v.focused_hwnd() is Some && v.focused_rect(area) is Some);
        assert(exists|k: int| crate::tree::is_best(ls, hf, cur, dx, dy, k));
        let kt = choose|k: int| crate::tree::is_best(ls, hf, cur, dx, dy, k);
        assert(ls[kt].0 == ht && ht != hf);
        lemma_find_some(v, ht);
        assert(v.nodes[a as int].hwnd == Some(hf));
        lemma_swap_attached(v, a as int, b as int);
    }
}

/// Every window but `t`, and the focused node, hang from the root, and the
/// focused node is not `t`.
pub open spec fn attached_but(v: TreeView, t: int) -> bool {
    &&& forall|j: int|
        0 <= j < v.nodes.len() && j != t && #[trigger] v.nodes[j].hwnd is Some ==> exists|s: nat|
            hangs_from(v, j, v.root_id as int, s)
    &&& exists|s: nat| hangs_from(v, v.focused_id as int, v.root_id as int, s)
    &&& v.focused_id != t
}

/// Cleaning up empty containers upwards from `c` keeps every window but `t`
/// and the focused node hanging from the root.
#[verifier::rlimit(100)]
#[verifier::spinoff_prover]
proof fn lemma_cleanup_attached(u: TreeView, c: usize, fuel: nat, t: int)
    requires
        u.ids_ok(),
        u.parents_ok(),
        attached_but(u, t),
        0 <= t < u.nodes.len(),
        u.nodes[t].hwnd is Some,
        c < u.nodes.len(),
        c != u.root_id,
        u.nodes[c as int].hwnd is None,
        u.nodes[c as int].children.len() == 0,
    ensures
        attached_but(u.after_cleanup(c, fuel), t),
        u.after_cleanup(c, fuel).parents_ok(),
        u.after_cleanup(c, fuel).nodes[t].hwnd is Some,
    decreases fuel,
{
    lemma_cleanup_keeps(u, c, fuel);
    if fuel > 0 {
        match u.nodes[c as int].parent {
            None => {},
            Some(gp) => if gp < u.nodes.len() {
                let gnode = u.nodes[gp as int];
                let v1 = TreeView {
                    focused_id: if u.focused_id == c {
                        gp
                    } else {
                        u.focused_id
                    },
                    ..u.set_node(gp as int, NodeView { children: without(gnode.children, c), ..gnode })
                };
                lemma_without_facts(gnode.children, c);
                assert(forall|i: int| 0 <= i < u.nodes.len() && i != gp ==> #[trigger] v1.nodes[i] == u.nodes[i]);
                assert(forall|i: int| 0 <= i < u.nodes.len() ==> #[trigger] v1.nodes[i].parent == u.nodes[i].parent);
                assert(forall|i: int| 0 <= i < u.nodes.len() ==> #[trigger] v1.nodes[i].hwnd == u.nodes[i].hwnd);
                assert(v1.root_id == u.root_id);
                assert forall|k: int|
                    0 <= k < u.nodes.len() && k != c && #[trigger] u.nodes[k].parent is Some implies {
                        let q = u.nodes[k].parent->0 as int;
                        &&& v1.nodes[k].parent == u.nodes[k].parent
                        &&& (u.nodes[q].children.contains(k as usize) ==> v1.nodes[q].children.contains(k as usize))
                    } by {
                    let q = u.nodes[k].parent->0 as int;
                    if q == gp as int && u.nodes[q].children.contains(k as usize) {
                        assert(u.nodes[k].id == k);
                        assert(without(gnode.children, c).contains(k as usize));
                    }
                }
                assert forall|j: int|
                    0 <= j < v1.nodes.len() && j != t && #[trigger] v1.nodes[j].hwnd is Some implies exists|s: nat|
                        hangs_from(v1, j, v1.root_id as int, s) by {
                    assert(u.nodes[j].hwnd is Some);
                    let s = choose|s: nat| hangs_from(u, j, u.root_id as int, s);
                    lemma_hangs_frame(u, v1, j, u.root_id as int, s, c as int, -1);
                    assert(hangs_from(v1, j, v1.root_id as int, s));
                }
                let sf = choose|s: nat| hangs_from(u, u.focused_id as int, u.root_id as int, s);
                if u.focused_id == c {
                    assert(sf > 0);
                    assert(u.nodes[c as int].parent->0 == gp);
                    let sg = (sf - 1) as nat;
                    assert(hangs_from(u, gp as int, u.root_id as int, sg));
                    assert(u.nodes[gp as int].children.contains(c));
                    assert(gp != c);
                    lemma_hangs_frame(u, v1, gp as int, u.root_id as int, sg, c as int, -1);
                    assert(hangs_from(v1, v1.focused_id as int, v1.root_id as int, sg));
                } else {
                    lemma_hangs_frame(u, v1, u.focused_id as int, u.root_id as int, sf, c as int, -1);
                    assert(hangs_from(v1, v1.focused_id as int, v1.root_id as int, sf));
                }
                assert(u.nodes[t].hwnd is Some && u.focused_id != t);
                assert(v1.focused_id != t);
                assert(v1.parents_ok());
                assert(v1.ids_ok());
                if gp != u.root_id && v1.nodes[gp as int].children.len() == 0 && v1.nodes[gp as int].hwnd is None {
                    lemma_cleanup_attached(v1, gp, (fuel - 1) as nat, t);
                }
            },
        }
    }
}

/// Taking window `t` out of its parent, and cleaning up the containers left
/// empty, keeps every other window and the focused node hanging.
#[verifier::rlimit(100)]
#[verifier::spinoff_prover]
proof fn lemma_detach_attached(v: TreeView, t: usize)
    requires
        v.valid(),
        attached(v),
        t < v.nodes.len(),
        v.nodes[t as int].hwnd is Some,
    ensures
        attached_but(v.after_detach(t), t as int),
        v.after_detach(t).parents_ok(),
{
    let ti = t as int;
    let r = choose|r: Seq<nat>| ranks_ok(v.nodes, r);
    lemma_detach_wf(v, r, t);
    lemma_detach_keeps(v, t);
    let v1 = v.after_detach(t);
    let st = choose|s: nat| hangs_from(v, ti, v.root_id as int, s);
    lemma_window_parent_hangs(v, ti, st);
    let pid = v.nodes[ti].parent->0;
    let sp = (st - 1) as nat;
    let pnode = v.nodes[pid as int];
    let ch = without(pnode.children, t);
    lemma_without_facts(pnode.children, t);
    let va = TreeView {
        focused_id: if v.focused_id == t {
            if ch.len() == 0 {
                pid
            } else {
                ch[0]
            }
        } else {
            v.focused_id
        },
        ..v.set_node(pid as int, NodeView { children: ch, ..pnode })
    };
    assert(va.root_id == v.root_id);
    assert(forall|i: int| 0 <= i < v.nodes.len() && i != pid ==> #[trigger] va.nodes[i] == v.nodes[i]);
    assert(forall|i: int| 0 <= i < v.nodes.len() ==> #[trigger] va.nodes[i].parent == v.nodes[i].parent);
    assert(forall|i: int| 0 <= i < v.nodes.len() ==> #[trigger] va.nodes[i].hwnd == v.nodes[i].hwnd);
    assert forall|k: int|
        0 <= k < v.nodes.len() && k != ti && #[trigger] v.nodes[k].parent is Some implies {
            let q = v.nodes[k].parent->0 as int;
            &&& va.nodes[k].parent == v.nodes[k].parent
            &&& (v.nodes[q].children.contains(k as usize) ==> va.nodes[q].children.contains(k as usize))
        } by {
        let q = v.nodes[k].parent->0 as int;
        if q == pid as int && v.nodes[q].children.contains(k as usize) {
            assert(ch.contains(k as usize));
        }
    }
    assert forall|j: int|
        0 <= j < va.nodes.len() && j != ti && #[trigger] va.nodes[j].hwnd is Some implies exists|s: nat|
            hangs_from(va, j, va.root_id as int, s) by {
        assert(v.nodes[j].hwnd is Some);
        let s = choose|s: nat| hangs_from(v, j, v.root_id as int, s);
        lemma_hangs_frame(v, va, j, v.root_id as int, s, ti, -1);
        assert(hangs_from(va, j, va.root_id as int, s));
    }
    lemma_hangs_frame(v, va, pid as int, v.root_id as int, sp, ti, -1);
    if v.focused_id == t {
        if ch.len() == 0 {
            assert(hangs_from(va, va.focused_id as int, va.root_id as int, sp));
        } else {
            assert(ch.contains(ch[0]));
            let q = choose|q: int| 0 <= q < pnode.children.len() && pnode.children[q] == ch[0];
            assert(v.nodes[pid as int].children[q] == ch[0]);
            assert(v.nodes[ch[0] as int].parent == Some(pid));
            lemma_hangs_extend(va, ch[0] as int, pid as int, v.root_id as int, sp);
            assert(hangs_from(va, va.focused_id as int, va.root_id as int, sp + 1));
        }
    } else {
        let sf = choose|s: nat| hangs_from(v, v.focused_id as int, v.root_id as int, s);
        lemma_hangs_frame(v, va, v.focused_id as int, v.root_id as int, sf, ti, -1);
        assert(hangs_from(va, va.focused_id as int, va.root_id as int, sf));
    }
    assert(va.focused_id != t);
    assert(attached_but(va, ti));
    assert(va.parents_ok());
    assert(va.ids_ok());
    reveal(TreeView::after_detach);
    if pid != v.root_id && ch.len() == 0 && pnode.hwnd is None {
        lemma_cleanup_attached(va, pid, v.nodes.len() as nat, ti);
        assert(v1 == va.after_cleanup(pid, v.nodes.len() as nat));
    } else {
        assert(v1 == va);
    }
}

/// Removing a window keeps the tree attached.
#[verifier::rlimit(100)]
#[verifier::spinoff_prover]
pub proof fn law_remove_keeps_attached(v: TreeView, h: isize)
    requires
        v.valid(),
        attached(v),
    ensures
        attached(v.after_remove_window(h)),
{
    match v.find(h) {
        None => {},
        Some(t) => {
            lemma_find_some(v, h);
            let ti = t as int;
            let r = choose|r: Seq<nat>| ranks_ok(v.nodes, r);
            lemma_detach_wf(v, r, t);
            lemma_detach_keeps(v, t);
            lemma_detach_attached(v, t);
            let v1 = v.after_detach(t);
            assert(attached_but(v1, ti));
            assert(v1.parents_ok());
            let w = v1.set_node(ti, NodeView { hwnd: None, children: Seq::empty(), ..v1.nodes[ti] });
            assert(w == v.after_remove_window(h));
            assert(forall|i: int| 0 <= i < v1.nodes.len() && i != ti ==> #[trigger] w.nodes[i] == v1.nodes[i]);
            assert(w.nodes[ti].parent == v1.nodes[ti].parent);
            assert forall|k: int|
                0 <= k < v1.nodes.len() && k != ti && #[trigger] v1.nodes[k].parent is Some implies {
                    let q = v1.nodes[k].parent->0 as int;
                    &&& w.nodes[k].parent == v1.nodes[k].parent
                    &&& (v1.nodes[q].children.contains(k as usize) ==> w.nodes[q].children.contains(k as usize))
                } by {
                let q = v1.nodes[k].parent->0 as int;
                assert(v1.nodes[q].hwnd is None);
            }
            assert forall|j: int| 0 <= j < w.nodes.len() && #[trigger] w.nodes[j].hwnd is Some implies exists|s: nat|
                hangs_from(w, j, w.root_id as int, s) by {
                assert(j != ti);
                assert(v1.nodes[j].hwnd is Some);
                let s = choose|s: nat| hangs_from(v1, j, v1.root_id as int, s);
                lemma_hangs_frame(v1, w, j, v1.root_id as int, s, ti, -1);
                assert(hangs_from(w, j, w.root_id as int, s));
            }
            let sf = choose|s: nat| hangs_from(v1, v1.focused_id as int, v1.root_id as int, s);
            lemma_hangs_frame(v1, w, v1.focused_id as int, v1.root_id as int, sf, ti, -1);
            assert(hangs_from(w, w.focused_id as int, w.root_id as int, sf));
        },
    }
}

} // verus!
