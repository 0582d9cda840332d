use vstd::multiset::Multiset;
use vstd::prelude::*;

use crate::hotkeys::{
    upper_key_code, named_key_code, is_ascii_alnum, virtual_key_of,    entries_for, entry_with_id_prefix, hotkey_of, hotkey_parts, lemma_entry_with_id_stable,
    modifier_of, pair_outcome_at, scan_parts, HotkeyEntry,
};
use crate::actions::Action;
use crate::commands::{
    area_of, plan_focus,
    next_index, plan, plan_move_to, plan_place, previous_index, switch_effects, hides, shows, relayout, EffectView,
    Observation, Plan, MOVE_STEP,
};
use crate::services::layout_service::acted_on;
use crate::services::layout_service::shift_fits;
use crate::error::AppErrorView;
use crate::services::layout_service::LayoutService;
use crate::services::window_service::ignored_message;
use crate::config::IgnoreConfig;
use crate::layout::{layout_rect, layout_rect_fits, LayoutType, Rect};
use crate::rules::wildcard_matches;
use crate::services::window_service::{ignored_by, managed, managed_prefix};
use crate::services::workspace_service::{joined, rule_target, WorkspacesView};
use crate::window::WindowInfo;
use crate::workspace::without_item;
use crate::tree::{
    cell_size, child_area_fits, fits_node, fits_children, in_i32, tdiv, at_least_one, initial_tree, law_add_keeps_valid, ranks_ok, best_target, dist4, in_direction, is_best, is_candidate, without, child_area, layout_children, layout_node, live_children, find_prefix, lemma_detach_keeps, lemma_find_absent, lemma_find_none, lemma_find_some,
    lemma_position_prefix, lemma_window_ids_valid, position, window_ids_prefix, Layout, NodeView,
    SplitDirection, TreeView, windows_prefix,
};

verus! {

/// Node sequences that agree on the windows of their first `n` nodes list
/// the same windows there.
pub proof fn lemma_windows_same(a: Seq<NodeView>, b: Seq<NodeView>, n: int)
    requires
        0 <= n <= a.len(),
        n <= b.len(),
        forall|j: int| 0 <= j < n ==> (#[trigger] a[j]).hwnd == b[j].hwnd,
    ensures
        windows_prefix(a, n) == windows_prefix(b, n),
    decreases n,
{
    if n > 0 {
        lemma_windows_same(a, b, n - 1);
    }
}

/// Nodes without a window add nothing to the list of windows.
pub proof fn lemma_windows_tail_empty(nodes: Seq<NodeView>, a: int, b: int)
    requires
        0 <= a <= b <= nodes.len(),
        forall|j: int| a <= j < b ==> (#[trigger] nodes[j]).hwnd is None,
    ensures
        windows_prefix(nodes, b) == windows_prefix(nodes, a),
    decreases b - a,
{
    if b > a {
        lemma_windows_tail_empty(nodes, a, b - 1);
    }
}

/// A window held by one of the first `n` nodes is listed among their windows,
/// and only such windows are.
pub proof fn lemma_windows_contains(nodes: Seq<NodeView>, n: int, h: isize)
    requires
        0 <= n <= nodes.len(),
    ensures
        windows_prefix(nodes, n).contains(h) <==> exists|j: int| 0 <= j < n && (#[trigger] nodes[j]).hwnd == Some(h),
    decreases n,
{
    if n > 0 {
        lemma_windows_contains(nodes, n - 1, h);
        let rest = windows_prefix(nodes, n - 1);
        if nodes[n - 1].hwnd == Some(h) {
            assert(windows_prefix(nodes, n) == rest.push(h));
            assert(windows_prefix(nodes, n)[rest.len() as int] == h);
        } else {
            match nodes[n - 1].hwnd {
                Some(g) => {
                    assert(windows_prefix(nodes, n) == rest.push(g));
                    if windows_prefix(nodes, n).contains(h) {
                        let k = choose|k: int| 0 <= k < windows_prefix(nodes, n).len() && windows_prefix(nodes, n)[k] == h;
                        assert(rest[k] == h);
                    }
                    if rest.contains(h) {
                        let k = choose|k: int| 0 <= k < rest.len() && rest[k] == h;
                        assert(windows_prefix(nodes, n)[k] == h);
                    }
                },
                None => {},
            }
        }
    }
}

/// The shape of the tree after a fresh window `h` joins: the old nodes keep
/// their windows and ids, a container may follow, and the new window node
/// comes last, under a parent among the nodes.
pub proof fn lemma_add_shape(v: TreeView, h: isize)
    requires
        v.well_formed(),
        v.has_room(2),
        v.find(h) is None,
    ensures
        ({
            let (w, id) = v.after_add_window(h);
            &&& w.nodes.len() == id + 1
            &&& v.nodes.len() <= id
            &&& forall|j: int| 0 <= j < v.nodes.len() ==> (#[trigger] w.nodes[j]).hwnd == v.nodes[j].hwnd
            &&& forall|j: int| v.nodes.len() <= j < id ==> (#[trigger] w.nodes[j]).hwnd is None
            &&& w.nodes[id as int].hwnd == Some(h)
            &&& w.nodes[id as int].id == id
            &&& w.nodes[id as int].parent matches Some(p) && p < w.nodes.len()
        }),
{
    let f = v.focused_id;
    let fnode = v.nodes[f as int];
    let len = v.nodes.len() as usize;
    let (w, id) = v.after_add_window(h);
    if fnode.parent is None {
        let w0 = v.with_leaf(v.root_id, h);
        let w1 = w0.with_child(v.root_id, len);
        assert(w0.nodes.len() == len + 1);
        assert(w1.nodes.len() == len + 1);
        assert(w.nodes == w1.nodes);
        assert(id == len);
        assert(w1.nodes[len as int] == w0.nodes[len as int]);
        assert(forall|j: int| 0 <= j < w1.nodes.len() ==> (#[trigger] w1.nodes[j]).hwnd == w0.nodes[j].hwnd);
    } else if fnode.hwnd is Some {
        let p = fnode.parent->0;
        assert(v.nodes[f as int].parent is Some);
        let w0 = v.wrapped(f, v.nodes[p as int].direction);
        assert(w0.nodes.len() == len + 1);
        assert(forall|j: int| 0 <= j < v.nodes.len() ==> (#[trigger] w0.nodes[j]).hwnd == v.nodes[j].hwnd);
        assert(w0.nodes[len as int].hwnd is None);
        let w1 = w0.with_leaf(len, h);
        let w2 = w1.with_child(len, (len + 1) as usize);
        assert(w1.nodes.len() == len + 2);
        assert(w2.nodes.len() == len + 2);
        assert(w.nodes == w2.nodes);
        assert(id == len + 1);
        assert(w2.nodes[len + 1] == w1.nodes[len + 1]);
        assert(forall|j: int| 0 <= j < w2.nodes.len() ==> (#[trigger] w2.nodes[j]).hwnd == w1.nodes[j].hwnd);
    } else {
        let w0 = v.with_leaf(f, h);
        let w1 = w0.with_child(f, len);
        assert(w0.nodes.len() == len + 1);
        assert(w1.nodes.len() == len + 1);
        assert(w.nodes == w1.nodes);
        assert(id == len);
        assert(w1.nodes[len as int] == w0.nodes[len as int]);
        assert(forall|j: int| 0 <= j < w1.nodes.len() ==> (#[trigger] w1.nodes[j]).hwnd == w0.nodes[j].hwnd);
    }
}

/// A window added to a tree is found there afterwards, in the node that
/// `add_window` returns, and is among the tree's windows.
pub proof fn law_added_window_is_found(v: TreeView, h: isize)
    requires
        v.well_formed(),
        v.has_room(2),
    ensures
        v.after_add_window(h).0.find(h) == Some(v.after_add_window(h).1),
        v.after_add_window(h).0.windows().contains(h),
{
    let (w, id) = v.after_add_window(h);
    match v.find(h) {
        Some(e) => {
            lemma_find_some(v, h);
            assert(w.nodes == v.nodes);
            lemma_windows_contains(w.nodes, w.nodes.len() as int, h);
            assert(w.nodes[e as int].hwnd == Some(h));
        },
        None => {
            lemma_add_shape(v, h);
            lemma_find_none(v.nodes, h, v.nodes.len() as int);
            assert forall|j: int| 0 <= j < id implies (#[trigger] w.nodes[j]).hwnd != Some(h) by {
                if j < v.nodes.len() {
                    assert(w.nodes[j].hwnd == v.nodes[j].hwnd);
                }
            }
            lemma_find_absent(w.nodes, h, id as int);
            assert(find_prefix(w.nodes, h, id + 1) == Some(w.nodes[id as int].id));
            lemma_windows_contains(w.nodes, w.nodes.len() as int, h);
            assert(w.nodes[id as int].hwnd == Some(h));
        },
    }
}

/// A window removed from a tree is no longer found there, nor among its
/// windows.
pub proof fn law_removed_window_is_gone(v: TreeView, h: isize)
    requires
        v.well_formed(),
    ensures
        v.after_remove_window(h).find(h) is None,
        !v.after_remove_window(h).windows().contains(h),
{
    let r = v.after_remove_window(h);
    match v.find(h) {
        None => {
            lemma_find_none(v.nodes, h, v.nodes.len() as int);
            lemma_windows_contains(v.nodes, v.nodes.len() as int, h);
        },
        Some(t) => {
            lemma_find_some(v, h);
            let v1 = v.after_detach(t);
            lemma_detach_keeps(v, t);
            assert forall|j: int| 0 <= j < r.nodes.len() implies (#[trigger] r.nodes[j]).hwnd != Some(h) by {
                if j != t {
                    assert(r.nodes[j].hwnd == v1.nodes[j].hwnd);
                    assert(v1.nodes[j].hwnd == v.nodes[j].hwnd);
                    assert(v.nodes[t as int].hwnd is Some);
                }
            }
            lemma_find_absent(r.nodes, h, r.nodes.len() as int);
            lemma_windows_contains(r.nodes, r.nodes.len() as int, h);
        },
    }
}

/// Adding a window that the tree does not hold and removing it again leaves
/// the tree's windows as they were.
pub proof fn law_add_then_remove_keeps_windows(v: TreeView, h: isize)
    requires
        v.well_formed(),
        v.has_room(2),
        v.find(h) is None,
    ensures
        v.after_add_window(h).0.after_remove_window(h).windows() == v.windows(),
{
    let (w, id) = v.after_add_window(h);
    law_added_window_is_found(v, h);
    lemma_add_shape(v, h);
    let w1 = w.after_detach(id);
    lemma_detach_keeps(w, id);
    let r = w.after_remove_window(h);
    assert(r == w1.set_node(id as int, NodeView { hwnd: None, children: Seq::empty(), ..w1.nodes[id as int] }));
    assert forall|j: int| 0 <= j < v.nodes.len() implies (#[trigger] r.nodes[j]).hwnd == v.nodes[j].hwnd by {
        assert(r.nodes[j].hwnd == w1.nodes[j].hwnd);
        assert(w1.nodes[j].hwnd == w.nodes[j].hwnd);
    }
    assert forall|j: int| v.nodes.len() <= j < r.nodes.len() implies (#[trigger] r.nodes[j]).hwnd is None by {
        if j != id {
            assert(r.nodes[j].hwnd == w1.nodes[j].hwnd);
            assert(w1.nodes[j].hwnd == w.nodes[j].hwnd);
        }
    }
    lemma_windows_tail_empty(r.nodes, v.nodes.len() as int, r.nodes.len() as int);
    lemma_windows_same(r.nodes, v.nodes, v.nodes.len() as int);
}

/// Toggling the split twice restores the direction of every node; focus
/// stays on the node whose split was toggled.
pub proof fn law_toggle_twice_restores_splits(v: TreeView)
    requires
        v.well_formed(),
    ensures
        v.after_toggle_split().after_toggle_split().nodes == v.nodes,
        v.after_toggle_split().after_toggle_split().focused_id == v.split_target(),
{
    let t = v.split_target();
    let f = v.focused_id;
    if v.nodes[f as int].hwnd is Some && v.nodes[f as int].parent is Some {
        assert(v.nodes[f as int].parent is Some);
    }
    let v1 = v.after_toggle_split();
    assert(t < v.nodes.len());
    assert(v1.nodes[t as int].hwnd == v.nodes[t as int].hwnd);
    assert(v1.nodes[t as int].parent == v.nodes[t as int].parent);
    assert(v1.split_target() == t);
    let v2 = v1.after_toggle_split();
    assert(v2.nodes =~= v.nodes);
}

/// The direction toggled twice is the direction itself.
pub proof fn law_toggled_twice(d: SplitDirection)
    ensures
        d.toggled().toggled() == d,
{
}

/// Under monocle at most one window shows.
pub proof fn law_monocle_shows_at_most_one(v: TreeView)
    requires
        v.layout == Layout::Monocle,
    ensures
        v.visible().len() <= 1,
{
}

/// In a strictly increasing sequence the entry at `j` is first found at `j`.
pub proof fn lemma_position_of_increasing(s: Seq<usize>, j: int)
    requires
        0 <= j < s.len(),
        forall|a: int, b: int| 0 <= a < b < s.len() ==> #[trigger] s[a] < #[trigger] s[b],
    ensures
        position(s, s[j]) == Some(j),
{
    lemma_position_prefix(s, s[j], s.len() as int);
    match position(s, s[j]) {
        Some(k) => {
            if k < j {
                assert(s[k] < s[j]);
            }
        },
        None => {},
    }
}

/// From a focused window, focusing the next window and then the previous
/// one comes back to it; and the other way round.
pub proof fn law_focus_next_then_previous(v: TreeView)
    requires
        v.well_formed(),
        position(v.window_ids(), v.focused_id) is Some,
    ensures
        v.after_focus_next().after_focus_prev().focused_id == v.focused_id,
        v.after_focus_prev().after_focus_next().focused_id == v.focused_id,
{
    let w = v.window_ids();
    lemma_window_ids_valid(v, v.nodes.len() as int);
    lemma_position_prefix(w, v.focused_id, w.len() as int);
    let k = position(w, v.focused_id)->0;
    let n = w.len() as int;
    assert(0 <= k < n);
    let v1 = v.after_focus_next();
    assert(v1.nodes == v.nodes);
    assert(v1.window_ids() == w);
    let j = (k + 1) % n;
    assert(v1.focused_id == w[j]);
    lemma_position_of_increasing(w, j);
    assert(v1.focus_index() == j);
    assert(w[k] == v.focused_id);
    if k + 1 < n {
        vstd::arithmetic::div_mod::lemma_small_mod((k + 1) as nat, n as nat);
        assert(j == k + 1);
    } else {
        vstd::arithmetic::div_mod::lemma_mod_self_0(n);
        assert(j == 0);
    }
    let v12 = v1.after_focus_prev();
    assert(v12.focused_id == (if j == 0 {
        w[n - 1]
    } else {
        w[j - 1]
    }));
    let v2 = v.after_focus_prev();
    assert(v2.nodes == v.nodes);
    assert(v2.window_ids() == w);
    let i = if k == 0 {
        n - 1
    } else {
        k - 1
    };
    assert(v2.focused_id == w[i]);
    lemma_position_of_increasing(w, i);
    assert(v2.focus_index() == i);
    let v21 = v2.after_focus_next();
    assert(v21.focused_id == w[(i + 1) % n]);
    if k == 0 {
        vstd::arithmetic::div_mod::lemma_mod_self_0(n);
        assert((i + 1) % n == 0);
    } else {
        vstd::arithmetic::div_mod::lemma_small_mod(k as nat, n as nat);
        assert((i + 1) % n == k);
    }
}

/// Reading the parts of a hotkey string gathers only the four modifier
/// flags.
pub proof fn lemma_scan_modifiers(parts: Seq<Seq<char>>, n: int)
    ensures
        scan_parts(parts, n).0 <= 15,
    decreases n,
{
    if n > 0 {
        lemma_scan_modifiers(parts, n - 1);
        let (m, key, multiple) = scan_parts(parts, n - 1);
        let bit = modifier_of(crate::text::uppercase_of(parts[n - 1]));
        assert(bit <= 8);
        assert((m | bit) <= 15) by (bit_vector)
            requires
                m <= 15,
                bit <= 8,
        ;
    }
}

/// Every hotkey that parses has at least one modifier, and only the four
/// modifier flags.
pub proof fn law_hotkey_needs_modifier(raw: Seq<char>)
    ensures
        hotkey_of(raw) matches Ok((m, vk)) ==> 0 < m <= 15,
{
    let t = crate::text::trimmed(raw);
    let parts = hotkey_parts(t);
    lemma_scan_modifiers(parts, parts.len() as int);
}

/// On a work area larger than its margins, the left and the right half do
/// not overlap, nor do the top and the bottom half, when the gap is not
/// negative and each half is at least one pixel wide.
pub proof fn law_halves_do_not_overlap(gap: int, margin: int, area: Rect)
    requires
        gap >= 0,
        area.width - 2 * margin >= 2,
        area.height - 2 * margin >= 2,
        layout_rect_fits(gap, margin, LayoutType::LeftHalf, area),
        layout_rect_fits(gap, margin, LayoutType::RightHalf, area),
        layout_rect_fits(gap, margin, LayoutType::TopHalf, area),
        layout_rect_fits(gap, margin, LayoutType::BottomHalf, area),
    ensures
        ({
            let l = layout_rect(gap, margin, LayoutType::LeftHalf, area);
            let r = layout_rect(gap, margin, LayoutType::RightHalf, area);
            l.x + l.width <= r.x
        }),
        ({
            let t = layout_rect(gap, margin, LayoutType::TopHalf, area);
            let b = layout_rect(gap, margin, LayoutType::BottomHalf, area);
            t.y + t.height <= b.y
        }),
{
}

/// The windows kept from a listing are those of the listing that the
/// window manager does not leave alone, in their order.
pub proof fn law_managed_windows(cfg: IgnoreConfig, ws: Seq<WindowInfo>, n: int)
    requires
        0 <= n <= ws.len(),
    ensures
        forall|k: int| 0 <= k < managed_prefix(cfg, ws, n).len() ==> !ignored_by(cfg, #[trigger] managed_prefix(cfg, ws, n)[k])
            && ws.subrange(0, n).contains(managed_prefix(cfg, ws, n)[k]),
        forall|k: int| 0 <= k < n && !ignored_by(cfg, #[trigger] ws[k]) ==> managed_prefix(cfg, ws, n).contains(ws[k]),
    decreases n,
{
    if n > 0 {
        law_managed_windows(cfg, ws, n - 1);
        let m0 = managed_prefix(cfg, ws, n - 1);
        let m = managed_prefix(cfg, ws, n);
        assert forall|k: int| 0 <= k < m.len() implies !ignored_by(cfg, #[trigger] m[k]) && ws.subrange(0, n).contains(m[k]) by {
            if k < m0.len() {
                assert(m[k] == m0[k]);
                let j = choose|j: int| 0 <= j < n - 1 && #[trigger] ws.subrange(0, n - 1)[j] == m0[k];
                assert(ws.subrange(0, n)[j] == m0[k]);
            } else {
                assert(m[k] == ws[n - 1]);
                assert(ws.subrange(0, n)[n - 1] == ws[n - 1]);
            }
        }
        assert forall|k: int| 0 <= k < n && !ignored_by(cfg, #[trigger] ws[k]) implies m.contains(ws[k]) by {
            if k < n - 1 {
                let j = choose|j: int| 0 <= j < m0.len() && m0[j] == ws[k];
                assert(m[j] == m0[j]);
            } else {
                assert(m[m.len() - 1] == ws[k]);
            }
        }
    }
}

/// Going to the next workspace and then to the previous one comes back to
/// the workspace left, and the other way round.
pub proof fn law_next_then_previous(v: WorkspacesView)
    requires
        v.ok(),
        v.trees.len() <= usize::MAX,
    ensures
        previous_index(WorkspacesView { current: next_index(v), ..v }) == v.current,
        next_index(WorkspacesView { current: previous_index(v), ..v }) == v.current,
{
    let n = v.trees.len() as int;
    let c = v.current as int;
    if c + 1 < n {
        assert((c + 1) % n == c + 1) by (nonlinear_arith)
            requires
                0 <= c + 1 < n,
        ;
        assert(next_index(v) == c + 1);
    } else {
        assert((c + 1) % n == 0) by (nonlinear_arith)
            requires
                c + 1 == n,
                n > 0,
        ;
        assert(next_index(v) == 0);
    }
    if c == 0 {
        assert(previous_index(v) == n - 1);
        vstd::arithmetic::div_mod::lemma_mod_self_0(n);
        assert((n - 1 + 1) % n == 0);
    } else {
        assert(previous_index(v) == c - 1);
        vstd::arithmetic::div_mod::lemma_small_mod(c as nat, n as nat);
        assert((c - 1 + 1) % n == c);
    }
}

/// A list without `x` holds no `x`, and holds every other entry.
pub proof fn lemma_without_item(s: Seq<isize>, x: isize)
    ensures
        !without_item(s, x).contains(x),
        forall|y: isize| y != x && s.contains(y) ==> without_item(s, x).contains(y),
    decreases s.len(),
{
    if s.len() > 0 {
        lemma_without_item(s.drop_last(), x);
        let r0 = without_item(s.drop_last(), x);
        assert forall|y: isize| y != x && s.contains(y) implies without_item(s, x).contains(y) by {
            let j = choose|j: int| 0 <= j < s.len() && s[j] == y;
            if j < s.len() - 1 {
                assert(s.drop_last()[j] == y);
                assert(s.drop_last().contains(y));
                let k = choose|k: int| 0 <= k < r0.len() && r0[k] == y;
                if s.last() != x {
                    assert(without_item(s, x)[k] == y);
                }
            } else {
                assert(without_item(s, x) == r0.push(s.last()));
                assert(without_item(s, x)[r0.len() as int] == y);
            }
        }
        if s.last() != x {
            assert(without_item(s, x) == r0.push(s.last()));
            if without_item(s, x).contains(x) {
                let k = choose|k: int| 0 <= k < without_item(s, x).len() && without_item(s, x)[k] == x;
                assert(r0[k] == x);
            }
        }
    }
}

/// A window added to the current workspace is found in its tree and listed
/// there; a window removed from it is neither found nor listed there.
pub proof fn law_workspace_add_remove(v: WorkspacesView, h: isize)
    requires
        v.ok(),
        v.current_tree().has_room(2),
    ensures
        v.after_add(h).current_tree().find(h) is Some,
        v.after_add(h).lists[v.current as int].contains(h),
        v.after_remove(h).current_tree().find(h) is None,
        !v.after_remove(h).lists[v.current as int].contains(h),
{
    let i = v.current as int;
    law_added_window_is_found(v.trees[i], h);
    law_removed_window_is_gone(v.trees[i], h);
    lemma_without_item(v.lists[i], h);
    if !v.lists[i].contains(h) {
        assert(v.lists[i].push(h)[v.lists[i].len() as int] == h);
    }
}

/// The hotkey registered for the `k`-th configuration pair has id `k + 1`,
/// and that id leads to the pair's action.
pub proof fn law_hotkey_id_dispatch(entries: Seq<HotkeyEntry>, pairs: Seq<(String, String)>, n: int, k: int)
    requires
        entries_for(entries, pairs, n),
        0 <= k < n,
        n < i32::MAX,
    ensures
        entry_with_id_prefix(entries, (k + 1) as i32, n) == Some(k),
        pair_outcome_at(pairs, k) == Ok::<(crate::actions::Action, u32, u32), Seq<char>>(
            (entries[k].action, entries[k].modifiers, entries[k].vk),
        ),
{
    lemma_no_earlier_id(entries, pairs, n, k, k);
    assert(entries[k].id == k + 1);
    assert(entry_with_id_prefix(entries, (k + 1) as i32, k + 1) == Some(k));
    lemma_entry_with_id_stable(entries, (k + 1) as i32, k + 1, n);
}

/// No entry before the `k`-th has id `k + 1`.
proof fn lemma_no_earlier_id(entries: Seq<HotkeyEntry>, pairs: Seq<(String, String)>, n: int, k: int, m: int)
    requires
        entries_for(entries, pairs, n),
        0 <= m <= k < n,
        n < i32::MAX,
    ensures
        entry_with_id_prefix(entries, (k + 1) as i32, m) is None,
    decreases m,
{
    if m > 0 {
        lemma_no_earlier_id(entries, pairs, n, k, m - 1);
        assert(entries[m - 1].id == m);
    }
}

/// Without margin, the fullscreen layout of a non-empty work area is the
/// work area itself.
pub proof fn law_fullscreen_fills_work_area(gap: int, area: Rect)
    requires
        area.width > 0,
        area.height > 0,
    ensures
        layout_rect(gap, 0, LayoutType::Fullscreen, area) == area,
{
}

/// A foreground window that the window manager leaves alone is not placed:
/// placing it does nothing and fails with the ignore error, and taking care
/// of it changes no workspace and hides nothing.
pub proof fn law_ignored_window_untouched(
    v: WorkspacesView,
    lay: LayoutService,
    layout_type: LayoutType,
    hwnd: isize,
    w: WindowInfo,
    work_area: Result<Rect, crate::error::AppError>,
)
    requires
        ignored_by(lay.windows().config(), w),
        ignored_by(v.windows.config(), w),
    ensures
        plan_place(lay, layout_type, Observation { foreground_hwnd: hwnd, foreground: Ok(w), work_area })
            == Plan::Done(Seq::empty(), Err(AppErrorView::Window(ignored_message(w)))),
        v.after_detect(hwnd, Ok(w)) == (v, None::<isize>),
{
}

/// Moving the foreground window to another workspace: unless that
/// workspace's tree has no room left, it becomes current with the window in
/// its tree and list; the workspace left no longer holds the window in its
/// tree or list; the windows it still lists are hidden and those of the
/// target shown, before the target is tiled.
pub proof fn law_moved_window_lands_in_target(v: WorkspacesView, index: usize, hwnd: isize, area: Rect)
    requires
        v.ok(),
        hwnd != 0,
        index < v.trees.len(),
        index != v.current,
    ensures
        !v.trees[index as int].has_room(2) ==> plan_move_to(v, index, hwnd, area).1 == Plan::Overflow,
        v.trees[index as int].has_room(2) ==> {
            let (v3, step) = plan_move_to(v, index, hwnd, area);
            &&& v3.current == index
            &&& v3.current_tree().find(hwnd) is Some
            &&& v3.current_tree().windows() == if v.trees[index as int].find(hwnd) is Some {
                v.trees[index as int].windows()
            } else {
                v.trees[index as int].windows().push(hwnd)
            }
            &&& v3.lists[index as int].contains(hwnd)
            &&& v3.trees[v.current as int].find(hwnd) is None
            &&& v3.lists[v.current as int] == without_item(v.lists[v.current as int], hwnd)
            &&& step == relayout(
                v3,
                area,
                hides(without_item(v.lists[v.current as int], hwnd)) + shows(v.lists[index as int]),
            )
        },
{
    let c = v.current as int;
    let v1 = v.after_remove(hwnd);
    let v2 = WorkspacesView { current: index, ..v1 };
    assert(v2.current_tree() == v.trees[index as int]);
    law_removed_window_is_gone(v.trees[c], hwnd);
    if v2.current_tree().has_room(2) {
        law_added_window_is_found(v.trees[index as int], hwnd);
        if v.trees[index as int].find(hwnd) is None {
            law_add_new_window_appends(v.trees[index as int], hwnd);
        }
        let v3 = v2.after_add(hwnd);
        assert(v3.current_tree() == v.trees[index as int].after_add_window(hwnd).0);
        assert(v3.trees[c] == v1.trees[c]);
        assert(v3.lists[c] == v1.lists[c]);
        assert(v1.lists[index as int] == v.lists[index as int]);
        if !v2.lists[index as int].contains(hwnd) {
            assert(v2.lists[index as int].push(hwnd)[v2.lists[index as int].len() as int] == hwnd);
        }
        assert(switch_effects(v1, index) == hides(v1.lists[c]) + shows(v1.lists[index as int]));
    }
}

/// Moving the foreground window to the current workspace hides and shows
/// nothing: the window leaves the workspace's tree and list and joins them
/// again at their end, and the workspace stays current.
pub proof fn law_move_to_current_workspace(v: WorkspacesView, hwnd: isize, area: Rect)
    requires
        v.ok(),
        hwnd != 0,
    ensures
        plan_move_to(v, v.current, hwnd, area).1 != Plan::Overflow ==> {
            let (v3, step) = plan_move_to(v, v.current, hwnd, area);
            &&& v3.current == v.current
            &&& v3.lists[v.current as int] == without_item(v.lists[v.current as int], hwnd).push(hwnd)
            &&& v3.current_tree().find(hwnd) is Some
            &&& v3.current_tree().windows() == without_item(v.current_tree().windows(), hwnd).push(hwnd)
            &&& step == relayout(v3, area, Seq::empty())
        },
{
    let c = v.current as int;
    let v1 = v.after_remove(hwnd);
    lemma_without_item(v.lists[c], hwnd);
    assert(switch_effects(v1, v.current) == Seq::<EffectView>::empty());
    let t = v.trees[c];
    let t1 = t.after_remove_window(hwnd);
    crate::tree::law_remove_keeps_valid(t, hwnd);
    law_removed_window_is_gone(t, hwnd);
    law_remove_keeps_order_and_focus(t, hwnd);
    assert(v1.current_tree() == t1);
    if t1.has_room(2) {
        law_add_new_window_appends(t1, hwnd);
    }
}

/// The window handles of `ws`, in order.
pub open spec fn hwnds_of(ws: Seq<WindowInfo>) -> Seq<isize>
    decreases ws.len(),
{
    if ws.len() == 0 {
        Seq::empty()
    } else {
        hwnds_of(ws.drop_last()).push(ws.last().hwnd)
    }
}

/// No entries make the empty multiset.
proof fn lemma_empty_multiset()
    ensures
        Seq::<isize>::empty().to_multiset() == Multiset::<isize>::empty(),
{
    let e = Seq::<isize>::empty();
    e.to_multiset_ensures();
    assert forall|a: isize| e.to_multiset().count(a) == Multiset::<isize>::empty().count(a) by {
        assert(!e.contains(a));
    }
    assert(e.to_multiset() =~= Multiset::<isize>::empty());
}

/// Lists that agree on their first `n` entries join the same.
proof fn lemma_joined_same(a: Seq<Seq<isize>>, b: Seq<Seq<isize>>, n: int)
    requires
        0 <= n,
        forall|k: int| 0 <= k < n ==> a[k] == b[k],
    ensures
        joined(a, n) == joined(b, n),
    decreases n,
{
    if n > 0 {
        lemma_joined_same(a, b, n - 1);
    }
}

/// Pushing `h` onto list `i` adds `h` once to the joined lists.
proof fn lemma_joined_push(lists: Seq<Seq<isize>>, i: int, h: isize, n: int)
    requires
        0 <= i < n <= lists.len(),
    ensures
        joined(lists.update(i, lists[i].push(h)), n).to_multiset() == joined(lists, n).to_multiset().insert(h),
    decreases n,
{
    broadcast use vstd::seq_lib::lemma_multiset_commutative, vstd::seq_lib::to_multiset_build;

    let l2 = lists.update(i, lists[i].push(h));
    if i == n - 1 {
        lemma_joined_same(l2, lists, n - 1);
        assert(joined(l2, n) == joined(lists, n - 1) + lists[i].push(h));
        assert(joined(lists, n) == joined(lists, n - 1) + lists[i]);
        assert(joined(lists, n - 1) + lists[i].push(h) =~= (joined(lists, n - 1) + lists[i]).push(h));
    } else {
        lemma_joined_push(lists, i, h, n - 1);
        assert(joined(l2, n) == joined(l2, n - 1) + lists[n - 1]);
        assert(joined(lists, n) == joined(lists, n - 1) + lists[n - 1]);
    }
}

/// Empty lists join to nothing.
proof fn lemma_joined_empty(lists: Seq<Seq<isize>>, n: int)
    requires
        0 <= n <= lists.len(),
        forall|k: int| 0 <= k < n ==> (#[trigger] lists[k]).len() == 0,
    ensures
        joined(lists, n).len() == 0,
    decreases n,
{
    if n > 0 {
        lemma_joined_empty(lists, n - 1);
    }
}

/// Placing the first `n` windows of `m` adds their handles to the lists.
proof fn lemma_placed_all(c: WorkspacesView, m: Seq<WindowInfo>, n: int)
    requires
        c.trees.len() == c.lists.len(),
        c.trees.len() > 0,
        0 <= n <= m.len(),
    ensures
        c.placed_all(m, n).trees.len() == c.trees.len(),
        c.placed_all(m, n).lists.len() == c.lists.len(),
        c.placed_all(m, n).rules == c.rules,
        joined(c.placed_all(m, n).lists, c.lists.len() as int).to_multiset() == joined(c.lists, c.lists.len() as int).to_multiset().add(
            hwnds_of(m.take(n)).to_multiset(),
        ),
    decreases n,
{
    broadcast use vstd::seq_lib::to_multiset_build;

    let len = c.lists.len() as int;
    if n == 0 {
        assert(hwnds_of(m.take(0)) =~= Seq::<isize>::empty());
        lemma_empty_multiset();
        assert(joined(c.lists, len).to_multiset().add(Multiset::<isize>::empty()) =~= joined(c.lists, len).to_multiset());
    } else {
        lemma_placed_all(c, m, n - 1);
        let v = c.placed_all(m, n - 1);
        let i = v.home_of(m[n - 1]);
        let h = m[n - 1].hwnd;
        assert(0 <= i < len);
        lemma_joined_push(v.lists, i, h, len);
        assert(m.take(n).drop_last() =~= m.take(n - 1));
        assert(hwnds_of(m.take(n)) == hwnds_of(m.take(n - 1)).push(h));
        let before = joined(c.lists, len).to_multiset();
        assert(before.add(hwnds_of(m.take(n - 1)).to_multiset()).insert(h) =~= before.add(hwnds_of(m.take(n)).to_multiset()));
    }
}

/// A rebuild puts every window that it keeps on exactly one workspace:
/// together the workspaces list the handles of the kept windows, each as
/// often as it was kept.
pub proof fn law_reset_places_each_window_once(v: WorkspacesView, ws: Seq<WindowInfo>)
    requires
        v.ok(),
    ensures
        joined(v.after_reset(ws).lists, v.lists.len() as int).to_multiset() == hwnds_of(managed(v.windows.config(), ws)).to_multiset(),
{
    let c = v.cleared();
    let m = managed(v.windows.config(), ws);
    let len = v.lists.len() as int;
    lemma_joined_empty(c.lists, len);
    assert(joined(c.lists, len) =~= Seq::<isize>::empty());
    lemma_placed_all(c, m, m.len() as int);
    assert(m.take(m.len() as int) =~= m);
    lemma_empty_multiset();
    assert(Multiset::<isize>::empty().add(hwnds_of(m).to_multiset()) =~= hwnds_of(m).to_multiset());
}

/// Setting the split makes it the split of the node that is focused
/// afterwards, and leaves the tree's windows as they were.
pub proof fn law_set_split_reads_back(v: TreeView, dir: SplitDirection)
    requires
        v.well_formed(),
        v.has_room(1),
    ensures
        v.after_set_split(dir).nodes[v.after_set_split(dir).focused_id as int].direction == dir,
        v.after_set_split(dir).windows() == v.windows(),
{
    let f = v.focused_id;
    let fnode = v.nodes[f as int];
    let w = v.after_ensure_container();
    if fnode.hwnd is None || fnode.parent is None {
        assert(w == v);
    } else {
        assert(v.nodes[f as int].parent is Some);
        let p = fnode.parent->0;
        assert(w.nodes.len() == v.nodes.len() + 1);
        assert(w.focused_id == v.nodes.len());
        assert(w.nodes[v.nodes.len() as int].hwnd is None);
        assert(forall|j: int| 0 <= j < v.nodes.len() ==> (#[trigger] w.nodes[j]).hwnd == v.nodes[j].hwnd);
        lemma_windows_tail_empty(w.nodes, v.nodes.len() as int, w.nodes.len() as int);
        lemma_windows_same(w.nodes, v.nodes, v.nodes.len() as int);
    }
    let r = v.after_set_split(dir);
    assert(forall|j: int| 0 <= j < r.nodes.len() ==> (#[trigger] r.nodes[j]).hwnd == w.nodes[j].hwnd);
    lemma_windows_same(r.nodes, w.nodes, w.nodes.len() as int);
}

/// Every window that the layout of node `id` lists is a window of the tree.
proof fn lemma_layout_node_windows(v: TreeView, id: int, area: Rect, gap: int, fuel: nat)
    ensures
        forall|k: int|
            0 <= k < layout_node(v, id, area, gap, fuel).len() ==> v.windows().contains(
                (#[trigger] layout_node(v, id, area, gap, fuel)[k]).0,
            ),
    decreases fuel, 0int,
{
    if fuel > 0 && 0 <= id < v.nodes.len() {
        let node = v.nodes[id];
        match node.hwnd {
            Some(h) => {
                lemma_windows_contains(v.nodes, v.nodes.len() as int, h);
                assert(v.nodes[id].hwnd == Some(h));
                assert(layout_node(v, id, area, gap, fuel) == seq![(h, area)]);
                assert(layout_node(v, id, area, gap, fuel)[0].0 == h);
            },
            None => {
                let lc = live_children(v, node.children);
                if lc.len() == 1 {
                    lemma_layout_node_windows(v, lc[0] as int, area, gap, (fuel - 1) as nat);
                    assert(layout_node(v, id, area, gap, fuel) == layout_node(v, lc[0] as int, area, gap, (fuel - 1) as nat));
                } else if lc.len() > 1 {
                    lemma_layout_children_windows(v, lc, area, gap, node.direction, lc.len() as int, (fuel - 1) as nat);
                    assert(layout_node(v, id, area, gap, fuel) == layout_children(v, lc, area, gap, node.direction, lc.len() as int, (fuel - 1) as nat));
                } else {
                    assert(layout_node(v, id, area, gap, fuel).len() == 0);
                }
            },
        }
    }
}

/// Every window that the layouts of the first `k` children list is a window
/// of the tree.
proof fn lemma_layout_children_windows(
    v: TreeView,
    lc: Seq<usize>,
    area: Rect,
    gap: int,
    dir: SplitDirection,
    k: int,
    fuel: nat,
)
    ensures
        forall|j: int|
            0 <= j < layout_children(v, lc, area, gap, dir, k, fuel).len() ==> v.windows().contains(
                (#[trigger] layout_children(v, lc, area, gap, dir, k, fuel)[j]).0,
            ),
    decreases fuel, k + 1,
{
    if k > 0 {
        lemma_layout_children_windows(v, lc, area, gap, dir, k - 1, fuel);
        let a = child_area(area, gap, dir, lc.len() as int, k - 1);
        lemma_layout_node_windows(v, lc[k - 1] as int, a, gap, fuel);
        let first = layout_children(v, lc, area, gap, dir, k - 1, fuel);
        let last = layout_node(v, lc[k - 1] as int, a, gap, fuel);
        assert forall|j: int| 0 <= j < (first + last).len() implies v.windows().contains((#[trigger] (first + last)[j]).0) by {
            if j < first.len() {
                assert((first + last)[j] == first[j]);
            } else {
                assert((first + last)[j] == last[j - first.len()]);
            }
        }
    }
}

/// Every window that a layout lists is a window of the tree.
pub proof fn law_layout_lists_tree_windows(v: TreeView, area: Rect, gap: int)
    ensures
        forall|k: int| 0 <= k < v.layouts(area, gap).len() ==> v.windows().contains((#[trigger] v.layouts(area, gap)[k]).0),
{
    if v.layout == Layout::Monocle || v.layout == Layout::Stacking {
        if v.layout == Layout::Monocle {
            match v.monocle_focused {
                Some(id) => match v.hwnd_of(id as int) {
                    Some(h) => {
                        lemma_windows_contains(v.nodes, v.nodes.len() as int, h);
                        assert(v.nodes[id as int].hwnd == Some(h));
                    },
                    None => {},
                },
                None => {},
            }
        }
    } else {
        lemma_layout_node_windows(v, v.root_id as int, area, gap, v.nodes.len() as nat);
    }
}

/// The offset by which a move command shifts the foreground window.
pub open spec fn move_offset(action: Action) -> Option<(int, int)> {
    match action {
        Action::MoveLeft => Some((-MOVE_STEP as int, 0)),
        Action::MoveRight => Some((MOVE_STEP as int, 0)),
        Action::MoveUp => Some((0, -MOVE_STEP as int)),
        Action::MoveDown => Some((0, MOVE_STEP as int)),
        _ => None,
    }
}

/// The horizontal part of a move command's offset.
pub open spec fn move_dx(action: Action) -> int {
    match move_offset(action) {
        Some((dx, _)) => dx,
        None => 0,
    }
}

/// The vertical part of a move command's offset.
pub open spec fn move_dy(action: Action) -> int {
    match move_offset(action) {
        Some((_, dy)) => dy,
        None => 0,
    }
}

/// A move command shifts the foreground window 80 pixels in its direction,
/// keeping its size, when the shifted corner stays in the work area (at
/// least 100 pixels from its right and bottom edges); the workspaces only
/// follow the foreground window.
pub proof fn law_move_shifts_by_80(
    ws: WorkspacesView,
    lay: LayoutService,
    command: Seq<char>,
    action: Action,
    obs: Observation,
    w: WindowInfo,
    a: Rect,
)
    requires
        move_offset(action) is Some,
        acted_on(lay.windows(), obs.foreground) == Some(w),
        obs.work_area == Ok::<Rect, crate::error::AppError>(a),
        shift_fits(w, a, move_dx(action), move_dy(action)),
        a.x <= w.x + move_dx(action) <= a.x + a.width - 100,
        a.y <= w.y + move_dy(action) <= a.y + a.height - 100,
    ensures
        plan(ws, lay, command, action, obs).0 == ws.after_sync(obs.foreground_hwnd),
        plan(ws, lay, command, action, obs).1 == Plan::Done(
            seq![
                EffectView::MoveForeground(
                    w.hwnd,
                    Rect {
                        x: (w.x + move_dx(action)) as i32,
                        y: (w.y + move_dy(action)) as i32,
                        width: w.width,
                        height: w.height,
                    },
                ),
            ],
            Ok(()),
        ),
{
}

/// Adding a window that the tree holds already only focuses its node: the
/// nodes, and so the windows and the node count, stay as they were.
pub proof fn law_add_known_window_refocuses(v: TreeView, h: isize)
    requires
        v.find(h) is Some,
    ensures
        v.after_add_window(h) == (TreeView { focused_id: v.find(h)->0, ..v }, v.find(h)->0),
        v.after_add_window(h).0.nodes == v.nodes,
        v.after_add_window(h).0.windows() == v.windows(),
{
}

/// Adding a window that the tree does not hold appends it to the tree's
/// windows, adds one or two nodes, and focuses the new window's node.
pub proof fn law_add_new_window_appends(v: TreeView, h: isize)
    requires
        v.well_formed(),
        v.has_room(2),
        v.find(h) is None,
    ensures
        v.after_add_window(h).0.windows() == v.windows().push(h),
        v.after_add_window(h).0.find(h) == Some(v.after_add_window(h).1),
        v.after_add_window(h).0.focused_id == v.after_add_window(h).1,
        v.after_add_window(h).0.focused_hwnd() == Some(h),
        v.nodes.len() + 1 <= v.after_add_window(h).0.nodes.len() <= v.nodes.len() + 2,
{
    let (w, id) = v.after_add_window(h);
    lemma_add_shape(v, h);
    law_added_window_is_found(v, h);
    lemma_windows_tail_empty(w.nodes, v.nodes.len() as int, id as int);
    lemma_windows_same(w.nodes, v.nodes, v.nodes.len() as int);
    assert(windows_prefix(w.nodes, id + 1) == windows_prefix(w.nodes, id as int).push(h));
}

/// Nodes whose windows agree with `a` except that `h` is gone list the
/// windows of `a` without `h`.
proof fn lemma_windows_without(a: Seq<NodeView>, b: Seq<NodeView>, h: isize, n: int)
    requires
        0 <= n <= a.len(),
        n <= b.len(),
        forall|j: int| 0 <= j < n ==> (#[trigger] b[j]).hwnd == (if a[j].hwnd == Some(h) {
            None
        } else {
            a[j].hwnd
        }),
    ensures
        windows_prefix(b, n) == without_item(windows_prefix(a, n), h),
    decreases n,
{
    if n > 0 {
        lemma_windows_without(a, b, h, n - 1);
        let wa = windows_prefix(a, n);
        match a[n - 1].hwnd {
            Some(g) => {
                assert(wa.drop_last() =~= windows_prefix(a, n - 1));
                assert(wa.last() == g);
            },
            None => {},
        }
    }
}

/// Removing a window keeps the other windows in their order, and keeps the
/// focus on another window where it was.
pub proof fn law_remove_keeps_order_and_focus(v: TreeView, h: isize)
    requires
        v.well_formed(),
    ensures
        v.after_remove_window(h).windows() == without_item(v.windows(), h),
        v.focused_hwnd() matches Some(g) && g != h ==> v.after_remove_window(h).focused_id == v.focused_id,
{
    lemma_windows_contains(v.nodes, v.nodes.len() as int, h);
    match v.find(h) {
        None => {
            lemma_find_none(v.nodes, h, v.nodes.len() as int);
            lemma_without_absent(v.windows(), h);
        },
        Some(t) => {
            lemma_find_some(v, h);
            let v1 = v.after_detach(t);
            lemma_detach_keeps(v, t);
            let r = v.after_remove_window(h);
            assert forall|j: int| 0 <= j < v.nodes.len() implies (#[trigger] r.nodes[j]).hwnd == (if v.nodes[j].hwnd
                == Some(h) {
                None
            } else {
                v.nodes[j].hwnd
            }) by {
                if j != t {
                    assert(r.nodes[j].hwnd == v1.nodes[j].hwnd);
                    assert(v.nodes[t as int].hwnd is Some);
                }
            }
            lemma_windows_without(v.nodes, r.nodes, h, v.nodes.len() as int);
            if v.focused_hwnd() matches Some(g) && g != h {
                lemma_detach_focus(v, t);
                assert(r.focused_id == v1.focused_id);
            }
        },
    }
}

/// A list that holds no `x` stays whole without `x`.
proof fn lemma_without_absent(s: Seq<isize>, x: isize)
    requires
        !s.contains(x),
    ensures
        without_item(s, x) == s,
    decreases s.len(),
{
    if s.len() > 0 {
        assert(!s.drop_last().contains(x)) by {
            if s.drop_last().contains(x) {
                let k = choose|k: int| 0 <= k < s.drop_last().len() && s.drop_last()[k] == x;
                assert(s[k] == x);
            }
        }
        lemma_without_absent(s.drop_last(), x);
        assert(s.last() != x) by {
            assert(s[s.len() - 1] == s.last());
        }
        assert(s.drop_last().push(s.last()) =~= s);
    }
}

/// Cleaning up containers moves the focus only off a cleaned container,
/// so focus on a window stays.
proof fn lemma_cleanup_focus(v: TreeView, c: usize, fuel: nat)
    requires
        0 <= v.focused_id < v.nodes.len(),
        v.nodes[v.focused_id as int].hwnd is Some,
        c < v.nodes.len() ==> v.nodes[c as int].hwnd is None,
    ensures
        v.after_cleanup(c, fuel).focused_id == v.focused_id,
    decreases fuel,
{
    if fuel > 0 && c < v.nodes.len() {
        match v.nodes[c as int].parent {
            None => {},
            Some(gp) => if gp < v.nodes.len() {
                let gnode = v.nodes[gp as int];
                let v1 = TreeView {
                    focused_id: if v.focused_id == c {
                        gp
                    } else {
                        v.focused_id
                    },
                    ..v.set_node(gp as int, NodeView { children: without(gnode.children, c), ..gnode })
                };
                assert(v1.focused_id == v.focused_id);
                assert(v1.nodes[v.focused_id as int].hwnd == v.nodes[v.focused_id as int].hwnd);
                if gp != v.root_id && v1.nodes[gp as int].children.len() == 0 && v1.nodes[gp as int].hwnd is None {
                    lemma_cleanup_focus(v1, gp, (fuel - 1) as nat);
                }
            },
        }
    }
}

/// Detaching window node `t` keeps the focus on another window.
proof fn lemma_detach_focus(v: TreeView, t: usize)
    requires
        v.well_formed(),
        t < v.nodes.len(),
        v.nodes[t as int].hwnd is Some,
        v.focused_id != t,
        v.nodes[v.focused_id as int].hwnd is Some,
    ensures
        v.after_detach(t).focused_id == v.focused_id,
{
    reveal(TreeView::after_detach);
    match v.nodes[t as int].parent {
        None => {},
        Some(pid) => {
            let pnode = v.nodes[pid as int];
            let ch = without(pnode.children, t);
            let va = TreeView {
                focused_id: v.focused_id,
                ..v.set_node(pid as int, NodeView { children: ch, ..pnode })
            };
            assert(va.nodes[v.focused_id as int].hwnd == v.nodes[v.focused_id as int].hwnd);
            if pid != v.root_id && ch.len() == 0 && pnode.hwnd is None {
                lemma_cleanup_focus(va, pid, v.nodes.len() as nat);
            }
        },
    }
}

/// A window is listed among the first `n` nodes' windows only if one of
/// them holds it.
proof fn lemma_windows_no_duplicates(v: TreeView, n: int)
    requires
        v.well_formed(),
        0 <= n <= v.nodes.len(),
    ensures
        windows_prefix(v.nodes, n).no_duplicates(),
    decreases n,
{
    if n > 0 {
        lemma_windows_no_duplicates(v, n - 1);
        match v.nodes[n - 1].hwnd {
            Some(h) => {
                lemma_windows_contains(v.nodes, n - 1, h);
                let rest = windows_prefix(v.nodes, n - 1);
                if rest.contains(h) {
                    let j = choose|j: int| 0 <= j < n - 1 && (#[trigger] v.nodes[j]).hwnd == Some(h);
                    assert(v.nodes[n - 1].hwnd != v.nodes[j].hwnd);
                }
                let all = rest.push(h);
                assert forall|a: int, b: int| 0 <= a < all.len() && 0 <= b < all.len() && a != b implies all[a] != all[b] by {
                    if a == rest.len() {
                        assert(rest[b] == all[b]);
                    } else if b == rest.len() {
                        assert(rest[a] == all[a]);
                    }
                }
            },
            None => {},
        }
    }
}

/// A tree lists each of its windows once, and lists exactly the windows
/// that `find_window` finds.
pub proof fn law_windows_unique_and_found(v: TreeView, h: isize)
    requires
        v.well_formed(),
    ensures
        v.windows().no_duplicates(),
        v.windows().contains(h) <==> v.find(h) is Some,
{
    lemma_windows_no_duplicates(v, v.nodes.len() as int);
    lemma_windows_contains(v.nodes, v.nodes.len() as int, h);
    match v.find(h) {
        Some(t) => {
            lemma_find_some(v, h);
        },
        None => {
            lemma_find_none(v.nodes, h, v.nodes.len() as int);
        },
    }
}

/// Setting the split adds a container exactly when the focused node is a
/// window with a parent, and no other node.
pub proof fn law_set_split_node_count(v: TreeView, dir: SplitDirection)
    requires
        v.well_formed(),
        v.has_room(1),
    ensures
        v.after_set_split(dir).nodes.len() == v.nodes.len() + (if v.nodes[v.focused_id as int].hwnd is Some
            && v.nodes[v.focused_id as int].parent is Some {
            1int
        } else {
            0int
        }),
{
    let f = v.focused_id;
    let fnode = v.nodes[f as int];
    let w = v.after_ensure_container();
    if fnode.hwnd is Some && fnode.parent is Some {
        assert(v.nodes[f as int].parent is Some);
        assert(w.nodes.len() == v.nodes.len() + 1);
    }
}

/// The window that the focus moves to lies on the asked side of the focused
/// window, and no window on that side is nearer.
pub proof fn law_focus_direction_nearest(v: TreeView, dx: i32, dy: i32, area: Rect, t: isize)
    requires
        v.target_in_direction(dx, dy, area) == Some(t),
    ensures
        ({
            let ls = v.layouts(area, 0);
            let cur = v.focused_rect(area)->0;
            exists|k: int|
                #![trigger is_best(ls, v.focused_hwnd()->0, cur, dx, dy, k)]
                {
                    &&& is_best(ls, v.focused_hwnd()->0, cur, dx, dy, k)
                    &&& 0 <= k < ls.len()
                    &&& ls[k].0 == t
                    &&& ls[k].0 != v.focused_hwnd()->0
                    &&& in_direction(dx, dy, cur, ls[k].1)
                    &&& forall|j: int|
                        #![trigger ls[j]]
                        0 <= j < ls.len() && ls[j].0 != v.focused_hwnd()->0 && in_direction(dx, dy, cur, ls[j].1) ==> dist4(
                            cur,
                            ls[k].1,
                        ) <= dist4(cur, ls[j].1)
                }
        }),
{
    let ls = v.layouts(area, 0);
    let h = v.focused_hwnd()->0;
    let cur = v.focused_rect(area)->0;
    assert(best_target(ls, h, cur, dx, dy) == Some(t));
    let k = choose|k: int| is_best(ls, h, cur, dx, dy, k);
    assert(is_best(ls, h, cur, dx, dy, k));
    assert forall|j: int|
        0 <= j < ls.len() && ls[j].0 != h && in_direction(dx, dy, cur, ls[j].1) implies dist4(cur, ls[k].1) <= dist4(
        cur,
        ls[j].1,
    ) by {
        assert(is_candidate(ls, h, cur, dx, dy, j));
    }
}

/// Taking care of the foreground window: nothing changes without a window,
/// or for one left alone; a window that a rule sends to another workspace is
/// hidden and lands in that workspace's tree, the current tree unchanged;
/// any other window is found in the current tree afterwards, which gains it
/// as its last window if it was not there.
pub proof fn law_detect_window(v: WorkspacesView, fg: isize, reported: Result<WindowInfo, crate::error::AppError>)
    requires
        v.ok(),
        v.room(2),
    ensures
        fg == 0 || acted_on(v.windows, reported) is None ==> v.after_detect(fg, reported) == (v, None::<isize>),
        fg != 0 && acted_on(v.windows, reported) is Some ==> ({
            let w = acted_on(v.windows, reported)->0;
            let (v2, hide) = v.after_detect(fg, reported);
            match rule_target(v.rules, w) {
                Some(k) if k != v.current && k < v.trees.len() => {
                    &&& hide == Some(fg)
                    &&& v2.trees[k as int].find(fg) is Some
                    &&& v2.current == v.current
                    &&& v2.current_tree() == v.current_tree()
                    &&& v2.lists[k as int] == v.lists[k as int].push(fg)
                },
                _ => {
                    &&& hide is None
                    &&& v2.current_tree().find(fg) is Some
                    &&& v2.current_tree().windows() == if v.current_tree().find(fg) is Some {
                        v.current_tree().windows()
                    } else {
                        v.current_tree().windows().push(fg)
                    }
                },
            }
        }),
{
    if fg != 0 && acted_on(v.windows, reported) is Some {
        let w = acted_on(v.windows, reported)->0;
        let elsewhere = match rule_target(v.rules, w) {
            Some(k) => k != v.current && k < v.trees.len(),
            None => false,
        };
        if elsewhere {
            let k = rule_target(v.rules, w)->0;
            law_added_window_is_found(v.trees[k as int], fg);
        } else {
            let t = v.current_tree();
            if t.find(fg) is None {
                law_add_new_window_appends(t, fg);
            }
        }
    }
}

/// Keys whose names read the same in upper case give the same key code, and
/// fail together.
pub proof fn law_key_case_insensitive(k1: Seq<char>, k2: Seq<char>)
    requires
        crate::text::uppercase_of(k1) == crate::text::uppercase_of(k2),
    ensures
        virtual_key_of(k1) is Ok <==> virtual_key_of(k2) is Ok,
        virtual_key_of(k1) is Ok ==> virtual_key_of(k1) == virtual_key_of(k2),
{
}

/// The handles of those of the first `n` windows of `m` that go to
/// workspace `k` of `c`, in order.
pub open spec fn homed_at(c: WorkspacesView, m: Seq<WindowInfo>, k: int, n: int) -> Seq<isize>
    decreases n,
{
    if n <= 0 {
        Seq::empty()
    } else if c.home_of(m[n - 1]) == k {
        homed_at(c, m, k, n - 1).push(m[n - 1].hwnd)
    } else {
        homed_at(c, m, k, n - 1)
    }
}

/// Placing windows keeps the rules and the number of workspaces, and so the
/// workspace each window goes to; each list gathers the windows going there.
proof fn lemma_placed_lists(c: WorkspacesView, m: Seq<WindowInfo>, n: int)
    requires
        c.trees.len() == c.lists.len(),
        c.trees.len() > 0,
        forall|k: int| 0 <= k < c.lists.len() ==> (#[trigger] c.lists[k]).len() == 0,
        0 <= n <= m.len(),
    ensures
        c.placed_all(m, n).trees.len() == c.trees.len(),
        c.placed_all(m, n).lists.len() == c.lists.len(),
        c.placed_all(m, n).rules == c.rules,
        c.placed_all(m, n).current == c.current,
        forall|k: int| 0 <= k < c.lists.len() ==> (#[trigger] c.placed_all(m, n).lists[k]) == homed_at(c, m, k, n),
    decreases n,
{
    if n == 0 {
        assert forall|k: int| 0 <= k < c.lists.len() implies (#[trigger] c.placed_all(m, n).lists[k]) == homed_at(c, m, k, n) by {
            assert(c.lists[k] =~= Seq::<isize>::empty());
        }
    } else {
        lemma_placed_lists(c, m, n - 1);
        let v = c.placed_all(m, n - 1);
        assert(v.home_of(m[n - 1]) == c.home_of(m[n - 1]));
    }
}

/// A rebuild makes the first workspace current, and each workspace lists
/// exactly the kept windows that its rules send there (the first workspace
/// also those no rule sends to an existing one), in the order listed.
pub proof fn law_reset_lists(v: WorkspacesView, ws: Seq<WindowInfo>, k: int)
    requires
        v.ok(),
        0 <= k < v.lists.len(),
    ensures
        v.after_reset(ws).current == 0,
        v.after_reset(ws).trees.len() == v.trees.len(),
        v.after_reset(ws).lists[k] == homed_at(
            v.cleared(),
            managed(v.windows.config(), ws),
            k,
            managed(v.windows.config(), ws).len() as int,
        ),
{
    let c = v.cleared();
    let m = managed(v.windows.config(), ws);
    lemma_placed_lists(c, m, m.len() as int);
}

/// One more part read after the reading `st`: the flag it names is added,
/// or it becomes the key, or it is a second key and reading stops.
pub open spec fn read_part(st: (u32, Seq<char>, bool), p: Seq<char>) -> (u32, Seq<char>, bool) {
    let (m, key, multiple) = st;
    if multiple {
        st
    } else {
        let bit = modifier_of(crate::text::uppercase_of(p));
        if bit != 0 {
            (m | bit, key, false)
        } else if key.len() > 0 {
            (m, key, true)
        } else {
            (m, p, false)
        }
    }
}

/// Two readings lead to the same outcome: both met a second key, or neither
/// did and they hold the same flags and key.
pub open spec fn same_reading(a: (u32, Seq<char>, bool), b: (u32, Seq<char>, bool)) -> bool {
    a.2 == b.2 && (!a.2 ==> a.0 == b.0 && a.1 == b.1)
}

proof fn lemma_scan_step(parts: Seq<Seq<char>>, n: int)
    requires
        n > 0,
    ensures
        scan_parts(parts, n) == read_part(scan_parts(parts, n - 1), parts[n - 1]),
{
}

/// Two non-empty parts read in either order lead to the same outcome.
proof fn lemma_read_commutes(st: (u32, Seq<char>, bool), p: Seq<char>, q: Seq<char>)
    requires
        p.len() > 0,
        q.len() > 0,
    ensures
        same_reading(read_part(read_part(st, p), q), read_part(read_part(st, q), p)),
{
    let bp = modifier_of(crate::text::uppercase_of(p));
    let bq = modifier_of(crate::text::uppercase_of(q));
    let m = st.0;
    assert((m | bp) | bq == (m | bq) | bp) by (bit_vector);
}

/// Reading the same part after readings with the same outcome keeps the
/// outcome the same.
proof fn lemma_read_congruent(a: (u32, Seq<char>, bool), b: (u32, Seq<char>, bool), p: Seq<char>)
    requires
        same_reading(a, b),
    ensures
        same_reading(read_part(a, p), read_part(b, p)),
{
}

/// Reading parts that differ by one swap of neighbours: the same outcome
/// once both swapped parts are read.
proof fn lemma_scan_swap(parts: Seq<Seq<char>>, swapped: Seq<Seq<char>>, i: int, n: int)
    requires
        0 <= i,
        i + 2 <= n <= parts.len(),
        swapped.len() == parts.len(),
        swapped == parts.update(i, parts[i + 1]).update(i + 1, parts[i]),
        parts[i].len() > 0,
        parts[i + 1].len() > 0,
    ensures
        same_reading(scan_parts(parts, n), scan_parts(swapped, n)),
    decreases n,
{
    if n == i + 2 {
        lemma_scan_prefix_same(parts, swapped, i);
        lemma_scan_step(parts, i + 1);
        lemma_scan_step(parts, i + 2);
        lemma_scan_step(swapped, i + 1);
        lemma_scan_step(swapped, i + 2);
        lemma_read_commutes(scan_parts(parts, i), parts[i], parts[i + 1]);
    } else {
        lemma_scan_swap(parts, swapped, i, n - 1);
        lemma_scan_step(parts, n);
        lemma_scan_step(swapped, n);
        assert(swapped[n - 1] == parts[n - 1]);
        lemma_read_congruent(scan_parts(parts, n - 1), scan_parts(swapped, n - 1), parts[n - 1]);
    }
}

/// Parts that agree on the first `n` read the same.
proof fn lemma_scan_prefix_same(a: Seq<Seq<char>>, b: Seq<Seq<char>>, n: int)
    requires
        0 <= n <= a.len(),
        n <= b.len(),
        forall|k: int| 0 <= k < n ==> a[k] == b[k],
    ensures
        scan_parts(a, n) == scan_parts(b, n),
    decreases n,
{
    if n > 0 {
        lemma_scan_prefix_same(a, b, n - 1);
    }
}

/// Swapping two neighbouring parts of a hotkey string, when no part is
/// empty, leaves the flags and key it names unchanged; any order of the
/// parts is reached by such swaps.
pub proof fn law_hotkey_parts_swap(raw1: Seq<char>, raw2: Seq<char>, i: int)
    requires
        crate::text::trimmed(raw1).len() > 0,
        crate::text::trimmed(raw2).len() > 0,
        0 <= i,
        i + 1 < hotkey_parts(crate::text::trimmed(raw1)).len(),
        hotkey_parts(crate::text::trimmed(raw2)) == hotkey_parts(crate::text::trimmed(raw1)).update(
            i,
            hotkey_parts(crate::text::trimmed(raw1))[i + 1],
        ).update(i + 1, hotkey_parts(crate::text::trimmed(raw1))[i]),
        forall|k: int|
            0 <= k < hotkey_parts(crate::text::trimmed(raw1)).len() ==> (#[trigger] hotkey_parts(
                crate::text::trimmed(raw1),
            )[k]).len() > 0,
    ensures
        hotkey_of(raw1) is Ok <==> hotkey_of(raw2) is Ok,
        hotkey_of(raw1) is Ok ==> hotkey_of(raw1) == hotkey_of(raw2),
{
    let p1 = hotkey_parts(crate::text::trimmed(raw1));
    let p2 = hotkey_parts(crate::text::trimmed(raw2));
    assert(p1[i].len() > 0);
    assert(p1[i + 1].len() > 0);
    lemma_scan_swap(p1, p2, i, p1.len() as int);
}

/// Readings of parts that read the same in upper case: the same flags,
/// and keys that read the same in upper case, empty together.
pub open spec fn alike_reading(a: (u32, Seq<char>, bool), b: (u32, Seq<char>, bool)) -> bool {
    &&& a.0 == b.0
    &&& a.2 == b.2
    &&& (a.1.len() == 0) == (b.1.len() == 0)
    &&& crate::text::uppercase_of(a.1) == crate::text::uppercase_of(b.1)
}

proof fn lemma_scan_alike(a: Seq<Seq<char>>, b: Seq<Seq<char>>, n: int)
    requires
        0 <= n <= a.len(),
        a.len() == b.len(),
        forall|k: int|
            0 <= k < a.len() ==> crate::text::uppercase_of(#[trigger] a[k]) == crate::text::uppercase_of(b[k])
                && (a[k].len() == 0) == (b[k].len() == 0),
    ensures
        alike_reading(scan_parts(a, n), scan_parts(b, n)),
    decreases n,
{
    if n > 0 {
        lemma_scan_alike(a, b, n - 1);
        lemma_scan_step(a, n);
        lemma_scan_step(b, n);
        assert(crate::text::uppercase_of(a[n - 1]) == crate::text::uppercase_of(b[n - 1]));
    }
}

/// Re-casing the parts of a hotkey string, so that each reads the same in
/// upper case, leaves the flags and key it names unchanged.
pub proof fn law_hotkey_parts_recase(raw1: Seq<char>, raw2: Seq<char>)
    requires
        crate::text::trimmed(raw1).len() > 0,
        crate::text::trimmed(raw2).len() > 0,
        hotkey_parts(crate::text::trimmed(raw1)).len() == hotkey_parts(crate::text::trimmed(raw2)).len(),
        forall|k: int|
            0 <= k < hotkey_parts(crate::text::trimmed(raw1)).len() ==> crate::text::uppercase_of(
                #[trigger] hotkey_parts(crate::text::trimmed(raw1))[k],
            ) == crate::text::uppercase_of(hotkey_parts(crate::text::trimmed(raw2))[k]) && (hotkey_parts(
                crate::text::trimmed(raw1),
            )[k].len() == 0) == (hotkey_parts(crate::text::trimmed(raw2))[k].len() == 0),
    ensures
        hotkey_of(raw1) is Ok <==> hotkey_of(raw2) is Ok,
        hotkey_of(raw1) is Ok ==> hotkey_of(raw1) == hotkey_of(raw2),
{
    let p1 = hotkey_parts(crate::text::trimmed(raw1));
    let p2 = hotkey_parts(crate::text::trimmed(raw2));
    lemma_scan_alike(p1, p2, p1.len() as int);
    let k1 = scan_parts(p1, p1.len() as int).1;
    let k2 = scan_parts(p2, p2.len() as int).1;
    law_key_case_insensitive(k1, k2);
}

/// Placing windows keeps every tree valid and small, and each tree holds
/// exactly the windows its list holds.
proof fn lemma_placed_trees(c: WorkspacesView, m: Seq<WindowInfo>, n: int)
    requires
        c.trees.len() == c.lists.len(),
        c.trees.len() > 0,
        forall|k: int| 0 <= k < c.lists.len() ==> (#[trigger] c.lists[k]).len() == 0,
        forall|k: int| 0 <= k < c.trees.len() ==> (#[trigger] c.trees[k]) == initial_tree(),
        0 <= n <= m.len(),
        2 * m.len() + 3 <= usize::MAX,
    ensures
        c.placed_all(m, n).trees.len() == c.trees.len(),
        c.placed_all(m, n).lists.len() == c.lists.len(),
        forall|k: int| 0 <= k < c.trees.len() ==> (#[trigger] c.placed_all(m, n).trees[k]).valid(),
        forall|k: int| 0 <= k < c.trees.len() ==> (#[trigger] c.placed_all(m, n).trees[k]).nodes.len() <= 1 + 2 * n,
        forall|k: int, h: isize|
            0 <= k < c.trees.len() ==> (#[trigger] c.placed_all(m, n).trees[k].find(h) is Some
                <==> c.placed_all(m, n).lists[k].contains(h)),
    decreases n,
{
    if n == 0 {
        assert forall|k: int| 0 <= k < c.trees.len() implies (#[trigger] c.placed_all(m, n).trees[k]).valid() by {
            let t = c.trees[k];
            assert(ranks_ok(t.nodes, seq![0nat]));
        }
        assert forall|k: int, x: isize| 0 <= k < c.trees.len() implies (#[trigger] c.placed_all(m, n).trees[k].find(x) is Some
            <==> c.placed_all(m, n).lists[k].contains(x)) by {
            let t = c.trees[k];
            assert(t.nodes.len() == 1);
            assert(find_prefix(t.nodes, x, 0) is None);
            assert(find_prefix(t.nodes, x, 1) is None);
            assert(c.lists[k].len() == 0);
        }
    } else {
        lemma_placed_trees(c, m, n - 1);
        let v = c.placed_all(m, n - 1);
        let i = v.home_of(m[n - 1]);
        let h = m[n - 1].hwnd;
        let t = v.trees[i];
        law_add_keeps_valid(t, h);
        crate::tree::lemma_add_window_growth(t, h);
        let t2 = t.after_add_window(h).0;
        let w = c.placed_all(m, n);
        assert(w == v.placed(i, h));
        assert forall|k: int, x: isize| 0 <= k < c.trees.len() implies (#[trigger] w.trees[k].find(x) is Some
            <==> w.lists[k].contains(x)) by {
            if k != i {
                assert(w.trees[k] == v.trees[k]);
                assert(w.lists[k] == v.lists[k]);
            } else {
                law_windows_unique_and_found(t, x);
                law_windows_unique_and_found(t2, x);
                if t.find(h) is Some {
                    law_windows_unique_and_found(t, h);
                    assert(t2.nodes == t.nodes);
                } else {
                    law_add_new_window_appends(t, h);
                }
                if v.lists[i].contains(x) {
                    let j = choose|j: int| 0 <= j < v.lists[i].len() && v.lists[i][j] == x;
                    assert(w.lists[i][j] == x);
                }
                if w.lists[i].contains(x) && x != h {
                    let j = choose|j: int| 0 <= j < w.lists[i].len() && w.lists[i][j] == x;
                    assert(v.lists[i][j] == x);
                }
                assert(w.lists[i][v.lists[i].len() as int] == h);
                if t2.windows().contains(x) && x != h && t.find(h) is None {
                    let j = choose|j: int| 0 <= j < t2.windows().len() && t2.windows()[j] == x;
                    assert(t.windows()[j] == x);
                }
                if t.windows().contains(x) && t.find(h) is None {
                    let j = choose|j: int| 0 <= j < t.windows().len() && t.windows()[j] == x;
                    assert(t2.windows()[j] == x);
                }
                if x == h && t.find(h) is None {
                    assert(t2.windows()[t.windows().len() as int] == h);
                }
            }
        }
    }
}

/// After a rebuild every tree is valid, and each workspace's tree holds
/// exactly the kept windows that go to that workspace.
pub proof fn law_reset_trees(v: WorkspacesView, ws: Seq<WindowInfo>, k: int, h: isize)
    requires
        v.ok(),
        0 <= k < v.trees.len(),
        2 * ws.len() + 3 <= usize::MAX,
    ensures
        v.after_reset(ws).trees[k].valid(),
        v.after_reset(ws).trees[k].find(h) is Some <==> homed_at(
            v.cleared(),
            managed(v.windows.config(), ws),
            k,
            managed(v.windows.config(), ws).len() as int,
        ).contains(h),
{
    let c = v.cleared();
    let m = managed(v.windows.config(), ws);
    crate::services::workspace_service::lemma_managed_len(v.windows.config(), ws, ws.len() as int);
    lemma_placed_trees(c, m, m.len() as int);
    lemma_placed_lists(c, m, m.len() as int);
}

/// The id of every window node among the first `n` is listed among their
/// window ids.
proof fn lemma_window_ids_contains(nodes: Seq<NodeView>, n: int, j: int)
    requires
        0 <= j < n <= nodes.len(),
        nodes[j].hwnd is Some,
    ensures
        window_ids_prefix(nodes, n).contains(nodes[j].id),
    decreases n,
{
    if j < n - 1 {
        lemma_window_ids_contains(nodes, n - 1, j);
        let rest = window_ids_prefix(nodes, n - 1);
        let k = choose|k: int| 0 <= k < rest.len() && rest[k] == nodes[j].id;
        match nodes[n - 1].hwnd {
            Some(_) => assert(window_ids_prefix(nodes, n)[k] == nodes[j].id),
            None => {},
        }
    } else {
        let rest = window_ids_prefix(nodes, n - 1);
        assert(window_ids_prefix(nodes, n)[rest.len() as int] == nodes[j].id);
    }
}

/// A focused window node is among the window nodes, so the focus laws
/// apply to every tree whose focus is on a window.
pub proof fn lemma_focused_window_listed(v: TreeView)
    requires
        v.well_formed(),
        v.focused_hwnd() is Some,
    ensures
        position(v.window_ids(), v.focused_id) is Some,
{
    lemma_window_ids_contains(v.nodes, v.nodes.len() as int, v.focused_id as int);
    let w = v.window_ids();
    lemma_position_prefix(w, v.focused_id, w.len() as int);
    let k = choose|k: int| 0 <= k < w.len() && w[k] == v.focused_id;
    assert(w[k] == v.focused_id);
}

/// The key table: a named key gives its code; otherwise a single ASCII
/// letter or digit gives its upper-case character code; anything else names
/// no key. The whole name is read in upper case first.
pub proof fn law_key_table(u: Seq<char>, c: char)
    ensures
        named_key_code(u) is Some ==> upper_key_code(u) == named_key_code(u),
        named_key_code(seq![c]) is None && (c as u32) < 128 && is_ascii_alnum(c as u32) ==> upper_key_code(seq![c])
            == Some(crate::text::ascii_upper_code(c as u32)),
        named_key_code(u) is None && u.len() != 1 ==> upper_key_code(u) is None,
        named_key_code(u) is None && u.len() == 1 && !((u[0] as u32) < 128 && is_ascii_alnum(u[0] as u32))
            ==> upper_key_code(u) is None,
{
}

/// `r` lies within `a`.
pub open spec fn inside(r: Rect, a: Rect) -> bool {
    &&& a.x <= r.x
    &&& r.x + r.width <= a.x + a.width
    &&& a.y <= r.y
    &&& r.y + r.height <= a.y + a.height
}

/// `r` and `s` do not overlap: one lies wholly beside or above the other.
pub open spec fn apart(r: Rect, s: Rect) -> bool {
    ||| r.x + r.width <= s.x
    ||| s.x + s.width <= r.x
    ||| r.y + r.height <= s.y
    ||| s.y + s.height <= r.y
}

/// Where `r` starts along `dir`.
pub open spec fn axis_lo(r: Rect, dir: SplitDirection) -> int {
    match dir {
        SplitDirection::Horizontal => r.x as int,
        SplitDirection::Vertical => r.y as int,
    }
}

/// Where `r` ends along `dir`.
pub open spec fn axis_hi(r: Rect, dir: SplitDirection) -> int {
    match dir {
        SplitDirection::Horizontal => r.x + r.width,
        SplitDirection::Vertical => r.y + r.height,
    }
}

/// The size of `r` along `dir`.
pub open spec fn axis_size(r: Rect, dir: SplitDirection) -> int {
    match dir {
        SplitDirection::Horizontal => r.width as int,
        SplitDirection::Vertical => r.height as int,
    }
}

/// Every split below node `id` of `area` gives cells of at least one pixel.
pub open spec fn cells_positive(v: TreeView, id: int, area: Rect, gap: int, fuel: nat) -> bool
    decreases fuel, 0int,
{
    if fuel == 0 || !(0 <= id < v.nodes.len()) {
        true
    } else {
        let node = v.nodes[id];
        match node.hwnd {
            Some(h) => true,
            None => {
                let lc = live_children(v, node.children);
                if lc.len() == 0 {
                    true
                } else if lc.len() == 1 {
                    cells_positive(v, lc[0] as int, area, gap, (fuel - 1) as nat)
                } else {
                    &&& cell_size(axis_size(area, node.direction), gap, lc.len() as int) >= 1
                    &&& cells_positive_children(v, lc, area, gap, node.direction, lc.len() as int, (fuel - 1) as nat)
                }
            },
        }
    }
}

/// Every split below the first `k` children `lc` of `area` gives cells of at
/// least one pixel.
pub open spec fn cells_positive_children(
    v: TreeView,
    lc: Seq<usize>,
    area: Rect,
    gap: int,
    dir: SplitDirection,
    k: int,
    fuel: nat,
) -> bool
    decreases fuel, k + 1,
{
    if k <= 0 {
        true
    } else {
        &&& cells_positive_children(v, lc, area, gap, dir, k - 1, fuel)
        &&& cells_positive(v, lc[k - 1] as int, child_area(area, gap, dir, lc.len() as int, k - 1), gap, fuel)
    }
}

/// Where child `i` of `n` starts and ends, and that it lies within `area`,
/// when the cells are at least one pixel and the gap is not negative.
proof fn lemma_child_area(area: Rect, gap: int, dir: SplitDirection, n: int, i: int)
    requires
        n >= 2,
        0 <= i < n,
        gap >= 0,
        cell_size(axis_size(area, dir), gap, n) >= 1,
        child_area_fits(area, gap, dir, n, i),
    ensures
        ({
            let cell = cell_size(axis_size(area, dir), gap, n);
            let c = child_area(area, gap, dir, n, i);
            &&& axis_lo(c, dir) == axis_lo(area, dir) + i * (cell + gap)
            &&& axis_hi(c, dir) == axis_lo(area, dir) + (i + 1) * (cell + gap) - gap
            &&& inside(c, area)
        }),
{
    let size = axis_size(area, dir);
    let num = size - gap * (n - 1);
    let cell = cell_size(size, gap, n);
    assert(num >= 0) by {
        if num < 0 {
            assert((-num) / n >= 0) by (nonlinear_arith)
                requires
                    -num > 0,
                    n >= 2,
            ;
        }
    }
    assert(cell == num / n);
    assert(n * cell <= num) by (nonlinear_arith)
        requires
            num >= 0,
            n >= 2,
            cell == num / n,
    ;
    assert(i * (cell + gap) >= 0) by (nonlinear_arith)
        requires
            i >= 0,
            cell >= 1,
            gap >= 0,
    ;
    assert((i + 1) * (cell + gap) == i * (cell + gap) + cell + gap) by (nonlinear_arith);
    assert(i * (cell + gap) + cell <= (n - 1) * (cell + gap) + cell) by (nonlinear_arith)
        requires
            0 <= i < n,
            cell >= 1,
            gap >= 0,
    ;
    assert((n - 1) * (cell + gap) + cell == n * cell + (n - 1) * gap) by (nonlinear_arith);
    assert(gap * (n - 1) == (n - 1) * gap) by (nonlinear_arith);
    assert(cell <= size);
    assert(at_least_one(cell) == cell);
}

/// The layout of node `id` keeps every window within `area`, and no two
/// windows overlap.
proof fn lemma_layout_node_apart(v: TreeView, id: int, area: Rect, gap: int, fuel: nat)
    requires
        gap >= 0,
        fits_node(v, id, area, gap, fuel),
        cells_positive(v, id, area, gap, fuel),
    ensures
        forall|k: int|
            0 <= k < layout_node(v, id, area, gap, fuel).len() ==> inside(
                (#[trigger] layout_node(v, id, area, gap, fuel)[k]).1,
                area,
            ),
        forall|j: int, k: int|
            0 <= j < k < layout_node(v, id, area, gap, fuel).len() ==> apart(
                (#[trigger] layout_node(v, id, area, gap, fuel)[j]).1,
                (#[trigger] layout_node(v, id, area, gap, fuel)[k]).1,
            ),
    decreases fuel, 0int,
{
    if fuel > 0 && 0 <= id < v.nodes.len() {
        let node = v.nodes[id];
        match node.hwnd {
            Some(h) => {
                assert(layout_node(v, id, area, gap, fuel) == seq![(h, area)]);
            },
            None => {
                let lc = live_children(v, node.children);
                if lc.len() == 1 {
                    lemma_layout_node_apart(v, lc[0] as int, area, gap, (fuel - 1) as nat);
                    assert(layout_node(v, id, area, gap, fuel) == layout_node(v, lc[0] as int, area, gap, (fuel - 1) as nat));
                } else if lc.len() > 1 {
                    let ls = layout_children(v, lc, area, gap, node.direction, lc.len() as int, (fuel - 1) as nat);
                    lemma_layout_children_apart(v, lc, area, gap, node.direction, lc.len() as int, (fuel - 1) as nat);
                    assert(layout_node(v, id, area, gap, fuel) == ls);
                } else {
                    assert(layout_node(v, id, area, gap, fuel).len() == 0);
                }
            },
        }
    }
}

/// The layouts of the first `k` children stay within `area`, end before
/// child `k` starts, and do not overlap.
proof fn lemma_layout_children_apart(
    v: TreeView,
    lc: Seq<usize>,
    area: Rect,
    gap: int,
    dir: SplitDirection,
    k: int,
    fuel: nat,
)
    requires
        gap >= 0,
        lc.len() >= 2,
        0 <= k <= lc.len(),
        cell_size(axis_size(area, dir), gap, lc.len() as int) >= 1,
        fits_children(v, lc, area, gap, dir, k, fuel),
        cells_positive_children(v, lc, area, gap, dir, k, fuel),
    ensures
        ({
            let ls = layout_children(v, lc, area, gap, dir, k, fuel);
            let cell = cell_size(axis_size(area, dir), gap, lc.len() as int);
            &&& forall|j: int|
                0 <= j < ls.len() ==> inside((#[trigger] ls[j]).1, area) && axis_hi(ls[j].1, dir) <= axis_lo(area, dir)
                    + k * (cell + gap) - gap
            &&& forall|a: int, b: int| 0 <= a < b < ls.len() ==> apart((#[trigger] ls[a]).1, (#[trigger] ls[b]).1)
        }),
    decreases fuel, k + 1,
{
    let n = lc.len() as int;
    let cell = cell_size(axis_size(area, dir), gap, n);
    if k == 0 {
        assert(layout_children(v, lc, area, gap, dir, k, fuel).len() == 0);
    } else {
        lemma_layout_children_apart(v, lc, area, gap, dir, k - 1, fuel);
        let old = layout_children(v, lc, area, gap, dir, k - 1, fuel);
        let c = child_area(area, gap, dir, n, k - 1);
        lemma_layout_node_apart(v, lc[k - 1] as int, c, gap, fuel);
        lemma_child_area(area, gap, dir, n, k - 1);
        let new = layout_node(v, lc[k - 1] as int, c, gap, fuel);
        let ls = layout_children(v, lc, area, gap, dir, k, fuel);
        assert(ls == old + new);
        assert((k - 1) * (cell + gap) - gap <= (k - 1) * (cell + gap));
        assert forall|j: int| 0 <= j < ls.len() implies inside((#[trigger] ls[j]).1, area) && axis_hi(ls[j].1, dir)
            <= axis_lo(area, dir) + k * (cell + gap) - gap by {
            if j < old.len() {
                assert(ls[j] == old[j]);
                assert((k - 1) * (cell + gap) <= k * (cell + gap)) by (nonlinear_arith)
                    requires
                        cell >= 1,
                        gap >= 0,
                ;
            } else {
                assert(ls[j] == new[j - old.len()]);
                assert(inside(new[j - old.len()].1, c));
            }
        }
        assert forall|a: int, b: int| 0 <= a < b < ls.len() implies apart((#[trigger] ls[a]).1, (#[trigger] ls[b]).1) by {
            if b < old.len() {
                assert(ls[a] == old[a]);
                assert(ls[b] == old[b]);
            } else if a >= old.len() {
                assert(ls[a] == new[a - old.len()]);
                assert(ls[b] == new[b - old.len()]);
            } else {
                assert(ls[a] == old[a]);
                assert(ls[b] == new[b - old.len()]);
                assert(inside(new[b - old.len()].1, c));
                assert(axis_hi(old[a].1, dir) <= axis_lo(c, dir));
                assert(axis_lo(c, dir) <= axis_lo(new[b - old.len()].1, dir));
            }
        }
    }
}

/// When every split gives cells of at least one pixel and the gap is not
/// negative, a split layout keeps every window within the area and no two
/// windows overlap.
pub proof fn law_layout_inside_and_apart(v: TreeView, area: Rect, gap: int)
    requires
        v.layout == Layout::SplitH || v.layout == Layout::SplitV,
        gap >= 0,
        v.layout_fits(area, gap),
        cells_positive(v, v.root_id as int, area, gap, v.nodes.len() as nat),
    ensures
        forall|k: int| 0 <= k < v.layouts(area, gap).len() ==> inside((#[trigger] v.layouts(area, gap)[k]).1, area),
        forall|j: int, k: int|
            0 <= j < k < v.layouts(area, gap).len() ==> apart(
                (#[trigger] v.layouts(area, gap)[j]).1,
                (#[trigger] v.layouts(area, gap)[k]).1,
            ),
{
    lemma_layout_node_apart(v, v.root_id as int, area, gap, v.nodes.len() as nat);
}


/// The window that a directional step picks lies wholly on that side of the
/// focused window: left of it, right of it, above it (smaller `y` on screen)
/// or below it, and is another window than the focused one.
pub proof fn law_direction_target_on_its_side(v: TreeView, dx: i32, dy: i32, area: Rect)
    requires
        v.target_in_direction(dx, dy, area) is Some,
    ensures
        v.focused_hwnd() is Some,
        v.focused_rect(area) is Some,
        v.target_in_direction(dx, dy, area)->0 != v.focused_hwnd()->0,
        (dx == -1 && dy == 0) || (dx == 1 && dy == 0) || (dx == 0 && dy == -1) || (dx == 0 && dy == 1),
        exists|k: int|
            0 <= k < v.layouts(area, 0).len() && (#[trigger] v.layouts(area, 0)[k]).0 == v.target_in_direction(
                dx,
                dy,
                area,
            )->0 && {
                let r = v.layouts(area, 0)[k].1;
                let cur = v.focused_rect(area)->0;
                &&& (dx == -1 && dy == 0 ==> r.x + r.width <= cur.x)
                &&& (dx == 1 && dy == 0 ==> r.x >= cur.x + cur.width)
                &&& (dx == 0 && dy == -1 ==> r.y + r.height <= cur.y)
                &&& (dx == 0 && dy == 1 ==> r.y >= cur.y + cur.height)
            },
{
    let ls = v.layouts(area, 0);
    let h = v.focused_hwnd()->0;
    let cur = v.focused_rect(area)->0;
    assert(v.focused_hwnd() is Some && v.focused_rect(area) is Some);
    assert(exists|k: int| is_best(ls, h, cur, dx, dy, k));
    let k = choose|k: int| is_best(ls, h, cur, dx, dy, k);
    assert(is_candidate(ls, h, cur, dx, dy, k));
    assert(in_direction(dx, dy, cur, ls[k].1));
    assert(ls[k].0 == v.target_in_direction(dx, dy, area)->0);
}

/// The workspace hotkeys switch to their own workspace: `Workspace1` makes
/// the first workspace current, `Workspace2` the second, and so on, whenever
/// that workspace exists; the other workspaces' trees are left as the
/// focus sync leaves them.
pub proof fn law_workspace_actions_pick_their_workspace(
    ws: WorkspacesView,
    lay: LayoutService,
    command: Seq<char>,
    obs: Observation,
)
    requires
        ws.current < ws.trees.len(),
    ensures
        ws.trees.len() > 0 ==> plan(ws, lay, command, Action::Workspace1, obs).0.current == 0,
        ws.trees.len() > 1 ==> plan(ws, lay, command, Action::Workspace2, obs).0.current == 1,
        ws.trees.len() > 2 ==> plan(ws, lay, command, Action::Workspace3, obs).0.current == 2,
        ws.trees.len() > 3 ==> plan(ws, lay, command, Action::Workspace4, obs).0.current == 3,
        ws.trees.len() > 4 ==> plan(ws, lay, command, Action::Workspace5, obs).0.current == 4,
        ws.trees.len() <= 2 ==> plan(ws, lay, command, Action::Workspace3, obs).0.current == ws.after_sync(
            obs.foreground_hwnd,
        ).current,
        forall|k: int|
            0 <= k < ws.trees.len() ==> #[trigger] plan(ws, lay, command, Action::Workspace3, obs).0.trees[k]
                == ws.after_sync(obs.foreground_hwnd).trees[k],
{
    let v = ws.after_sync(obs.foreground_hwnd);
    assert(v.trees.len() == ws.trees.len());
}

/// Moving the foreground window to a numbered workspace makes that
/// workspace current, whenever there is a foreground window and the
/// workspace exists.
pub proof fn law_move_actions_pick_their_workspace(
    ws: WorkspacesView,
    lay: LayoutService,
    command: Seq<char>,
    obs: Observation,
)
    requires
        ws.current < ws.trees.len(),
        obs.foreground_hwnd != 0,
    ensures
        ws.trees.len() > 0 ==> plan(ws, lay, command, Action::MoveToWorkspace1, obs).0.current == 0,
        ws.trees.len() > 1 ==> plan(ws, lay, command, Action::MoveToWorkspace2, obs).0.current == 1,
        ws.trees.len() > 2 ==> plan(ws, lay, command, Action::MoveToWorkspace3, obs).0.current == 2,
        ws.trees.len() > 3 ==> plan(ws, lay, command, Action::MoveToWorkspace4, obs).0.current == 3,
        ws.trees.len() > 4 ==> plan(ws, lay, command, Action::MoveToWorkspace5, obs).0.current == 4,
{
    let v = ws.after_sync(obs.foreground_hwnd);
    assert(v.trees.len() == ws.trees.len());
    assert(v.current == ws.current);
    assert(v.after_remove(obs.foreground_hwnd).trees.len() == ws.trees.len());
}

/// The key table, with the Win32 virtual-key codes written out: each named
/// key gives its own code.
#[verifier::rlimit(50)]
pub proof fn law_named_key_codes()
    ensures
        upper_key_code("SPACE"@) == Some(0x20u32),
        upper_key_code("ENTER"@) == Some(0x0Du32),
        upper_key_code("RETURN"@) == Some(0x0Du32),
        upper_key_code("ESC"@) == Some(0x1Bu32),
        upper_key_code("ESCAPE"@) == Some(0x1Bu32),
        upper_key_code("TAB"@) == Some(0x09u32),
        upper_key_code("BACKSPACE"@) == Some(0x08u32),
        upper_key_code("DELETE"@) == Some(0x2Eu32),
        upper_key_code("INSERT"@) == Some(0x2Du32),
        upper_key_code("HOME"@) == Some(0x24u32),
        upper_key_code("END"@) == Some(0x23u32),
        upper_key_code("PAGEUP"@) == Some(0x21u32),
        upper_key_code("PAGEDOWN"@) == Some(0x22u32),
        upper_key_code("UP"@) == Some(0x26u32),
        upper_key_code("DOWN"@) == Some(0x28u32),
        upper_key_code("LEFT"@) == Some(0x25u32),
        upper_key_code("RIGHT"@) == Some(0x27u32),
        upper_key_code("F1"@) == Some(0x70u32),
        upper_key_code("F5"@) == Some(0x74u32),
        upper_key_code("F12"@) == Some(0x7Bu32),
        upper_key_code(" "@) == Some(0x20u32),
        upper_key_code("BACK"@) == Some(0x08u32),
        upper_key_code("DEL"@) == Some(0x2Eu32),
        upper_key_code("INS"@) == Some(0x2Du32),
        upper_key_code("PGUP"@) == Some(0x21u32),
        upper_key_code("PGDN"@) == Some(0x22u32),
        upper_key_code("F2"@) == Some(0x71u32),
        upper_key_code("F3"@) == Some(0x72u32),
        upper_key_code("F4"@) == Some(0x73u32),
        upper_key_code("F6"@) == Some(0x75u32),
        upper_key_code("F7"@) == Some(0x76u32),
        upper_key_code("F8"@) == Some(0x77u32),
        upper_key_code("F9"@) == Some(0x78u32),
        upper_key_code("F10"@) == Some(0x79u32),
        upper_key_code("F11"@) == Some(0x7Au32),
        modifier_of("WIN"@) == 8u32,
        modifier_of("WINDOWS"@) == 8u32,
        modifier_of("SUPER"@) == 8u32,
        modifier_of("MENU"@) == 1u32,
        modifier_of("CONTROL"@) == 2u32,
        modifier_of("ALT"@) == 1u32,
        modifier_of("CTRL"@) == 2u32,
        modifier_of("SHIFT"@) == 4u32,
{
    reveal_strlit("SPACE");
    reveal_strlit(" ");
    reveal_strlit("ENTER");
    reveal_strlit("RETURN");
    reveal_strlit("ESC");
    reveal_strlit("ESCAPE");
    reveal_strlit("TAB");
    reveal_strlit("BACK");
    reveal_strlit("BACKSPACE");
    reveal_strlit("DELETE");
    reveal_strlit("DEL");
    reveal_strlit("INSERT");
    reveal_strlit("INS");
    reveal_strlit("HOME");
    reveal_strlit("END");
    reveal_strlit("PAGEUP");
    reveal_strlit("PGUP");
    reveal_strlit("PAGEDOWN");
    reveal_strlit("PGDN");
    reveal_strlit("UP");
    reveal_strlit("DOWN");
    reveal_strlit("LEFT");
    reveal_strlit("RIGHT");
    reveal_strlit("F1");
    reveal_strlit("F2");
    reveal_strlit("F3");
    reveal_strlit("F4");
    reveal_strlit("F5");
    reveal_strlit("F6");
    reveal_strlit("F7");
    reveal_strlit("F8");
    reveal_strlit("F9");
    reveal_strlit("F10");
    reveal_strlit("F11");
    reveal_strlit("F12");
    reveal_strlit("WIN");
    reveal_strlit("WINDOWS");
    reveal_strlit("SUPER");
    reveal_strlit("ALT");
    reveal_strlit("MENU");
    reveal_strlit("CTRL");
    reveal_strlit("CONTROL");
    reveal_strlit("SHIFT");
    assert("SPACE"@[0] == 'S');
    assert("SPACE"@[1] == 'P');
    assert("SPACE"@[2] == 'A');
    assert(" "@[0] == ' ');
    assert("ENTER"@[0] == 'E');
    assert("ENTER"@[1] == 'N');
    assert("ENTER"@[2] == 'T');
    assert("RETURN"@[0] == 'R');
    assert("RETURN"@[1] == 'E');
    assert("RETURN"@[2] == 'T');
    assert("ESC"@[0] == 'E');
    assert("ESC"@[1] == 'S');
    assert("ESC"@[2] == 'C');
    assert("ESCAPE"@[0] == 'E');
    assert("ESCAPE"@[1] == 'S');
    assert("ESCAPE"@[2] == 'C');
    assert("TAB"@[0] == 'T');
    assert("TAB"@[1] == 'A');
    assert("TAB"@[2] == 'B');
    assert("BACK"@[0] == 'B');
    assert("BACK"@[1] == 'A');
    assert("BACK"@[2] == 'C');
    assert("BACKSPACE"@[0] == 'B');
    assert("BACKSPACE"@[1] == 'A');
    assert("BACKSPACE"@[2] == 'C');
    assert("DELETE"@[0] == 'D');
    assert("DELETE"@[1] == 'E');
    assert("DELETE"@[2] == 'L');
    assert("DEL"@[0] == 'D');
    assert("DEL"@[1] == 'E');
    assert("DEL"@[2] == 'L');
    assert("INSERT"@[0] == 'I');
    assert("INSERT"@[1] == 'N');
    assert("INSERT"@[2] == 'S');
    assert("INS"@[0] == 'I');
    assert("INS"@[1] == 'N');
    assert("INS"@[2] == 'S');
    assert("HOME"@[0] == 'H');
    assert("HOME"@[1] == 'O');
    assert("HOME"@[2] == 'M');
    assert("END"@[0] == 'E');
    assert("END"@[1] == 'N');
    assert("END"@[2] == 'D');
    assert("PAGEUP"@[0] == 'P');
    assert("PAGEUP"@[1] == 'A');
    assert("PAGEUP"@[2] == 'G');
    assert("PGUP"@[0] == 'P');
    assert("PGUP"@[1] == 'G');
    assert("PGUP"@[2] == 'U');
    assert("PAGEDOWN"@[0] == 'P');
    assert("PAGEDOWN"@[1] == 'A');
    assert("PAGEDOWN"@[2] == 'G');
    assert("PGDN"@[0] == 'P');
    assert("PGDN"@[1] == 'G');
    assert("PGDN"@[2] == 'D');
    assert("UP"@[0] == 'U');
    assert("UP"@[1] == 'P');
    assert("DOWN"@[0] == 'D');
    assert("DOWN"@[1] == 'O');
    assert("DOWN"@[2] == 'W');
    assert("LEFT"@[0] == 'L');
    assert("LEFT"@[1] == 'E');
    assert("LEFT"@[2] == 'F');
    assert("RIGHT"@[0] == 'R');
    assert("RIGHT"@[1] == 'I');
    assert("RIGHT"@[2] == 'G');
    assert("F1"@[0] == 'F');
    assert("F1"@[1] == '1');
    assert("F2"@[0] == 'F');
    assert("F2"@[1] == '2');
    assert("F3"@[0] == 'F');
    assert("F3"@[1] == '3');
    assert("F4"@[0] == 'F');
    assert("F4"@[1] == '4');
    assert("F5"@[0] == 'F');
    assert("F5"@[1] == '5');
    assert("F6"@[0] == 'F');
    assert("F6"@[1] == '6');
    assert("F7"@[0] == 'F');
    assert("F7"@[1] == '7');
    assert("F8"@[0] == 'F');
    assert("F8"@[1] == '8');
    assert("F9"@[0] == 'F');
    assert("F9"@[1] == '9');
    assert("F10"@[0] == 'F');
    assert("F10"@[1] == '1');
    assert("F10"@[2] == '0');
    assert("F11"@[0] == 'F');
    assert("F11"@[1] == '1');
    assert("F11"@[2] == '1');
    assert("F12"@[0] == 'F');
    assert("F12"@[1] == '1');
    assert("F12"@[2] == '2');
    assert("WIN"@[0] == 'W');
    assert("WIN"@[1] == 'I');
    assert("WIN"@[2] == 'N');
    assert("WINDOWS"@[0] == 'W');
    assert("WINDOWS"@[1] == 'I');
    assert("WINDOWS"@[2] == 'N');
    assert("SUPER"@[0] == 'S');
    assert("SUPER"@[1] == 'U');
    assert("SUPER"@[2] == 'P');
    assert("ALT"@[0] == 'A');
    assert("ALT"@[1] == 'L');
    assert("ALT"@[2] == 'T');
    assert("MENU"@[0] == 'M');
    assert("MENU"@[1] == 'E');
    assert("MENU"@[2] == 'N');
    assert("CTRL"@[0] == 'C');
    assert("CTRL"@[1] == 'T');
    assert("CTRL"@[2] == 'R');
    assert("CONTROL"@[0] == 'C');
    assert("CONTROL"@[1] == 'O');
    assert("CONTROL"@[2] == 'N');
    assert("SHIFT"@[0] == 'S');
    assert("SHIFT"@[1] == 'H');
    assert("SHIFT"@[2] == 'I');
    assert(upper_key_code("SPACE"@) == Some(0x20u32));
    assert(upper_key_code("ENTER"@) == Some(0x0Du32));
    assert(upper_key_code("RETURN"@) == Some(0x0Du32));
    assert(upper_key_code("ESC"@) == Some(0x1Bu32));
    assert(upper_key_code("ESCAPE"@) == Some(0x1Bu32));
    assert(upper_key_code("TAB"@) == Some(0x09u32));
    assert(upper_key_code("BACKSPACE"@) == Some(0x08u32));
    assert(upper_key_code("DELETE"@) == Some(0x2Eu32));
    assert(upper_key_code("INSERT"@) == Some(0x2Du32));
    assert(upper_key_code("HOME"@) == Some(0x24u32));
    assert(upper_key_code("END"@) == Some(0x23u32));
    assert(upper_key_code("PAGEUP"@) == Some(0x21u32));
    assert("PAGEDOWN"@.len() == 8);
    assert("PAGEDOWN"@ != "PAGEUP"@);
    assert(named_key_code("PAGEDOWN"@) == Some(0x22u32));
    assert(upper_key_code("PAGEDOWN"@) == Some(0x22u32));
    assert(upper_key_code("UP"@) == Some(0x26u32));
    assert(upper_key_code("DOWN"@) == Some(0x28u32));
    assert(upper_key_code("LEFT"@) == Some(0x25u32));
    assert(upper_key_code("RIGHT"@) == Some(0x27u32));
    assert(upper_key_code("F1"@) == Some(0x70u32));
    assert(upper_key_code("F5"@) == Some(0x74u32));
    assert("F10"@.len() == 3 && "F11"@.len() == 3);
    assert("F11"@ != "F10"@);
    assert(named_key_code("F10"@) == Some(0x79u32));
    assert(named_key_code("F11"@) == Some(0x7Au32));
    assert("F12"@.len() == 3);
    assert("F12"@ != "F10"@ && "F12"@ != "F11"@);
    assert(named_key_code("F12"@) == Some(0x7Bu32));
    assert(upper_key_code("F12"@) == Some(0x7Bu32));
}

/// `r` moved by `(dx, dy)`.
pub open spec fn shifted(r: Rect, dx: int, dy: int) -> Rect {
    Rect { x: (r.x + dx) as i32, y: (r.y + dy) as i32, width: r.width, height: r.height }
}

/// A placement moves with its monitor: the rectangle for a work area moved
/// by `(dx, dy)` is the rectangle for the area itself, moved by the same.
pub proof fn law_layout_moves_with_monitor(gap: int, margin: int, layout: LayoutType, area: Rect, dx: int, dy: int)
    requires
        in_i32(area.x + dx),
        in_i32(area.y + dy),
        layout_rect_fits(gap, margin, layout, area),
        layout_rect_fits(gap, margin, layout, shifted(area, dx, dy)),
    ensures
        layout_rect(gap, margin, layout, shifted(area, dx, dy)) == shifted(layout_rect(gap, margin, layout, area), dx, dy),
{
}

/// Every placement lies within the work area shrunk by the margin, when the
/// margin and the gap are not negative, the margins leave some room, and for
/// a half the gap leaves some room in the half.
pub proof fn law_layout_within_margins(gap: int, margin: int, layout: LayoutType, area: Rect)
    requires
        gap >= 0,
        margin >= 0,
        area.width - 2 * margin > 0,
        area.height - 2 * margin > 0,
        layout_rect_fits(gap, margin, layout, area),
        (layout == LayoutType::LeftHalf || layout == LayoutType::RightHalf) ==> gap / 2 < (area.width - 2 * margin) / 2,
        (layout == LayoutType::TopHalf || layout == LayoutType::BottomHalf) ==> gap / 2 < (area.height - 2 * margin) / 2,
    ensures
        ({
            let r = layout_rect(gap, margin, layout, area);
            &&& area.x + margin <= r.x
            &&& r.x + r.width <= area.x + area.width - margin
            &&& area.y + margin <= r.y
            &&& r.y + r.height <= area.y + area.height - margin
            &&& r.width >= 1
            &&& r.height >= 1
        }),
{
    let mw = area.width - 2 * margin;
    let mh = area.height - 2 * margin;
    assert(tdiv(gap, 2) == gap / 2);
    assert(mw * 3 / 4 <= mw && mw * 3 / 4 >= 0);
    assert(mh * 3 / 4 <= mh && mh * 3 / 4 >= 0);
}

/// A rule pattern without `*` matches a text only when both have the same
/// length and agree letter by letter, up to the case of ASCII letters; and
/// every such text matches.
pub proof fn law_plain_pattern_is_exact(text: Seq<char>, pattern: Seq<char>)
    requires
        !pattern.contains('*'),
    ensures
        wildcard_matches(text, pattern) ==> text.len() == pattern.len() && forall|i: int|
            0 <= i < text.len() ==> crate::text::ascii_lower_code(#[trigger] text[i] as u32)
                == crate::text::ascii_lower_code(pattern[i] as u32),
        (text.len() == pattern.len() && forall|i: int|
            0 <= i < text.len() ==> crate::text::ascii_lower_code(#[trigger] text[i] as u32)
                == crate::text::ascii_lower_code(pattern[i] as u32)) ==> wildcard_matches(text, pattern),
{
    if pattern == seq!['*'] {
        assert(pattern[0] == '*');
        assert(pattern.contains('*'));
    }
}


/// `r` lies wholly on the side `(dx, dy)` of `cur`, in screen coordinates
/// where `y` grows downwards.
pub open spec fn on_side(r: Rect, cur: Rect, dx: int, dy: int) -> bool {
    &&& (dx == -1 && dy == 0 ==> r.x + r.width <= cur.x)
    &&& (dx == 1 && dy == 0 ==> r.x >= cur.x + cur.width)
    &&& (dx == 0 && dy == -1 ==> r.y + r.height <= cur.y)
    &&& (dx == 0 && dy == 1 ==> r.y >= cur.y + cur.height)
}

/// When a focus step of the current tree changes the focus, the newly
/// focused window lies wholly on the side `(dx, dy)` of the one focused
/// before.
pub proof fn law_focus_step_goes_its_way(v: WorkspacesView, dx: i32, dy: i32, area: Rect)
    requires
        v.current < v.trees.len(),
        v.current_tree().well_formed(),
    ensures
        ({
            let t = v.current_tree();
            let n = plan_focus(v, dx, dy, area).0.current_tree();
            n.focused_id != t.focused_id ==> {
                &&& t.focused_rect(area) is Some
                &&& n.focused_hwnd() is Some
                &&& exists|k: int|
                    0 <= k < t.layouts(area, 0).len() && (#[trigger] t.layouts(area, 0)[k]).0 == n.focused_hwnd()->0
                        && on_side(t.layouts(area, 0)[k].1, t.focused_rect(area)->0, dx as int, dy as int)
            }
        }),
{
    let t = v.current_tree();
    let n = plan_focus(v, dx, dy, area).0.current_tree();
    if t.direction_fits(dx, dy, area) {
        match t.target_in_direction(dx, dy, area) {
            Some(h) => {
                match t.find(h) {
                    Some(id) => {
                        lemma_find_some(t, h);
                        law_direction_target_on_its_side(t, dx, dy, area);
                        assert(n.focused_id == id);
                        assert(n.nodes == t.nodes);
                        assert(n.focused_hwnd() == Some(h));
                    },
                    None => {},
                }
            },
            None => {},
        }
    }
}

/// The focus hotkeys step left, right, up (towards smaller `y`) and down.
pub proof fn law_focus_actions_step_their_way(ws: WorkspacesView, lay: LayoutService, command: Seq<char>, obs: Observation)
    ensures
        plan(ws, lay, command, Action::FocusLeft, obs) == plan_focus(ws.after_sync(obs.foreground_hwnd), -1i32, 0, area_of(obs.work_area)),
        plan(ws, lay, command, Action::FocusRight, obs) == plan_focus(ws.after_sync(obs.foreground_hwnd), 1, 0, area_of(obs.work_area)),
        plan(ws, lay, command, Action::FocusUp, obs) == plan_focus(ws.after_sync(obs.foreground_hwnd), 0, -1i32, area_of(obs.work_area)),
        plan(ws, lay, command, Action::FocusDown, obs) == plan_focus(ws.after_sync(obs.foreground_hwnd), 0, 1, area_of(obs.work_area)),
{
}

/// A single ASCII letter names its upper-case letter's code, a digit its
/// own code, whatever the case it was read in.
pub proof fn law_letter_and_digit_keys(c: char)
    ensures
        'A' <= c <= 'Z' ==> upper_key_code(seq![c]) == Some(c as u32),
        'a' <= c <= 'z' ==> upper_key_code(seq![c]) == Some((c as u32 - 32) as u32),
        '0' <= c <= '9' ==> upper_key_code(seq![c]) == Some(c as u32),
{
    let u = seq![c];
    if ('A' <= c <= 'Z') || ('a' <= c <= 'z') || ('0' <= c <= '9') {
        assert(named_key_code(u) is None) by {
            law_named_keys_are_words(u);
            reveal_strlit(" ");
            assert(" "@[0] == ' ');
            assert(u[0] == c);
        }
    }
}

/// Every name in the table of named keys is more than one character long,
/// but the space.
pub proof fn law_named_keys_are_words(u: Seq<char>)
    ensures
        named_key_code(u) is Some && u.len() == 1 ==> u == " "@,
{
    reveal_strlit("SPACE");
    reveal_strlit(" ");
    reveal_strlit("ENTER");
    reveal_strlit("RETURN");
    reveal_strlit("ESC");
    reveal_strlit("ESCAPE");
    reveal_strlit("TAB");
    reveal_strlit("BACK");
    reveal_strlit("BACKSPACE");
    reveal_strlit("DELETE");
    reveal_strlit("DEL");
    reveal_strlit("INSERT");
    reveal_strlit("INS");
    reveal_strlit("HOME");
    reveal_strlit("END");
    reveal_strlit("PAGEUP");
    reveal_strlit("PGUP");
    reveal_strlit("PAGEDOWN");
    reveal_strlit("PGDN");
    reveal_strlit("UP");
    reveal_strlit("DOWN");
    reveal_strlit("LEFT");
    reveal_strlit("RIGHT");
    reveal_strlit("F1");
    reveal_strlit("F2");
    reveal_strlit("F3");
    reveal_strlit("F4");
    reveal_strlit("F5");
    reveal_strlit("F6");
    reveal_strlit("F7");
    reveal_strlit("F8");
    reveal_strlit("F9");
    reveal_strlit("F10");
    reveal_strlit("F11");
    reveal_strlit("F12");
}

/// A centred window takes three quarters of the room inside the margins
/// and leaves equal room on both sides, give or take a pixel.
pub proof fn law_centered_is_centred(gap: int, margin: int, area: Rect)
    requires
        area.width - 2 * margin >= 4,
        area.height - 2 * margin >= 4,
        layout_rect_fits(gap, margin, LayoutType::Centered, area),
    ensures
        ({
            let r = layout_rect(gap, margin, LayoutType::Centered, area);
            let mw = area.width - 2 * margin;
            let mh = area.height - 2 * margin;
            let left = r.x - (area.x + margin);
            let right = (area.x + area.width - margin) - (r.x + r.width);
            let top = r.y - (area.y + margin);
            let bottom = (area.y + area.height - margin) - (r.y + r.height);
            &&& r.width == mw * 3 / 4
            &&& r.height == mh * 3 / 4
            &&& 0 <= left <= right <= left + 1
            &&& 0 <= top <= bottom <= top + 1
        }),
{
    let mw = area.width - 2 * margin;
    let mh = area.height - 2 * margin;
    assert(mw * 3 / 4 >= 3 && mw * 3 / 4 <= mw);
    assert(mh * 3 / 4 >= 3 && mh * 3 / 4 <= mh);
}

/// A pattern with a `*` other than the lone `*` matches exactly the texts
/// that begin, character for character and with case, with the pattern
/// stripped of its trailing stars.
pub proof fn law_star_pattern_is_prefix(text: Seq<char>, pattern: Seq<char>)
    requires
        pattern.contains('*'),
        pattern != seq!['*'],
    ensures
        wildcard_matches(text, pattern) <==> {
            let p = crate::text::trim_end_char(pattern, '*');
            &&& p.len() <= text.len()
            &&& forall|i: int| 0 <= i < p.len() ==> #[trigger] text[i] == p[i]
        },
{
}

/// The lone `*` matches every text.
pub proof fn law_lone_star_matches_all(text: Seq<char>)
    ensures
        wildcard_matches(text, seq!['*']),
{
}


/// The next-workspace hotkey goes one workspace on, from the last back to
/// the first; the previous-workspace hotkey one back, from the first to the
/// last.
pub proof fn law_next_and_previous_step_by_one(ws: WorkspacesView, lay: LayoutService, command: Seq<char>, obs: Observation)
    requires
        ws.current < ws.trees.len() <= usize::MAX,
    ensures
        ws.current + 1 < ws.trees.len() ==> plan(ws, lay, command, Action::NextWorkspace, obs).0.current == ws.current + 1,
        ws.current + 1 == ws.trees.len() ==> plan(ws, lay, command, Action::NextWorkspace, obs).0.current == 0,
        ws.current > 0 ==> plan(ws, lay, command, Action::PreviousWorkspace, obs).0.current == ws.current - 1,
        ws.current == 0 ==> plan(ws, lay, command, Action::PreviousWorkspace, obs).0.current == ws.trees.len() - 1,
{
    let v = ws.after_sync(obs.foreground_hwnd);
    assert(v.trees.len() == ws.trees.len());
    assert(v.current == ws.current);
    let c = ws.current as int;
    let n = ws.trees.len() as int;
    assert(plan(ws, lay, command, Action::NextWorkspace, obs).0.current == next_index(v));
    assert(plan(ws, lay, command, Action::PreviousWorkspace, obs).0.current == previous_index(v));
    if c + 1 < n {
        assert((c + 1) % n == c + 1) by (nonlinear_arith)
            requires
                0 <= c + 1 < n,
        ;
        assert(next_index(v) == c + 1);
    } else {
        assert((c + 1) % n == 0) by (nonlinear_arith)
            requires
                c + 1 == n,
                n > 0,
        ;
        assert(next_index(v) == 0);
    }
}


/// The two halves of a monitor have equal size, start and end at the
/// margins (up to the pixel an odd size leaves), and keep the gap between
/// them: the left half starts at the left margin, the right half ends at
/// the right one, and likewise top and bottom.
pub proof fn law_halves_split_evenly(gap: int, margin: int, area: Rect)
    requires
        gap >= 0,
        area.width - 2 * margin > 0,
        area.height - 2 * margin > 0,
        gap / 2 < (area.width - 2 * margin) / 2,
        gap / 2 < (area.height - 2 * margin) / 2,
        layout_rect_fits(gap, margin, LayoutType::LeftHalf, area),
        layout_rect_fits(gap, margin, LayoutType::RightHalf, area),
        layout_rect_fits(gap, margin, LayoutType::TopHalf, area),
        layout_rect_fits(gap, margin, LayoutType::BottomHalf, area),
    ensures
        ({
            let l = layout_rect(gap, margin, LayoutType::LeftHalf, area);
            let r = layout_rect(gap, margin, LayoutType::RightHalf, area);
            let right_edge = area.x + area.width - margin;
            &&& l.x == area.x + margin
            &&& l.y == area.y + margin && r.y == area.y + margin
            &&& l.height == area.height - 2 * margin && r.height == area.height - 2 * margin
            &&& l.width == r.width
            &&& r.x - (l.x + l.width) == 2 * (gap / 2)
            &&& right_edge - 1 <= r.x + r.width <= right_edge
        }),
        ({
            let t = layout_rect(gap, margin, LayoutType::TopHalf, area);
            let b = layout_rect(gap, margin, LayoutType::BottomHalf, area);
            let bottom_edge = area.y + area.height - margin;
            &&& t.y == area.y + margin
            &&& t.x == area.x + margin && b.x == area.x + margin
            &&& t.width == area.width - 2 * margin && b.width == area.width - 2 * margin
            &&& t.height == b.height
            &&& b.y - (t.y + t.height) == 2 * (gap / 2)
            &&& bottom_edge - 1 <= b.y + b.height <= bottom_edge
        }),
{
    assert(tdiv(gap, 2) == gap / 2);
}

} // verus!
