use rtwm::layout::Rect;
use rtwm::tree::{ContainerTree, FocusDirection, Layout, SplitDirection};

fn make_area() -> Rect {
    Rect::new(0, 0, 1920, 1040)
}

#[test]
fn test_new_tree_empty() {
    let tree = ContainerTree::new();
    assert_eq!(tree.window_count(), 0);
    assert_eq!(tree.node_count(), 1);
}

#[test]
fn test_add_single_window() {
    let mut tree = ContainerTree::new();
    let _id = tree.add_window(100);
    assert_eq!(tree.window_count(), 1);
    assert_eq!(tree.focused_hwnd(), Some(100));
}

#[test]
fn test_add_two_windows_vertical() {
    let mut tree = ContainerTree::new();
    tree.set_split_vertical();
    tree.add_window(100);
    tree.add_window(200);

    let area = make_area();
    let layouts = tree.calculate_layouts(area, 0);
    assert_eq!(layouts.len(), 2);

    let (_hwnd1, rect1) = layouts[0];
    let (_hwnd2, rect2) = layouts[1];

    assert_eq!(rect1.y, 0);
    assert_eq!(rect2.y, 520);
    assert_eq!(rect1.height, 520);
    assert_eq!(rect2.height, 520);
}

#[test]
fn test_add_two_windows_horizontal() {
    let mut tree = ContainerTree::new();
    tree.set_split_horizontal();
    tree.add_window(100);
    tree.add_window(200);

    let area = make_area();
    let layouts = tree.calculate_layouts(area, 0);
    assert_eq!(layouts.len(), 2);

    let (_, rect1) = layouts[0];
    let (_, rect2) = layouts[1];

    assert_eq!(rect1.x, 0);
    assert_eq!(rect2.x, 960);
    assert_eq!(rect1.width, 960);
    assert_eq!(rect2.width, 960);
}

#[test]
fn test_remove_window_cleans_up() {
    let mut tree = ContainerTree::new();
    tree.set_split_vertical();
    tree.add_window(100);
    tree.add_window(200);

    assert_eq!(tree.window_count(), 2);

    tree.remove_window(100);
    assert_eq!(tree.window_count(), 1);
    assert_eq!(tree.all_windows(), vec![200]);
}

#[test]
fn test_toggle_split() {
    let mut tree = ContainerTree::new();
    assert_eq!(tree.get_split_direction(tree.root_id()), SplitDirection::Vertical);

    tree.toggle_split();
    assert_eq!(tree.get_split_direction(tree.root_id()), SplitDirection::Horizontal);

    tree.toggle_split();
    assert_eq!(tree.get_split_direction(tree.root_id()), SplitDirection::Vertical);
}

#[test]
fn test_monocle_visible() {
    let mut tree = ContainerTree::new();
    tree.add_window(100);
    tree.add_window(200);

    assert_eq!(tree.visible_windows().len(), 2);

    tree.set_layout(Layout::Monocle);
    assert_eq!(tree.visible_windows().len(), 1);
}

#[test]
fn test_nested_split() {
    let mut tree = ContainerTree::new();

    tree.set_split_horizontal();
    tree.add_window(100);
    tree.add_window(200);

    tree.focus_container(tree.root_id());
    tree.set_split_vertical();
    tree.add_window(300);
    tree.add_window(400);

    let area = make_area();
    let layouts = tree.calculate_layouts(area, 0);
    assert_eq!(layouts.len(), 4);
}

#[test]
fn test_focus_direction_right() {
    let mut tree = ContainerTree::new();
    tree.set_split_horizontal();
    tree.add_window(100);
    tree.add_window(200);

    let area = make_area();
    let _target = tree.focus_direction(&FocusDirection { dx: 1, dy: 0 }, area);

    tree.focus_container(tree.find_window(100).unwrap());
    let target = tree.focus_direction(&FocusDirection::right(), area);
    assert_eq!(target, tree.find_window(200));
}

#[test]
fn adding_a_known_window_only_focuses_it() {
    let mut tree = ContainerTree::new();
    let a = tree.add_window(100);
    let b = tree.add_window(200);
    assert_ne!(a, b);
    let again = tree.add_window(100);
    assert_eq!(again, a);
    assert_eq!(tree.window_count(), 2);
    assert_eq!(tree.focused_hwnd(), Some(100));
}

#[test]
fn add_then_remove_keeps_the_other_windows() {
    let mut tree = ContainerTree::new();
    tree.add_window(100);
    tree.add_window(200);
    let before = tree.all_windows();
    tree.add_window(300);
    assert_eq!(tree.find_window(300).is_some(), true);
    tree.remove_window(300);
    assert_eq!(tree.all_windows(), before);
    assert!(tree.find_window(300).is_none());
}

#[test]
fn removing_an_unknown_window_changes_nothing() {
    let mut tree = ContainerTree::new();
    tree.add_window(100);
    tree.remove_window(999);
    assert_eq!(tree.all_windows(), vec![100]);
}

#[test]
fn horizontal_split_with_gap() {
    let mut tree = ContainerTree::new();
    tree.set_split_horizontal();
    tree.add_window(1);
    tree.add_window(2);
    tree.add_window(3);
    let ls = tree.calculate_layouts(Rect::new(0, 0, 1000, 500), 8);
    // The first window shares the area with a container holding the other
    // two: (1000 - 8) / 2 = 496 each, then (496 - 8) / 2 = 244 each.
    assert_eq!(ls.len(), 3);
    assert_eq!(ls[0], (1, Rect::new(0, 0, 496, 500)));
    assert_eq!(ls[1], (2, Rect::new(504, 0, 244, 500)));
    assert_eq!(ls[2], (3, Rect::new(756, 0, 244, 500)));
}

#[test]
fn stacking_gives_every_window_the_whole_area() {
    let mut tree = ContainerTree::new();
    tree.add_window(1);
    tree.add_window(2);
    tree.set_layout(Layout::Stacking);
    assert_eq!(tree.get_layout(), Layout::Stacking);
    let area = make_area();
    let ls = tree.calculate_layouts(area, 8);
    assert_eq!(ls, vec![(1, area), (2, area)]);
}

#[test]
fn monocle_shows_the_window_focused_when_chosen() {
    let mut tree = ContainerTree::new();
    tree.add_window(1);
    tree.add_window(2);
    tree.set_layout(Layout::Monocle);
    assert_eq!(tree.visible_windows(), vec![2]);
    let area = make_area();
    assert_eq!(tree.calculate_layouts(area, 8), vec![(2, area)]);
}

#[test]
fn focus_next_and_previous_wrap_around() {
    let mut tree = ContainerTree::new();
    tree.add_window(1);
    tree.add_window(2);
    tree.add_window(3);
    assert_eq!(tree.focused_hwnd(), Some(3));
    tree.focus_next_leaf();
    assert_eq!(tree.focused_hwnd(), Some(1));
    tree.focus_prev_leaf();
    assert_eq!(tree.focused_hwnd(), Some(3));
    tree.focus_prev_leaf();
    assert_eq!(tree.focused_hwnd(), Some(2));
    tree.focus_next_leaf();
    assert_eq!(tree.focused_hwnd(), Some(3));
}

#[test]
fn move_focused_swaps_with_neighbour() {
    let mut tree = ContainerTree::new();
    tree.set_split_horizontal();
    tree.add_window(100);
    tree.add_window(200);
    tree.focus_container(tree.find_window(100).unwrap());
    let area = make_area();
    assert!(tree.direction_fits(&FocusDirection::right(), area));
    assert!(tree.move_focused_in_direction(&FocusDirection::right(), area));
    let ls = tree.calculate_layouts(area, 0);
    assert_eq!(ls[0].0, 200);
    assert_eq!(ls[1].0, 100);
    assert!(!tree.move_focused_in_direction(&FocusDirection::right(), area));
}

#[test]
fn focus_direction_without_neighbour() {
    let mut tree = ContainerTree::new();
    tree.set_split_horizontal();
    tree.add_window(100);
    tree.add_window(200);
    assert_eq!(tree.focus_direction(&FocusDirection::up(), make_area()), None);
    assert_eq!(tree.focus_direction(&FocusDirection::left(), make_area()), tree.find_window(100));
    assert_eq!(tree.focus_direction(&FocusDirection::down(), make_area()), None);
}

#[test]
fn layout_fits_rejects_overflowing_areas() {
    let mut tree = ContainerTree::new();
    tree.set_split_horizontal();
    tree.add_window(1);
    tree.add_window(2);
    assert!(tree.layout_fits(make_area(), 8));
    assert!(!tree.layout_fits(Rect::new(i32::MAX - 5, 0, 1000, 100), 8));
    assert!(!tree.layout_fits(make_area(), i32::MIN));
}

#[test]
fn split_direction_toggle() {
    assert_eq!(SplitDirection::Vertical.toggle(), SplitDirection::Horizontal);
    assert_eq!(SplitDirection::Horizontal.toggle().toggle(), SplitDirection::Horizontal);
}

#[test]
fn focus_direction_constructors() {
    let l = FocusDirection::left();
    let d = FocusDirection::down();
    assert_eq!((l.dx, l.dy), (-1, 0));
    assert_eq!((d.dx, d.dy), (0, 1));
}

#[test]
fn removing_keeps_the_other_windows_in_order_and_focus() {
    let mut tree = ContainerTree::new();
    tree.add_window(1);
    tree.add_window(2);
    tree.add_window(3);
    tree.focus_container(tree.find_window(1).unwrap());
    tree.remove_window(2);
    assert_eq!(tree.all_windows(), vec![1, 3]);
    assert_eq!(tree.focused_hwnd(), Some(1));
}

#[test]
fn splitting_a_window_adds_one_container() {
    let mut tree = ContainerTree::new();
    tree.add_window(1);
    tree.add_window(2);
    let before = tree.node_count();
    tree.set_split_horizontal();
    assert_eq!(tree.node_count(), before + 1);
    assert_eq!(tree.get_split_direction(tree.focused_id()), SplitDirection::Horizontal);
    assert_eq!(tree.all_windows(), vec![1, 2]);
    let again = tree.node_count();
    tree.set_split_vertical();
    assert_eq!(tree.node_count(), again);
}

#[test]
fn focus_moves_to_the_nearest_window() {
    let mut tree = ContainerTree::new();
    tree.set_split_horizontal();
    tree.add_window(1);
    tree.focus_container(tree.root_id());
    tree.add_window(2);
    tree.focus_container(tree.root_id());
    tree.add_window(3);
    let area = Rect::new(0, 0, 1800, 900);
    assert_eq!(tree.focused_hwnd(), Some(3));
    assert_eq!(tree.focus_direction(&FocusDirection::left(), area), tree.find_window(2));
}

#[test]
fn setting_the_split_on_a_window_keeps_the_layout() {
    let mut tree = ContainerTree::new();
    tree.add_window(1);
    tree.add_window(2);
    let area = make_area();
    let before = tree.calculate_layouts(area, 10);
    tree.set_split_horizontal();
    assert_eq!(tree.calculate_layouts(area, 10), before);
    tree.set_split_vertical();
    assert_eq!(tree.calculate_layouts(area, 10), before);
}

#[test]
fn adding_a_window_halves_the_focused_area() {
    let mut tree = ContainerTree::new();
    tree.set_split_horizontal();
    tree.add_window(1);
    tree.add_window(2);
    let area = make_area();
    assert_eq!(
        tree.calculate_layouts(area, 10),
        vec![(1, Rect::new(0, 0, 955, 1040)), (2, Rect::new(965, 0, 955, 1040))]
    );
    tree.add_window(3);
    assert_eq!(
        tree.calculate_layouts(area, 10),
        vec![
            (1, Rect::new(0, 0, 955, 1040)),
            (2, Rect::new(965, 0, 472, 1040)),
            (3, Rect::new(1447, 0, 472, 1040)),
        ]
    );
}

#[test]
fn moving_trades_the_areas_of_two_windows() {
    let mut tree = ContainerTree::new();
    tree.set_split_horizontal();
    tree.add_window(1);
    tree.add_window(2);
    tree.add_window(3);
    tree.focus_container(tree.find_window(1).unwrap());
    let area = make_area();
    assert!(tree.move_focused_in_direction(&FocusDirection::right(), area));
    assert_eq!(
        tree.calculate_layouts(area, 10),
        vec![
            (2, Rect::new(0, 0, 955, 1040)),
            (1, Rect::new(965, 0, 472, 1040)),
            (3, Rect::new(1447, 0, 472, 1040)),
        ]
    );
}

#[test]
fn each_window_gets_one_area() {
    let mut tree = ContainerTree::new();
    tree.add_window(1);
    tree.add_window(2);
    tree.set_split_horizontal();
    tree.add_window(3);
    tree.add_window(4);
    tree.remove_window(2);
    tree.add_window(5);
    let ls = tree.calculate_layouts(make_area(), 4);
    let mut seen: Vec<isize> = ls.iter().map(|e| e.0).collect();
    seen.sort();
    assert_eq!(seen, vec![1, 3, 4, 5]);
}
