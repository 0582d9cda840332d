use rtwm::actions::Action;
use rtwm::app::App;
use rtwm::commands::{CommandExecutor, Effect, Observation, Step};
use rtwm::config::{Config, IgnoreConfig, RuleEntry};
use rtwm::error::AppError;
use rtwm::hotkeys::HotkeyEntry;
use rtwm::layout::{LayoutType, Rect};
use rtwm::rules::WindowRule;
use rtwm::services::layout_service::LayoutService;
use rtwm::services::window_service::WindowService;
use rtwm::services::workspace_service::WorkspaceService;
use rtwm::text::decimal_string;
use rtwm::tree::{FocusDirection, Layout};
use rtwm::window::WindowInfo;
use rtwm::workspace::Workspace;

fn window(hwnd: isize, title: &str, class: &str) -> WindowInfo {
    WindowInfo {
        hwnd,
        title: title.into(),
        class: class.into(),
        x: 100,
        y: 50,
        width: 800,
        height: 600,
        is_visible: true,
        is_minimized: false,
    }
}

fn area() -> Rect {
    Rect::new(0, 0, 1920, 1040)
}

fn ignore() -> IgnoreConfig {
    IgnoreConfig { classes: vec!["Progman".into()], titles: vec!["Program Manager".into()] }
}

#[test]
fn ignored_windows() {
    let svc = WindowService::new(ignore());
    assert!(svc.is_ignored(&window(1, "x", "Progman")));
    assert!(svc.is_ignored(&window(1, "Program Manager", "Foo")));
    assert!(svc.is_ignored(&window(1, "", "")));
    assert!(!svc.is_ignored(&window(1, "", "Foo")));
    assert!(!svc.is_ignored(&window(1, "Notepad", "Notepad")));
}

#[test]
fn foreground_window_checks() {
    let svc = WindowService::new(ignore());
    let ok = svc.get_foreground_window(Ok(window(5, "Notepad", "Notepad"))).unwrap();
    assert_eq!(ok.hwnd, 5);
    match svc.get_foreground_window(Ok(window(5, "t", "Progman"))) {
        Err(AppError::Window(m)) => assert_eq!(m, "window is ignored: class='Progman' title='t'"),
        _ => panic!("expected the ignore error"),
    }
    match svc.get_foreground_window(Err(AppError::Win32("no window".into()))) {
        Err(AppError::Win32(m)) => assert_eq!(m, "no window"),
        _ => panic!("expected the system error"),
    }
}

#[test]
fn visible_windows_drop_ignored_ones() {
    let svc = WindowService::new(ignore());
    let listed = vec![window(1, "a", "A"), window(2, "b", "Progman"), window(3, "c", "C")];
    let kept = svc.enumerate_visible_windows(Ok(listed)).unwrap();
    let hwnds: Vec<isize> = kept.iter().map(|w| w.hwnd).collect();
    assert_eq!(hwnds, vec![1, 3]);
}

#[test]
fn layout_service_places_foreground() {
    let lay = LayoutService::new(0, 0, WindowService::new(ignore()));
    let r = lay.apply_layout(LayoutType::LeftHalf, Ok(window(9, "t", "C")), Ok(area())).unwrap();
    assert_eq!(r, (9, Rect::new(0, 0, 960, 1040)));
    assert!(lay.apply_layout(LayoutType::LeftHalf, Ok(window(9, "t", "Progman")), Ok(area())).is_err());
    assert!(lay.apply_layout(LayoutType::LeftHalf, Ok(window(9, "t", "C")), Err(AppError::Monitor("m".into()))).is_err());
    assert!(lay.layout_fits(LayoutType::Centered, area()));
}

#[test]
fn layout_service_moves_within_area() {
    let lay = LayoutService::new(8, 0, WindowService::new(ignore()));
    let w = window(4, "t", "C");
    let (h, r) = lay.move_window_rel(4, -500, 80, Ok(w.clone()), Ok(area())).unwrap();
    assert_eq!(h, 4);
    assert_eq!(r, Rect::new(0, 130, 800, 600));
    let (_, r) = lay.apply_move(5000, 0, 5000, -900, Ok(w), Ok(area())).unwrap();
    assert_eq!(r, Rect::new(1820, 50, 1920, 100));
}

fn workspaces() -> WorkspaceService {
    WorkspaceService::new(WindowService::new(ignore()), 5)
}

#[test]
fn workspace_switching_hides_and_shows() {
    let mut ws = workspaces();
    ws.add_window_to_current(10);
    ws.add_window_to_current(11);
    ws.add_window_to_current(10);
    let c = ws.switch_to(2).unwrap();
    assert_eq!(c.hide, vec![10, 11]);
    assert!(c.show.is_empty());
    ws.add_window_to_current(20);
    let back = ws.previous_workspace().unwrap();
    assert_eq!(back.hide, vec![20]);
    assert!(back.show.is_empty());
    let same = ws.switch_to(1).unwrap();
    assert!(same.hide.is_empty() && same.show.is_empty());
    match ws.switch_to(7) {
        Err(AppError::Service(m)) => assert_eq!(m, "workspace index 7 out of bounds"),
        _ => panic!("expected an error"),
    }
    let c = ws.next_workspace().unwrap();
    assert_eq!(c.show, vec![20]);
    assert_eq!(ws.current_tree().window_count(), 1);
    assert_eq!(ws.managed_windows(), vec![10, 11, 20]);
}

#[test]
fn previous_from_the_first_is_the_last() {
    let mut ws = workspaces();
    ws.previous_workspace().unwrap();
    ws.add_window_to_current(5);
    ws.next_workspace().unwrap();
    assert_eq!(ws.current_tree().window_count(), 0);
    ws.previous_workspace().unwrap();
    assert_eq!(ws.current_tree().all_windows(), vec![5]);
}

#[test]
fn remove_from_current() {
    let mut ws = workspaces();
    ws.add_window_to_current(1);
    ws.add_window_to_current(2);
    ws.remove_window_from_current(1);
    assert_eq!(ws.current_tree().all_windows(), vec![2]);
    assert_eq!(ws.managed_windows(), vec![2]);
}

#[test]
fn detect_follows_rules() {
    let mut ws = workspaces();
    ws.add_rule(WindowRule {
        class_pattern: Some("CASCADIA*".into()),
        title_pattern: None,
        target_workspace: Some(3),
        floating: false,
    });
    let hide = ws.detect_and_manage_window(42, Ok(window(42, "term", "CASCADIA_HOSTING")));
    assert_eq!(hide, Some(42));
    assert_eq!(ws.current_tree().window_count(), 0);
    let hide = ws.detect_and_manage_window(43, Ok(window(43, "np", "Notepad")));
    assert_eq!(hide, None);
    assert_eq!(ws.current_tree().all_windows(), vec![43]);
    assert_eq!(ws.detect_and_manage_window(0, Ok(window(0, "x", "y"))), None);
    assert_eq!(ws.detect_and_manage_window(44, Ok(window(44, "x", "Progman"))), None);
    assert_eq!(ws.managed_windows(), vec![43, 42]);
}

#[test]
fn reset_rebuilds_from_listing() {
    let mut ws = workspaces();
    ws.add_rule(WindowRule {
        class_pattern: None,
        title_pattern: Some("Mail".into()),
        target_workspace: Some(1),
        floating: false,
    });
    ws.add_rule(WindowRule {
        class_pattern: None,
        title_pattern: Some("Far".into()),
        target_workspace: Some(9),
        floating: false,
    });
    ws.add_window_to_current(77);
    ws.switch_to(3).unwrap();
    let listed = vec![window(1, "Mail", "M"), window(2, "Far", "F"), window(3, "x", "Progman"), window(4, "Doc", "D")];
    assert!(ws.reset(Ok(listed)).is_ok());
    assert_eq!(ws.current_tree().all_windows(), vec![2, 4]);
    assert_eq!(ws.managed_windows(), vec![2, 4, 1]);
    assert!(ws.reset(Err(AppError::Win32("enum failed".into()))).is_err());
    assert_eq!(ws.managed_windows(), Vec::<isize>::new());
}

#[test]
fn sync_focus_follows_foreground() {
    let mut ws = workspaces();
    ws.add_window_to_current(1);
    ws.add_window_to_current(2);
    assert_eq!(ws.current_tree().focused_hwnd(), Some(2));
    ws.sync_focus(1);
    assert_eq!(ws.current_tree().focused_hwnd(), Some(1));
    ws.sync_focus(0);
    ws.sync_focus(99);
    assert_eq!(ws.current_tree().focused_hwnd(), Some(1));
}

#[test]
fn workspace_layout_and_moves() {
    let mut ws = workspaces();
    ws.set_split_horizontal();
    ws.add_window_to_current(1);
    ws.add_window_to_current(2);
    let ls = ws.apply_current_layout(area(), 0);
    assert_eq!(ls, vec![(1, Rect::new(0, 0, 960, 1040)), (2, Rect::new(960, 0, 960, 1040))]);
    assert!(ws.direction_fits(&FocusDirection::left(), area()));
    assert!(ws.move_focused(&FocusDirection::left(), area()));
    let ls = ws.apply_current_layout(area(), 0);
    assert_eq!(ls[0].0, 2);
    ws.set_layout(Layout::Monocle);
    assert_eq!(ws.apply_current_layout(area(), 8).len(), 1);
    ws.toggle_split();
    ws.set_split_vertical();
    assert!(ws.layout_fits(area(), 8));
    assert!(ws.has_room(2));
}

fn executor() -> CommandExecutor {
    let lay = LayoutService::new(8, 0, WindowService::new(ignore()));
    let ws = workspaces();
    CommandExecutor::new(lay, ws, "wt.exe -w 0 nt".into())
}

fn obs(hwnd: isize, w: Result<WindowInfo, AppError>, a: Result<Rect, AppError>) -> Observation {
    Observation { foreground_hwnd: hwnd, foreground: w, work_area: a }
}

fn places(step: &Step) -> Vec<(isize, Rect)> {
    match step {
        Step::Done(effects, Ok(())) => effects
            .iter()
            .filter_map(|e| match e {
                Effect::Place(h, r) => Some((*h, *r)),
                _ => None,
            })
            .collect(),
        _ => panic!("expected a finished step"),
    }
}

#[test]
fn executor_detects_and_tiles() {
    let mut ex = executor();
    let s = ex.execute(Action::DetectWindow, obs(1, Ok(window(1, "a", "A")), Ok(area())));
    assert_eq!(places(&s), vec![(1, Rect::new(0, 0, 1920, 1040))]);
    let s = ex.execute(Action::DetectWindow, obs(2, Ok(window(2, "b", "B")), Err(AppError::Monitor("none".into()))));
    // Without a work area the tiling falls back to 1920 x 1040 at the origin.
    assert_eq!(places(&s), vec![(1, Rect::new(0, 0, 1920, 516)), (2, Rect::new(0, 524, 1920, 516))]);
}

#[test]
fn executor_launches_terminal_with_words() {
    let mut ex = executor();
    match ex.execute(Action::LaunchTerminal, obs(0, Err(AppError::Win32("x".into())), Ok(area()))) {
        Step::Done(effects, Ok(())) => match &effects[..] {
            [Effect::Launch(p, args)] => {
                assert_eq!(p, "wt.exe");
                assert_eq!(args, &vec!["-w".to_string(), "0".into(), "nt".into()]);
            },
            _ => panic!("expected one launch"),
        },
        _ => panic!("expected a launch"),
    }
    let lay = LayoutService::new(8, 0, WindowService::new(ignore()));
    let mut empty = CommandExecutor::new(lay, workspaces(), "   ".into());
    match empty.execute(Action::LaunchTerminal, obs(0, Err(AppError::Win32("x".into())), Ok(area()))) {
        Step::Done(effects, Err(AppError::Service(m))) => {
            assert!(effects.is_empty());
            assert_eq!(m, "terminal command is empty");
        },
        _ => panic!("expected the empty command error"),
    }
}

#[test]
fn executor_places_foreground_and_quits() {
    let mut ex = executor();
    match ex.execute(Action::Fullscreen, obs(3, Ok(window(3, "a", "A")), Ok(area()))) {
        Step::Done(effects, Ok(())) => match &effects[..] {
            [Effect::MoveForeground(h, r)] => {
                assert_eq!(*h, 3);
                assert_eq!(*r, area());
            },
            _ => panic!("expected one move"),
        },
        _ => panic!("expected a move"),
    }
    match ex.execute(Action::Center, obs(3, Ok(window(3, "a", "Progman")), Ok(area()))) {
        Step::Done(effects, Err(AppError::Window(_))) => assert!(effects.is_empty()),
        _ => panic!("an ignored window is not placed"),
    }
    match ex.execute(Action::Quit, obs(0, Err(AppError::Win32("x".into())), Ok(area()))) {
        Step::Done(_, Err(AppError::General(m))) => assert_eq!(m, "quit requested"),
        _ => panic!("expected the quit error"),
    }
    assert!(ex.should_quit(Action::Quit));
    assert!(!ex.should_quit(Action::Reset));
}

#[test]
fn executor_moves_window_to_workspace() {
    let mut ex = executor();
    ex.execute(Action::DetectWindow, obs(1, Ok(window(1, "a", "A")), Ok(area())));
    ex.execute(Action::DetectWindow, obs(2, Ok(window(2, "b", "B")), Ok(area())));
    match ex.execute(Action::MoveToWorkspace2, obs(2, Ok(window(2, "b", "B")), Ok(area()))) {
        Step::Done(effects, Ok(())) => {
            assert!(matches!(effects[0], Effect::Hide(1)));
            assert!(matches!(effects[1], Effect::Place(2, _)));
            assert_eq!(effects.len(), 2);
        },
        _ => panic!("expected a move"),
    }
    match ex.execute(Action::Workspace1, obs(0, Err(AppError::Win32("x".into())), Ok(area()))) {
        Step::Done(effects, Ok(())) => {
            assert!(matches!(effects[0], Effect::Hide(2)));
            assert!(matches!(effects[1], Effect::Show(1)));
            assert!(matches!(effects[2], Effect::Place(1, _)));
        },
        _ => panic!("expected a switch"),
    }
}

#[test]
fn executor_focuses_neighbour() {
    let mut ex = executor();
    ex.execute(Action::SplitHorizontal, obs(0, Err(AppError::Win32("x".into())), Ok(area())));
    ex.execute(Action::DetectWindow, obs(1, Ok(window(1, "a", "A")), Ok(area())));
    ex.execute(Action::DetectWindow, obs(2, Ok(window(2, "b", "B")), Ok(area())));
    match ex.execute(Action::FocusLeft, obs(2, Ok(window(2, "b", "B")), Ok(area()))) {
        Step::Done(effects, Ok(())) => assert!(matches!(effects[..], [Effect::Focus(1)])),
        _ => panic!("expected a focus"),
    }
}

#[test]
fn executor_reset_in_two_steps() {
    let mut ex = executor();
    ex.execute(Action::DetectWindow, obs(1, Ok(window(1, "a", "A")), Ok(area())));
    ex.execute(Action::NextWorkspace, obs(0, Err(AppError::Win32("x".into())), Ok(area())));
    ex.execute(Action::DetectWindow, obs(2, Ok(window(2, "b", "B")), Ok(area())));
    match ex.execute(Action::Reset, obs(0, Err(AppError::Win32("x".into())), Ok(area()))) {
        Step::Reset(shown) => assert_eq!(shown, vec![1, 2]),
        _ => panic!("expected the first half of a reset"),
    }
    let s = ex.finish_reset(Ok(vec![window(1, "a", "A"), window(2, "b", "B")]), Ok(area()));
    assert_eq!(places(&s).len(), 2);
}

#[test]
fn executor_overflow_is_reported() {
    let mut ex = executor();
    ex.execute(Action::SplitHorizontal, obs(0, Err(AppError::Win32("x".into())), Ok(area())));
    ex.execute(Action::DetectWindow, obs(1, Ok(window(1, "a", "A")), Ok(area())));
    ex.execute(Action::DetectWindow, obs(2, Ok(window(2, "b", "B")), Ok(area())));
    let huge = Rect::new(0, i32::MAX - 10, 100, 1000);
    assert!(matches!(ex.execute(Action::ToggleSplit, obs(0, Err(AppError::Win32("x".into())), Ok(huge))), Step::Overflow));
}

fn config() -> Config {
    let mut c = Config::default();
    c.hotkeys = vec![("quit".into(), "WIN+ALT+ESC".into()), ("reset".into(), "CTRL+ALT+R".into())];
    c.rules = vec![
        RuleEntry { class: Some("CASCADIA*".into()), title: None, workspace: 2, floating: false },
        RuleEntry { class: None, title: Some("x".into()), workspace: 0, floating: true },
    ];
    c
}

#[test]
fn app_registers_configured_hotkeys() {
    let app = App::new(config());
    let reg = app.hotkeys().unwrap();
    assert_eq!(reg.entries().len(), 2);
    assert_eq!(reg.find_by_id(1), Some(Action::Quit));
    assert_eq!(app.config().layout.gap, 8);
}

#[test]
fn app_executor_follows_rules() {
    let app = App::new(config());
    let mut ex = app.executor();
    let s = ex.execute(Action::DetectWindow, obs(5, Ok(window(5, "t", "CASCADIA_X")), Ok(area())));
    match s {
        Step::Done(effects, Ok(())) => {
            assert!(matches!(effects[..], [Effect::Hide(5)]));
        },
        _ => panic!("the rule sends the window to workspace 2"),
    }
}

#[test]
fn app_accepts_registered_hotkeys_only() {
    let entry = |id: i32| HotkeyEntry { id, action: Action::Quit, modifiers: 1, vk: 27, description: "d".into() };
    let reg = App::accepted(vec![entry(1), entry(2), entry(3)], &vec![false, true, true]).unwrap();
    let ids: Vec<i32> = reg.entries().iter().map(|e| e.id).collect();
    assert_eq!(ids, vec![2, 3]);
    match App::accepted(vec![entry(1)], &vec![false]) {
        Err(AppError::Hotkey(m)) => {
            assert_eq!(m, "no hotkeys registered. Edit config.toml to use different key combinations.")
        },
        _ => panic!("expected an error"),
    }
}

#[test]
fn rule_from_config_entry() {
    let r = rtwm::app::rule_from_entry(&RuleEntry { class: Some("A".into()), title: None, workspace: 3, floating: true });
    assert_eq!(r.target_workspace, Some(2));
    assert!(r.floating);
    let none = rtwm::app::rule_from_entry(&RuleEntry { class: None, title: None, workspace: 0, floating: false });
    assert_eq!(none.target_workspace, None);
}

#[test]
fn config_defaults() {
    let c = Config::default();
    assert_eq!(c.layout.gap, 8);
    assert_eq!(c.layout.margin, 0);
    assert_eq!(c.terminal.command, "wt.exe");
    assert_eq!(c.ignore.classes.len(), 4);
    assert_eq!(c.ignore.titles, vec!["Program Manager".to_string(), "".to_string()]);
}

#[test]
fn workspace_model() {
    let mut w = Workspace::new(1, "main");
    w.add_window(3);
    w.add_window(3);
    w.add_window(4);
    assert_eq!(w.windows, vec![3, 4]);
    w.remove_window(3);
    assert_eq!(w.windows, vec![4]);
    assert_eq!(Workspace::default().index, 0);
}

#[test]
fn decimal_numbers() {
    assert_eq!(decimal_string(0), "0");
    assert_eq!(decimal_string(1234567890), "1234567890");
}

#[test]
fn window_and_monitor_accessors() {
    let w = window(1, "a", "b");
    assert_eq!(w.position(), (100, 50));
    assert_eq!(w.size(), (800, 600));
    let m = rtwm::monitor::MonitorInfo {
        handle: 1,
        x: 0,
        y: 0,
        width: 1920,
        height: 1080,
        work_x: 0,
        work_y: 0,
        work_width: 1920,
        work_height: 1040,
        is_primary: true,
    };
    assert_eq!(m.work_area(), (0, 0, 1920, 1040));
}

fn at(hwnd: isize, x: i32, y: i32) -> WindowInfo {
    WindowInfo {
        hwnd,
        title: "t".into(),
        class: "C".into(),
        x,
        y,
        width: 800,
        height: 600,
        is_visible: true,
        is_minimized: false,
    }
}

fn moved_to(step: Step) -> (isize, Rect) {
    match step {
        Step::Done(effects, Ok(())) => match &effects[..] {
            [Effect::MoveForeground(h, r)] => (*h, *r),
            _ => panic!("expected one move of the foreground window"),
        },
        _ => panic!("expected a move"),
    }
}

#[test]
fn move_commands_shift_the_window_by_80_pixels() {
    let app = App::new(Config::default());
    let mut ex = app.executor();
    ex.execute(Action::DetectWindow, obs(7, Ok(at(7, 200, 100)), Ok(area())));
    let left = ex.execute(Action::MoveLeft, obs(7, Ok(at(7, 200, 100)), Ok(area())));
    assert_eq!(moved_to(left), (7, Rect::new(120, 100, 800, 600)));
    let right = ex.execute(Action::MoveRight, obs(7, Ok(at(7, 200, 100)), Ok(area())));
    assert_eq!(moved_to(right), (7, Rect::new(280, 100, 800, 600)));
    let up = ex.execute(Action::MoveUp, obs(7, Ok(at(7, 200, 100)), Ok(area())));
    assert_eq!(moved_to(up), (7, Rect::new(200, 20, 800, 600)));
    let down = ex.execute(Action::MoveDown, obs(7, Ok(at(7, 200, 100)), Ok(area())));
    assert_eq!(moved_to(down), (7, Rect::new(200, 180, 800, 600)));
}

#[test]
fn move_commands_stay_in_the_work_area() {
    let mut ex = executor();
    let left = ex.execute(Action::MoveLeft, obs(7, Ok(at(7, 30, 10)), Ok(area())));
    assert_eq!(moved_to(left), (7, Rect::new(0, 10, 800, 600)));
    let up = ex.execute(Action::MoveUp, obs(7, Ok(at(7, 30, 10)), Ok(area())));
    assert_eq!(moved_to(up), (7, Rect::new(30, 0, 800, 600)));
    let right = ex.execute(Action::MoveRight, obs(7, Ok(at(7, 1800, 10)), Ok(area())));
    assert_eq!(moved_to(right), (7, Rect::new(1820, 10, 800, 600)));
    match ex.execute(Action::MoveDown, obs(7, Ok(at(7, 1, 1)), Err(AppError::Monitor("m".into())))) {
        Step::Done(effects, Err(AppError::Monitor(m))) => {
            assert!(effects.is_empty());
            assert_eq!(m, "m");
        },
        _ => panic!("the monitor error is the action's error"),
    }
    match ex.execute(Action::MoveDown, obs(7, Ok(at(7, 1, 1)).map(|mut w| {
        w.class = "Progman".into();
        w
    }), Ok(area()))) {
        Step::Done(effects, Err(AppError::Window(_))) => assert!(effects.is_empty()),
        _ => panic!("an ignored window is not moved"),
    }
}

#[test]
fn moving_to_the_current_workspace_rejoins_it() {
    let mut ex = executor();
    ex.execute(Action::DetectWindow, obs(1, Ok(window(1, "a", "A")), Ok(area())));
    ex.execute(Action::DetectWindow, obs(2, Ok(window(2, "b", "B")), Ok(area())));
    match ex.execute(Action::MoveToWorkspace1, obs(1, Ok(window(1, "a", "A")), Ok(area()))) {
        Step::Done(effects, Ok(())) => {
            assert_eq!(effects.len(), 2);
            assert!(matches!(effects[0], Effect::Place(2, _)));
            assert!(matches!(effects[1], Effect::Place(1, _)));
        },
        _ => panic!("expected a re-tiling"),
    }
}

#[test]
fn reset_fills_each_tree() {
    let mut ws = workspaces();
    ws.add_rule(WindowRule {
        class_pattern: None,
        title_pattern: Some("Mail".into()),
        target_workspace: Some(1),
        floating: false,
    });
    let listed = vec![window(1, "Mail", "M"), window(4, "Doc", "D"), window(1, "Mail", "M")];
    assert!(ws.reset(Ok(listed)).is_ok());
    assert_eq!(ws.current_tree().all_windows(), vec![4]);
    ws.switch_to(1).unwrap();
    assert_eq!(ws.current_tree().all_windows(), vec![1]);
    assert_eq!(ws.managed_windows(), vec![4, 1, 1]);
}
