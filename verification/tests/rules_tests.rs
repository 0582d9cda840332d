use rtwm::rules::{RuleEngine, WindowRule};
use rtwm::window::WindowInfo;

fn window(title: &str, class: &str) -> WindowInfo {
    WindowInfo {
        hwnd: 1,
        title: title.into(),
        class: class.into(),
        x: 0,
        y: 0,
        width: 100,
        height: 100,
        is_visible: true,
        is_minimized: false,
    }
}

#[test]
fn test_exact_match() {
    let info = window("Notepad", "Notepad");
    let rule = WindowRule {
        class_pattern: Some("Notepad".into()),
        title_pattern: None,
        target_workspace: Some(2),
        floating: false,
    };
    assert!(rule.matches(&info));
}

#[test]
fn test_wildcard_match() {
    let info = window("WindowsTerminal.exe", "CASCADIA_HOSTING_WINDOW_CLASS");
    let rule = WindowRule {
        class_pattern: Some("CASCADIA*".into()),
        title_pattern: None,
        target_workspace: Some(1),
        floating: false,
    };
    assert!(rule.matches(&info));
}

#[test]
fn test_no_match() {
    let info = window("Chrome", "Chrome_WidgetWin_1");
    let rule = WindowRule {
        class_pattern: Some("Notepad".into()),
        title_pattern: None,
        target_workspace: Some(2),
        floating: false,
    };
    assert!(!rule.matches(&info));
}

fn rule(class: Option<&str>, title: Option<&str>, ws: Option<usize>) -> WindowRule {
    WindowRule {
        class_pattern: class.map(|s| s.to_string()),
        title_pattern: title.map(|s| s.to_string()),
        target_workspace: ws,
        floating: false,
    }
}

#[test]
fn exact_match_ignores_ascii_case() {
    assert!(rule(Some("notepad"), None, None).matches(&window("x", "NOTEPAD")));
}

#[test]
fn prefix_pattern_is_case_sensitive() {
    assert!(!rule(Some("cascadia*"), None, None).matches(&window("x", "CASCADIA_HOSTING")));
}

#[test]
fn star_matches_everything() {
    assert!(rule(Some("*"), Some("*"), None).matches(&window("", "")));
}

#[test]
fn both_patterns_must_match() {
    let r = rule(Some("Notepad"), Some("Untitled*"), None);
    assert!(r.matches(&window("Untitled - Notepad", "Notepad")));
    assert!(!r.matches(&window("notes.txt - Notepad", "Notepad")));
}

#[test]
fn first_applying_rule_wins() {
    let mut engine = RuleEngine::new();
    engine.add_rule(rule(Some("Chrome*"), None, Some(3)));
    engine.add_rule(rule(Some("Notepad"), None, Some(1)));
    engine.add_rule(rule(None, None, Some(4)));
    let w = window("a", "Notepad");
    assert_eq!(engine.match_window(&w).unwrap().target_workspace, Some(1));
    let other = window("b", "Explorer");
    assert_eq!(engine.match_window(&other).unwrap().target_workspace, Some(4));
    assert_eq!(engine.rules().len(), 3);
}

#[test]
fn no_rules_no_match() {
    let engine = RuleEngine::default();
    assert!(engine.match_window(&window("a", "b")).is_none());
}
