use rtwm::actions::Action;
use rtwm::error::AppError;
use rtwm::hotkeys::{
    key_code, modifier_bit, named_key, VK_ESCAPE, parse_hotkey_string, HotkeyEntry, HotkeyRegistry, MOD_ALT, MOD_CONTROL, MOD_SHIFT, MOD_WIN,
    VK_F12, VK_RETURN, VK_SPACE,
};

#[test]
fn test_parse_win_alt_h() {
    let (mods, vk) = parse_hotkey_string("WIN+ALT+H").unwrap();
    assert_eq!(mods, MOD_WIN | MOD_ALT);
    assert_eq!(vk, 'H' as u32);
}

#[test]
fn test_parse_win_alt_shift_j() {
    let (mods, vk) = parse_hotkey_string("WIN+ALT+SHIFT+J").unwrap();
    assert_eq!(mods, MOD_WIN | MOD_ALT | MOD_SHIFT);
    assert_eq!(vk, 'J' as u32);
}

#[test]
fn test_parse_win_alt_space() {
    let (mods, vk) = parse_hotkey_string("WIN+ALT+SPACE").unwrap();
    assert_eq!(mods, MOD_WIN | MOD_ALT);
    assert_eq!(vk, VK_SPACE);
}

#[test]
fn test_parse_win_alt_enter() {
    let (mods, vk) = parse_hotkey_string("WIN+ALT+ENTER").unwrap();
    assert_eq!(mods, MOD_WIN | MOD_ALT);
    assert_eq!(vk, VK_RETURN);
}

#[test]
fn test_parse_win_alt_1() {
    let (mods, vk) = parse_hotkey_string("WIN+ALT+1").unwrap();
    assert_eq!(mods, MOD_WIN | MOD_ALT);
    assert_eq!(vk, '1' as u32);
}

#[test]
fn test_parse_ctrl_alt_h() {
    let (mods, vk) = parse_hotkey_string("CTRL+ALT+H").unwrap();
    assert_eq!(mods, MOD_CONTROL | MOD_ALT);
    assert_eq!(vk, 'H' as u32);
}

#[test]
fn test_parse_no_modifier_fails() {
    let result = parse_hotkey_string("F");
    assert!(result.is_err());
}

#[test]
fn test_parse_empty_fails() {
    let result = parse_hotkey_string("");
    assert!(result.is_err());
}

fn message(e: AppError) -> String {
    match e {
        AppError::Hotkey(m) => m,
        other => panic!("not a hotkey error: {:?}", other),
    }
}

#[test]
fn parse_is_case_insensitive_and_trims() {
    let (mods, vk) = parse_hotkey_string("  win + shift + f12 ").unwrap();
    assert_eq!(mods, MOD_WIN | MOD_SHIFT);
    assert_eq!(vk, VK_F12);
    let (_, vk) = parse_hotkey_string("ctrl+a").unwrap();
    assert_eq!(vk, 'A' as u32);
}

#[test]
fn parse_error_messages() {
    assert_eq!(message(parse_hotkey_string("   ").unwrap_err()), "empty hotkey string");
    assert_eq!(
        message(parse_hotkey_string("WIN+A+B").unwrap_err()),
        "multiple non-modifier keys in hotkey: 'WIN+A+B'"
    );
    assert_eq!(
        message(parse_hotkey_string("WIN+ALT").unwrap_err()),
        "no key specified in hotkey: 'WIN+ALT'"
    );
    assert_eq!(
        message(parse_hotkey_string(" H ").unwrap_err()),
        "at least one modifier required for hotkey: 'H'"
    );
    assert_eq!(message(parse_hotkey_string("WIN+%").unwrap_err()), "unsupported key: '%'");
    assert_eq!(message(parse_hotkey_string("WIN+F13").unwrap_err()), "unsupported key: 'F13'");
}

#[test]
fn modifier_aliases() {
    assert_eq!(parse_hotkey_string("SUPER+MENU+CONTROL+X").unwrap().0, MOD_WIN | MOD_ALT | MOD_CONTROL);
    assert_eq!(parse_hotkey_string("WINDOWS+RETURN").unwrap(), (MOD_WIN, VK_RETURN));
}

fn pairs(list: &[(&str, &str)]) -> Vec<(String, String)> {
    list.iter().map(|(a, k)| (a.to_string(), k.to_string())).collect()
}

#[test]
fn registry_assigns_ids_in_order() {
    let mut reg = HotkeyRegistry::new();
    let cfg = pairs(&[("move_left", "WIN+ALT+H"), ("quit", "WIN+ALT+ESC")]);
    assert!(reg.register_from_config(&cfg).is_ok());
    let entries = reg.entries();
    assert_eq!(entries.len(), 2);
    assert_eq!(entries[0].id, 1);
    assert_eq!(entries[0].action, Action::MoveLeft);
    assert_eq!(entries[0].description, "WIN+ALT+H -> move_left");
    assert_eq!(entries[1].id, 2);
    assert_eq!(entries[1].action, Action::Quit);
    assert_eq!(reg.find_by_id(2), Some(Action::Quit));
    assert_eq!(reg.find_by_id(3), None);
}

#[test]
fn registry_stops_at_the_first_bad_pair() {
    let mut reg = HotkeyRegistry::default();
    let cfg = pairs(&[("fullscreen", "WIN+ALT+F"), ("fly", "WIN+ALT+Y"), ("center", "WIN+ALT+C")]);
    let err = reg.register_from_config(&cfg).unwrap_err();
    assert_eq!(message(err), "unknown action name: 'fly'");
    assert_eq!(reg.entries().len(), 1);
    let mut reg2 = HotkeyRegistry::new();
    let bad_key = pairs(&[("center", "F")]);
    assert!(reg2.register_from_config(&bad_key).is_err());
    assert_eq!(reg2.into_entries().len(), 0);
}

#[test]
fn add_entry_and_find_first_by_id() {
    let mut reg = HotkeyRegistry::new();
    reg.add_entry(HotkeyEntry { id: 7, action: Action::Reset, modifiers: 1, vk: 65, description: "a".into() });
    reg.add_entry(HotkeyEntry { id: 7, action: Action::Quit, modifiers: 1, vk: 66, description: "b".into() });
    assert_eq!(reg.find_by_id(7), Some(Action::Reset));
}

#[test]
fn action_names() {
    assert_eq!(Action::from_str("move_left"), Some(Action::MoveLeft));
    assert_eq!(Action::from_str("workspace_3"), Some(Action::Workspace3));
    assert_eq!(Action::from_str("move_to_workspace_5"), Some(Action::MoveToWorkspace5));
    assert_eq!(Action::from_str("layout_bottom_half"), Some(Action::LayoutBottomHalf));
    assert_eq!(Action::from_str("quit"), Some(Action::Quit));
    assert_eq!(Action::from_str("Quit"), None);
}

#[test]
fn reordered_and_recased_parts_name_the_same_hotkey() {
    let a = parse_hotkey_string("WIN+ALT+H").unwrap();
    assert_eq!(parse_hotkey_string("h+alt+Win").unwrap(), a);
    assert_eq!(parse_hotkey_string("ALT+H+WIN").unwrap(), a);
    assert_eq!(parse_hotkey_string("win+alt+f5").unwrap(), parse_hotkey_string("F5+WIN+ALT").unwrap());
}

#[test]
fn key_codes_of_upper_case_names() {
    assert_eq!(key_code("H"), Some(72));
    assert_eq!(key_code("1"), Some(49));
    assert_eq!(key_code("SPACE"), Some(VK_SPACE));
    assert_eq!(key_code("ESC"), Some(VK_ESCAPE));
    assert_eq!(key_code("F12"), Some(VK_F12));
    assert_eq!(key_code("F13"), None);
    assert_eq!(key_code("#"), None);
    assert_eq!(key_code("AB"), None);
    assert_eq!(named_key("RETURN"), Some(VK_RETURN));
    assert_eq!(modifier_bit("SUPER"), MOD_WIN);
    assert_eq!(modifier_bit("H"), 0);
}
