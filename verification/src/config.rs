use vstd::prelude::*;

verus! {

/// Gap and margin of the layouts, in pixels.
#[derive(Debug, Clone)]
pub struct LayoutConfig {
    pub gap: i32,
    pub margin: i32,
}

/// The command that the terminal hotkey launches.
#[derive(Debug, Clone)]
pub struct TerminalConfig {
    pub command: String,
}

/// Windows left alone, by class or by title.
#[derive(Debug, Clone)]
pub struct IgnoreConfig {
    pub classes: Vec<String>,
    pub titles: Vec<String>,
}

/// A window rule as the configuration writes it; `workspace` counts from 1,
/// and 0 assigns no workspace.
#[derive(Debug, Clone)]
pub struct RuleEntry {
    pub class: Option<String>,
    pub title: Option<String>,
    pub workspace: usize,
    pub floating: bool,
}

/// The whole configuration. `hotkeys` pairs each action name with its key
/// combination, in the order the configuration file was read.
#[derive(Debug, Clone)]
pub struct Config {
    pub layout: LayoutConfig,
    pub terminal: TerminalConfig,
    pub ignore: IgnoreConfig,
    pub hotkeys: Vec<(String, String)>,
    pub rules: Vec<RuleEntry>,
}

pub fn default_gap() -> (r: i32)
    ensures
        r == 8,
{
    8
}

pub fn default_margin() -> (r: i32)
    ensures
        r == 0,
{
    0
}

pub fn default_terminal_command() -> (r: String)
    ensures
        r@ == "wt.exe"@,
{
    String::from_str("wt.exe")
}

impl Default for LayoutConfig {
    fn default() -> (r: Self)
        ensures
            r.gap == 8,
            r.margin == 0,
    {
        LayoutConfig { gap: default_gap(), margin: default_margin() }
    }
}

impl Default for TerminalConfig {
    fn default() -> (r: Self)
        ensures
            r.command@ == "wt.exe"@,
    {
        TerminalConfig { command: default_terminal_command() }
    }
}

/// The ignore lists of the default configuration: the taskbar, the desktop
/// and two shell frame classes, and the desktop's title and the empty title.
pub open spec fn is_default_ignore(c: IgnoreConfig) -> bool {
    &&& c.classes@.len() == 4
    &&& c.classes@[0]@ == "Shell_TrayWnd"@
    &&& c.classes@[1]@ == "Progman"@
    &&& c.classes@[2]@ == "Windows.UI.Core.CoreWindow"@
    &&& c.classes@[3]@ == "ApplicationFrameWindow"@
    &&& c.titles@.len() == 2
    &&& c.titles@[0]@ == "Program Manager"@
    &&& c.titles@[1]@ == ""@
}

impl Default for IgnoreConfig {
    fn default() -> (r: Self)
        ensures
            is_default_ignore(r),
    {
        let mut classes: Vec<String> = Vec::new();
        classes.push(String::from_str("Shell_TrayWnd"));
        classes.push(String::from_str("Progman"));
        classes.push(String::from_str("Windows.UI.Core.CoreWindow"));
        classes.push(String::from_str("ApplicationFrameWindow"));
        let mut titles: Vec<String> = Vec::new();
        titles.push(String::from_str("Program Manager"));
        titles.push(String::from_str(""));
        IgnoreConfig { classes, titles }
    }
}

impl Default for Config {
    fn default() -> (r: Self)
        ensures
            r.layout.gap == 8,
            r.layout.margin == 0,
            r.terminal.command@ == "wt.exe"@,
            is_default_ignore(r.ignore),
            r.hotkeys@.len() == 0,
            r.rules@.len() == 0,
    {
        Config {
            layout: LayoutConfig::default(),
            terminal: TerminalConfig::default(),
            ignore: IgnoreConfig::default(),
            hotkeys: Vec::new(),
            rules: Vec::new(),
        }
    }
}

} // verus!
