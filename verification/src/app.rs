use vstd::prelude::*;

use crate::commands::CommandExecutor;
use crate::config::{Config, IgnoreConfig, RuleEntry};
use crate::error::AppError;
use crate::hotkeys::{HotkeyEntry, HotkeyRegistry, entries_for, pair_outcome_at, stopped_at};
use crate::rules::WindowRule;
use crate::services::layout_service::LayoutService;
use crate::services::window_service::WindowService;
use crate::services::workspace_service::{WorkspaceService, WorkspacesView};
use crate::tree::initial_tree;

verus! {

/// The number of workspaces.
pub const WORKSPACE_COUNT: usize = 5;

/// The rule that a configuration entry describes: its patterns, the
/// workspace it names counted from 0 (none for 0), and whether it floats.
pub open spec fn rule_of(e: RuleEntry) -> WindowRule {
    WindowRule {
        class_pattern: e.class,
        title_pattern: e.title,
        target_workspace: if e.workspace > 0 {
            Some((e.workspace - 1) as usize)
        } else {
            None
        },
        floating: e.floating,
    }
}

/// The rules of the configuration entries, in order.
pub open spec fn rules_of(entries: Seq<RuleEntry>) -> Seq<WindowRule> {
    entries.map_values(|e: RuleEntry| rule_of(e))
}

/// Two ignore lists that hold the same classes and titles.
pub open spec fn same_ignore(a: IgnoreConfig, b: IgnoreConfig) -> bool {
    a.classes@ == b.classes@ && a.titles@ == b.titles@
}

/// The entries among the first `n` whose registration the system accepted.
pub open spec fn accepted_prefix(entries: Seq<HotkeyEntry>, ok: Seq<bool>, n: int) -> Seq<HotkeyEntry>
    decreases n,
{
    if n <= 0 {
        Seq::empty()
    } else if ok[n - 1] {
        accepted_prefix(entries, ok, n - 1).push(entries[n - 1])
    } else {
        accepted_prefix(entries, ok, n - 1)
    }
}

/// The message when the system accepted no hotkey.
pub open spec fn none_registered_message() -> Seq<char> {
    "no hotkeys registered. Edit config.toml to use different key combinations."@
}

/// The window manager as the configuration sets it up.
pub struct App {
    config: Config,
}

impl App {
    pub closed spec fn settings(&self) -> Config {
        self.config
    }

    pub fn new(config: Config) -> (r: Self)
        ensures
            r.settings() == config,
    {
        App { config }
    }

    /// The configuration.
    pub fn config(&self) -> (r: &Config)
        ensures
            *r == self.settings(),
    {
        &self.config
    }

    /// The hotkeys of the configuration, registered in order with ids from 1;
    /// the first pair that names an unknown action or an invalid key
    /// combination is the error.
    pub fn hotkeys(&self) -> (r: Result<HotkeyRegistry, AppError>)
        requires
            self.settings().hotkeys@.len() < i32::MAX,
        ensures
            match r {
                Ok(reg) => {
                    &&& forall|k: int| 0 <= k < self.settings().hotkeys@.len() ==> (#[trigger] pair_outcome_at(self.settings().hotkeys@, k)) is Ok
                    &&& entries_for(reg@, self.settings().hotkeys@, self.settings().hotkeys@.len() as int)
                },
                Err(e) => exists|n: int, added: Seq<HotkeyEntry>| #[trigger] stopped_at(e, self.settings().hotkeys@, added, n),
            },
    {
        let mut registry = HotkeyRegistry::new();
        match registry.register_from_config(&self.config.hotkeys) {
            Ok(()) => {
                assert(registry@.subrange(0, registry@.len() as int) =~= registry@);
                Ok(registry)
            },
            Err(e) => Err(e),
        }
    }

    /// The command executor wired as the configuration says: window
    /// placement with its gap and margin, five empty workspaces with its
    /// rules, its ignore lists, and its terminal command.
    pub fn executor(&self) -> (r: CommandExecutor)
        ensures
            r.wf(),
            r.command() == self.settings().terminal.command@,
            r.placement().gap_value() == self.settings().layout.gap,
            r.placement().margin_value() == self.settings().layout.margin,
            same_ignore(r.placement().windows().config(), self.settings().ignore),
            r.workspaces().trees == Seq::new(WORKSPACE_COUNT as nat, |i: int| initial_tree()),
            r.workspaces().current == 0,
            r.workspaces().lists == Seq::new(WORKSPACE_COUNT as nat, |i: int| Seq::<isize>::empty()),
            r.workspaces().rules == rules_of(self.settings().rules@),
            same_ignore(r.workspaces().windows.config(), self.settings().ignore),
    {
        let window_service = WindowService::new(copy_ignore(&self.config.ignore));
        let layout_service = LayoutService::new(self.config.layout.gap, self.config.layout.margin, window_service);
        let window_service2 = WindowService::new(copy_ignore(&self.config.ignore));
        let mut workspace_service = WorkspaceService::new(window_service2, WORKSPACE_COUNT);
        let entries = &self.config.rules;
        let ghost start = workspace_service@;
        assert(rules_of(entries@.take(0)) =~= start.rules);
        let mut i: usize = 0;
        while i < entries.len()
            invariant
                i <= entries@.len(),
                workspace_service.wf(),
                workspace_service@ == (WorkspacesView { rules: rules_of(entries@.take(i as int)), ..start }),
            decreases entries@.len() - i,
        {
            let rule = rule_from_entry(&entries[i]);
            workspace_service.add_rule(rule);
            assert(rules_of(entries@.take(i + 1)) =~= rules_of(entries@.take(i as int)).push(rule_of(entries@[i as int])));
            i += 1;
        }
        assert(entries@.take(entries@.len() as int) =~= entries@);
        let command = self.config.terminal.command.clone();
        CommandExecutor::new(layout_service, workspace_service, command)
    }

    /// The hotkeys whose registration the system accepted, `ok` telling for
    /// each entry in order; an error when it accepted none.
    pub fn accepted(entries: Vec<HotkeyEntry>, ok: &Vec<bool>) -> (r: Result<HotkeyRegistry, AppError>)
        requires
            ok@.len() == entries@.len(),
        ensures
            accepted_prefix(entries@, ok@, entries@.len() as int).len() == 0 ==> (r matches Err(AppError::Hotkey(m)) && m@
                == none_registered_message()),
            accepted_prefix(entries@, ok@, entries@.len() as int).len() > 0 ==> (r matches Ok(reg) && reg@
                == accepted_prefix(entries@, ok@, entries@.len() as int)),
    {
        let ghost all = entries@;
        let n = entries.len();
        let mut rest = entries;
        let mut registry = HotkeyRegistry::new();
        let mut count: usize = 0;
        let mut k: usize = 0;
        while rest.len() > 0
            invariant
                k + rest@.len() == all.len(),
                n == all.len(),
                ok@.len() == all.len(),
                rest@ == all.subrange(k as int, all.len() as int),
                registry@ == accepted_prefix(all, ok@, k as int),
                count == registry@.len(),
                count <= k,
            decreases rest@.len(),
        {
            let e = rest.remove(0);
            assert(e == all[k as int]);
            if ok[k] {
                registry.add_entry(e);
                count += 1;
            }
            assert(rest@ =~= all.subrange(k + 1, all.len() as int));
            k += 1;
        }
        if count == 0 {
            return Err(AppError::Hotkey(
                String::from_str("no hotkeys registered. Edit config.toml to use different key combinations."),
            ));
        }
        Ok(registry)
    }
}

/// The rule that a configuration entry describes.
pub fn rule_from_entry(e: &RuleEntry) -> (r: WindowRule)
    ensures
        r == rule_of(*e),
{
    WindowRule {
        class_pattern: copy_text(&e.class),
        title_pattern: copy_text(&e.title),
        target_workspace: if e.workspace > 0 {
            Some(e.workspace - 1)
        } else {
            None
        },
        floating: e.floating,
    }
}

/// A copy of an optional text.
fn copy_text(t: &Option<String>) -> (r: Option<String>)
    ensures
        r == *t,
{
    match t {
        Some(s) => Some(s.clone()),
        None => None,
    }
}

/// A copy of a list of texts.
fn copy_strings(v: &Vec<String>) -> (r: Vec<String>)
    ensures
        r@ == v@,
{
    let mut out: Vec<String> = Vec::new();
    let mut i: usize = 0;
    while i < v.len()
        invariant
            i <= v@.len(),
            out@ == v@.take(i as int),
        decreases v@.len() - i,
    {
        out.push(v[i].clone());
        assert(v@.take(i + 1) =~= v@.take(i as int).push(v@[i as int]));
        i += 1;
    }
    assert(v@.take(v@.len() as int) =~= v@);
    out
}

/// A copy of the ignore lists.
fn copy_ignore(c: &IgnoreConfig) -> (r: IgnoreConfig)
    ensures
        same_ignore(r, *c),
{
    IgnoreConfig { classes: copy_strings(&c.classes), titles: copy_strings(&c.titles) }
}

} // verus!
