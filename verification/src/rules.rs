use vstd::prelude::*;

use crate::text::{
    eq_ignore_ascii_case, str_contains_char, str_eq_ignore_ascii_case, str_equal, str_starts_with,
    str_trim_end_char, trim_end_char,
};
use crate::window::WindowInfo;

verus! {

/// Whether `pattern` matches `text`: `*` matches everything; a pattern with
/// a `*` matches the texts that begin with the pattern stripped of its
/// trailing stars; any other pattern matches the texts equal to it up to the
/// case of ASCII letters.
pub open spec fn wildcard_matches(text: Seq<char>, pattern: Seq<char>) -> bool {
    if pattern == seq!['*'] {
        true
    } else if pattern.contains('*') {
        trim_end_char(pattern, '*').is_prefix_of(text)
    } else {
        eq_ignore_ascii_case(text, pattern)
    }
}

/// A rule for windows whose class and title match its patterns; a pattern
/// that is absent matches anything.
#[derive(Debug, Clone)]
pub struct WindowRule {
    pub class_pattern: Option<String>,
    pub title_pattern: Option<String>,
    pub target_workspace: Option<usize>,
    pub floating: bool,
}

/// Whether `rule` applies to `window`.
pub open spec fn rule_matches(rule: WindowRule, window: WindowInfo) -> bool {
    &&& match rule.class_pattern {
        Some(p) => wildcard_matches(window.class@, p@),
        None => true,
    }
    &&& match rule.title_pattern {
        Some(p) => wildcard_matches(window.title@, p@),
        None => true,
    }
}

impl WindowRule {
    pub fn matches(&self, window: &WindowInfo) -> (r: bool)
        ensures
            r == rule_matches(*self, *window),
    {
        let class_match = match &self.class_pattern {
            Some(p) => wildcard_match(window.class.as_str(), p.as_str()),
            None => true,
        };
        let title_match = match &self.title_pattern {
            Some(p) => wildcard_match(window.title.as_str(), p.as_str()),
            None => true,
        };
        class_match && title_match
    }
}

/// The index of the first of the first `n` rules that applies to `w`.
pub open spec fn first_match_prefix(rules: Seq<WindowRule>, w: WindowInfo, n: int) -> Option<int>
    decreases n,
{
    if n <= 0 {
        None
    } else {
        match first_match_prefix(rules, w, n - 1) {
            Some(k) => Some(k),
            None => if rule_matches(rules[n - 1], w) {
                Some(n - 1)
            } else {
                None
            },
        }
    }
}

/// The index of the first rule that applies to `w`.
pub open spec fn first_match(rules: Seq<WindowRule>, w: WindowInfo) -> Option<int> {
    first_match_prefix(rules, w, rules.len() as int)
}

/// Window rules, tried in the order they were added.
#[derive(Debug, Clone)]
pub struct RuleEngine {
    rules: Vec<WindowRule>,
}

impl View for RuleEngine {
    type V = Seq<WindowRule>;

    closed spec fn view(&self) -> Seq<WindowRule> {
        self.rules@
    }
}

impl Default for RuleEngine {
    fn default() -> (r: Self)
        ensures
            r@ == Seq::<WindowRule>::empty(),
    {
        RuleEngine::new()
    }
}

impl RuleEngine {
    pub fn new() -> (r: Self)
        ensures
            r@ == Seq::<WindowRule>::empty(),
    {
        RuleEngine { rules: Vec::new() }
    }

    pub fn add_rule(&mut self, rule: WindowRule)
        ensures
            final(self)@ == old(self)@.push(rule),
    {
        self.rules.push(rule);
    }

    /// The first rule that applies to `window`.
    pub fn match_window(&self, window: &WindowInfo) -> (r: Option<&WindowRule>)
        ensures
            match first_match(self@, *window) {
                Some(k) => r == Some(&self@[k]),
                None => r is None,
            },
    {
        let mut i: usize = 0;
        while i < self.rules.len()
            invariant
                i <= self.rules@.len(),
                first_match_prefix(self.rules@, *window, i as int) is None,
            decreases self.rules@.len() - i,
        {
            if self.rules[i].matches(window) {
                assert(first_match_prefix(self.rules@, *window, i + 1) == Some(i as int));
                proof {
                    lemma_first_match_stable(self.rules@, *window, i + 1, self.rules@.len() as int);
                }
                return Some(&self.rules[i]);
            }
            i += 1;
        }
        None
    }

    pub fn rules(&self) -> (r: &[WindowRule])
        ensures
            r@ == self@,
    {
        self.rules.as_slice()
    }
}

/// Once a rule matches in a prefix, longer prefixes find the same rule.
pub proof fn lemma_first_match_stable(rules: Seq<WindowRule>, w: WindowInfo, n: int, m: int)
    requires
        0 <= n <= m,
        first_match_prefix(rules, w, n) is Some,
    ensures
        first_match_prefix(rules, w, m) == first_match_prefix(rules, w, n),
    decreases m - n,
{
    if m > n {
        lemma_first_match_stable(rules, w, n, m - 1);
    }
}

/// Whether `pattern` matches `text`.
fn wildcard_match(text: &str, pattern: &str) -> (r: bool)
    ensures
        r == wildcard_matches(text@, pattern@),
{
    let star = "*";
    proof {
        reveal_strlit("*");
        assert(star@ =~= seq!['*']);
    }
    if str_equal(pattern, star) {
        return true;
    }
    if str_contains_char(pattern, '*') {
        let prefix = str_trim_end_char(pattern, '*');
        return str_starts_with(text, prefix);
    }
    str_eq_ignore_ascii_case(text, pattern)
}

} // verus!
