use vstd::prelude::*;

use crate::config::IgnoreConfig;
use crate::error::AppError;
use crate::text::str_equal;
use crate::window::WindowInfo;

verus! {

/// Whether one of `texts` holds exactly the characters `t`.
pub open spec fn lists_text(texts: Seq<String>, t: Seq<char>) -> bool {
    exists|i: int| 0 <= i < texts.len() && (#[trigger] texts[i])@ == t
}

/// Whether the window manager leaves `w` alone under `cfg`: its class or its
/// title is listed, or it has neither title nor class.
pub open spec fn ignored_by(cfg: IgnoreConfig, w: WindowInfo) -> bool {
    ||| lists_text(cfg.classes@, w.class@)
    ||| lists_text(cfg.titles@, w.title@)
    ||| (w.title@.len() == 0 && w.class@.len() == 0)
}

/// The message of the error for an ignored foreground window.
pub open spec fn ignored_message(w: WindowInfo) -> Seq<char> {
    "window is ignored: class='"@ + w.class@ + "' title='"@ + w.title@ + "'"@
}

/// The windows of `ws` that are not left alone, in order.
pub open spec fn managed_prefix(cfg: IgnoreConfig, ws: Seq<WindowInfo>, n: int) -> Seq<WindowInfo>
    decreases n,
{
    if n <= 0 {
        Seq::empty()
    } else if ignored_by(cfg, ws[n - 1]) {
        managed_prefix(cfg, ws, n - 1)
    } else {
        managed_prefix(cfg, ws, n - 1).push(ws[n - 1])
    }
}

pub open spec fn managed(cfg: IgnoreConfig, ws: Seq<WindowInfo>) -> Seq<WindowInfo> {
    managed_prefix(cfg, ws, ws.len() as int)
}

/// Decides which windows the window manager takes care of.
pub struct WindowService {
    ignore_config: IgnoreConfig,
}

impl WindowService {
    /// The classes and titles of the windows left alone.
    pub closed spec fn config(&self) -> IgnoreConfig {
        self.ignore_config
    }

    pub fn new(ignore_config: IgnoreConfig) -> (r: Self)
        ensures
            r.config() == ignore_config,
    {
        WindowService { ignore_config }
    }

    /// The foreground window as the system reported it, unless it is left
    /// alone, which is an error.
    pub fn get_foreground_window(&self, reported: Result<WindowInfo, AppError>) -> (r: Result<WindowInfo, AppError>)
        ensures
            match reported {
                Err(e) => r == Err::<WindowInfo, AppError>(e),
                Ok(w) => if ignored_by(self.config(), w) {
                    r matches Err(AppError::Window(m)) && m@ == ignored_message(w)
                } else {
                    r == Ok::<WindowInfo, AppError>(w)
                },
            },
    {
        let info = match reported {
            Ok(info) => info,
            Err(e) => {
                return Err(e);
            },
        };
        if self.is_ignored(&info) {
            let mut m = String::from_str("window is ignored: class='");
            m.append(info.class.as_str());
            m.append("' title='");
            m.append(info.title.as_str());
            m.append("'");
            return Err(AppError::Window(m));
        }
        Ok(info)
    }

    /// The visible windows that the system listed, without those left alone.
    pub fn enumerate_visible_windows(&self, listed: Result<Vec<WindowInfo>, AppError>) -> (r: Result<Vec<WindowInfo>, AppError>)
        ensures
            match listed {
                Err(e) => r == Err::<Vec<WindowInfo>, AppError>(e),
                Ok(ws) => r matches Ok(v) && v@ == managed(self.config(), ws@),
            },
    {
        let windows = match listed {
            Ok(ws) => ws,
            Err(e) => {
                return Err(e);
            },
        };
        let mut out: Vec<WindowInfo> = Vec::new();
        let mut i: usize = 0;
        while i < windows.len()
            invariant
                i <= windows@.len(),
                out@ == managed_prefix(self.config(), windows@, i as int),
            decreases windows@.len() - i,
        {
            if !self.is_ignored(&windows[i]) {
                out.push(windows[i].clone());
            }
            i += 1;
        }
        Ok(out)
    }

    /// Whether the window manager leaves `info` alone.
    pub fn is_ignored(&self, info: &WindowInfo) -> (r: bool)
        ensures
            r == ignored_by(self.config(), *info),
    {
        if lists(&self.ignore_config.classes, info.class.as_str()) {
            return true;
        }
        if lists(&self.ignore_config.titles, info.title.as_str()) {
            return true;
        }
        info.title.as_str().unicode_len() == 0 && info.class.as_str().unicode_len() == 0
    }
}

/// Whether one of `texts` holds exactly the characters of `t`.
fn lists(texts: &Vec<String>, t: &str) -> (r: bool)
    ensures
        r == lists_text(texts@, t@),
{
    let mut i: usize = 0;
    while i < texts.len()
        invariant
            i <= texts@.len(),
            forall|j: int| 0 <= j < i ==> (#[trigger] texts@[j])@ != t@,
        decreases texts@.len() - i,
    {
        if str_equal(texts[i].as_str(), t) {
            assert(texts@[i as int]@ == t@);
            return true;
        }
        i += 1;
    }
    false
}

} // verus!
