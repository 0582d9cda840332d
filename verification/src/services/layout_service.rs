use vstd::prelude::*;

use crate::error::AppError;
use crate::layout::{layout_rect, layout_rect_fits, LayoutEngine, LayoutType, Rect};
use crate::services::window_service::{ignored_by, ignored_message, WindowService};
use crate::tree::in_i32;
use crate::window::WindowInfo;

verus! {

/// `value` raised to at least `lo`, then lowered to at most `hi`.
pub open spec fn clamped(value: int, lo: int, hi: int) -> int {
    let v = if value < lo {
        lo
    } else {
        value
    };
    if v > hi {
        hi
    } else {
        v
    }
}

/// Where a window at `w` goes when moved by `(dx, dy)` inside `area`: its
/// top-left corner stays in the area and at least 100 pixels from its right
/// and bottom edges; its size stays.
pub open spec fn shifted_rect(w: WindowInfo, area: Rect, dx: int, dy: int) -> Rect {
    Rect {
        x: clamped(w.x + dx, area.x as int, area.x + area.width - 100) as i32,
        y: clamped(w.y + dy, area.y as int, area.y + area.height - 100) as i32,
        width: w.width,
        height: w.height,
    }
}

/// Where a window at `w` goes when moved by `(dx, dy)` and resized by
/// `(dw, dh)` inside `area`: the corner as for a shift; each side at least
/// 100 pixels and at most the area's.
pub open spec fn moved_rect(w: WindowInfo, area: Rect, dx: int, dy: int, dw: int, dh: int) -> Rect {
    Rect {
        x: clamped(w.x + dx, area.x as int, area.x + area.width - 100) as i32,
        y: clamped(w.y + dy, area.y as int, area.y + area.height - 100) as i32,
        width: clamped(w.width + dw, 100, area.width as int) as i32,
        height: clamped(w.height + dh, 100, area.height as int) as i32,
    }
}

/// Computing a shift of `w` by `(dx, dy)` inside `area` stays within `i32`.
pub open spec fn shift_fits(w: WindowInfo, area: Rect, dx: int, dy: int) -> bool {
    &&& in_i32(w.x + dx)
    &&& in_i32(w.y + dy)
    &&& in_i32(area.x + area.width)
    &&& in_i32(area.x + area.width - 100)
    &&& in_i32(area.y + area.height)
    &&& in_i32(area.y + area.height - 100)
}

/// The foreground window that a command acts on: the one reported, unless
/// the window manager leaves it alone.
pub open spec fn acted_on(svc: WindowService, reported: Result<WindowInfo, AppError>) -> Option<WindowInfo> {
    match reported {
        Ok(w) => if ignored_by(svc.config(), w) {
            None
        } else {
            Some(w)
        },
        Err(_) => None,
    }
}

/// The error of a command that found no foreground window to act on.
pub open spec fn refused(svc: WindowService, reported: Result<WindowInfo, AppError>, r: AppError) -> bool {
    match reported {
        Err(e) => r == e,
        Ok(w) => r matches AppError::Window(m) && m@ == ignored_message(w),
    }
}

/// Places the foreground window on its monitor.
pub struct LayoutService {
    engine: LayoutEngine,
    window_service: WindowService,
}

impl LayoutService {
    pub closed spec fn gap_value(&self) -> int {
        self.engine.gap_value()
    }

    pub closed spec fn margin_value(&self) -> int {
        self.engine.margin_value()
    }

    pub closed spec fn windows(&self) -> WindowService {
        self.window_service
    }

    pub fn new(gap: i32, margin: i32, window_service: WindowService) -> (r: Self)
        ensures
            r.gap_value() == gap,
            r.margin_value() == margin,
            r.windows() == window_service,
    {
        LayoutService { engine: LayoutEngine::new(gap, margin), window_service }
    }

    /// Whether the window manager leaves `info` alone.
    pub fn ignores(&self, info: &WindowInfo) -> (r: bool)
        ensures
            r == ignored_by(self.windows().config(), *info),
    {
        self.window_service.is_ignored(info)
    }

    /// Whether placing a window by `layout_type` in `work_area` computes
    /// within `i32`.
    pub fn layout_fits(&self, layout_type: LayoutType, work_area: Rect) -> (r: bool)
        ensures
            r == layout_rect_fits(self.gap_value(), self.margin_value(), layout_type, work_area),
    {
        self.engine.fits(layout_type, work_area)
    }

    /// The foreground window and the rectangle that `layout_type` gives it on
    /// the work area of its monitor; the reported window and work area are
    /// what the system gave.
    pub fn apply_layout(
        &self,
        layout_type: LayoutType,
        foreground: Result<WindowInfo, AppError>,
        work_area: Result<Rect, AppError>,
    ) -> (r: Result<(isize, Rect), AppError>)
        requires
            acted_on(self.windows(), foreground) is Some && work_area is Ok ==> layout_rect_fits(
                self.gap_value(),
                self.margin_value(),
                layout_type,
                work_area->Ok_0,
            ),
        ensures
            match acted_on(self.windows(), foreground) {
                None => r matches Err(e) && refused(self.windows(), foreground, e),
                Some(w) => match work_area {
                    Err(e) => r == Err::<(isize, Rect), AppError>(e),
                    Ok(a) => r == Ok::<(isize, Rect), AppError>(
                        (w.hwnd, layout_rect(self.gap_value(), self.margin_value(), layout_type, a)),
                    ),
                },
            },
    {
        let window = match self.window_service.get_foreground_window(foreground) {
            Ok(w) => w,
            Err(e) => {
                return Err(e);
            },
        };
        let area = match work_area {
            Ok(a) => a,
            Err(e) => {
                return Err(e);
            },
        };
        let target = self.engine.calculate(layout_type, area);
        Ok((window.hwnd, target))
    }

    /// The foreground window and where a shift by `(dx, dy)` takes it.
    pub fn move_window_rel(
        &self,
        _hwnd: isize,
        dx: i32,
        dy: i32,
        foreground: Result<WindowInfo, AppError>,
        work_area: Result<Rect, AppError>,
    ) -> (r: Result<(isize, Rect), AppError>)
        requires
            acted_on(self.windows(), foreground) is Some && work_area is Ok ==> shift_fits(
                acted_on(self.windows(), foreground)->0,
                work_area->Ok_0,
                dx as int,
                dy as int,
            ),
        ensures
            match acted_on(self.windows(), foreground) {
                None => r matches Err(e) && refused(self.windows(), foreground, e),
                Some(w) => match work_area {
                    Err(e) => r == Err::<(isize, Rect), AppError>(e),
                    Ok(a) => r == Ok::<(isize, Rect), AppError>((w.hwnd, shifted_rect(w, a, dx as int, dy as int))),
                },
            },
    {
        let window = match self.window_service.get_foreground_window(foreground) {
            Ok(w) => w,
            Err(e) => {
                return Err(e);
            },
        };
        let area = match work_area {
            Ok(a) => a,
            Err(e) => {
                return Err(e);
            },
        };
        let new_x = clamp(window.x + dx, area.x, area.x + area.width - 100);
        let new_y = clamp(window.y + dy, area.y, area.y + area.height - 100);
        Ok((window.hwnd, Rect::new(new_x, new_y, window.width, window.height)))
    }

    /// The foreground window and where a shift by `(dx, dy)` and a resize by
    /// `(dw, dh)` take it.
    pub fn apply_move(
        &self,
        dx: i32,
        dy: i32,
        dw: i32,
        dh: i32,
        foreground: Result<WindowInfo, AppError>,
        work_area: Result<Rect, AppError>,
    ) -> (r: Result<(isize, Rect), AppError>)
        requires
            acted_on(self.windows(), foreground) is Some && work_area is Ok ==> {
                let w = acted_on(self.windows(), foreground)->0;
                &&& shift_fits(w, work_area->Ok_0, dx as int, dy as int)
                &&& in_i32(w.width + dw)
                &&& in_i32(w.height + dh)
            },
        ensures
            match acted_on(self.windows(), foreground) {
                None => r matches Err(e) && refused(self.windows(), foreground, e),
                Some(w) => match work_area {
                    Err(e) => r == Err::<(isize, Rect), AppError>(e),
                    Ok(a) => r == Ok::<(isize, Rect), AppError>(
                        (w.hwnd, moved_rect(w, a, dx as int, dy as int, dw as int, dh as int)),
                    ),
                },
            },
    {
        let window = match self.window_service.get_foreground_window(foreground) {
            Ok(w) => w,
            Err(e) => {
                return Err(e);
            },
        };
        let area = match work_area {
            Ok(a) => a,
            Err(e) => {
                return Err(e);
            },
        };
        let new_x = clamp(window.x + dx, area.x, area.x + area.width - 100);
        let new_y = clamp(window.y + dy, area.y, area.y + area.height - 100);
        let new_w = clamp(window.width + dw, 100, area.width);
        let new_h = clamp(window.height + dh, 100, area.height);
        Ok((window.hwnd, Rect::new(new_x, new_y, new_w, new_h)))
    }
}

/// Whether shifting `w` by `(dx, dy)` inside `area` computes within `i32`.
pub fn fits_shift(w: &WindowInfo, area: Rect, dx: i32, dy: i32) -> (r: bool)
    ensures
        r == shift_fits(*w, area, dx as int, dy as int),
{
    let x = w.x as i64 + dx as i64;
    let y = w.y as i64 + dy as i64;
    let right = area.x as i64 + area.width as i64;
    let bottom = area.y as i64 + area.height as i64;
    let lo: i64 = -0x8000_0000;
    let hi: i64 = 0x7fff_ffff;
    lo <= x && x <= hi && lo <= y && y <= hi && lo <= right && right <= hi && lo <= right - 100 && right
        - 100 <= hi && lo <= bottom && bottom <= hi && lo <= bottom - 100 && bottom - 100 <= hi
}

/// `value` raised to at least `min`, then lowered to at most `max`.
fn clamp(value: i32, min: i32, max: i32) -> (r: i32)
    ensures
        r == clamped(value as int, min as int, max as int),
{
    let v = if value < min {
        min
    } else {
        value
    };
    if v > max {
        max
    } else {
        v
    }
}

} // verus!
