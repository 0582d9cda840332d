use vstd::prelude::*;

use crate::tree::{at_least_one, in_i32, tdiv};

verus! {

/// A rectangle on screen: top-left corner and size, in pixels.
#[derive(Clone, Copy, PartialEq, Eq, Debug, Structural)]
pub struct Rect {
    pub x: i32,
    pub y: i32,
    pub width: i32,
    pub height: i32,
}

impl Rect {
    pub fn new(x: i32, y: i32, width: i32, height: i32) -> (r: Self)
        ensures
            r == (Rect { x, y, width, height }),
    {
        Rect { x, y, width, height }
    }

    pub fn from_tuple(t: (i32, i32, i32, i32)) -> (r: Self)
        ensures
            r == (Rect { x: t.0, y: t.1, width: t.2, height: t.3 }),
    {
        Rect { x: t.0, y: t.1, width: t.2, height: t.3 }
    }
}

/// Where a window goes on its monitor.
#[derive(Clone, Copy, PartialEq, Eq, Debug, Structural)]
pub enum LayoutType {
    LeftHalf,
    RightHalf,
    TopHalf,
    BottomHalf,
    Fullscreen,
    Centered,
}

/// `x`, raised to at least 0.
pub open spec fn at_least_zero(x: int) -> int {
    if x < 0 {
        0
    } else {
        x
    }
}

/// The rectangle that `layout` gives a window on a monitor with work area
/// `area`, keeping `margin` from the edges and `gap` between halves. An area
/// left empty by the margins is returned unchanged.
pub open spec fn layout_rect(gap: int, margin: int, layout: LayoutType, area: Rect) -> Rect {
    let mx = area.x + margin;
    let my = area.y + margin;
    let mw = at_least_zero(area.width - 2 * margin);
    let mh = at_least_zero(area.height - 2 * margin);
    let g2 = tdiv(gap, 2);
    if mw <= 0 || mh <= 0 {
        area
    } else {
        match layout {
            LayoutType::LeftHalf => Rect {
                x: mx as i32,
                y: my as i32,
                width: at_least_one(mw / 2 - g2) as i32,
                height: mh as i32,
            },
            LayoutType::RightHalf => Rect {
                x: (mx + mw / 2 + g2) as i32,
                y: my as i32,
                width: at_least_one(mw / 2 - g2) as i32,
                height: mh as i32,
            },
            LayoutType::TopHalf => Rect {
                x: mx as i32,
                y: my as i32,
                width: mw as i32,
                height: at_least_one(mh / 2 - g2) as i32,
            },
            LayoutType::BottomHalf => Rect {
                x: mx as i32,
                y: (my + mh / 2 + g2) as i32,
                width: mw as i32,
                height: at_least_one(mh / 2 - g2) as i32,
            },
            LayoutType::Fullscreen => Rect { x: mx as i32, y: my as i32, width: mw as i32, height: mh as i32 },
            LayoutType::Centered => {
                let cw = mw * 3 / 4;
                let ch = mh * 3 / 4;
                Rect {
                    x: (mx + (mw - cw) / 2) as i32,
                    y: (my + (mh - ch) / 2) as i32,
                    width: at_least_one(cw) as i32,
                    height: at_least_one(ch) as i32,
                }
            },
        }
    }
}

/// Computing `layout_rect` stays within `i32`.
pub open spec fn layout_rect_fits(gap: int, margin: int, layout: LayoutType, area: Rect) -> bool {
    let mx = area.x + margin;
    let my = area.y + margin;
    let mw = at_least_zero(area.width - 2 * margin);
    let mh = at_least_zero(area.height - 2 * margin);
    let g2 = tdiv(gap, 2);
    &&& in_i32(mx)
    &&& in_i32(my)
    &&& in_i32(2 * margin)
    &&& in_i32(area.width - 2 * margin)
    &&& in_i32(area.height - 2 * margin)
    &&& (mw > 0 && mh > 0 ==> match layout {
        LayoutType::RightHalf => in_i32(mx + mw / 2) && in_i32(mx + mw / 2 + g2),
        LayoutType::BottomHalf => in_i32(my + mh / 2) && in_i32(my + mh / 2 + g2),
        LayoutType::Centered => in_i32(mx + (mw - mw * 3 / 4) / 2) && in_i32(my + (mh - mh * 3 / 4) / 2),
        _ => true,
    })
}

/// Window placement on a monitor, with a gap between halves and a margin
/// from the monitor's edges.
#[derive(Clone, Debug)]
pub struct LayoutEngine {
    gap: i32,
    margin: i32,
}

impl LayoutEngine {
    pub closed spec fn gap_value(&self) -> int {
        self.gap as int
    }

    pub closed spec fn margin_value(&self) -> int {
        self.margin as int
    }

    pub fn new(gap: i32, margin: i32) -> (e: Self)
        ensures
            e.gap_value() == gap,
            e.margin_value() == margin,
    {
        LayoutEngine { gap, margin }
    }

    /// Whether computing the rectangle of `layout` on `monitor_area` stays
    /// within `i32`.
    pub fn fits(&self, layout: LayoutType, monitor_area: Rect) -> (r: bool)
        ensures
            r == layout_rect_fits(self.gap_value(), self.margin_value(), layout, monitor_area),
    {
        let m = self.margin as i64;
        let mx = monitor_area.x as i64 + m;
        let my = monitor_area.y as i64 + m;
        let m2 = 2 * m;
        let mw0 = monitor_area.width as i64 - m2;
        let mh0 = monitor_area.height as i64 - m2;
        if !(i32_range(mx) && i32_range(my) && i32_range(m2) && i32_range(mw0) && i32_range(mh0)) {
            return false;
        }
        let mw = if mw0 < 0 {
            0
        } else {
            mw0
        };
        let mh = if mh0 < 0 {
            0
        } else {
            mh0
        };
        if mw <= 0 || mh <= 0 {
            return true;
        }
        let g2 = self.gap as i64 / 2;
        assert(g2 == tdiv(self.gap as int, 2));
        match layout {
            LayoutType::RightHalf => i32_range(mx + mw / 2) && i32_range(mx + mw / 2 + g2),
            LayoutType::BottomHalf => i32_range(my + mh / 2) && i32_range(my + mh / 2 + g2),
            LayoutType::Centered => i32_range(mx + (mw - mw * 3 / 4) / 2) && i32_range(my + (mh - mh * 3 / 4) / 2),
            _ => true,
        }
    }

    /// The rectangle that `layout` gives a window on a monitor with work area
    /// `monitor_area`.
    pub fn calculate(&self, layout: LayoutType, monitor_area: Rect) -> (r: Rect)
        requires
            layout_rect_fits(self.gap_value(), self.margin_value(), layout, monitor_area),
        ensures
            r == layout_rect(self.gap_value(), self.margin_value(), layout, monitor_area),
    {
        let mx = monitor_area.x + self.margin;
        let my = monitor_area.y + self.margin;
        let mw0 = monitor_area.width - 2 * self.margin;
        let mw = if mw0 < 0 {
            0
        } else {
            mw0
        };
        let mh0 = monitor_area.height - 2 * self.margin;
        let mh = if mh0 < 0 {
            0
        } else {
            mh0
        };
        if mw <= 0 || mh <= 0 {
            return monitor_area;
        }
        let g2 = self.gap / 2;
        assert(g2 == tdiv(self.gap as int, 2));
        match layout {
            LayoutType::LeftHalf => {
                let half_w = mw / 2 - g2;
                Rect::new(mx, my, if half_w < 1 { 1 } else { half_w }, mh)
            },
            LayoutType::RightHalf => {
                let half_w = mw / 2 - g2;
                Rect::new(mx + mw / 2 + g2, my, if half_w < 1 { 1 } else { half_w }, mh)
            },
            LayoutType::TopHalf => {
                let half_h = mh / 2 - g2;
                Rect::new(mx, my, mw, if half_h < 1 { 1 } else { half_h })
            },
            LayoutType::BottomHalf => {
                let half_h = mh / 2 - g2;
                Rect::new(mx, my + mh / 2 + g2, mw, if half_h < 1 { 1 } else { half_h })
            },
            LayoutType::Fullscreen => Rect::new(mx, my, mw, mh),
            LayoutType::Centered => {
                let cw = scale_three_quarters(mw);
                let ch = scale_three_quarters(mh);
                let cx = mx + (mw - cw) / 2;
                let cy = my + (mh - ch) / 2;
                Rect::new(cx, cy, if cw < 1 { 1 } else { cw }, if ch < 1 { 1 } else { ch })
            },
        }
    }
}

/// Whether `v` is a value of `i32`.
fn i32_range(v: i64) -> (r: bool)
    ensures
        r == in_i32(v as int),
{
    -0x8000_0000 <= v && v <= 0x7fff_ffff
}

/// Three quarters of a positive size, rounded down: exactly what scaling by
/// 0.75 in double precision and truncating gives, since `3 * v` has at most
/// 33 significant bits and dividing by 4 is exact.
fn scale_three_quarters(v: i32) -> (r: i32)
    requires
        v > 0,
    ensures
        r == v * 3 / 4,
        0 <= r <= v,
{
    let w: i64 = (v as i64) * 3 / 4;
    w as i32
}

} // verus!
