use vstd::prelude::*;

verus! {

/// What the window manager knows of a top-level window.
#[derive(Debug)]
pub struct WindowInfo {
    pub hwnd: isize,
    pub title: String,
    pub class: String,
    pub x: i32,
    pub y: i32,
    pub width: i32,
    pub height: i32,
    pub is_visible: bool,
    pub is_minimized: bool,
}

impl Clone for WindowInfo {
    fn clone(&self) -> (r: Self)
        ensures
            r == *self,
    {
        WindowInfo {
            hwnd: self.hwnd,
            title: self.title.clone(),
            class: self.class.clone(),
            x: self.x,
            y: self.y,
            width: self.width,
            height: self.height,
            is_visible: self.is_visible,
            is_minimized: self.is_minimized,
        }
    }
}

impl WindowInfo {
    pub fn position(&self) -> (r: (i32, i32))
        ensures
            r == (self.x, self.y),
    {
        (self.x, self.y)
    }

    pub fn size(&self) -> (r: (i32, i32))
        ensures
            r == (self.width, self.height),
    {
        (self.width, self.height)
    }
}

} // verus!
