use vstd::prelude::*;

verus! {

/// The errors of the window manager, each with its message. Errors that come
/// from the operating system or from file access carry their description.
#[derive(Debug, Clone)]
pub enum AppError {
    Config(String),
    Win32(String),
    Hotkey(String),
    Window(String),
    Monitor(String),
    Layout(String),
    Io(String),
    UnknownAction(String),
    Service(String),
    General(String),
}

/// An error as a mathematical value: its kind and the characters of its
/// message.
pub enum AppErrorView {
    Config(Seq<char>),
    Win32(Seq<char>),
    Hotkey(Seq<char>),
    Window(Seq<char>),
    Monitor(Seq<char>),
    Layout(Seq<char>),
    Io(Seq<char>),
    UnknownAction(Seq<char>),
    Service(Seq<char>),
    General(Seq<char>),
}

impl View for AppError {
    type V = AppErrorView;

    open spec fn view(&self) -> AppErrorView {
        match self {
            AppError::Config(m) => AppErrorView::Config(m@),
            AppError::Win32(m) => AppErrorView::Win32(m@),
            AppError::Hotkey(m) => AppErrorView::Hotkey(m@),
            AppError::Window(m) => AppErrorView::Window(m@),
            AppError::Monitor(m) => AppErrorView::Monitor(m@),
            AppError::Layout(m) => AppErrorView::Layout(m@),
            AppError::Io(m) => AppErrorView::Io(m@),
            AppError::UnknownAction(m) => AppErrorView::UnknownAction(m@),
            AppError::Service(m) => AppErrorView::Service(m@),
            AppError::General(m) => AppErrorView::General(m@),
        }
    }
}

pub type AppResult<T> = Result<T, AppError>;

} // verus!
