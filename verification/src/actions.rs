use vstd::prelude::*;

use crate::text::str_equal;

verus! {

/// What a hotkey does.
#[derive(Debug, Clone, Copy, PartialEq, Eq, Structural)]
pub enum Action {
    MoveLeft,
    MoveDown,
    MoveUp,
    MoveRight,
    FocusLeft,
    FocusDown,
    FocusUp,
    FocusRight,
    Fullscreen,
    Center,
    LaunchTerminal,
    NextWorkspace,
    PreviousWorkspace,
    Workspace1,
    Workspace2,
    Workspace3,
    Workspace4,
    Workspace5,
    MoveToWorkspace1,
    MoveToWorkspace2,
    MoveToWorkspace3,
    MoveToWorkspace4,
    MoveToWorkspace5,
    LayoutLeftHalf,
    LayoutRightHalf,
    LayoutTopHalf,
    LayoutBottomHalf,
    LayoutMonocle,
    LayoutStacking,
    LayoutSplitH,
    LayoutSplitV,
    ToggleSplit,
    SplitHorizontal,
    SplitVertical,
    DetectWindow,
    Reset,
    Quit,
}

/// The action that the configuration file calls `name`: the first in the
/// list of action names that equals `name`.
pub open spec fn action_named(name: Seq<char>) -> Option<Action> {
    if name == "move_left"@ {
        Some(Action::MoveLeft)
    } else if name == "move_down"@ {
        Some(Action::MoveDown)
    } else if name == "move_up"@ {
        Some(Action::MoveUp)
    } else if name == "move_right"@ {
        Some(Action::MoveRight)
    } else if name == "focus_left"@ {
        Some(Action::FocusLeft)
    } else if name == "focus_down"@ {
        Some(Action::FocusDown)
    } else if name == "focus_up"@ {
        Some(Action::FocusUp)
    } else if name == "focus_right"@ {
        Some(Action::FocusRight)
    } else if name == "fullscreen"@ {
        Some(Action::Fullscreen)
    } else if name == "center"@ {
        Some(Action::Center)
    } else if name == "launch_terminal"@ {
        Some(Action::LaunchTerminal)
    } else if name == "next_workspace"@ {
        Some(Action::NextWorkspace)
    } else if name == "previous_workspace"@ {
        Some(Action::PreviousWorkspace)
    } else if name == "workspace_1"@ {
        Some(Action::Workspace1)
    } else if name == "workspace_2"@ {
        Some(Action::Workspace2)
    } else if name == "workspace_3"@ {
        Some(Action::Workspace3)
    } else if name == "workspace_4"@ {
        Some(Action::Workspace4)
    } else if name == "workspace_5"@ {
        Some(Action::Workspace5)
    } else if name == "move_to_workspace_1"@ {
        Some(Action::MoveToWorkspace1)
    } else if name == "move_to_workspace_2"@ {
        Some(Action::MoveToWorkspace2)
    } else if name == "move_to_workspace_3"@ {
        Some(Action::MoveToWorkspace3)
    } else if name == "move_to_workspace_4"@ {
        Some(Action::MoveToWorkspace4)
    } else if name == "move_to_workspace_5"@ {
        Some(Action::MoveToWorkspace5)
    } else if name == "layout_left_half"@ {
        Some(Action::LayoutLeftHalf)
    } else if name == "layout_right_half"@ {
        Some(Action::LayoutRightHalf)
    } else if name == "layout_top_half"@ {
        Some(Action::LayoutTopHalf)
    } else if name == "layout_bottom_half"@ {
        Some(Action::LayoutBottomHalf)
    } else if name == "layout_monocle"@ {
        Some(Action::LayoutMonocle)
    } else if name == "layout_stacking"@ {
        Some(Action::LayoutStacking)
    } else if name == "layout_split_h"@ {
        Some(Action::LayoutSplitH)
    } else if name == "layout_split_v"@ {
        Some(Action::LayoutSplitV)
    } else if name == "toggle_split"@ {
        Some(Action::ToggleSplit)
    } else if name == "split_horizontal"@ {
        Some(Action::SplitHorizontal)
    } else if name == "split_vertical"@ {
        Some(Action::SplitVertical)
    } else if name == "detect_window"@ {
        Some(Action::DetectWindow)
    } else if name == "reset"@ {
        Some(Action::Reset)
    } else if name == "quit"@ {
        Some(Action::Quit)
    } else {
        None
    }
}

impl Action {
    /// The action named `name` in the configuration file, if any.
    pub fn from_str(name: &str) -> (r: Option<Action>)
        ensures
            r == action_named(name@),
    {
        if str_equal(name, "move_left") {
            return Some(Action::MoveLeft);
        }
        if str_equal(name, "move_down") {
            return Some(Action::MoveDown);
        }
        if str_equal(name, "move_up") {
            return Some(Action::MoveUp);
        }
        if str_equal(name, "move_right") {
            return Some(Action::MoveRight);
        }
        if str_equal(name, "focus_left") {
            return Some(Action::FocusLeft);
        }
        if str_equal(name, "focus_down") {
            return Some(Action::FocusDown);
        }
        if str_equal(name, "focus_up") {
            return Some(Action::FocusUp);
        }
        if str_equal(name, "focus_right") {
            return Some(Action::FocusRight);
        }
        if str_equal(name, "fullscreen") {
            return Some(Action::Fullscreen);
        }
        if str_equal(name, "center") {
            return Some(Action::Center);
        }
        if str_equal(name, "launch_terminal") {
            return Some(Action::LaunchTerminal);
        }
        if str_equal(name, "next_workspace") {
            return Some(Action::NextWorkspace);
        }
        if str_equal(name, "previous_workspace") {
            return Some(Action::PreviousWorkspace);
        }
        if str_equal(name, "workspace_1") {
            return Some(Action::Workspace1);
        }
        if str_equal(name, "workspace_2") {
            return Some(Action::Workspace2);
        }
        if str_equal(name, "workspace_3") {
            return Some(Action::Workspace3);
        }
        if str_equal(name, "workspace_4") {
            return Some(Action::Workspace4);
        }
        if str_equal(name, "workspace_5") {
            return Some(Action::Workspace5);
        }
        if str_equal(name, "move_to_workspace_1") {
            return Some(Action::MoveToWorkspace1);
        }
        if str_equal(name, "move_to_workspace_2") {
            return Some(Action::MoveToWorkspace2);
        }
        if str_equal(name, "move_to_workspace_3") {
            return Some(Action::MoveToWorkspace3);
        }
        if str_equal(name, "move_to_workspace_4") {
            return Some(Action::MoveToWorkspace4);
        }
        if str_equal(name, "move_to_workspace_5") {
            return Some(Action::MoveToWorkspace5);
        }
        if str_equal(name, "layout_left_half") {
            return Some(Action::LayoutLeftHalf);
        }
        if str_equal(name, "layout_right_half") {
            return Some(Action::LayoutRightHalf);
        }
        if str_equal(name, "layout_top_half") {
            return Some(Action::LayoutTopHalf);
        }
        if str_equal(name, "layout_bottom_half") {
            return Some(Action::LayoutBottomHalf);
        }
        if str_equal(name, "layout_monocle") {
            return Some(Action::LayoutMonocle);
        }
        if str_equal(name, "layout_stacking") {
            return Some(Action::LayoutStacking);
        }
        if str_equal(name, "layout_split_h") {
            return Some(Action::LayoutSplitH);
        }
        if str_equal(name, "layout_split_v") {
            return Some(Action::LayoutSplitV);
        }
        if str_equal(name, "toggle_split") {
            return Some(Action::ToggleSplit);
        }
        if str_equal(name, "split_horizontal") {
            return Some(Action::SplitHorizontal);
        }
        if str_equal(name, "split_vertical") {
            return Some(Action::SplitVertical);
        }
        if str_equal(name, "detect_window") {
            return Some(Action::DetectWindow);
        }
        if str_equal(name, "reset") {
            return Some(Action::Reset);
        }
        if str_equal(name, "quit") {
            return Some(Action::Quit);
        }
        None
    }
}

} // verus!
