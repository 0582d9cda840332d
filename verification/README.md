# rtwm

A keyboard-driven tiling window manager for Windows. The library (`src/`) holds
its logic, each function with a contract that Verus proves; the program
(`app/`) reads the configuration, talks to the Windows API and performs what
the library decides.

Library modules:

- `tree`: the container tree of a workspace (split containers whose leaves are
  windows), its layouts and focus moves.
- `layout`: placing one window in halves, full screen or centred.
- `rules`, `hotkeys`, `actions`, `config`, `text`: window rules with wildcard
  patterns, hotkey strings, action names, configuration defaults, and the
  string handling they need.
- `services`: which windows are managed, where the foreground window goes, and
  the workspaces with their trees.
- `commands`: what each action does, as new workspace state plus a list of
  effects on the system (show, hide, move, focus, launch).
- `app`: setting up the hotkeys and the command executor from a configuration.
- `properties`: laws that relate several operations.
- `layout_laws`: how the split layout of a tree changes when a window is
  added, the split is set or two windows trade places, and that no window gets
  two areas.
- `attachment`: every window hanging from the root, which the operations on a
  tree keep, and which gives every window of the tree exactly one area.
