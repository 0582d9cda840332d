//! Tiling window manager core: the container tree, layout math, window rules,
//! hotkey parsing and workspace bookkeeping, each with its contract.

pub mod actions;
pub mod attachment;
pub mod app;
pub mod commands;
pub mod config;
pub mod error;
pub mod hotkeys;
pub mod layout;
pub mod layout_laws;
pub mod text;
pub mod rules;
pub mod services;
pub mod tree;
pub mod window;
pub mod monitor;
pub mod properties;
pub mod workspace;
