//! The services that the command layer drives: which windows to manage,
//! where windows go, and the workspaces with their trees.

pub mod layout_service;
pub mod window_service;
pub mod workspace_service;
