//! The OS-agnostic heart of a file explorer that draws disk usage as a city:
//! an arena tree of files and directories, and every decision the explorer
//! makes on plain values.
use vstd::prelude::*;

pub mod browse;
pub mod cache;
pub mod city;
pub mod clipboard;
pub mod commands;
pub mod copying;
pub mod details;
pub mod explorer;
pub mod filetype;
pub mod gestures;
pub mod labels;
pub mod listing;
pub mod location;
pub mod menus;
pub mod names;
pub mod order;
pub mod pane;
pub mod paths;
pub mod prompt;
pub mod settings;
pub mod sidebar;
pub mod skyline;
pub mod status;
pub mod store;
pub mod text;
pub mod time;
pub mod transfer;
pub mod tree;
pub mod undo;
pub mod usn;
pub mod volume;
pub mod walk;

verus! {

/// Display name of the application.
pub const APP_NAME: &'static str = "SECTOR";

} // verus!
