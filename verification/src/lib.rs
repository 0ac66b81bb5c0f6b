//! The logic of a taskbar drawer: a small launcher that keeps a list of
//! shortcuts to scripts and programs, reorders and filters them, decides how
//! to start each one, and decides when its popup window shows and hides.

pub mod text;
pub mod paths;
pub mod clock;
pub mod config;
pub mod wide;
pub mod tray;
pub mod launch;
pub mod icon;
pub mod drawer;
