//! vendiwm's window-management core: the tiling tree and its layout modes,
//! dynamic per-monitor workspaces, what keybindings and IPC requests do to
//! them, keybind and config parsing, monitor modes and placement, the idle
//! policy, and the IPC protocol model. Every function here is verified with
//! Verus, but for one trusted wrapper around `String::push` (in `text`).

pub mod actions;
pub mod chrome;
pub mod config;
pub mod desk;
pub mod geometry;
pub mod idle;
pub mod input;
pub mod ipc;
pub mod keyboard;
pub mod layout;
pub mod outputs;
pub mod overview;
pub mod pins;
pub mod text;
pub mod workspaces;
