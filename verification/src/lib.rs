//! The logic of a Waybar taskbar for the Niri compositor.
#![allow(unused_imports)]

pub mod binds;
pub mod config;
pub mod gradient;
pub mod group;
pub mod ids;
pub mod indicator;
pub mod kdl;
pub mod kept;
pub mod menu;
pub mod niri;
pub mod notify;
pub mod order;
pub mod output;
pub mod pattern;
pub mod reorder;
pub mod room;
pub mod scroll;
pub mod slide;
pub mod snapshot;
pub mod stream;
pub mod taskbar;
pub mod text;
pub mod workspaces;
