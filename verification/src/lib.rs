//! Rules of a desktop launcher and clipboard history: what is matched, ranked,
//! shown, stored and exchanged, apart from drawing and input/output.

pub mod clip;
pub mod clipboard;
pub mod clipsync;
pub mod common;
pub mod desktop;
pub mod double;
pub mod fuzzy;
pub mod hyprland;
pub mod icon_index;
pub mod icons;
pub mod keyfile;
pub mod keys;
pub mod launcher;
pub mod layer;
pub mod layer_clip;
pub mod layer_launcher;
pub mod order;
pub mod path;
pub mod picker;
pub mod picture;

pub mod search;
pub mod text;
pub mod time;
pub mod toggle;
pub mod usage;
