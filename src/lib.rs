//! Schedule resolution and override merging for a screen-shader switcher.
//!
//! The library decides which configured shader is active at a time of day,
//! parses `KEY=VALUE` overrides into nested parameter trees, and merges those
//! trees under two precedence policies.
pub mod cli;
pub mod config;
pub mod hyprctl;
pub mod resolver;
pub mod scalar;
pub mod schedule;
pub mod template;
pub mod text;
pub mod time;
pub mod util;
pub mod var;
