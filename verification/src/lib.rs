//! Plans and describes the renaming of documentation files into a canonical
//! `<timestamp>-<slug>.<ext>` form: resolving settings, filtering a
//! directory snapshot by extension, depth and allow/deny patterns,
//! detecting names already in canonical form, and avoiding collisions.

pub mod config;
pub mod datefmt;
pub mod globs;
pub mod renamer;
pub mod slug;
pub mod strutil;
