//! A verified core for an interactive flamegraph explorer.
//!
//! The library parses collapsed-stack text into an arena-indexed tree,
//! marks regex search hits, and drives the navigation state (selection,
//! zoom, scrolling, search stepping, live-tree replacement) behind
//! contracts checked by Verus.
pub mod app;
pub mod command;
pub mod flame;
pub mod parse;
pub mod pattern;
pub mod state;
pub mod strings;
pub mod view;
