//! The core of a terminal log viewer: block-wise file access, a sparse line
//! index, a scrolling view, pane layout, search and key handling.
#![allow(unused_imports)]

pub mod app;
pub mod arrange;
pub mod bindings;
pub mod body;
pub mod commands;
pub mod config;
pub mod encoding;
pub mod file;
pub mod fit;
pub mod history;
pub mod index;
pub mod jumps;
pub mod keymap;
pub mod keys;
pub mod layout;
pub mod lines;
pub mod modes;
pub mod moves;
pub mod panels;
pub mod panes;
pub mod promises;
pub mod reports;
pub mod rows;
pub mod screen;
pub mod search;
pub mod sights;
pub mod styled;
pub mod text;
pub mod theme;
pub mod view;
