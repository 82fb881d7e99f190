//! The modal (Vim-like) interface: editor state, `:` commands, search.

pub mod editor;
pub mod files;
pub mod commands;
pub mod search;
