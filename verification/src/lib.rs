//! Core logic of `qc`, a small interactive command runner: configuration,
//! shortcut and history files, command templates, hinting and built-in commands.

pub mod text;
pub mod number;
pub mod config;
pub mod history;
pub mod shortcuts;
pub mod commands;
pub mod hinter;
pub mod runner;
pub mod state;
