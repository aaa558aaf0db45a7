//! Alias resolution for a hosts-file helper: signatures, dictionaries of
//! parameterized aliases, dependency checking and expansion into literals.

pub mod aliases;
pub mod args;
pub mod bounds;
pub mod commands;
pub mod cycles;
pub mod document;
pub mod global;
pub mod text;
