//! Emerge log parsing, merge time statistics and prediction, as a verified library.
pub mod text;
pub mod accuracy;
pub mod commands;
pub mod keymap;
pub mod parser;
pub mod predict;
pub mod proces;
pub mod table;
pub mod config;
pub mod datetime;
pub mod dates;
pub mod emerge;
pub mod procfmt;
pub mod parse;
pub mod re;
