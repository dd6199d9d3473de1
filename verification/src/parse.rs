//! Parsing of emerge logs, portage state, build logs and process info.
pub mod ansi;
pub mod history;
pub mod current;
pub mod moves;
