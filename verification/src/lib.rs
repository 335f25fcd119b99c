//! A content-addressed duplicate-file finder: the index of directories, files
//! and rules, the two-stage hashing pipeline that fills it, and the decision
//! model by which duplicates are chosen for removal.

pub mod text;
pub mod paths;
pub mod rows;
pub mod model;
pub mod db;
pub mod hash;
pub mod glob;
pub mod config;
pub mod cli;
pub mod tui;
pub mod scan_tui;
pub mod scan;
pub mod scanner;
pub mod remove;
pub mod list;
pub mod list_tui;
pub mod laws;
