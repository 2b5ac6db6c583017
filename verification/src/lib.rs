//! `ren` plans and carries out bulk file renames.

pub mod apply;
pub mod cli;
pub mod config;
pub mod conflicts;
pub mod diff;
pub mod expressions;
pub mod flags;
pub mod help;
pub mod io;
pub mod matcher;
pub mod moves;
pub mod names;
pub mod outcome;
pub mod path;
pub mod preview;
pub mod rename;
pub mod run;
pub mod scan;
pub mod sort;
pub mod summary;
pub mod text;
pub mod transforms;
pub mod variants;
