//! Moves projects and keeps every recorded path pointing at them.

pub mod text;
pub mod path;
pub mod encoder;
pub mod order;
pub mod substitution;
pub mod path_map;
pub mod decimal;
pub mod error;
pub mod batch;
pub mod fs;
pub mod home;
pub mod mock_fs;
pub mod scanner;
pub mod json;
pub mod updater;
pub mod links;
pub mod archive;
pub mod backup;
pub mod unit;
pub mod merge;
pub mod merging;
pub mod plan;
pub mod apply;
pub mod relink;
pub mod migration;
pub mod cli;
pub mod command;
pub mod report;
pub mod laws;
pub mod frame;
pub mod places;
pub mod flat;
pub mod routes;
pub mod along;
pub mod arrive;
pub mod config;
pub mod shared;
pub mod rerun;
pub mod again;
pub mod foretell;
pub mod tally;
pub mod through;
pub mod halfway;
pub mod spelling;
pub mod reading;
pub mod finding;
pub mod replacing;
pub mod telling;
pub mod linking;
pub mod logging;
pub mod keeping;
pub mod deciding;
pub mod registry;
pub mod running;
pub mod asking;
pub mod stepping;
