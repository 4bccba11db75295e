//! `reqtrace`: deterministic requirements coverage. Requirement inventories
//! and annotated docs go in; findings, a summary and an exit code come out.
pub mod text;
pub mod id;
pub mod grammar;
pub mod scan;
pub mod config;
pub mod yaml;
pub mod inventory;
pub mod exceptions;
pub mod checks;
pub mod report;
pub mod globs;
pub mod runner;
