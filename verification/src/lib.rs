//! A catalogue of a directory tree: what a scan observes, what it may record
//! about the files it saw, and what it may conclude about the ones it did not.

pub mod config;
pub mod db;
pub mod error;
pub mod hash;
pub mod history;
pub mod laws;
pub mod ledger;
pub mod names;
pub mod paths;
pub mod pipeline;
pub mod promote;
pub mod report;
pub mod rounds;
pub mod rows;
pub mod scan;
pub mod shift;
pub mod stage;
pub mod text;
pub mod tour;
pub mod walk;
