//! DataSpringFlow: dataset metadata with dependency DAGs and Merkle-hash consistency checks.
pub mod text;
pub mod dataset;
pub mod utils;
pub mod merkle;
pub mod diff;
pub mod assoc;
pub mod dag;
pub mod backend;
pub mod service;
pub mod api;
pub mod web;
pub mod config;
pub mod laws;
pub mod frontend;
