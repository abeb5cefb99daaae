//! Job model, resolution and execution decisions for the VoxDecoder pipeline.

pub mod text;
pub mod collections;
pub mod paths;
pub mod schema;
pub mod resolve;
pub mod schedule;
pub mod artifacts;
pub mod prune;
pub mod status;
pub mod report;
pub mod config;
pub mod defaults;
pub mod cli;
pub mod resources;
pub mod interactive;
pub mod commands;
pub mod meeting;
pub mod timemap;
pub mod exec;
