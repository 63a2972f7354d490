//! What the server checks of its command line and its configuration.

pub mod cli;
pub mod config;
