//! Registry of jujutsu repositories: the path rules, the configuration
//! model, and the decisions of the `add` and `fetch` commands.
pub mod commands;
pub mod config;
pub mod paths;
