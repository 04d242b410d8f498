//! Public GitHub contributions to allowlisted Bitcoin repositories: the
//! configuration, the requests to GitHub and what is read from its answers,
//! the JSON feed the events are kept in, and the static page made from it.
pub mod text;
pub mod escape;
pub mod toml;
pub mod sorted;
pub mod config;
pub mod feed;
pub mod json;
pub mod dates;
pub mod roundtrip;
pub mod github;
pub mod requests;
pub mod render;
pub mod clock;
pub mod cli;
pub mod laws;
