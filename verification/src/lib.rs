//! The logic of the WeCom command-line client: the sandbox around its file
//! system, the directives in method schemas, its errors, and the course of a
//! run.
//!
//! Files, sockets and terminals stay outside. A function takes what was read
//! from them as plain values, and says what to do as plain values.
pub mod builtins;
pub mod client;
pub mod commands;
pub mod constants;
pub mod directive;
pub mod error;
pub mod fs;
pub mod json;
pub mod json_path;
pub mod schema;
pub mod text;
