//! The built-in commands.
pub mod cache;
pub mod schema;
