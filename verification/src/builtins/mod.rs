//! Requests that are built in.
pub mod upload_media;
