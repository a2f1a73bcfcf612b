//! Schema directives: collecting them from a payload and acting on them.
pub mod collect;
pub mod consistency;
pub mod ending;
pub mod file_save;
pub mod found;
pub mod marker;
pub mod media_upload;
pub mod octet_stream;
pub mod termination;
pub mod types;
