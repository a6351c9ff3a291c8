//! The origin: keeps the chunks of published versions.
pub mod config;
pub mod inspect;
pub mod server;
pub mod source;
pub mod storage;
