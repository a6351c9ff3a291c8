//! The scheduler: registered nodes, tasks, and the admin interface.
pub mod config;
pub mod db;
pub mod http;
pub mod keepalive;
pub mod server;
pub mod store;
