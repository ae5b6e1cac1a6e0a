//! The rules of a blocking DNS resolver: which names are blocked, how queries
//! are answered, what is cached, stored and logged, and what the admin API
//! accepts.

pub mod batch;
pub mod bigendian;
pub mod blocklist;
pub mod cache;
pub mod clock;
pub mod config;
pub mod decimal;
pub mod dns;
pub mod message;
pub mod order;
pub mod qlog;
pub mod stats;
pub mod text;
pub mod upstream;
pub mod web;
