//! An embedded, schema-aware document database core.
//!
//! Records of client-declared message types are stored in named collections
//! grouped into named databases, over an ordered key-value store with
//! column families. Point lookups, insertions and prefix scans are served
//! through an engine facade gated by session tokens.

pub mod admin;
pub mod api;
pub mod app;
pub mod auth;
pub mod build_info;
pub mod bytes;
pub mod client;
pub mod codec;
pub mod db;
pub mod engine;
pub mod env;
pub mod kv;
pub mod layer;
pub mod pool;
pub mod meta_store;
pub mod schema;
pub mod service;
