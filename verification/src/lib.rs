//! Transactional settings store and service-configuration impact graph.
//!
//! The crate has two halves. The first is a key/value settings store with
//! commit/pending/live isolation: callers stage writes inside named
//! transactions, commit a transaction atomically into the live view, and
//! address nested values with dot-delimited keys. The second is an impact
//! graph over the services and configuration templates installed on a
//! system: it answers which templates must be re-rendered, and which
//! services restarted, after a settings extension changes.
//!
//! All state-bearing logic lives here with machine-checked contracts; file
//! and network I/O is left to the surrounding application, which hands this
//! library plain values.

pub mod controller;
pub mod datastore;
pub mod dns;
pub mod filesystem;
pub mod hostname;
pub mod key;
pub mod kvlist;
pub mod memory;
pub mod models;
pub mod service;
pub mod service_config;
pub mod template;
pub mod text;
pub mod value;
