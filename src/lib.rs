//! A durable webhook-delivery proxy: the delivery state machine, its store,
//! the origin cache and the retry policy, with their contracts.

pub mod cache;
pub mod config;
pub mod db;
pub mod error;
pub mod ingest;
pub mod listing;
pub mod mgmt;
pub mod origin;
pub mod proxy;
pub mod record;
pub mod retry;
pub mod state;
pub mod text;
pub mod uri;
