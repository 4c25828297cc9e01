//! A minimal HTTP/1.1 request-processing substrate: message parsing,
//! response serialization, route resolution and the rules of a worker pool,
//! with machine-checked contracts.

pub mod web;
pub mod worker_pool;
