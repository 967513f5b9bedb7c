//! A verified core for a small web application's glue layer: a bounded,
//! health-checked database connection pool and a typed JSON request bridge.
//!
//! `pool` holds the pool's bookkeeping discipline and configuration capture;
//! `deadpool_mod` starts the real pool and translates its errors; `json` is
//! the bridge's wire format; `bridge` builds the outbound call; `dom` models
//! the page the browser side writes to.

pub mod bridge;
pub mod deadpool_mod;
pub mod dom;
pub mod json;
pub mod pool;
