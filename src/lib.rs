//! A caching HTTP proxy core: request fingerprints, a time-to-live response
//! cache, origin-directive forwarding and the per-request dispatch decisions.
pub mod order;
pub mod request;
pub mod cache;
pub mod forward;
pub mod controller;
