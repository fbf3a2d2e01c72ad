//! Supervision and protocol layer for a line-delimited JSON bridge to a
//! child daemon process: wire codec, request/response correlation, lifecycle
//! state, and binary discovery.
pub mod bridge;
pub mod codec;
pub mod correlator;
pub mod discovery;
pub mod errors;
pub mod json;
pub mod text;
