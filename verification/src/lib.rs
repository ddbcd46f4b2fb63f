//! A multiplexing session router: many independent client sessions share one
//! processing engine. The router assigns an identifier to each session, keeps
//! a registry from identifier to the caller-supplied response sink, and routes
//! every engine output entry to the sink registered for its recipient,
//! stopping at the first delivery failure.

pub mod batch;
pub mod engine;
pub mod error;
pub mod lifecycle;
pub mod registry;
pub mod server;
pub mod sink;
