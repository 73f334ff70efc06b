//! Core of an event dispatcher for bot platforms: a handler pipeline, per-chat
//! ordering of events under a global concurrency ceiling, a dialogue store and a
//! cooperative shutdown protocol, each a verified state machine.
pub mod types;
pub mod distribution;
pub mod pipeline;
pub mod sequencer;
pub mod shutdown;
pub mod dispatcher;
pub mod dialogue;
