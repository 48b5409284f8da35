//! Beat-window synchronisation protocol: a producer publishes a sliding
//! window of absolute beat frames, consumers receive it over a
//! length-prefixed little-endian wire format and keep a validated copy.
//!
//! - [`wire`]: the byte layout (`encode` / `decode`).
//! - [`window`]: the consumer-side [`window::BeatWindow`].
//! - [`broadcast`]: the producer-side [`broadcast::BeatPublisher`].
//! - [`controller`]: the producer's per-event decisions.
//! - [`client`]: the consumer's buffer draining and shared read API.
//! - [`laws`]: properties that relate the modules to each other.

pub mod wire;
pub mod window;
pub mod broadcast;
pub mod controller;
pub mod client;
pub mod laws;
