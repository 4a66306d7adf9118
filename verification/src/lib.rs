//! A verified library for a small holiday web service.
//!
//! The heart of the crate is `hub`: a model of the real-time room/broadcast
//! service, with named chat rooms, per-subscriber delivery cursors with a
//! bounded backlog, a global delivery counter and the ping-pong handshake
//! state.  `wire` gives the JSON wire format of the chat envelopes an exact,
//! verified parser and encoder.  The remaining modules hold the computational
//! cores of the service's stateless puzzle endpoints.

pub mod wire;

pub mod hub;

pub mod numfmt;

pub mod text;

pub mod greeting;

pub mod pixels;

pub mod slicing;

pub mod folding;

pub mod store;

pub mod reindeer;

pub mod nice;

pub mod baking;

pub mod stars;

pub mod orders;

pub mod elves;

pub mod archives;

pub mod ulids;
