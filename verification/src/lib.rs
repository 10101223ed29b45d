//! A command-driven LED strip renderer.
//!
//! Commands arrive from two producers — a network listener and a button
//! interrupt — and are applied one at a time by a render engine that owns
//! the strip exclusively. The library holds everything that can be reasoned
//! about as values: the command model and its dedup equality ([`led`]), the
//! render engine's state machine with its frame computations ([`led`]), the
//! envelope extraction and wire-format decoding of inbound events
//! ([`payload`]) on top of exact byte-scanning primitives ([`scan`]), and
//! the static connection settings ([`config`]). The embedding program owns
//! the channel, the threads and the peripherals, and calls in with plain
//! values.

pub mod config;
pub mod led;
pub mod payload;
pub mod scan;
