//! Streaming sample-rate conversion for interleaved PCM audio.
//!
//! The library converts a stream of multi-channel frames sampled at one rate
//! into an equivalent stream at another rate.  The read position inside the
//! input stream is kept as an exact fixed-point value (integer part plus a
//! fraction over the output rate), so arbitrarily many processing calls never
//! drift.  The linear algorithm is implemented and verified here in full; the
//! higher-quality band-limited backend of the configuration enum is an
//! external collaborator that this core does not embed.

pub mod config;
pub mod frames;
pub mod model;
pub mod filter;
pub mod linear;
pub mod engine;
pub mod laws;
