//! Core logic of a live JPEG frame relay.
//!
//! A single camera producer pushes frames — either as a raw, unframed TCP
//! byte stream or as fragmented UDP datagrams — and many viewers pull the
//! resulting frame sequence. This crate holds the verified machinery:
//!
//! * [`extract`]: turning a raw byte stream into marker-delimited frames,
//!   with a bounded ingest buffer and a recovery policy on overflow;
//! * [`reassembly`]: rebuilding frames from lossy, out-of-order fragments
//!   under staleness, timeout and memory bounds;
//! * [`hub`]: the latest-frame cache and the bounded per-subscriber fan-out
//!   with drop-oldest lag accounting;
//! * [`stats`]: the frame and byte counters.
//!
//! Sockets, timers and task scheduling live outside this crate; every
//! function here is a pure state transition with a proved contract.

pub mod extract;
pub mod hub;
pub mod reassembly;
pub mod stats;
