//! Analytics core of a typing-practice tool.
//!
//! Given a fixed target text and a stream of keystrokes, the library tracks
//! correctness and timing, partitions the target into display spans, encodes
//! and decodes the historical log of past runs, and resamples that history
//! onto a fixed-width trend buffer.
//!
//! All rates are exact integer fixed-point values in milli-units: an accuracy
//! of `600` means 0.600, a cpm of `251_000` means 251.0 characters per minute.
//! Clock readings are supplied by the caller as milliseconds on a monotonic
//! clock; the library itself performs no I/O.
pub mod attempt;
pub mod categories;
pub mod history;
pub mod ledger;
pub mod resampler;
pub mod segment;
pub mod stats;
