//! Verified core of a desktop assistant's external/blocking-task bridge.
//!
//! The library models and verifies the logic that coordinates long-running or
//! externally-completed operations: invoking an external helper process and
//! interpreting its output, consuming a streamed sequence of newline-delimited
//! progress records, polling an external condition under a wall-clock budget,
//! and driving a persistent audio-output worker from an ordered command queue.
//! Platform I/O (spawning, sockets, clocks, the audio device) lives outside;
//! the decisions, parsers and orderings are proved here.

pub mod cancel;
pub mod dates;
pub mod encode;
pub mod files;
pub mod invoke;
pub mod json;
pub mod media;
pub mod ollama;
pub mod player;
pub mod poll;
pub mod records;
pub mod shortcuts;
pub mod stream;
pub mod text;

pub use cancel::CancellationToken;
