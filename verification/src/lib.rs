//! Pattern search, matching and splitting over byte buffers that hold
//! platform-native string data: bytes that are mostly, but not necessarily,
//! valid UTF-8.
//!
//! The buffer is partitioned into maximal runs of valid UTF-8 text (sections);
//! a textual pattern is searched independently inside each section while
//! original byte offsets are preserved; matches are exposed front-to-back and
//! back-to-front with a single convergence point; and split pieces (the bytes
//! between matches, which may themselves contain invalid bytes) are derived
//! from the match stream.

pub mod sections;
pub mod pattern;
pub mod split_bytes;
pub mod os_str;
pub mod wide;
