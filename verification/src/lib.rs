//! An interactive solver core for a fixed-length word-guessing game.
//!
//! The library accumulates per-letter knowledge across guessing rounds
//! (letters confirmed at exact positions, letters known present but
//! misplaced, letters confirmed absent) and decides which candidate words
//! are still admissible under everything learned so far.  All I/O — the
//! word list on disk, the operator supplying feedback — is left to the
//! surrounding program; the library works on plain values and is verified.

pub mod config;
pub mod feedback;
pub mod knowledge;
pub mod laws;
pub mod model;
pub mod words;

pub use config::WORD_LENGTH;
