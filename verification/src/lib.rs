//! Realignment of a word-level timing transcript against a trusted script.
//!
//! A transcript gives noisy words with millisecond timestamps; a script gives
//! the exact wording without timing.  The crate assigns a start and an end
//! time to every token of the script.

pub mod text;
pub mod tokenizer;
pub mod word;
pub mod rate;
pub mod normalizer;
pub mod diff;
pub mod synth;
pub mod align;
pub mod laws;

pub use align::{match_timestamps_to_script, AlignError};
pub use tokenizer::{split, substr_pos, Token};
pub use word::Word;
