//! A bounded-memory index of word transitions: for every pair of adjacent words,
//! which locally dominant pair of words (the topic) accompanied each occurrence
//! and which word followed, in order of occurrence.
//!
//! - `unigram`: sixteen-byte word tokens, inline or held in a region.
//! - `region`: bump regions that are emptied in one step.
//! - `counter`: word counts over a sliding window, kept sorted by count.
//! - `model`: the index as text, and what recording a document does to it.
//! - `chain`: the index itself, with compaction into the alternate region.
//! - `line_processor`: turning raw lines into tokens.

pub mod chain;
pub mod clone_in;
pub mod counter;
pub mod key_index;
pub mod line_processor;
pub mod model;
pub mod region;
pub mod unigram;
