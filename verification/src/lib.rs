//! Skill extraction from job postings and resumes.
//!
//! A gazetteer of skill names proposes candidate spans in a text with a
//! FlashText-style keyword matcher (case-insensitive, longest match, whole
//! words only); each candidate is then given its ±20-word context window,
//! which a sentence-embedding model and a small classifier accept or reject.
//! This crate holds the verified parts of that pipeline: the matcher, the
//! context windows, the classifier inputs, the final set of confirmed skills,
//! and the decoding of the gazetteer and of the classifier weights.

pub mod context;
pub mod loading;
pub mod matcher;
pub mod matching_laws;
pub mod text;

pub use context::{
    candidates, candidates_from_spans, classifier_input, classifier_inputs, confirmed_skills, Candidate, CONTEXT_AFTER,
    CONTEXT_BEFORE,
};
pub use loading::{decode_layers, decode_le_words, decode_weights, LayerBits, LayerSpec, LoadError, MlpSpec};
pub use matcher::{is_word_char, KeywordMatcher};
