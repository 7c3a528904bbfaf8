//! Sentence segmentation for many languages.

pub mod case;
pub mod chars;
pub mod constants;
pub mod languages;
pub mod laws;
pub mod order;
pub mod pattern;
pub mod text;
pub mod utf8;
pub mod words;

pub use languages::boundary::SentenceBoundary;
