//! Romaji input: the spelling table, the converter, and typo repair.
pub mod converter;
pub mod fuzzy;
pub mod reverse;
pub mod rules;
pub mod slips;
pub mod strokes;

pub use converter::RomajiConverter;
pub use fuzzy::{generate_hypotheses, EditType, FuzzyHypothesis};
pub use reverse::{generate_kana_hypotheses, reverse_romaji};
