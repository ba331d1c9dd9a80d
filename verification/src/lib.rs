//! Text similarity analysis: sentence splitting, template stripping,
//! word-set and edit-distance comparison, term statistics for TF-IDF,
//! n-gram matching and report building.

pub mod text;
pub mod sentence;
pub mod tfidf;
pub mod lexicon;
pub mod stats;
pub mod analysis;
pub mod report;
