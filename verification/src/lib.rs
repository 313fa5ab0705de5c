//! # Spelunkrs
//!
//! Chinese sentence mining and vocabulary profiling: word segmentation,
//! word counting, input classification and vocabulary comparison.

pub mod comparison;
pub mod input;
pub mod tokenizer;
pub mod word_counts;

pub use input::{FileType, InputError};
pub use tokenizer::Tokenizer;
pub use word_counts::WordCounts;
