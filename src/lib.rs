//! Rule-based sentence splitting with per-language non-breaking prefixes.
pub mod bundled;
pub mod laws;
pub mod prefixes;
pub mod splitter;
pub mod text;

pub use prefixes::PrefixType;
pub use splitter::{split_text_into_sentences, SentenceSplitter, SentenceSplitterError};
