//! Parser for a plain-text "chapter" format used for interlinear
//! language-learning material: original-language sentences annotated inline
//! with glossary references, paired with labeled translations and free-form
//! key/value metadata.
//!
//! The pipeline is: text -> tokenizer -> token cursor -> grammar rules
//! (recursive descent) -> document tree -> resolution pass. Each stage is
//! specified against a mathematical model of the grammar and proved to meet
//! it.

pub mod components;
pub mod errors;
pub mod parser;
pub mod strmap;
pub mod syntax;
pub mod tokenizer;
