//! A simple CSS 2.1 parser: a dual-context tokenizer over a position-tracked
//! byte stream, a standalone declaration tokenizer, and a style sheet builder
//! that groups selectors, attaches declaration blocks, drops empty rules and
//! orders rules by specificity with a stable sort.

pub mod error;
pub mod selector;
pub mod sheet;
pub mod stream;
pub mod tokenizer;

pub use error::{Error, ErrorPos};
pub use selector::Selector;
pub use sheet::{Declaration, DeclarationTokenizer, Rule, StyleSheet, TextPos};
pub use stream::{is_space, Stream};
pub use tokenizer::{Combinator, Token, Tokenizer};
