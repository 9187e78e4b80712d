//! Offset reconciliation and normalization for a multilingual tokenizer.
//!
//! A segmenter reports words as character spans over a possibly preprocessed
//! text; [`reconcile`] places them on the original text as byte spans, and
//! [`normalizer`] rewrites lemmas by script without moving them.

pub mod boundaries;
pub mod jieba;
pub mod normalizer;
pub mod reconcile;
pub mod token;
pub mod utf8;
