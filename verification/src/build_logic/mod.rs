//! The template compilation pipeline: tokenizer, classifier, validator,
//! truncation and generator.

pub mod tokenizer;
pub mod classifier;
pub mod validator;
pub mod truncation;
pub mod generator;
