//! Word segmentation for Khmer text.
//!
//! Khmer is written without spaces between words. This crate finds word
//! boundaries with a minimum-cost decoder over a weighted dictionary, after
//! canonicalising the text, and then tidies the result with orthographic
//! rewriting rules and by merging runs of unrecognised clusters.

pub mod text;
pub mod utils;
pub mod segments;
pub mod cost;
pub mod kdict;
pub mod decoder;
pub mod optimality;
pub mod normalization;
pub mod normal_form;
pub mod rule_engine;
pub mod merger;
pub mod khmer_segmenter;
pub mod laws;
