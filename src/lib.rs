//! Encounter counting from sampled screen text: marker extraction, the
//! battle state machine, the frequency table with its name normalizer, the
//! binarizer used before text recognition, and pause accounting.
pub mod battle;
pub mod binarize;
pub mod config;
pub mod monitor;
pub mod normalize;
pub mod ocr;
pub mod pause;
pub mod pokemon;
pub mod statistics;
pub mod table;
pub mod text;
