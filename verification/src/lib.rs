//! Sampling of chess games out of PGN dumps.

pub mod ascii;
pub mod config;
pub mod decimal;
pub mod headers;
pub mod movetext;
pub mod output;
pub mod reject;
pub mod rules;
pub mod sampler;
pub mod session;
pub mod summary;
pub mod text;
pub mod verdicts;
