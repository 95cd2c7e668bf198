//! Handwritten mathematics to LaTeX.
pub mod alphabet;
pub mod beautify;
pub mod capture;
pub mod classify;
pub mod cli;
pub mod corpus;
pub mod dataset;
pub mod denoise;
pub mod detexify;
pub mod elementary;
pub mod error;
pub mod evdev;
pub mod evaluate;
pub mod expression;
pub mod float;
pub mod format;
pub mod glyphs;
pub mod http;
pub mod inject;
pub mod json;
pub mod latex;
pub mod line;
pub mod orient;
pub mod picture;
pub mod present;
pub mod prior;
pub mod record;
pub mod rehearse;
pub mod report;
pub mod segment;
pub mod serve;
pub mod sort;
pub mod stats;
pub mod stroke;
pub mod structure;
pub mod synth;
pub mod text;
pub mod transform;
pub mod typeset;
pub mod watch;
pub mod wire;
