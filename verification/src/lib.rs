//! Aggressive SVG minification with verified tree passes.
pub mod error;
pub mod text;
pub mod tree;
pub mod xml;
pub mod stripper;
pub mod css;
pub mod icon;
pub mod patterns;
pub mod cleanup;
pub mod component;
pub mod references;
pub mod queries;
pub mod laws;
pub mod facts;
pub mod style_round_trip;
pub mod pass_laws;

pub use error::SvgStripError;
pub use icon::IconSize;
pub use stripper::{NumberFacts, NumberQueries, OptimizeStats, StripConfig, SvgStripper};
