//! Geometric layout analysis.
//!
//! Turns a page's positioned characters into higher-level structure (lines,
//! then paragraphs, in reading order, and ruled tables) using deterministic
//! geometric rules only.

pub mod sort;
pub mod paragraphs;
pub mod columns;
pub mod tables;
