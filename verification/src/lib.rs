//! Locating and rendering mathematically typeset fragments in free-form text.
//!
//! The library splits raw text into ordered text/math/unclosed segments
//! according to a configurable table of delimiter pairs, renders each math
//! segment through the KaTeX engine, and composes the results back into a
//! single document under a strict or lenient error policy.

pub mod compose;
pub mod config;
pub mod render;
pub mod scanner;

pub use compose::ComposeError;
pub use compose::RenderContext;
pub use compose::compose;
pub use compose::compose_segments;
pub use compose::default_delimiters;
pub use config::Katex;
pub use render::KatexContext;
pub use render::RenderError;
pub use render::render_katex;
pub use scanner::Delimiter;
pub use scanner::Segment;
pub use scanner::segment;
