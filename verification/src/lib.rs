//! Redraw-optimisation cache for an interactive terminal line editor.
//!
//! The cache maintains a mapping between byte offsets in an edited text
//! buffer (and its prompt) and the screen coordinates those offsets render
//! to, accounting for variable-width grapheme clusters and line wrapping at
//! a fixed terminal width.

pub mod cache;
pub mod model;
pub mod pos;
pub mod prompt;
pub mod seg;

pub use cache::{Entry, LayoutCache, Span};
pub use pos::{delta, shift, Position, Shift};
pub use prompt::{Prompt, PromptContext};
