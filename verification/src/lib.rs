//! A minimal markup-document rendering core.
//!
//! The library parses a constrained HTML-like markup subset and a
//! constrained CSS-like style-sheet subset, resolves a cascading style
//! for every node of the resulting tree, and computes a recursive
//! box-model layout that is emitted as an ordered sequence of paint
//! primitives for an external painter.

pub mod cascade;
pub mod color;
pub mod css;
pub mod distance;
pub mod flow;
pub mod html;
pub mod layout;
pub mod render;
pub mod stream;
pub mod strutil;
pub mod stylemap;
