//! A small verse-collection site generator: parses a numbered, whitespace-
//! delimited plain-text document into chapters, segments and lines, and
//! renders each chapter as cross-linked HTML with stable anchor identifiers.

pub mod model;
pub mod numerals;
pub mod parse;
pub mod render;

pub use model::{normalize_chapters, Chapter, Line, Mode, Segment, Settings};
pub use parse::{build_chapters, line_is_marker};
pub use render::{pack, render_chapter_page, render_index, render_site, ToText};
