//! A console-style text layout library: markup-aware parsing of inline
//! `#[color]...#[]` tags, greedy word-wrapping with hyphenation, and
//! alignment-aware printing of colored character runs into a 2-D cell grid.

mod buffer;
mod builder;
mod chars;
mod font;
mod frame;
pub mod laws;
pub mod codepage437;
pub mod colored;
pub mod model;
pub mod plain;
mod rect;
mod rgba;

pub use buffer::{Buffer, Cell, Glyph};
pub use builder::{AppBuilder, AppConfig};
pub use colored::{
    colored, parse_colored_line, parse_colored_lines, ColoredLine, ColoredPrinter, ColoredSpan,
    MarkupError,
};
pub use font::parse_char_size;
pub use frame::{frame, BorderType, Frame};
pub use plain::{plain, text, GlyphMapper, Line, PlainPrinter, TextAlign};
pub use rect::{rect, RectPrinter};
pub use rgba::{
    parse_color, parse_color_hex, parse_color_rgb, to_rgba, ColorParseErr, ColorResolver, RGBA,
};
