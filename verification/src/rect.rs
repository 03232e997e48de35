//! A filled-rectangle printer over the cell grid.

use crate::buffer::{merge_cell, Buffer, Glyph};
use crate::rgba::RGBA;
use vstd::prelude::*;

verus! {

/// Creates a [`RectPrinter`] over the buffer.
pub fn rect(buffer: Buffer) -> (r: RectPrinter)
    ensures
        r.buffer == buffer,
        r.fg is None,
        r.bg is None,
        r.glyph is None,
{
    RectPrinter::new(buffer)
}

/// Draws filled rectangles of one glyph and color pair into an owned
/// buffer.
pub struct RectPrinter {
    /// The grid the printer writes into.
    pub buffer: Buffer,
    /// The foreground written in every cell, if configured.
    pub fg: Option<RGBA>,
    /// The background written in every cell, if configured.
    pub bg: Option<RGBA>,
    /// The glyph written in every cell, if configured.
    pub glyph: Option<Glyph>,
}

impl RectPrinter {
    /// Creates a printer over the buffer with nothing configured.
    pub fn new(buffer: Buffer) -> (r: Self)
        ensures
            r.buffer == buffer,
            r.fg is None,
            r.bg is None,
            r.glyph is None,
    {
        RectPrinter { buffer, fg: None, bg: None, glyph: None }
    }

    /// Sets the foreground color.
    pub fn fg(self, fg: RGBA) -> (r: Self)
        ensures
            r == (RectPrinter { fg: Some(fg), ..self }),
    {
        RectPrinter { fg: Some(fg), ..self }
    }

    /// Sets the background color.
    pub fn bg(self, bg: RGBA) -> (r: Self)
        ensures
            r == (RectPrinter { bg: Some(bg), ..self }),
    {
        RectPrinter { bg: Some(bg), ..self }
    }

    /// Sets the glyph.
    pub fn glyph(self, glyph: Glyph) -> (r: Self)
        ensures
            r == (RectPrinter { glyph: Some(glyph), ..self }),
    {
        RectPrinter { glyph: Some(glyph), ..self }
    }

    /// Draws the rectangle: every cell of it that lies on the grid gets the
    /// configured planes, and every other cell keeps its value.
    pub fn draw(&mut self, x: i32, y: i32, width: u32, height: u32)
        ensures
            final(self).fg == old(self).fg,
            final(self).bg == old(self).bg,
            final(self).glyph == old(self).glyph,
            final(self).buffer.spec_width() == old(self).buffer.spec_width(),
            final(self).buffer.spec_height() == old(self).buffer.spec_height(),
            forall|i: int, j: int|
                old(self).buffer.in_bounds(i, j) ==> #[trigger] final(self).buffer.cell(i, j) == (
                if x <= i < x + width && y <= j < y + height {
                    merge_cell(
                        old(self).buffer.cell(i, j),
                        old(self).glyph,
                        old(self).fg,
                        old(self).bg,
                    )
                } else {
                    old(self).buffer.cell(i, j)
                }),
    {
        let glyph = self.glyph;
        let fg = self.fg;
        let bg = self.bg;
        self.buffer.area(x, y, width, height, glyph, fg, bg);
    }

    /// The buffer the printer draws into.
    pub fn buffer(&self) -> (r: &Buffer)
        ensures
            r == &self.buffer,
    {
        &self.buffer
    }

    /// Hands the buffer back, consuming the printer.
    pub fn into_buffer(self) -> (r: Buffer)
        ensures
            r == self.buffer,
    {
        self.buffer
    }
}

} // verus!
