//! A framed-box printer: borders from the line-drawing glyphs, an optional
//! fill, and an optional title on the top edge.

use crate::buffer::{merge_cell, Buffer, Cell, Glyph};
use crate::chars::chars_of;
use crate::plain::{
    part_ops, print_layout, GlyphMapper, PlainPrinter, TextAlign,
};
use crate::rgba::RGBA;
use vstd::prelude::*;
use vstd::string::StrSliceExecFns;

verus! {

/// The style of a frame's border.
#[derive(Debug, Clone, PartialEq, Eq, Structural, Copy)]
pub enum BorderType {
    /// No glyphs: the border cells carry only the frame's colors.
    Color,
    /// Single line-drawing characters.
    Single,
    /// Double line-drawing characters.
    Double,
}

impl BorderType {
    /// The eight border glyphs, in order: left and right edge, top and
    /// bottom edge, and the four corners from top-left to bottom-right.
    pub open spec fn spec_glyphs(self, mapper: GlyphMapper) -> Seq<Glyph> {
        match self {
            BorderType::Color => seq![0u32, 0u32, 0u32, 0u32, 0u32, 0u32, 0u32, 0u32],
            BorderType::Single => seq![
                mapper.spec_map('│'),
                mapper.spec_map('│'),
                mapper.spec_map('─'),
                mapper.spec_map('─'),
                mapper.spec_map('┌'),
                mapper.spec_map('┐'),
                mapper.spec_map('└'),
                mapper.spec_map('┘'),
            ],
            BorderType::Double => seq![
                mapper.spec_map('║'),
                mapper.spec_map('║'),
                mapper.spec_map('═'),
                mapper.spec_map('═'),
                mapper.spec_map('╔'),
                mapper.spec_map('╗'),
                mapper.spec_map('╚'),
                mapper.spec_map('╝'),
            ],
        }
    }

    /// The eight border glyphs under the given mapping.
    pub fn glyphs(&self, to_glyph: &GlyphMapper) -> (r: Vec<Glyph>)
        ensures
            r@ == self.spec_glyphs(*to_glyph),
    {
        let r = match self {
            BorderType::Color => vec![0, 0, 0, 0, 0, 0, 0, 0],
            BorderType::Single => vec![
                to_glyph.map('│'),
                to_glyph.map('│'),
                to_glyph.map('─'),
                to_glyph.map('─'),
                to_glyph.map('┌'),
                to_glyph.map('┐'),
                to_glyph.map('└'),
                to_glyph.map('┘'),
            ],
            BorderType::Double => vec![
                to_glyph.map('║'),
                to_glyph.map('║'),
                to_glyph.map('═'),
                to_glyph.map('═'),
                to_glyph.map('╔'),
                to_glyph.map('╗'),
                to_glyph.map('╚'),
                to_glyph.map('╝'),
            ],
        };
        proof {
            assert(r@ =~= self.spec_glyphs(*to_glyph));
        }
        r
    }
}

/// The border glyph that ends up at `(i, j)` after the frame's edge and
/// corner writes, or `None` where no border write lands: the corners win
/// over the edges, and a later write wins over an earlier one.
pub open spec fn border_glyph_at(
    i: int,
    j: int,
    left: int,
    top: int,
    right: int,
    bottom: int,
    g: Seq<Glyph>,
) -> Option<Glyph> {
    if i == right && j == bottom {
        Some(g[7])
    } else if i == left && j == bottom {
        Some(g[6])
    } else if i == right && j == top {
        Some(g[5])
    } else if i == left && j == top {
        Some(g[4])
    } else if j == bottom && left <= i < right {
        Some(g[3])
    } else if j == top && left <= i < right {
        Some(g[2])
    } else if i == right && top <= j < bottom {
        Some(g[1])
    } else if i == left && top <= j < bottom {
        Some(g[0])
    } else {
        None
    }
}

/// The cell value after the frame's optional fill.
pub open spec fn frame_fill_cell(f: Frame, x: int, y: int, w: int, h: int, i: int, j: int) -> Cell {
    let c0 = f.buffer.cell(i, j);
    if (f.fill_bg is Some || f.fill_fg is Some || f.fill_glyph is Some) && x <= i < x + w && y <= j
        < y + h {
        merge_cell(c0, f.fill_glyph, f.fill_fg, f.fill_bg)
    } else {
        c0
    }
}

/// The cell value after the fill and the border writes.
pub open spec fn frame_border_cell(f: Frame, x: int, y: int, w: int, h: int, i: int, j: int) -> Cell {
    let c1 = frame_fill_cell(f, x, y, w, h, i, j);
    let g = f.border.spec_glyphs(f.to_glyph);
    match border_glyph_at(i, j, x, y, x + w - 1, y + h - 1, g) {
        Some(bg1) => merge_cell(c1, Some(bg1), f.fg, f.bg),
        None => c1,
    }
}

/// The cell value after the fill, the border, and the title print on the
/// top edge. The title is drawn left-aligned at its anchor column with the
/// title foreground (or white), no background, and the plain unicode glyph
/// mapping, clipped against the buffer edges.
pub open spec fn frame_cell(f: Frame, x: int, y: int, w: int, h: int, i: int, j: int) -> Cell {
    let c2 = frame_border_cell(f, x, y, w, h, i, j);
    let title = f.title@;
    let tw = title.len() as int;
    if tw > 0 {
        let tx = match f.title_align {
            TextAlign::Left => x + 2,
            TextAlign::Right => x + w - tw - 2,
            TextAlign::Center => x + w / 2,
        };
        let fg = Some(
            match f.title_fg {
                Some(c) => c,
                None => RGBA(255, 255, 255, 255),
            },
        );
        let lay = print_layout(
            TextAlign::Left,
            None,
            f.buffer.spec_width() as int,
            tx,
            tw,
        );
        let ops = part_ops(GlyphMapper::Unicode, title, lay.1, lay.2, fg, None);
        if j == y && lay.0 <= i < lay.0 + ops.len() {
            merge_cell(c2, ops[i - lay.0].0, ops[i - lay.0].1, ops[i - lay.0].2)
        } else {
            c2
        }
    } else {
        c2
    }
}

/// Creates a [`Frame`] over the buffer.
pub fn frame(buffer: Buffer) -> (r: Frame)
    ensures
        r.buffer == buffer,
        r.border == BorderType::Single,
        r.fg is None,
        r.bg is None,
        r.fill_fg is None,
        r.fill_bg is None,
        r.fill_glyph is None,
        r.title@ == Seq::<char>::empty(),
        r.title_fg is None,
        r.title_align == TextAlign::Center,
        r.to_glyph == GlyphMapper::Codepage437,
{
    Frame::new(buffer)
}

/// Draws rectangular frames with borders, an optional fill and an optional
/// title into an owned buffer.
pub struct Frame {
    /// The grid the frame is drawn into.
    pub buffer: Buffer,
    /// The border style.
    pub border: BorderType,
    /// The foreground of the border cells.
    pub fg: Option<RGBA>,
    /// The background of the border cells.
    pub bg: Option<RGBA>,
    /// The foreground the fill writes, if any.
    pub fill_fg: Option<RGBA>,
    /// The glyph the fill writes, if any.
    pub fill_glyph: Option<Glyph>,
    /// The background the fill writes, if any.
    pub fill_bg: Option<RGBA>,
    /// The title drawn on the top edge; empty for none.
    pub title: String,
    /// The foreground of the title (the default is white).
    pub title_fg: Option<RGBA>,
    /// Where the title anchors on the top edge.
    pub title_align: TextAlign,
    /// The character-to-glyph mapping for the border glyphs.
    pub to_glyph: GlyphMapper,
}

impl Frame {
    /// Creates a frame over the buffer with the default configuration.
    pub fn new(buffer: Buffer) -> (r: Self)
        ensures
            r.buffer == buffer,
            r.border == BorderType::Single,
            r.fg is None,
            r.bg is None,
            r.fill_fg is None,
            r.fill_bg is None,
            r.fill_glyph is None,
            r.title@ == Seq::<char>::empty(),
            r.title_fg is None,
            r.title_align == TextAlign::Center,
            r.to_glyph == GlyphMapper::Codepage437,
    {
        Frame {
            buffer,
            border: BorderType::Single,
            fg: None,
            bg: None,
            fill_fg: None,
            fill_bg: None,
            fill_glyph: None,
            title: String::new(),
            title_fg: None,
            title_align: TextAlign::Center,
            to_glyph: GlyphMapper::Codepage437,
        }
    }

    /// Sets the border style.
    pub fn border(self, border: BorderType) -> (r: Self)
        ensures
            r == (Frame { border, ..self }),
    {
        Frame { border, ..self }
    }

    /// Sets the border foreground.
    pub fn fg(self, fg: RGBA) -> (r: Self)
        ensures
            r == (Frame { fg: Some(fg), ..self }),
    {
        Frame { fg: Some(fg), ..self }
    }

    /// Sets the border background.
    pub fn bg(self, bg: RGBA) -> (r: Self)
        ensures
            r == (Frame { bg: Some(bg), ..self }),
    {
        Frame { bg: Some(bg), ..self }
    }

    /// Sets the fill planes written inside the frame's rectangle.
    pub fn fill(self, glyph: Option<Glyph>, fg: Option<RGBA>, bg: Option<RGBA>) -> (r: Self)
        ensures
            r == (Frame { fill_glyph: glyph, fill_fg: fg, fill_bg: bg, ..self }),
    {
        Frame { fill_glyph: glyph, fill_fg: fg, fill_bg: bg, ..self }
    }

    /// Sets the title drawn on the top edge.
    pub fn title(self, title: &str) -> (r: Self)
        ensures
            r.title@ == title@,
            r.buffer == self.buffer,
            r.border == self.border,
            r.fg == self.fg,
            r.bg == self.bg,
            r.fill_fg == self.fill_fg,
            r.fill_bg == self.fill_bg,
            r.fill_glyph == self.fill_glyph,
            r.title_fg == self.title_fg,
            r.title_align == self.title_align,
            r.to_glyph == self.to_glyph,
    {
        Frame { title: title.to_owned(), ..self }
    }

    /// Sets the title foreground.
    pub fn title_fg(self, fg: RGBA) -> (r: Self)
        ensures
            r == (Frame { title_fg: Some(fg), ..self }),
    {
        Frame { title_fg: Some(fg), ..self }
    }

    /// Sets where the title anchors on the top edge.
    pub fn title_align(self, align: TextAlign) -> (r: Self)
        ensures
            r == (Frame { title_align: align, ..self }),
    {
        Frame { title_align: align, ..self }
    }

    /// The buffer the frame draws into.
    pub fn buffer(&self) -> (r: &Buffer)
        ensures
            r == &self.buffer,
    {
        &self.buffer
    }


    /// Draws the frame: the optional fill first, then the border's edges
    /// and corners (later writes win at the overlaps), then the title on
    /// the top edge; every write off the grid is ignored. The title's
    /// anchor is measured in characters.
    #[verifier::rlimit(100)]
    #[verifier::spinoff_prover]
    pub fn draw(&mut self, x: i32, y: i32, width: u32, height: u32)
        requires
            old(self).title@.len() < 0x7FFF_FFFF,
        ensures
            final(self).border == old(self).border,
            final(self).fg == old(self).fg,
            final(self).bg == old(self).bg,
            final(self).fill_fg == old(self).fill_fg,
            final(self).fill_bg == old(self).fill_bg,
            final(self).fill_glyph == old(self).fill_glyph,
            final(self).title == old(self).title,
            final(self).title_fg == old(self).title_fg,
            final(self).title_align == old(self).title_align,
            final(self).to_glyph == old(self).to_glyph,
            final(self).buffer.spec_width() == old(self).buffer.spec_width(),
            final(self).buffer.spec_height() == old(self).buffer.spec_height(),
            forall|i: int, j: int|
                old(self).buffer.in_bounds(i, j) ==> #[trigger] final(self).buffer.cell(i, j)
                    == frame_cell(
                    *old(self),
                    x as int,
                    y as int,
                    width as int,
                    height as int,
                    i,
                    j,
                ),
    {
        let ghost f0 = *self;
        let ghost gx = x as int;
        let ghost gy = y as int;
        let ghost gw = width as int;
        let ghost gh = height as int;
        if self.fill_bg.is_some() || self.fill_fg.is_some() || self.fill_glyph.is_some() {
            let fill_glyph = self.fill_glyph;
            let fill_fg = self.fill_fg;
            let fill_bg = self.fill_bg;
            self.buffer.area(x, y, width, height, fill_glyph, fill_fg, fill_bg);
        }
        proof {
            assert(forall|i: int, j: int|
                f0.buffer.in_bounds(i, j) ==> #[trigger] self.buffer.cell(i, j)
                    == frame_fill_cell(f0, gx, gy, gw, gh, i, j));
        }
        let ghost b1 = self.buffer;
        let glyphs = self.border.glyphs(&self.to_glyph);
        let ghost g = f0.border.spec_glyphs(f0.to_glyph);
        let left = x as i64;
        let top = y as i64;
        let right = x as i64 + width as i64 - 1;
        let bottom = y as i64 + height as i64 - 1;
        let fg = self.fg;
        let bg = self.bg;
        let mut cy = top;
        while cy < bottom
            invariant
                glyphs@ == g,
                g.len() == 8,
                fg == f0.fg,
                bg == f0.bg,
                left == gx && top == gy && right == gx + gw - 1 && bottom == gy + gh - 1,
                top <= cy <= bottom || cy == top,
                self.border == f0.border && self.fg == f0.fg && self.bg == f0.bg,
                self.fill_fg == f0.fill_fg && self.fill_bg == f0.fill_bg && self.fill_glyph
                    == f0.fill_glyph,
                self.title == f0.title && self.title_fg == f0.title_fg && self.title_align
                    == f0.title_align && self.to_glyph == f0.to_glyph,
                f0.title@.len() < 0x7FFF_FFFF,
                self.buffer.spec_width() == b1.spec_width(),
                self.buffer.spec_height() == b1.spec_height(),
                forall|i: int, j: int|
                    b1.in_bounds(i, j) ==> #[trigger] self.buffer.cell(i, j) == (if top <= j < cy
                        && (i == left || i == right) {
                        merge_cell(
                            b1.cell(i, j),
                            Some(
                                if i == right {
                                    g[1]
                                } else {
                                    g[0]
                                },
                            ),
                            fg,
                            bg,
                        )
                    } else {
                        b1.cell(i, j)
                    }),
            decreases bottom - cy,
        {
            let ghost bp = self.buffer;
            self.buffer.draw_opt(left, cy, Some(glyphs[0]), fg, bg);
            let ghost bq = self.buffer;
            self.buffer.draw_opt(right, cy, Some(glyphs[1]), fg, bg);
            proof {
                assert forall|i: int, j: int| b1.in_bounds(i, j) implies #[trigger] self.buffer.cell(
                    i,
                    j,
                ) == (if top <= j < cy + 1 && (i == left || i == right) {
                    merge_cell(
                        b1.cell(i, j),
                        Some(
                            if i == right {
                                g[1]
                            } else {
                                g[0]
                            },
                        ),
                        fg,
                        bg,
                    )
                } else {
                    b1.cell(i, j)
                }) by {
                    assert(bq.cell(i, j) == (if i == left && j == cy {
                        merge_cell(bp.cell(i, j), Some(g[0]), fg, bg)
                    } else {
                        bp.cell(i, j)
                    }));
                    assert(self.buffer.cell(i, j) == (if i == right && j == cy {
                        merge_cell(bq.cell(i, j), Some(g[1]), fg, bg)
                    } else {
                        bq.cell(i, j)
                    }));
                }
            }
            cy += 1;
        }
        let ghost b2 = self.buffer;
        let mut cx = left;
        while cx < right
            invariant
                glyphs@ == g,
                g.len() == 8,
                fg == f0.fg,
                bg == f0.bg,
                left == gx && top == gy && right == gx + gw - 1 && bottom == gy + gh - 1,
                left <= cx <= right || cx == left,
                self.border == f0.border && self.fg == f0.fg && self.bg == f0.bg,
                self.fill_fg == f0.fill_fg && self.fill_bg == f0.fill_bg && self.fill_glyph
                    == f0.fill_glyph,
                self.title == f0.title && self.title_fg == f0.title_fg && self.title_align
                    == f0.title_align && self.to_glyph == f0.to_glyph,
                f0.title@.len() < 0x7FFF_FFFF,
                self.buffer.spec_width() == b2.spec_width(),
                self.buffer.spec_height() == b2.spec_height(),
                forall|i: int, j: int|
                    b1.in_bounds(i, j) ==> #[trigger] b2.cell(i, j) == (if top <= j < bottom && (
                    i == left || i == right) {
                        merge_cell(
                            b1.cell(i, j),
                            Some(
                                if i == right {
                                    g[1]
                                } else {
                                    g[0]
                                },
                            ),
                            fg,
                            bg,
                        )
                    } else {
                        b1.cell(i, j)
                    }),
                b2.spec_width() == b1.spec_width() && b2.spec_height() == b1.spec_height(),
                forall|i: int, j: int|
                    b2.in_bounds(i, j) ==> #[trigger] self.buffer.cell(i, j) == (if left <= i < cx
                        && (j == top || j == bottom) {
                        merge_cell(
                            b2.cell(i, j),
                            Some(
                                if j == bottom {
                                    g[3]
                                } else {
                                    g[2]
                                },
                            ),
                            fg,
                            bg,
                        )
                    } else {
                        b2.cell(i, j)
                    }),
            decreases right - cx,
        {
            let ghost bp = self.buffer;
            self.buffer.draw_opt(cx, top, Some(glyphs[2]), fg, bg);
            let ghost bq = self.buffer;
            self.buffer.draw_opt(cx, bottom, Some(glyphs[3]), fg, bg);
            proof {
                assert forall|i: int, j: int| b2.in_bounds(i, j) implies #[trigger] self.buffer.cell(
                    i,
                    j,
                ) == (if left <= i < cx + 1 && (j == top || j == bottom) {
                    merge_cell(
                        b2.cell(i, j),
                        Some(
                            if j == bottom {
                                g[3]
                            } else {
                                g[2]
                            },
                        ),
                        fg,
                        bg,
                    )
                } else {
                    b2.cell(i, j)
                }) by {
                    assert(bq.cell(i, j) == (if i == cx && j == top {
                        merge_cell(bp.cell(i, j), Some(g[2]), fg, bg)
                    } else {
                        bp.cell(i, j)
                    }));
                    assert(self.buffer.cell(i, j) == (if i == cx && j == bottom {
                        merge_cell(bq.cell(i, j), Some(g[3]), fg, bg)
                    } else {
                        bq.cell(i, j)
                    }));
                }
            }
            cx += 1;
        }
        let ghost b3 = self.buffer;
        self.buffer.draw_opt(left, top, Some(glyphs[4]), fg, bg);
        let ghost c1 = self.buffer;
        self.buffer.draw_opt(right, top, Some(glyphs[5]), fg, bg);
        let ghost c2 = self.buffer;
        self.buffer.draw_opt(left, bottom, Some(glyphs[6]), fg, bg);
        let ghost c3 = self.buffer;
        self.buffer.draw_opt(right, bottom, Some(glyphs[7]), fg, bg);
        proof {
            assert forall|i: int, j: int| f0.buffer.in_bounds(i, j) implies #[trigger] self.buffer.cell(
                i,
                j,
            ) == frame_border_cell(f0, gx, gy, gw, gh, i, j) by {
                assert(b1.cell(i, j) == frame_fill_cell(f0, gx, gy, gw, gh, i, j));
                assert(b2.cell(i, j) == (if top <= j < bottom && (i == left || i == right) {
                    merge_cell(
                        b1.cell(i, j),
                        Some(
                            if i == right {
                                g[1]
                            } else {
                                g[0]
                            },
                        ),
                        fg,
                        bg,
                    )
                } else {
                    b1.cell(i, j)
                }));
                assert(b3.cell(i, j) == (if left <= i < right && (j == top || j == bottom) {
                    merge_cell(
                        b2.cell(i, j),
                        Some(
                            if j == bottom {
                                g[3]
                            } else {
                                g[2]
                            },
                        ),
                        fg,
                        bg,
                    )
                } else {
                    b2.cell(i, j)
                }));
                assert(c1.cell(i, j) == (if i == left && j == top {
                    merge_cell(b3.cell(i, j), Some(g[4]), fg, bg)
                } else {
                    b3.cell(i, j)
                }));
                assert(c2.cell(i, j) == (if i == right && j == top {
                    merge_cell(c1.cell(i, j), Some(g[5]), fg, bg)
                } else {
                    c1.cell(i, j)
                }));
                assert(c3.cell(i, j) == (if i == left && j == bottom {
                    merge_cell(c2.cell(i, j), Some(g[6]), fg, bg)
                } else {
                    c2.cell(i, j)
                }));
                assert(self.buffer.cell(i, j) == (if i == right && j == bottom {
                    merge_cell(c3.cell(i, j), Some(g[7]), fg, bg)
                } else {
                    c3.cell(i, j)
                }));
            }
        }
        let ghost b4 = self.buffer;
        let tw = self.title.unicode_len() as i64;
        if tw > 0 {
            let tx: i64 = match self.title_align {
                TextAlign::Left => x as i64 + 2,
                TextAlign::Right => x as i64 + width as i64 - tw - 2,
                TextAlign::Center => x as i64 + (width as i64) / 2,
            };
            if -0x8000_0000 <= tx && tx <= 0x7FFF_FFFF {
                let mut swap_buf = Buffer::new(0, 0);
                core::mem::swap(&mut swap_buf, &mut self.buffer);
                let mut printer = match self.title_fg {
                    None => PlainPrinter::new(swap_buf),
                    Some(c) => PlainPrinter::new(swap_buf).fg(c),
                };
                let title_chars = chars_of(self.title.as_str());
                printer.print_vec_pub(tx, y as i64, &title_chars);
                let mut back = printer.into_buffer();
                core::mem::swap(&mut self.buffer, &mut back);
                proof {
                    assert forall|i: int, j: int| f0.buffer.in_bounds(i, j) implies #[trigger] self.buffer.cell(
                        i,
                        j,
                    ) == frame_cell(f0, gx, gy, gw, gh, i, j) by {
                        assert(b4.cell(i, j) == frame_border_cell(f0, gx, gy, gw, gh, i, j));
                    }
                }
            } else {
                // An anchor this far off the grid prints nothing: the
                // clipped cell count collapses to zero.
                let bw = self.buffer.width();
                proof {
                    let lay = print_layout(
                        TextAlign::Left,
                        None,
                        f0.buffer.spec_width() as int,
                        tx as int,
                        f0.title@.len() as int,
                    );
                    assert(lay.2 == 0);
                    assert forall|i: int, j: int| f0.buffer.in_bounds(i, j) implies #[trigger] self.buffer.cell(
                        i,
                        j,
                    ) == frame_cell(f0, gx, gy, gw, gh, i, j) by {
                        assert(b4.cell(i, j) == frame_border_cell(f0, gx, gy, gw, gh, i, j));
                    }
                }
            }
        } else {
            proof {
                assert(forall|i: int, j: int|
                    f0.buffer.in_bounds(i, j) ==> #[trigger] self.buffer.cell(i, j) == frame_cell(
                        f0,
                        gx,
                        gy,
                        gw,
                        gh,
                        i,
                        j,
                    ));
            }
        }
    }

    /// Hands the buffer back, consuming the frame.
    pub fn into_buffer(self) -> (r: Buffer)
        ensures
            r == self.buffer,
    {
        self.buffer
    }
}

} // verus!
