//! Plain (uncolored) text: the line model with an explicit hyphen mark, the
//! plain word-wrap engine, and the alignment-aware plain printer.

use crate::buffer::{merge_cell, Buffer, Cell, Glyph};
use crate::chars::{chars_of, find_char_from, subvec};
use crate::codepage437;
use crate::model;
use crate::model::{plain_chars, text_of, ColoredText};
use crate::rgba::RGBA;
use vstd::math::min as spec_min;
use vstd::prelude::*;

verus! {

/// How printed text relates to the given `x` coordinate.
#[derive(Copy, Clone, Debug, PartialEq, Eq, Structural)]
pub enum TextAlign {
    /// The text begins at `x`.
    Left,
    /// The text ends at `x`.
    Right,
    /// The text is centered on `x`.
    Center,
}

/// The character-to-glyph mapping a printer uses.
#[derive(Copy, Clone, Debug, PartialEq, Eq, Structural)]
pub enum GlyphMapper {
    /// A character's own code point is its glyph id.
    Unicode,
    /// The CP437 table maps characters to the legacy code page.
    Codepage437,
}

impl GlyphMapper {
    /// The glyph id this mapping gives a character.
    pub open spec fn spec_map(self, c: char) -> Glyph {
        match self {
            GlyphMapper::Unicode => c as u32,
            GlyphMapper::Codepage437 => codepage437::glyph_of(c),
        }
    }

    /// Maps a character to its glyph id.
    pub fn map(&self, c: char) -> (g: Glyph)
        ensures
            g == self.spec_map(c),
    {
        match self {
            GlyphMapper::Unicode => c as u32,
            GlyphMapper::Codepage437 => codepage437::to_glyph(c),
        }
    }
}

/// One cell write: the glyph, foreground and background planes it supplies.
pub type DrawOp = (Option<Glyph>, Option<RGBA>, Option<RGBA>);

/// The write that fills one padding cell: the blank glyph 0 over the
/// printer's default colors.
pub open spec fn blank_op(fg: Option<RGBA>, bg: Option<RGBA>) -> DrawOp {
    (Some(0u32), fg, bg)
}

/// `n` copies of one write.
pub open spec fn repeat_op(op: DrawOp, n: int) -> Seq<DrawOp> {
    if n >= 0 {
        Seq::new(n as nat, |i: int| op)
    } else {
        Seq::empty()
    }
}

/// The writes that print the characters of `t` in order: each character's
/// glyph over the given colors.
pub open spec fn char_ops(mapper: GlyphMapper, t: Seq<char>, fg: Option<RGBA>, bg: Option<RGBA>) -> Seq<DrawOp> {
    Seq::new(t.len(), |i: int| (Some(mapper.spec_map(t[i])), fg, bg))
}

/// Halving that rounds toward zero.
pub open spec fn half_down(a: int) -> int {
    if a >= 0 {
        a / 2
    } else {
        -((-a) / 2)
    }
}

/// The row width a printer uses: the configured width, or the text's length.
pub open spec fn row_width(width: Option<i32>, len: int) -> int {
    match width {
        Some(w) => w as int,
        None => len,
    }
}

/// The number of padding cells in a row of width `w` holding `len` text
/// cells.
pub open spec fn row_spaces(w: int, len: int) -> int {
    w - spec_min(w, len)
}

/// The padding written before the text, by alignment.
pub open spec fn row_pre(align: TextAlign, w: int, len: int) -> int {
    match align {
        TextAlign::Left => 0,
        TextAlign::Right => row_spaces(w, len),
        TextAlign::Center => row_spaces(w, len) / 2,
    }
}

/// The padding written after the text, by alignment.
pub open spec fn row_post(align: TextAlign, w: int, len: int) -> int {
    row_spaces(w, len) - row_pre(align, w, len)
}

/// The column the row starts at, by alignment.
pub open spec fn row_start(align: TextAlign, x: int, w: int, len: int) -> int {
    match align {
        TextAlign::Left => x,
        TextAlign::Right => x - w + 1,
        TextAlign::Center => x - row_spaces(w, len) / 2 - half_down(spec_min(w, len)),
    }
}

/// How one row print changes a buffer: the writes of `ops` land on row `y`
/// at consecutive columns from `sx`, each merging into the cell it covers
/// (writes off the grid are dropped); every other cell keeps its value, and
/// the grid keeps its size.
pub open spec fn apply_row(b0: Buffer, b1: Buffer, sx: int, y: int, ops: Seq<DrawOp>) -> bool {
    &&& b1.spec_width() == b0.spec_width()
    &&& b1.spec_height() == b0.spec_height()
    &&& forall|i: int, j: int|
        b0.in_bounds(i, j) ==> #[trigger] b1.cell(i, j) == (if j == y && sx <= i < sx + ops.len() {
            merge_cell(b0.cell(i, j), ops[i - sx].0, ops[i - sx].1, ops[i - sx].2)
        } else {
            b0.cell(i, j)
        })
}

/// Applying two runs of writes in sequence on one row applies their
/// concatenation.
pub proof fn lemma_apply_row_concat(
    b0: Buffer,
    b1: Buffer,
    b2: Buffer,
    sx: int,
    y: int,
    ops1: Seq<DrawOp>,
    ops2: Seq<DrawOp>,
)
    requires
        apply_row(b0, b1, sx, y, ops1),
        apply_row(b1, b2, sx + ops1.len(), y, ops2),
    ensures
        apply_row(b0, b2, sx, y, ops1 + ops2),
{
    let ops = ops1 + ops2;
    assert forall|i: int, j: int| b0.in_bounds(i, j) implies #[trigger] b2.cell(i, j) == (if j == y
        && sx <= i < sx + ops.len() {
        merge_cell(b0.cell(i, j), ops[i - sx].0, ops[i - sx].1, ops[i - sx].2)
    } else {
        b0.cell(i, j)
    }) by {
        assert(b1.cell(i, j) == (if j == y && sx <= i < sx + ops1.len() {
            merge_cell(b0.cell(i, j), ops1[i - sx].0, ops1[i - sx].1, ops1[i - sx].2)
        } else {
            b0.cell(i, j)
        }));
        if j == y && sx <= i < sx + ops.len() {
            if i < sx + ops1.len() {
                assert(ops[i - sx] == ops1[i - sx]);
            } else {
                assert(ops[i - sx] == ops2[i - (sx + ops1.len())]);
            }
        }
    }
}

/// Writes `n` padding cells at consecutive columns from `sx` on row `y`.
pub(crate) fn draw_blanks(buf: &mut Buffer, sx: i64, y: i64, n: i64, fg: Option<RGBA>, bg: Option<RGBA>)
    requires
        -0x4000_0000_0000_0000 <= sx <= 0x4000_0000_0000_0000,
        n <= 0x4000_0000_0000_0000,
    ensures
        apply_row(*old(buf), *final(buf), sx as int, y as int, repeat_op(blank_op(fg, bg), n as int)),
{
    let ghost ops = repeat_op(blank_op(fg, bg), n as int);
    if n <= 0 {
        proof {
            assert(apply_row(*buf, *buf, sx as int, y as int, ops));
        }
        return ;
    }
    let mut m: i64 = 0;
    while m < n
        invariant
            0 <= m <= n <= 0x4000_0000_0000_0000,
            -0x4000_0000_0000_0000 <= sx <= 0x4000_0000_0000_0000,
            ops == repeat_op(blank_op(fg, bg), n as int),
            apply_row(*old(buf), *buf, sx as int, y as int, ops.take(m as int)),
        decreases n - m,
    {
        let ghost bmid = *buf;
        buf.draw_opt(sx + m, y, Some(0), fg, bg);
        proof {
            assert(apply_row(bmid, *buf, sx + m, y as int, seq![blank_op(fg, bg)]));
            lemma_apply_row_concat(
                *old(buf),
                bmid,
                *buf,
                sx as int,
                y as int,
                ops.take(m as int),
                seq![blank_op(fg, bg)],
            );
            assert(ops.take(m + 1) =~= ops.take(m as int) + seq![blank_op(fg, bg)]);
        }
        m += 1;
    }
    proof {
        assert(ops.take(n as int) =~= ops);
    }
}

/// Writes the characters of `t` at consecutive columns from `sx` on row `y`.
pub(crate) fn draw_text(
    buf: &mut Buffer,
    sx: i64,
    y: i64,
    t: &Vec<char>,
    mapper: &GlyphMapper,
    fg: Option<RGBA>,
    bg: Option<RGBA>,
)
    requires
        -0x4000_0000_0000_0000 <= sx <= 0x4000_0000_0000_0000,
        t@.len() <= 0x4000_0000_0000_0000,
    ensures
        apply_row(*old(buf), *final(buf), sx as int, y as int, char_ops(*mapper, t@, fg, bg)),
{
    let ghost ops = char_ops(*mapper, t@, fg, bg);
    let n = t.len();
    let mut m: usize = 0;
    proof {
        assert(apply_row(*buf, *buf, sx as int, y as int, ops.take(0)));
    }
    while m < n
        invariant
            0 <= m <= n,
            n == t@.len() <= 0x4000_0000_0000_0000,
            -0x4000_0000_0000_0000 <= sx <= 0x4000_0000_0000_0000,
            ops == char_ops(*mapper, t@, fg, bg),
            apply_row(*old(buf), *buf, sx as int, y as int, ops.take(m as int)),
        decreases n - m,
    {
        let ghost bmid = *buf;
        let g = mapper.map(t[m]);
        buf.draw_opt(sx + m as i64, y, Some(g), fg, bg);
        proof {
            assert(apply_row(bmid, *buf, sx + m, y as int, seq![(Some(g), fg, bg)]));
            lemma_apply_row_concat(
                *old(buf),
                bmid,
                *buf,
                sx as int,
                y as int,
                ops.take(m as int),
                seq![(Some(g), fg, bg)],
            );
            assert(ops.take(m + 1) =~= ops.take(m as int) + seq![(Some(g), fg, bg)]);
        }
        m += 1;
    }
    proof {
        assert(ops.take(n as int) =~= ops);
    }
}

/// One plain output row: its characters, and whether a synthetic hyphen
/// follows them.
#[derive(Debug)]
pub struct Line {
    /// The characters of the row.
    pub txt: Vec<char>,
    /// Whether the row ends in a synthetic hyphen, counted in its length.
    pub hyphen: bool,
}

/// The characters a line renders as: its text, with the hyphen appended
/// when the line carries one.
pub open spec fn rendered(l: &Line) -> Seq<char> {
    if l.hyphen {
        l.txt@.push('-')
    } else {
        l.txt@
    }
}

/// The writes that print one full row of text: padding, the characters,
/// padding.
pub open spec fn full_row_ops(
    t: Seq<char>,
    width: Option<i32>,
    align: TextAlign,
    fg: Option<RGBA>,
    bg: Option<RGBA>,
    mapper: GlyphMapper,
) -> Seq<DrawOp> {
    let len = t.len() as int;
    let w = row_width(width, len);
    repeat_op(blank_op(fg, bg), row_pre(align, w, len)) + char_ops(mapper, t, fg, bg) + repeat_op(
        blank_op(fg, bg),
        row_post(align, w, len),
    )
}

/// The writes that print one plain row: padding, the rendered characters,
/// padding.
pub open spec fn plain_line_ops(
    l: &Line,
    width: Option<i32>,
    align: TextAlign,
    fg: Option<RGBA>,
    bg: Option<RGBA>,
    mapper: GlyphMapper,
) -> Seq<DrawOp> {
    let len = rendered(l).len() as int;
    let w = row_width(width, len);
    repeat_op(blank_op(fg, bg), row_pre(align, w, len)) + char_ops(mapper, rendered(l), fg, bg)
        + repeat_op(blank_op(fg, bg), row_post(align, w, len))
}

/// A line's print writes are exactly the full-row writes of its rendered
/// text.
pub proof fn lemma_plain_line_ops(
    l: &Line,
    width: Option<i32>,
    align: TextAlign,
    fg: Option<RGBA>,
    bg: Option<RGBA>,
    mapper: GlyphMapper,
)
    ensures
        plain_line_ops(l, width, align, fg, bg, mapper) == full_row_ops(
            rendered(l),
            width,
            align,
            fg,
            bg,
            mapper,
        ),
{
}

impl Line {
    /// Constructs a line of the given text, with no hyphen.
    pub fn new(t: &str) -> (r: Self)
        ensures
            r.txt@ == t@,
            !r.hyphen,
    {
        Line { txt: chars_of(t), hyphen: false }
    }

    /// The line with a synthetic hyphen marked at its end.
    pub fn with_hyphen(self) -> (r: Self)
        ensures
            r.txt@ == self.txt@,
            r.hyphen,
    {
        Line { txt: self.txt, hyphen: true }
    }

    /// The length of the line in characters, the hyphen included.
    pub fn char_len(&self) -> (r: usize)
        requires
            self.txt@.len() < usize::MAX,
        ensures
            r == rendered(self).len(),
    {
        if self.hyphen {
            self.txt.len() + 1
        } else {
            self.txt.len()
        }
    }

    /// The position of the last space in the line's text that lies strictly
    /// below the window `char_idx`, or `None` when that part holds no space.
    pub fn last_break_before(&self, char_idx: usize) -> (r: Option<usize>)
        ensures
            model::opt_as_int(r) == model::last_space_before(self.txt@, char_idx as int),
    {
        last_space_scan(&self.txt, char_idx)
    }

    /// The text up to (but not including) the first space; the whole line
    /// when it holds no space.
    pub fn first_word(&self) -> (r: Self)
        ensures
            r.txt@ == self.txt@.take(model::first_word_len(self.txt@) as int),
            !r.hyphen,
    {
        let j = find_char_from(&self.txt, ' ', 0);
        proof {
            model::lemma_find_off(self.txt@, ' ');
            assert(self.txt@.skip(0) =~= self.txt@);
        }
        Line { txt: subvec(&self.txt, 0, j), hyphen: false }
    }

    /// Splits the text so the right side begins at `char_idx`; the left
    /// side is marked with a synthetic hyphen, counted in its length.
    pub fn hyphenate_at_char(&self, char_idx: usize) -> (r: (Self, Self))
        requires
            char_idx <= self.txt@.len(),
        ensures
            r.0.txt@ == self.txt@.take(char_idx as int),
            r.0.hyphen,
            r.1.txt@ == self.txt@.skip(char_idx as int),
            !r.1.hyphen,
    {
        let left = Line { txt: subvec(&self.txt, 0, char_idx), hyphen: true };
        let right = Line { txt: subvec(&self.txt, char_idx, self.txt.len()), hyphen: false };
        proof {
            assert(self.txt@.subrange(0, char_idx as int) =~= self.txt@.take(char_idx as int));
            assert(self.txt@.subrange(char_idx as int, self.txt@.len() as int) =~= self.txt@.skip(
                char_idx as int,
            ));
        }
        (left, right)
    }

    /// Splits the text in two, dropping the space character at `char_idx`.
    pub fn split_at_space(&self, char_idx: usize) -> (r: (Self, Self))
        requires
            char_idx < self.txt@.len(),
        ensures
            r.0.txt@ == self.txt@.take(char_idx as int),
            !r.0.hyphen,
            r.1.txt@ == self.txt@.skip(char_idx + 1),
            !r.1.hyphen,
    {
        let n = self.txt.len();
        let left = Line { txt: subvec(&self.txt, 0, char_idx), hyphen: false };
        let right = Line { txt: subvec(&self.txt, char_idx + 1, n), hyphen: false };
        proof {
            assert(self.txt@.subrange(0, char_idx as int) =~= self.txt@.take(char_idx as int));
            assert(self.txt@.subrange(char_idx + 1, self.txt@.len() as int) =~= self.txt@.skip(
                char_idx + 1,
            ));
        }
        (left, right)
    }

    /// Prints the row into the printer's buffer at `(x, y)`: padding and
    /// alignment come from the printer's configuration, and the return value
    /// is the row width used.
    pub fn print(&self, printer: &mut PlainPrinter, x: i32, y: i32) -> (r: i32)
        requires
            self.txt@.len() < 0x7FFF_FFFF,
        ensures
            printer_config_unchanged(old(printer), final(printer)),
            r == row_width(old(printer).width, rendered(self).len() as int),
            apply_row(
                old(printer).buffer,
                final(printer).buffer,
                row_start(
                    old(printer).align,
                    x as int,
                    row_width(old(printer).width, rendered(self).len() as int),
                    rendered(self).len() as int,
                ),
                y as int,
                plain_line_ops(
                    self,
                    old(printer).width,
                    old(printer).align,
                    old(printer).fg,
                    old(printer).bg,
                    old(printer).to_glyph,
                ),
            ),
    {
        self.print_at(printer, x as i64, y as i64) as i32
    }

    /// The wide-coordinate core of [`Line::print`].
    #[verifier::rlimit(100)]
    #[verifier::spinoff_prover]
    pub(crate) fn print_at(&self, printer: &mut PlainPrinter, x: i64, y: i64) -> (r: i64)
        requires
            self.txt@.len() < 0x7FFF_FFFF,
            -0x8000_0000 <= x <= 0x7FFF_FFFF,
        ensures
            printer_config_unchanged(old(printer), final(printer)),
            r == row_width(old(printer).width, rendered(self).len() as int),
            apply_row(
                old(printer).buffer,
                final(printer).buffer,
                row_start(
                    old(printer).align,
                    x as int,
                    row_width(old(printer).width, rendered(self).len() as int),
                    rendered(self).len() as int,
                ),
                y as int,
                plain_line_ops(
                    self,
                    old(printer).width,
                    old(printer).align,
                    old(printer).fg,
                    old(printer).bg,
                    old(printer).to_glyph,
                ),
            ),
    {
        let len = self.char_len() as i64;
        let w: i64 = match printer.width {
            Some(wc) => wc as i64,
            None => len,
        };
        let self_len: i64 = if w < len {
            w
        } else {
            len
        };
        let spaces: i64 = w - self_len;
        let half: i64 = spaces / 2;
        let halflen: i64 = if self_len >= 0 {
            self_len / 2
        } else {
            -((-self_len) / 2)
        };
        let sx: i64;
        let pre: i64;
        let post: i64;
        match printer.align {
            TextAlign::Left => {
                sx = x;
                pre = 0;
                post = spaces;
            },
            TextAlign::Center => {
                sx = x - half - halflen;
                pre = half;
                post = spaces - half;
            },
            TextAlign::Right => {
                sx = x - w + 1;
                pre = spaces;
                post = 0;
            },
        }
        let ghost ops = plain_line_ops(
            self,
            printer.width,
            printer.align,
            printer.fg,
            printer.bg,
            printer.to_glyph,
        );
        let ghost pre_ops = repeat_op(blank_op(printer.fg, printer.bg), pre as int);
        let ghost text_ops = char_ops(printer.to_glyph, rendered(self), printer.fg, printer.bg);
        let ghost post_ops = repeat_op(blank_op(printer.fg, printer.bg), post as int);
        proof {
            assert(pre >= 0 && post >= 0);
            assert(ops =~= pre_ops + text_ops + post_ops);
        }
        let fg = printer.fg;
        let bg = printer.bg;
        let mapper = printer.to_glyph;
        let ghost b0 = printer.buffer;
        draw_blanks(&mut printer.buffer, sx, y, pre, fg, bg);
        let ghost b1 = printer.buffer;
        draw_text(&mut printer.buffer, sx + pre, y, &self.txt, &mapper, fg, bg);
        let mut cx = sx + pre + self.txt.len() as i64;
        let ghost mut b2 = printer.buffer;
        if self.hyphen {
            let g = mapper.map('-');
            printer.buffer.draw_opt(cx, y, Some(g), fg, bg);
            cx += 1;
            proof {
                assert(apply_row(b2, printer.buffer, sx + pre + self.txt@.len(), y as int, seq![
                    (Some(mapper.spec_map('-')), fg, bg),
                ]));
                assert(char_ops(mapper, rendered(self), fg, bg) =~= char_ops(
                    mapper,
                    self.txt@,
                    fg,
                    bg,
                ) + seq![(Some(mapper.spec_map('-')), fg, bg)]);
                lemma_apply_row_concat(
                    b1,
                    b2,
                    printer.buffer,
                    sx + pre,
                    y as int,
                    char_ops(mapper, self.txt@, fg, bg),
                    seq![(Some(mapper.spec_map('-')), fg, bg)],
                );
                b2 = printer.buffer;
            }
        } else {
            proof {
                assert(char_ops(mapper, rendered(self), fg, bg) =~= char_ops(
                    mapper,
                    self.txt@,
                    fg,
                    bg,
                ));
            }
        }
        proof {
            assert(apply_row(b1, b2, sx + pre, y as int, text_ops));
            lemma_apply_row_concat(b0, b1, b2, sx as int, y as int, pre_ops, text_ops);
        }
        draw_blanks(&mut printer.buffer, cx, y, post, fg, bg);
        proof {
            assert(cx == sx + pre_ops.len() + text_ops.len());
            lemma_apply_row_concat(
                b0,
                b2,
                printer.buffer,
                sx as int,
                y as int,
                pre_ops + text_ops,
                post_ops,
            );
            assert((pre_ops + text_ops) + post_ops =~= ops);
        }
        w
    }
}

/// Whether two printer states share the whole configuration and the
/// buffer's size.
pub open spec fn printer_config_unchanged(a: &PlainPrinter, b: &PlainPrinter) -> bool {
    &&& b.width == a.width
    &&& b.align == a.align
    &&& b.fg == a.fg
    &&& b.bg == a.bg
    &&& b.to_glyph == a.to_glyph
    &&& b.buffer.spec_width() == a.buffer.spec_width()
    &&& b.buffer.spec_height() == a.buffer.spec_height()
}

/// Prints plain text into an owned buffer, with optional fixed width,
/// alignment, colors and glyph mapping.
pub struct PlainPrinter {
    /// The grid the printer writes into.
    pub buffer: Buffer,
    /// The fixed row width, if configured.
    pub width: Option<i32>,
    /// How rows relate to the `x` coordinate of a print.
    pub align: TextAlign,
    /// The foreground color written with every cell.
    pub fg: Option<RGBA>,
    /// The background color written with every cell.
    pub bg: Option<RGBA>,
    /// The character-to-glyph mapping.
    pub to_glyph: GlyphMapper,
}

/// Creates a [`PlainPrinter`] over the buffer.
pub fn plain(buffer: Buffer) -> (r: PlainPrinter)
    ensures
        r == PlainPrinter::spec_new(buffer),
{
    PlainPrinter::new(buffer)
}

/// Creates a [`PlainPrinter`] over the buffer.
pub fn text(buffer: Buffer) -> (r: PlainPrinter)
    ensures
        r == PlainPrinter::spec_new(buffer),
{
    PlainPrinter::new(buffer)
}

impl PlainPrinter {
    /// A fresh printer over a buffer: no fixed width, left alignment, white
    /// foreground, no background, unicode glyph mapping.
    pub open spec fn spec_new(buffer: Buffer) -> PlainPrinter {
        PlainPrinter {
            buffer,
            width: None,
            align: TextAlign::Left,
            fg: Some(RGBA(255, 255, 255, 255)),
            bg: None,
            to_glyph: GlyphMapper::Unicode,
        }
    }

    /// Creates a printer over the buffer with the default configuration.
    pub fn new(buffer: Buffer) -> (r: Self)
        ensures
            r == Self::spec_new(buffer),
    {
        PlainPrinter {
            buffer,
            width: None,
            align: TextAlign::Left,
            fg: Some(RGBA::rgb(255, 255, 255)),
            bg: None,
            to_glyph: GlyphMapper::Unicode,
        }
    }

    /// Sets the width of the printing; rows wider than the text are padded
    /// with the blank glyph (and any background).
    pub fn width(self, width: i32) -> (r: Self)
        ensures
            r == (PlainPrinter { width: Some(width), ..self }),
    {
        PlainPrinter { width: Some(width), ..self }
    }

    /// Sets the alignment for the printing.
    pub fn align(self, align: TextAlign) -> (r: Self)
        ensures
            r == (PlainPrinter { align, ..self }),
    {
        PlainPrinter { align, ..self }
    }

    /// Sets the foreground color (the default is white).
    pub fn fg(self, fg: RGBA) -> (r: Self)
        ensures
            r == (PlainPrinter { fg: Some(fg), ..self }),
    {
        PlainPrinter { fg: Some(fg), ..self }
    }

    /// Sets the background color (the default is none).
    pub fn bg(self, bg: RGBA) -> (r: Self)
        ensures
            r == (PlainPrinter { bg: Some(bg), ..self }),
    {
        PlainPrinter { bg: Some(bg), ..self }
    }

    /// Sets the character-to-glyph mapping (the default is the character's
    /// own code point).
    pub fn to_glyph(self, to_glyph: GlyphMapper) -> (r: Self)
        ensures
            r == (PlainPrinter { to_glyph, ..self }),
    {
        PlainPrinter { to_glyph, ..self }
    }

    /// The buffer the printer draws into.
    pub fn buffer(&self) -> (r: &Buffer)
        ensures
            r == &self.buffer,
    {
        &self.buffer
    }

    /// Hands the buffer back, consuming the printer.
    pub fn into_buffer(self) -> (r: Buffer)
        ensures
            r == self.buffer,
    {
        self.buffer
    }

    /// Writes one character at `(x, y)` with the printer's colors.
    pub fn print_char(&mut self, x: i32, y: i32, ch: char)
        ensures
            printer_config_unchanged(old(self), final(self)),
            apply_row(old(self).buffer, final(self).buffer, x as int, y as int, seq![
                (Some(old(self).to_glyph.spec_map(ch)), old(self).fg, old(self).bg),
            ]),
    {
        let g = self.to_glyph.map(ch);
        let fg = self.fg;
        let bg = self.bg;
        self.buffer.draw_opt(x as i64, y as i64, Some(g), fg, bg);
    }
}

/// The character printed for cell `i` of a clipped print: the text's
/// character there, or the null character past its end.
pub open spec fn char_at_pad(t: Seq<char>, i: int) -> char {
    if 0 <= i < t.len() {
        t[i]
    } else {
        '\0'
    }
}

/// The writes of a clipped print: `count` cells, holding the characters of
/// `t` from `start` on, padded with the null character past the end.
pub open spec fn part_ops(
    mapper: GlyphMapper,
    t: Seq<char>,
    start: int,
    count: int,
    fg: Option<RGBA>,
    bg: Option<RGBA>,
) -> Seq<DrawOp> {
    Seq::new(
        if count >= 0 {
            count as nat
        } else {
            0
        },
        |i: int| (Some(mapper.spec_map(char_at_pad(t, start + i))), fg, bg),
    )
}

/// The clipping layout of a plain print: the starting column, the first
/// character index, and the number of cells, after shifting a row that
/// starts left of the grid and truncating one that runs past its right
/// edge.
pub open spec fn print_layout(align: TextAlign, width: Option<i32>, bufw: int, x: int, len: int) -> (
    int,
    int,
    int,
) {
    let w0 = row_width(width, len);
    let ix0 = match align {
        TextAlign::Left => x,
        TextAlign::Right => x - w0 + 1,
        TextAlign::Center => x - half_down(w0),
    };
    let w1 = if ix0 < 0 {
        w0 + ix0
    } else {
        w0
    };
    let start = if ix0 < 0 {
        -ix0
    } else {
        0
    };
    let ix1 = if ix0 < 0 {
        0
    } else {
        ix0
    };
    let w2 = if ix1 + w1 > bufw {
        bufw - ix1
    } else {
        w1
    };
    (
        ix1,
        start,
        if w2 >= 0 {
            w2
        } else {
            0
        },
    )
}

impl PlainPrinter {
    /// Writes `count` cells at `(x, y)` holding the characters of `text`
    /// from index `start` on, padding with the blank-rendering null
    /// character when the text runs out; returns the cell count.
    pub fn print_part(&mut self, x: i32, y: i32, start: usize, count: usize, text: &str) -> (r:
        i32)
        requires
            count <= 0x7FFF_FFFF,
        ensures
            printer_config_unchanged(old(self), final(self)),
            r == count,
            apply_row(
                old(self).buffer,
                final(self).buffer,
                x as int,
                y as int,
                part_ops(
                    old(self).to_glyph,
                    text@,
                    start as int,
                    count as int,
                    old(self).fg,
                    old(self).bg,
                ),
            ),
    {
        let cs = chars_of(text);
        self.part_vec(x as i64, y as i64, start, count, &cs)
    }

    /// The character-vector core of [`PlainPrinter::print_part`].
    fn part_vec(&mut self, x: i64, y: i64, start: usize, count: usize, cs: &Vec<char>) -> (r: i32)
        requires
            count <= 0x7FFF_FFFF,
            -0x4000_0000_0000_0000 <= x <= 0x4000_0000_0000_0000,
        ensures
            printer_config_unchanged(old(self), final(self)),
            r == count,
            apply_row(
                old(self).buffer,
                final(self).buffer,
                x as int,
                y as int,
                part_ops(
                    old(self).to_glyph,
                    cs@,
                    start as int,
                    count as int,
                    old(self).fg,
                    old(self).bg,
                ),
            ),
    {
        let ghost ops = part_ops(
            self.to_glyph,
            cs@,
            start as int,
            count as int,
            self.fg,
            self.bg,
        );
        let fg = self.fg;
        let bg = self.bg;
        let mapper = self.to_glyph;
        let n = cs.len();
        let mut m: usize = 0;
        proof {
            assert(apply_row(self.buffer, self.buffer, x as int, y as int, ops.take(0)));
        }
        while m < count
            invariant
                0 <= m <= count <= 0x7FFF_FFFF,
                -0x4000_0000_0000_0000 <= x <= 0x4000_0000_0000_0000,
                n == cs@.len(),
                fg == old(self).fg,
                bg == old(self).bg,
                mapper == old(self).to_glyph,
                self.fg == old(self).fg,
                self.bg == old(self).bg,
                self.width == old(self).width,
                self.align == old(self).align,
                self.to_glyph == old(self).to_glyph,
                ops == part_ops(mapper, cs@, start as int, count as int, fg, bg),
                apply_row(old(self).buffer, self.buffer, x as int, y as int, ops.take(m as int)),
            decreases count - m,
        {
            let ch = if start < n && m < n - start {
                cs[start + m]
            } else {
                '\0'
            };
            proof {
                assert(ch == char_at_pad(cs@, start + m));
            }
            let g = mapper.map(ch);
            let ghost bmid = self.buffer;
            self.buffer.draw_opt(x + m as i64, y, Some(g), fg, bg);
            proof {
                assert(apply_row(bmid, self.buffer, x + m, y as int, seq![(Some(g), fg, bg)]));
                lemma_apply_row_concat(
                    old(self).buffer,
                    bmid,
                    self.buffer,
                    x as int,
                    y as int,
                    ops.take(m as int),
                    seq![(Some(g), fg, bg)],
                );
                assert(ops.take(m + 1) =~= ops.take(m as int) + seq![(Some(g), fg, bg)]);
            }
            m += 1;
        }
        proof {
            assert(ops.take(count as int) =~= ops);
        }
        count as i32
    }

    /// Prints `text` on one row at `(x, y)`: the row is clipped against the
    /// left and right edges of the buffer, and the number of cells printed
    /// is returned.
    pub fn print(&mut self, x: i32, y: i32, text: &str) -> (r: i32)
        requires
            text@.len() < 0x7FFF_FFFF,
        ensures
            printer_config_unchanged(old(self), final(self)),
            ({
                let lay = print_layout(
                    old(self).align,
                    old(self).width,
                    old(self).buffer.spec_width() as int,
                    x as int,
                    text@.len() as int,
                );
                &&& r == lay.2
                &&& apply_row(
                    old(self).buffer,
                    final(self).buffer,
                    lay.0,
                    y as int,
                    part_ops(old(self).to_glyph, text@, lay.1, lay.2, old(self).fg, old(self).bg),
                )
            }),
    {
        let cs = chars_of(text);
        self.print_vec_pub(x as i64, y as i64, &cs)
    }

    /// The character-vector core of [`PlainPrinter::print`].
    pub(crate) fn print_vec_pub(&mut self, x: i64, y: i64, cs: &Vec<char>) -> (r: i32)
        requires
            cs@.len() < 0x7FFF_FFFF,
            -0x8000_0000 <= x <= 0x7FFF_FFFF,
        ensures
            printer_config_unchanged(old(self), final(self)),
            ({
                let lay = print_layout(
                    old(self).align,
                    old(self).width,
                    old(self).buffer.spec_width() as int,
                    x as int,
                    cs@.len() as int,
                );
                &&& r == lay.2
                &&& apply_row(
                    old(self).buffer,
                    final(self).buffer,
                    lay.0,
                    y as int,
                    part_ops(old(self).to_glyph, cs@, lay.1, lay.2, old(self).fg, old(self).bg),
                )
            }),
    {
        let len = cs.len() as i64;
        let w0: i64 = match self.width {
            Some(wc) => wc as i64,
            None => len,
        };
        let ix0: i64 = match self.align {
            TextAlign::Left => x,
            TextAlign::Right => x - w0 + 1,
            TextAlign::Center => x - (if w0 >= 0 {
                w0 / 2
            } else {
                -((-w0) / 2)
            }),
        };
        let mut width: i64 = w0;
        let mut start: i64 = 0;
        let mut ix: i64 = ix0;
        if ix < 0 {
            width += ix;
            start -= ix;
            ix = 0;
        }
        let bufw = self.buffer.width() as i64;
        if ix + width > bufw {
            width = bufw - ix;
        }
        if width < 0 {
            width = 0;
        }
        self.part_vec(ix, y, start as usize, width as usize, cs)
    }
}

/// The views of a sequence of plain lines as colored text: every character
/// carries the default color, with the hyphen appended where marked.
pub open spec fn plain_lines_view(ls: Seq<Line>) -> Seq<ColoredText> {
    Seq::new(ls.len(), |i: int| plain_chars(rendered(&ls[i])))
}

/// The physical lines of a text, as uncolored colored-text rows.
pub open spec fn plain_rows(t: Seq<char>) -> Seq<ColoredText> {
    Seq::new(model::split_lines(t).len(), |i: int| plain_chars(model::split_lines(t)[i]))
}

/// Wraps one physical line, appending the output rows to `out`; reports
/// whether the iteration cap was exhausted.
#[verifier::rlimit(100)]
#[verifier::spinoff_prover]
fn plain_wrap_go(current: Line, limit: usize, fuel: u32, out: &mut Vec<Line>) -> (tr: bool)
    requires
        current.txt@.len() < usize::MAX,
        !current.hyphen,
    ensures
        ({
            let r = model::wrap_line_rec(plain_chars(current.txt@), limit as nat, fuel as nat);
            &&& plain_lines_view(final(out)@) == plain_lines_view(old(out)@) + r.lines
            &&& tr == r.truncated
        }),
    decreases fuel,
{
    let ghost cur = plain_chars(current.txt@);
    let ghost r = model::wrap_line_rec(cur, limit as nat, fuel as nat);
    let ghost t = current.txt@;
    proof {
        model::lemma_text_of_tint(None, current.txt@);
        assert(text_of(cur) =~= t);
        assert(rendered(&current) == t);
    }
    let len = current.char_len();
    if len <= limit {
        if len > 0 {
            let ghost ov = out@;
            out.push(current);
            proof {
                assert(plain_lines_view(out@) =~= plain_lines_view(ov) + seq![cur]);
            }
        } else {
            proof {
                assert(plain_lines_view(out@) =~= plain_lines_view(out@) + r.lines);
            }
        }
        return false;
    }
    if fuel == 0 {
        let ghost ov = out@;
        out.push(current);
        proof {
            assert(plain_lines_view(out@) =~= plain_lines_view(ov) + seq![cur]);
        }
        return true;
    }
    let ghost st = model::wrap_step(cur, limit as nat);
    let bi_opt = current.last_break_before(limit + 1);
    let ghost ov = out@;
    let left: Line;
    let right: Line;
    match bi_opt {
        None => {
            let fw_line = current.first_word();
            proof {
                model::lemma_find_off(t, ' ');
            }
            let fwl = fw_line.char_len();
            proof {
                assert(fwl == model::first_word_len(t));
            }
            let a = if limit >= 1 {
                limit - 1
            } else {
                0
            };
            let b = if fwl >= 2 {
                fwl - 2
            } else {
                0
            };
            let keep = if a < b {
                a
            } else {
                b
            };
            let lr = current.hyphenate_at_char(keep);
            left = lr.0;
            right = lr.1;
            proof {
                if keep > 0 {
                    assert(cur[keep - 1].0 == None::<Seq<char>>);
                    assert(plain_chars(rendered(&left)) =~= st.line);
                } else {
                    assert(plain_chars(rendered(&left)) =~= st.line);
                }
                assert(plain_chars(right.txt@) =~= st.rest);
            }
        },
        Some(bi) => {
            proof {
                model::lemma_last_space_upto(t, spec_min(limit + 1 as int, t.len() as int));
            }
            let lr0 = current.split_at_space(bi);
            let left_len = lr0.0.char_len();
            proof {
                assert(left_len == bi);
            }
            let r1 = if limit >= left_len {
                limit - left_len
            } else {
                0
            };
            let room = if r1 >= 1 {
                r1 - 1
            } else {
                0
            };
            let mut use_hyphen = false;
            let mut keep: usize = 0;
            if room >= 4 {
                let nw_line = lr0.1.first_word();
                proof {
                    model::lemma_find_off(t.skip(bi + 1), ' ');
                    assert(nw_line.txt@.len() == model::first_word_len(t.skip(bi + 1)));
                }
                let nwl = nw_line.char_len();
                if nwl >= 6 {
                    keep = if room < nwl - 2 {
                        room
                    } else {
                        nwl - 2
                    };
                    use_hyphen = true;
                }
            }
            if use_hyphen {
                let lr = current.hyphenate_at_char(bi + keep);
                left = lr.0;
                right = lr.1;
                proof {
                    assert(cur[bi + keep - 1].0 == None::<Seq<char>>);
                    assert(plain_chars(rendered(&left)) =~= st.line);
                    assert(plain_chars(right.txt@) =~= st.rest);
                }
            } else {
                left = lr0.0;
                right = lr0.1;
                proof {
                    assert(plain_chars(rendered(&left)) =~= st.line);
                    assert(plain_chars(right.txt@) =~= st.rest);
                }
            }
        },
    }
    let ghost lv = plain_chars(rendered(&left));
    out.push(left);
    proof {
        assert(plain_lines_view(out@) =~= plain_lines_view(ov) + seq![lv]);
    }
    let tr = plain_wrap_go(right, limit, fuel - 1, out);
    proof {
        let rr = model::wrap_line_rec(st.rest, limit as nat, (fuel - 1) as nat);
        assert(plain_lines_view(out@) =~= plain_lines_view(ov) + (seq![st.line] + rr.lines));
    }
    tr
}

/// Word-wraps every physical line of plain `text` to the width `limit`,
/// greedily breaking at spaces and hyphenating long words. The flag reports
/// whether any line exhausted the per-line iteration cap and was emitted
/// over-long as a result.
pub fn wrap(limit: usize, text: &str) -> (r: (Vec<Line>, bool))
    requires
        text@.len() < usize::MAX,
    ensures
        ({
            let w = model::wrap_lines_rec(plain_rows(text@), limit as nat);
            &&& plain_lines_view(r.0@) == w.lines
            &&& r.1 == w.truncated
        }),
{
    let cs = chars_of(text);
    let n = cs.len();
    let mut out: Vec<Line> = Vec::new();
    let mut truncated = false;
    let mut start: usize = 0;
    let ghost rows = plain_rows(text@);
    let ghost mut done: int = 0;
    proof {
        assert(cs@.skip(0) =~= cs@);
        model::lemma_split_lines_len(text@);
        assert(plain_lines_view(out@) =~= Seq::<ColoredText>::empty());
    }
    loop
        invariant
            start <= n,
            n == cs@.len(),
            n < usize::MAX,
            cs@ == text@,
            rows == plain_rows(text@),
            0 <= done <= rows.len(),
            model::split_lines(text@).skip(done) == model::split_lines(cs@.skip(start as int)),
            rows.len() == model::split_lines(text@).len(),
            forall|j: int| 0 <= j < rows.len() ==> (#[trigger] rows[j]) == plain_chars(
                model::split_lines(text@)[j],
            ),
            done < rows.len(),
            ({
                let w = model::wrap_lines_rec(rows.take(done), limit as nat);
                plain_lines_view(out@) == w.lines && truncated == w.truncated
            }),
        decreases n - start,
    {
        let ghost rem = cs@.skip(start as int);
        let ghost lines_rem = model::split_lines(rem);
        let e = find_char_from(&cs, '\n', start);
        let ghost lt = cs@.subrange(start as int, e as int);
        proof {
            assert(spec_min(model::find_off(rem, '\n') as int, rem.len() as int) == (e - start));
            assert(rem.take(e - start) =~= lt);
            if e < n {
                assert(rem.skip((e - start) + 1) =~= cs@.skip(e + 1));
            } else {
                assert(lt =~= rem);
            }
            assert(lines_rem[0] == lt);
            assert(model::split_lines(text@)[done] == lt);
            assert(rows[done] == plain_chars(lt));
        }
        let lv = subvec(&cs, start, e);
        let line = Line { txt: lv, hyphen: false };
        let tr = plain_wrap_go(line, limit, 10, &mut out);
        truncated = truncated || tr;
        proof {
            model::lemma_wrap_lines_rec_push(rows.take(done), rows[done], limit as nat);
            assert(rows.take(done).push(rows[done]) =~= rows.take(done + 1));
            assert(model::wrap_fuel() == 10nat);
            done = done + 1;
        }
        if e == n {
            proof {
                assert(lines_rem.len() == 1);
                assert(model::split_lines(text@).len() == done);
                assert(rows.take(done) =~= rows);
            }
            return (out, truncated);
        }
        start = e + 1;
        proof {
            assert(lines_rem.skip(1) =~= model::split_lines(cs@.skip(start as int)));
            assert(model::split_lines(text@).skip(done) =~= lines_rem.skip(1));
            model::lemma_split_lines_len(cs@.skip(start as int));
        }
    }
}

/// Scans `t` downward from the window `w` for the last space strictly below
/// `min(w, t.len())`.
fn last_space_scan(t: &Vec<char>, w: usize) -> (r: Option<usize>)
    ensures
        model::opt_as_int(r) == model::last_space_before(t@, w as int),
{
    let mut m: usize = if w < t.len() {
        w
    } else {
        t.len()
    };
    proof {
        assert(model::last_space_before(t@, w as int) == model::last_space_upto(t@, m as int));
    }
    while m > 0
        invariant
            m <= t@.len(),
            model::last_space_before(t@, w as int) == model::last_space_upto(t@, m as int),
        decreases m,
    {
        if t[m - 1] == ' ' {
            return Some(m - 1);
        }
        m -= 1;
    }
    None
}


/// The cell a full plain row print leaves at column `i` of its row.
pub open spec fn plain_row_cell(
    b0: Buffer,
    x: int,
    j: int,
    t: Seq<char>,
    width: Option<i32>,
    align: TextAlign,
    fg: Option<RGBA>,
    bg: Option<RGBA>,
    mapper: GlyphMapper,
    i: int,
) -> Cell {
    let len = t.len() as int;
    let sx = row_start(align, x, row_width(width, len), len);
    let ops = full_row_ops(t, width, align, fg, bg, mapper);
    if sx <= i < sx + ops.len() {
        merge_cell(b0.cell(i, j), ops[i - sx].0, ops[i - sx].1, ops[i - sx].2)
    } else {
        b0.cell(i, j)
    }
}

/// How printing a stack of full plain rows changes the buffer.
pub open spec fn plain_rows_printed(
    b0: Buffer,
    b1: Buffer,
    x: int,
    y: int,
    texts: Seq<Seq<char>>,
    width: Option<i32>,
    align: TextAlign,
    fg: Option<RGBA>,
    bg: Option<RGBA>,
    mapper: GlyphMapper,
) -> bool {
    &&& b1.spec_width() == b0.spec_width()
    &&& b1.spec_height() == b0.spec_height()
    &&& forall|i: int, j: int|
        b0.in_bounds(i, j) ==> #[trigger] b1.cell(i, j) == (if y <= j < y + texts.len() {
            plain_row_cell(b0, x, j, texts[j - y], width, align, fg, bg, mapper, i)
        } else {
            b0.cell(i, j)
        })
}

/// The cell a clipped plain row print leaves at column `i` of its row.
pub open spec fn clipped_row_cell(
    b0: Buffer,
    x: int,
    j: int,
    t: Seq<char>,
    width: Option<i32>,
    align: TextAlign,
    fg: Option<RGBA>,
    bg: Option<RGBA>,
    mapper: GlyphMapper,
    i: int,
) -> Cell {
    let lay = print_layout(align, width, b0.spec_width() as int, x, t.len() as int);
    let ops = part_ops(mapper, t, lay.1, lay.2, fg, bg);
    if lay.0 <= i < lay.0 + ops.len() {
        merge_cell(b0.cell(i, j), ops[i - lay.0].0, ops[i - lay.0].1, ops[i - lay.0].2)
    } else {
        b0.cell(i, j)
    }
}

/// How printing a stack of clipped plain rows changes the buffer.
pub open spec fn clipped_rows_printed(
    b0: Buffer,
    b1: Buffer,
    x: int,
    y: int,
    texts: Seq<Seq<char>>,
    width: Option<i32>,
    align: TextAlign,
    fg: Option<RGBA>,
    bg: Option<RGBA>,
    mapper: GlyphMapper,
) -> bool {
    &&& b1.spec_width() == b0.spec_width()
    &&& b1.spec_height() == b0.spec_height()
    &&& forall|i: int, j: int|
        b0.in_bounds(i, j) ==> #[trigger] b1.cell(i, j) == (if y <= j < y + texts.len() {
            clipped_row_cell(b0, x, j, texts[j - y], width, align, fg, bg, mapper, i)
        } else {
            b0.cell(i, j)
        })
}

/// The widest full row width over a stack of row texts (at least 0).
pub open spec fn texts_widest(texts: Seq<Seq<char>>, width: Option<i32>) -> int
    decreases texts.len(),
{
    if texts.len() == 0 {
        0
    } else {
        vstd::math::max(
            texts_widest(texts.drop_last(), width),
            row_width(width, texts.last().len() as int),
        )
    }
}

/// The widest clipped cell count over a stack of row texts (at least 0).
pub open spec fn clipped_widest(
    texts: Seq<Seq<char>>,
    width: Option<i32>,
    align: TextAlign,
    bufw: int,
    x: int,
) -> int
    decreases texts.len(),
{
    if texts.len() == 0 {
        0
    } else {
        vstd::math::max(
            clipped_widest(texts.drop_last(), width, align, bufw, x),
            print_layout(align, width, bufw, x, texts.last().len() as int).2,
        )
    }
}

/// The widest full row is bounded by the width configuration and the
/// longest row text.
pub proof fn lemma_texts_widest_bound(texts: Seq<Seq<char>>, width: Option<i32>, bound: int)
    requires
        0 <= bound,
        forall|k: int| 0 <= k < texts.len() ==> (#[trigger] texts[k]).len() <= bound,
    ensures
        0 <= texts_widest(texts, width) <= vstd::math::max(0x7FFF_FFFF, bound),
    decreases texts.len(),
{
    if texts.len() > 0 {
        assert(forall|k: int|
            0 <= k < texts.drop_last().len() ==> (#[trigger] texts.drop_last()[k]).len()
                <= bound);
        lemma_texts_widest_bound(texts.drop_last(), width, bound);
    }
}

/// A clipped cell count never exceeds the buffer width.
pub proof fn lemma_clipped_widest_bound(
    texts: Seq<Seq<char>>,
    width: Option<i32>,
    align: TextAlign,
    bufw: int,
    x: int,
)
    requires
        0 <= bufw,
    ensures
        0 <= clipped_widest(texts, width, align, bufw, x) <= bufw,
    decreases texts.len(),
{
    if texts.len() > 0 {
        lemma_clipped_widest_bound(texts.drop_last(), width, align, bufw, x);
    }
}

/// The physical lines of a text.
pub open spec fn line_texts(t: Seq<char>) -> Seq<Seq<char>> {
    model::split_lines(t)
}

/// The width a printer wraps to: the configured width, or the buffer width
/// to the right of `x`; a negative width disables wrapping.
pub open spec fn spec_wrap_limit(width: Option<i32>, bufw: int, x: int) -> nat {
    let l = match width {
        Some(w) => w as int,
        None => bufw - x,
    };
    if l < 0 {
        usize::MAX as nat
    } else {
        l as nat
    }
}

impl PlainPrinter {
    /// Prints every physical line of the text on its own row from `y` down,
    /// each clipped against the buffer edges; returns the widest cell count
    /// printed and the number of rows.
    pub fn print_lines(&mut self, x: i32, y: i32, text: &str) -> (r: (i32, i32))
        requires
            text@.len() < 0x7FFF_FFFE,
        ensures
            printer_config_unchanged(old(self), final(self)),
            r.0 == clipped_widest(
                line_texts(text@),
                old(self).width,
                old(self).align,
                old(self).buffer.spec_width() as int,
                x as int,
            ),
            r.1 == line_texts(text@).len(),
            clipped_rows_printed(
                old(self).buffer,
                final(self).buffer,
                x as int,
                y as int,
                line_texts(text@),
                old(self).width,
                old(self).align,
                old(self).fg,
                old(self).bg,
                old(self).to_glyph,
            ),
    {
        let cs = chars_of(text);
        let n = cs.len();
        let ghost texts = line_texts(text@);
        let mut widest: i64 = 0;
        let mut height: i64 = 0;
        let mut start: usize = 0;
        let ghost mut done: int = 0;
        proof {
            assert(cs@.skip(0) =~= cs@);
            model::lemma_split_lines_len(text@);
            assert(texts.take(0) =~= Seq::<Seq<char>>::empty());
        }
        loop
            invariant
                start <= n,
                n == cs@.len(),
                n < 0x7FFF_FFFE,
                cs@ == text@,
                texts == line_texts(text@),
                0 <= done < texts.len(),
                texts.len() <= n + 1,
                forall|j: int| 0 <= j < texts.len() ==> (#[trigger] texts[j]).len() <= n,
                model::split_lines(text@).skip(done) == model::split_lines(
                    cs@.skip(start as int),
                ),
                height == done,
                printer_config_unchanged(old(self), self),
                self.width == old(self).width,
                self.align == old(self).align,
                self.fg == old(self).fg,
                self.bg == old(self).bg,
                self.to_glyph == old(self).to_glyph,
                widest == clipped_widest(
                    texts.take(done),
                    old(self).width,
                    old(self).align,
                    old(self).buffer.spec_width() as int,
                    x as int,
                ),
                0 <= widest <= 0x7FFF_FFFF,
                clipped_rows_printed(
                    old(self).buffer,
                    self.buffer,
                    x as int,
                    y as int,
                    texts.take(done),
                    old(self).width,
                    old(self).align,
                    old(self).fg,
                    old(self).bg,
                    old(self).to_glyph,
                ),
            decreases n - start,
        {
            let ghost rem = cs@.skip(start as int);
            let ghost lines_rem = model::split_lines(rem);
            let e = find_char_from(&cs, '\n', start);
            let ghost lt = cs@.subrange(start as int, e as int);
            proof {
                assert(spec_min(model::find_off(rem, '\n') as int, rem.len() as int) == (e
                    - start));
                assert(rem.take(e - start) =~= lt);
                if e < n {
                    assert(rem.skip((e - start) + 1) =~= cs@.skip(e + 1));
                } else {
                    assert(lt =~= rem);
                }
                assert(lines_rem[0] == lt);
                assert(texts[done] == lt);
            }
            let lv = subvec(&cs, start, e);
            let cy = y as i64 + height;
            let ghost bprev = self.buffer;
            let w = self.print_vec_pub(x as i64, cy, &lv);
            if w > widest as i32 {
                widest = w as i64;
            }
            proof {
                let width0 = old(self).width;
                let align0 = old(self).align;
                let fg0 = old(self).fg;
                let bg0 = old(self).bg;
                let m0 = old(self).to_glyph;
                let bufw0 = old(self).buffer.spec_width() as int;
                assert(texts.take(done + 1).drop_last() =~= texts.take(done));
                assert(texts.take(done + 1).last() == texts[done]);
                let lay = print_layout(align0, width0, bufw0, x as int, lt.len() as int);
                let ops = part_ops(m0, lt, lay.1, lay.2, fg0, bg0);
                assert forall|i: int, j: int| old(self).buffer.in_bounds(i, j) implies #[trigger] self.buffer.cell(
                    i,
                    j,
                ) == (if y <= j < y + texts.take(done + 1).len() {
                    clipped_row_cell(
                        old(self).buffer,
                        x as int,
                        j,
                        texts.take(done + 1)[j - y],
                        width0,
                        align0,
                        fg0,
                        bg0,
                        m0,
                        i,
                    )
                } else {
                    old(self).buffer.cell(i, j)
                }) by {
                    assert(bprev.cell(i, j) == (if y <= j < y + done {
                        clipped_row_cell(
                            old(self).buffer,
                            x as int,
                            j,
                            texts.take(done)[j - y],
                            width0,
                            align0,
                            fg0,
                            bg0,
                            m0,
                            i,
                        )
                    } else {
                        old(self).buffer.cell(i, j)
                    }));
                    assert(self.buffer.cell(i, j) == (if j == cy && lay.0 <= i < lay.0
                        + ops.len() {
                        merge_cell(bprev.cell(i, j), ops[i - lay.0].0, ops[i - lay.0].1, ops[i
                            - lay.0].2)
                    } else {
                        bprev.cell(i, j)
                    }));
                    if j == cy {
                        assert(bprev.cell(i, j) == old(self).buffer.cell(i, j));
                        assert(texts.take(done + 1)[j - y] == lt);
                    } else if y <= j < y + done {
                        assert(texts.take(done + 1)[j - y] == texts.take(done)[j - y]);
                    }
                }
                done = done + 1;
            }
            height += 1;
            if e == n {
                proof {
                    assert(lines_rem.len() == 1);
                    assert(texts.len() == done);
                    assert(texts.take(done) =~= texts);
                }
                return (widest as i32, height as i32);
            }
            start = e + 1;
            proof {
                assert(lines_rem.skip(1) =~= model::split_lines(cs@.skip(start as int)));
                assert(model::split_lines(text@).skip(done) =~= lines_rem.skip(1));
                model::lemma_split_lines_len(cs@.skip(start as int));
            }
        }
    }

    /// Word-wraps the text at the configured width (or the buffer width
    /// left of `x`) and prints the wrapped rows from `y` down, returning
    /// the widest row width used and the number of rows.
    pub fn wrap(&mut self, x: i32, y: i32, text: &str) -> (r: (i32, i32))
        requires
            text@.len() < 0x0800_0000,
        ensures
            printer_config_unchanged(old(self), final(self)),
            ({
                let limit = spec_wrap_limit(
                    old(self).width,
                    old(self).buffer.spec_width() as int,
                    x as int,
                );
                let wr = model::wrap_lines_rec(plain_rows(text@), limit);
                let texts = Seq::new(wr.lines.len(), |i: int| text_of(wr.lines[i]));
                &&& r.0 == texts_widest(texts, old(self).width)
                &&& r.1 == wr.lines.len()
                &&& plain_rows_printed(
                    old(self).buffer,
                    final(self).buffer,
                    x as int,
                    y as int,
                    texts,
                    old(self).width,
                    old(self).align,
                    old(self).fg,
                    old(self).bg,
                    old(self).to_glyph,
                )
            }),
    {
        let bufw = self.buffer.width() as i64;
        let li: i64 = match self.width {
            Some(w) => w as i64,
            None => bufw - x as i64,
        };
        let limit: usize = if li < 0 {
            usize::MAX
        } else {
            li as usize
        };
        proof {
            assert(limit as nat == spec_wrap_limit(
                old(self).width,
                old(self).buffer.spec_width() as int,
                x as int,
            ));
        }
        let (lines, _truncated) = wrap(limit, text);
        let ghost wr = model::wrap_lines_rec(plain_rows(text@), limit as nat);
        let ghost texts = Seq::new(wr.lines.len(), |i: int| text_of(wr.lines[i]));
        proof {
            model::lemma_split_lines_len(text@);
            assert forall|j: int| 0 <= j < plain_rows(text@).len() implies (
            #[trigger] plain_rows(text@)[j]).len() <= text@.len() by {
                assert(plain_rows(text@)[j] == model::plain_chars(model::split_lines(text@)[j]));
            }
            model::lemma_wrap_lines_rec_count(plain_rows(text@), limit as nat, text@.len() as int);
            assert(plain_lines_view(lines@) == wr.lines);
            assert forall|k: int| 0 <= k < lines@.len() implies rendered(&lines@[k])
                == texts[k] by {
                assert(plain_lines_view(lines@)[k] == model::plain_chars(rendered(&lines@[k])));
                model::lemma_text_of_tint(None, rendered(&lines@[k]));
            }
            assert(lines@.len() == texts.len());
            assert(texts.len() <= 11 * plain_rows(text@).len());
            assert forall|k: int| 0 <= k < texts.len() implies (#[trigger] texts[k]).len()
                <= text@.len() by {
                assert(texts[k].len() == wr.lines[k].len());
            }
            assert forall|k: int| 0 <= k < lines@.len() implies (#[trigger] lines@[k].txt@).len()
                < 0x7FFF_FFFF by {
                assert(lines@[k].txt@.len() <= rendered(&lines@[k]).len());
                assert(rendered(&lines@[k]) == texts[k]);
            }
        }
        let n = lines.len();
        let mut widest: i64 = 0;
        let mut k: usize = 0;
        proof {
            assert(texts.take(0) =~= Seq::<Seq<char>>::empty());
        }
        while k < n
            invariant
                k <= n,
                n == lines@.len(),
                n == texts.len(),
                n <= 0x7FFF_FFFF,
                texts.len() <= 0x7FFF_FFFF,
                forall|j: int| 0 <= j < texts.len() ==> (#[trigger] texts[j]).len()
                    <= 0x7FFF_FFFE,
                forall|j: int| 0 <= j < lines@.len() ==> rendered(&lines@[j]) == texts[j],
                forall|j: int| 0 <= j < lines@.len() ==> (#[trigger] lines@[j].txt@).len()
                    < 0x7FFF_FFFF,
                -0x8000_0000 <= x <= 0x7FFF_FFFF,
                -0x8000_0000 <= y <= 0x7FFF_FFFF,
                printer_config_unchanged(old(self), self),
                self.width == old(self).width,
                self.align == old(self).align,
                self.fg == old(self).fg,
                self.bg == old(self).bg,
                self.to_glyph == old(self).to_glyph,
                widest == texts_widest(texts.take(k as int), old(self).width),
                -0x8000_0000 <= widest <= 0x7FFF_FFFF,
                plain_rows_printed(
                    old(self).buffer,
                    self.buffer,
                    x as int,
                    y as int,
                    texts.take(k as int),
                    old(self).width,
                    old(self).align,
                    old(self).fg,
                    old(self).bg,
                    old(self).to_glyph,
                ),
            decreases n - k,
        {
            let cy = y as i64 + k as i64;
            let ghost bprev = self.buffer;
            let w = lines[k].print_at(self, x as i64, cy);
            if w > widest {
                widest = w;
            }
            proof {
                let width0 = old(self).width;
                let align0 = old(self).align;
                let fg0 = old(self).fg;
                let bg0 = old(self).bg;
                let m0 = old(self).to_glyph;
                let t = texts[k as int];
                assert(rendered(&lines@[k as int]) == t);
                assert(texts.take(k + 1).drop_last() =~= texts.take(k as int));
                assert(texts.take(k + 1).last() == t);
                let len = t.len() as int;
                let sx = row_start(align0, x as int, row_width(width0, len), len);
                lemma_plain_line_ops(&lines@[k as int], width0, align0, fg0, bg0, m0);
                let ops = full_row_ops(t, width0, align0, fg0, bg0, m0);
                assert forall|i: int, j: int| old(self).buffer.in_bounds(i, j) implies #[trigger] self.buffer.cell(
                    i,
                    j,
                ) == (if y <= j < y + texts.take(k + 1).len() {
                    plain_row_cell(
                        old(self).buffer,
                        x as int,
                        j,
                        texts.take(k + 1)[j - y],
                        width0,
                        align0,
                        fg0,
                        bg0,
                        m0,
                        i,
                    )
                } else {
                    old(self).buffer.cell(i, j)
                }) by {
                    assert(bprev.cell(i, j) == (if y <= j < y + k {
                        plain_row_cell(
                            old(self).buffer,
                            x as int,
                            j,
                            texts.take(k as int)[j - y],
                            width0,
                            align0,
                            fg0,
                            bg0,
                            m0,
                            i,
                        )
                    } else {
                        old(self).buffer.cell(i, j)
                    }));
                    assert(self.buffer.cell(i, j) == (if j == cy && sx <= i < sx + ops.len() {
                        merge_cell(bprev.cell(i, j), ops[i - sx].0, ops[i - sx].1, ops[i
                            - sx].2)
                    } else {
                        bprev.cell(i, j)
                    }));
                    if j == cy {
                        assert(bprev.cell(i, j) == old(self).buffer.cell(i, j));
                        assert(texts.take(k + 1)[j - y] == t);
                    } else if y <= j < y + k {
                        assert(texts.take(k + 1)[j - y] == texts.take(k as int)[j - y]);
                    }
                }
            }
            k += 1;
        }
        proof {
            assert(texts.take(n as int) =~= texts);
            lemma_texts_widest_bound(texts, old(self).width, text@.len() as int);
        }
        (widest as i32, n as i32)
    }
}

} // verus!
