//! The cell grid that text is printed into: a rectangle of cells, each
//! holding a glyph id, a foreground color and a background color, with
//! per-cell writes that silently ignore out-of-bounds coordinates.

use crate::rgba::RGBA;
use vstd::prelude::*;

verus! {

/// The integer identifier a character maps to for rendering.
pub type Glyph = u32;

/// One cell of the grid.
#[derive(Copy, Clone, Debug, PartialEq, Eq, Structural)]
pub struct Cell {
    /// The glyph drawn in the cell; 0 is the blank sentinel.
    pub glyph: Glyph,
    /// The foreground color of the cell.
    pub fg: RGBA,
    /// The background color of the cell.
    pub bg: RGBA,
}

/// The cell all planes reset to: a blank glyph over cleared colors.
pub open spec fn blank_cell() -> Cell {
    Cell { glyph: 0, fg: RGBA(0, 0, 0, 0), bg: RGBA(0, 0, 0, 0) }
}

/// A cell after a draw: each plane that the draw supplies is overwritten,
/// the others keep their value.
pub open spec fn merge_cell(c: Cell, glyph: Option<Glyph>, fg: Option<RGBA>, bg: Option<RGBA>) -> Cell {
    Cell {
        glyph: match glyph {
            Some(g) => g,
            None => c.glyph,
        },
        fg: match fg {
            Some(f) => f,
            None => c.fg,
        },
        bg: match bg {
            Some(b) => b,
            None => c.bg,
        },
    }
}

/// A rectangular grid of cells, row-major.
pub struct Buffer {
    width: u32,
    height: u32,
    cells: Vec<Cell>,
}

impl Buffer {
    #[verifier::type_invariant]
    spec fn inv(self) -> bool {
        &&& self.cells@.len() == self.width * self.height
        &&& self.width <= 0x7FFF_FFFF
        &&& self.height <= 0x7FFF_FFFF
    }

    /// The width of the grid in cells.
    pub closed spec fn spec_width(self) -> u32 {
        self.width
    }

    /// The height of the grid in cells.
    pub closed spec fn spec_height(self) -> u32 {
        self.height
    }

    /// Whether a coordinate pair lies on the grid.
    pub open spec fn in_bounds(self, x: int, y: int) -> bool {
        0 <= x < self.spec_width() && 0 <= y < self.spec_height()
    }

    /// The cell at a coordinate pair.
    pub closed spec fn cell(self, x: int, y: int) -> Cell {
        self.cells@[y * self.width + x]
    }

    /// Creates a grid of `width` by `height` cells, all blank.
    pub fn new(width: u32, height: u32) -> (r: Self)
        requires
            width * height <= usize::MAX,
            width <= 0x7FFF_FFFF,
            height <= 0x7FFF_FFFF,
        ensures
            r.spec_width() == width,
            r.spec_height() == height,
            forall|x: int, y: int| r.in_bounds(x, y) ==> r.cell(x, y) == blank_cell(),
    {
        let total = (width as usize) * (height as usize);
        let mut cells: Vec<Cell> = Vec::new();
        let mut i: usize = 0;
        while i < total
            invariant
                i <= total,
                cells@.len() == i,
                forall|k: int| 0 <= k < i ==> cells@[k] == blank_cell(),
            decreases total - i,
        {
            cells.push(Cell { glyph: 0, fg: RGBA(0, 0, 0, 0), bg: RGBA(0, 0, 0, 0) });
            i += 1;
        }
        let r = Buffer { width, height, cells };
        proof {
            assert forall|x: int, y: int| r.in_bounds(x, y) implies r.cell(x, y)
                == blank_cell() by {
                lemma_grid_index(width as int, height as int, x, y);
            }
        }
        r
    }

    /// The width of the grid in cells.
    pub fn width(&self) -> (r: u32)
        ensures
            r == self.spec_width(),
            r <= 0x7FFF_FFFF,
    {
        proof {
            use_type_invariant(&*self);
        }
        self.width
    }

    /// The height of the grid in cells.
    pub fn height(&self) -> (r: u32)
        ensures
            r == self.spec_height(),
            r <= 0x7FFF_FFFF,
    {
        proof {
            use_type_invariant(&*self);
        }
        self.height
    }

    /// Writes one cell: each `Some` plane overwrites that plane of the cell,
    /// each `None` plane is left as it was. Coordinates off the grid are
    /// silently ignored.
    pub fn draw_opt(&mut self, x: i64, y: i64, glyph: Option<Glyph>, fg: Option<RGBA>, bg: Option<
        RGBA,
    >)
        ensures
            final(self).spec_width() == old(self).spec_width(),
            final(self).spec_height() == old(self).spec_height(),
            forall|i: int, j: int|
                old(self).in_bounds(i, j) ==> #[trigger] final(self).cell(i, j) == (if i == x && j
                    == y {
                    merge_cell(old(self).cell(i, j), glyph, fg, bg)
                } else {
                    old(self).cell(i, j)
                }),
    {
        proof {
            use_type_invariant(&*self);
        }
        if x < 0 || y < 0 || x >= self.width as i64 || y >= self.height as i64 {
            return ;
        }
        let xi = x as usize;
        let yi = y as usize;
        let n = self.cells.len();
        proof {
            lemma_grid_index(self.width as int, self.height as int, xi as int, yi as int);
            assert(yi * self.width + xi < n);
        }
        let idx = yi * (self.width as usize) + xi;
        let old_cell = self.cells[idx];
        let new_cell = Cell {
            glyph: match glyph {
                Some(g) => g,
                None => old_cell.glyph,
            },
            fg: match fg {
                Some(f) => f,
                None => old_cell.fg,
            },
            bg: match bg {
                Some(b) => b,
                None => old_cell.bg,
            },
        };
        self.cells[idx] = new_cell;
        proof {
            assert forall|i: int, j: int| old(self).in_bounds(i, j) implies #[trigger] self.cell(
                i,
                j,
            ) == (if i == x && j == y {
                merge_cell(old(self).cell(i, j), glyph, fg, bg)
            } else {
                old(self).cell(i, j)
            }) by {
                lemma_grid_index(self.width as int, self.height as int, i, j);
                if !(i == x && j == y) && j * self.width + i == yi * self.width + xi {
                    lemma_grid_index_injective(self.width as int, i, j, xi as int, yi as int);
                }
            }
        }
    }

    /// The glyph of the cell at the coordinates, or `None` off the grid.
    pub fn get_glyph(&self, x: i32, y: i32) -> (r: Option<Glyph>)
        ensures
            r == (if self.in_bounds(x as int, y as int) {
                Some(self.cell(x as int, y as int).glyph)
            } else {
                None::<Glyph>
            }),
    {
        proof {
            use_type_invariant(&*self);
        }
        if x < 0 || y < 0 || x >= self.width as i32 || y >= self.height as i32 {
            return None;
        }
        let n = self.cells.len();
        proof {
            lemma_grid_index(self.width as int, self.height as int, x as int, y as int);
            assert((y as int) * self.width + x < n);
        }
        let idx = (y as usize) * (self.width as usize) + (x as usize);
        Some(self.cells[idx].glyph)
    }

    /// The foreground color of the cell at the coordinates, or `None` off
    /// the grid.
    pub fn get_fore(&self, x: i32, y: i32) -> (r: Option<RGBA>)
        ensures
            r == (if self.in_bounds(x as int, y as int) {
                Some(self.cell(x as int, y as int).fg)
            } else {
                None::<RGBA>
            }),
    {
        proof {
            use_type_invariant(&*self);
        }
        if x < 0 || y < 0 || x >= self.width as i32 || y >= self.height as i32 {
            return None;
        }
        let n = self.cells.len();
        proof {
            lemma_grid_index(self.width as int, self.height as int, x as int, y as int);
            assert((y as int) * self.width + x < n);
        }
        let idx = (y as usize) * (self.width as usize) + (x as usize);
        Some(self.cells[idx].fg)
    }

    /// The background color of the cell at the coordinates, or `None` off
    /// the grid.
    pub fn get_back(&self, x: i32, y: i32) -> (r: Option<RGBA>)
        ensures
            r == (if self.in_bounds(x as int, y as int) {
                Some(self.cell(x as int, y as int).bg)
            } else {
                None::<RGBA>
            }),
    {
        proof {
            use_type_invariant(&*self);
        }
        if x < 0 || y < 0 || x >= self.width as i32 || y >= self.height as i32 {
            return None;
        }
        let n = self.cells.len();
        proof {
            lemma_grid_index(self.width as int, self.height as int, x as int, y as int);
            assert((y as int) * self.width + x < n);
        }
        let idx = (y as usize) * (self.width as usize) + (x as usize);
        Some(self.cells[idx].bg)
    }

    /// Resets the chosen planes of every cell: the glyph plane to the blank
    /// glyph 0, the color planes to cleared colors.
    pub fn clear(&mut self, glyph: bool, fg: bool, bg: bool)
        ensures
            final(self).spec_width() == old(self).spec_width(),
            final(self).spec_height() == old(self).spec_height(),
            forall|i: int, j: int|
                old(self).in_bounds(i, j) ==> #[trigger] final(self).cell(i, j) == (Cell {
                    glyph: if glyph {
                        0
                    } else {
                        old(self).cell(i, j).glyph
                    },
                    fg: if fg {
                        RGBA(0, 0, 0, 0)
                    } else {
                        old(self).cell(i, j).fg
                    },
                    bg: if bg {
                        RGBA(0, 0, 0, 0)
                    } else {
                        old(self).cell(i, j).bg
                    },
                }),
    {
        proof {
            use_type_invariant(&*self);
        }
        let n = self.cells.len();
        let mut idx: usize = 0;
        while idx < n
            invariant
                idx <= n,
                n == self.cells@.len(),
                self.width == old(self).width,
                self.height == old(self).height,
                self.cells@.len() == self.width * self.height,
                self.width <= 0x7FFF_FFFF,
                self.height <= 0x7FFF_FFFF,
                self.cells@.len() == old(self).cells@.len(),
                forall|k: int|
                    0 <= k < idx ==> #[trigger] self.cells@[k] == (Cell {
                        glyph: if glyph {
                            0
                        } else {
                            old(self).cells@[k].glyph
                        },
                        fg: if fg {
                            RGBA(0, 0, 0, 0)
                        } else {
                            old(self).cells@[k].fg
                        },
                        bg: if bg {
                            RGBA(0, 0, 0, 0)
                        } else {
                            old(self).cells@[k].bg
                        },
                    }),
                forall|k: int| idx <= k < n ==> #[trigger] self.cells@[k] == old(self).cells@[k],
            decreases n - idx,
        {
            let c = self.cells[idx];
            let nc = Cell {
                glyph: if glyph {
                    0
                } else {
                    c.glyph
                },
                fg: if fg {
                    RGBA(0, 0, 0, 0)
                } else {
                    c.fg
                },
                bg: if bg {
                    RGBA(0, 0, 0, 0)
                } else {
                    c.bg
                },
            };
            self.cells[idx] = nc;
            idx += 1;
        }
        proof {
            assert forall|i: int, j: int| old(self).in_bounds(i, j) implies #[trigger] self.cell(
                i,
                j,
            ) == (Cell {
                glyph: if glyph {
                    0
                } else {
                    old(self).cell(i, j).glyph
                },
                fg: if fg {
                    RGBA(0, 0, 0, 0)
                } else {
                    old(self).cell(i, j).fg
                },
                bg: if bg {
                    RGBA(0, 0, 0, 0)
                } else {
                    old(self).cell(i, j).bg
                },
            }) by {
                lemma_grid_index(self.width as int, self.height as int, i, j);
            }
        }
    }

    /// Draws a filled rectangle: every cell of the rectangle that lies on
    /// the grid is written with the given planes, as one `draw_opt` each.
    pub fn area(&mut self, x: i32, y: i32, width: u32, height: u32, glyph: Option<Glyph>, fg:
        Option<RGBA>, bg: Option<RGBA>)
        ensures
            final(self).spec_width() == old(self).spec_width(),
            final(self).spec_height() == old(self).spec_height(),
            forall|i: int, j: int|
                old(self).in_bounds(i, j) ==> #[trigger] final(self).cell(i, j) == (if x <= i < x
                    + width && y <= j < y + height {
                    merge_cell(old(self).cell(i, j), glyph, fg, bg)
                } else {
                    old(self).cell(i, j)
                }),
    {
        let x0 = x as i64;
        let y0 = y as i64;
        let x1 = x0 + width as i64;
        let y1 = y0 + height as i64;
        let mut cy = y0;
        while cy < y1
            invariant
                x0 == x as i64,
                y0 == y as i64,
                x1 == x0 + width,
                y1 == y0 + height,
                y0 <= cy <= y1 || cy == y0,
                self.spec_width() == old(self).spec_width(),
                self.spec_height() == old(self).spec_height(),
                forall|i: int, j: int|
                    old(self).in_bounds(i, j) ==> #[trigger] self.cell(i, j) == (if x0 <= i < x1
                        && y0 <= j < cy {
                        merge_cell(old(self).cell(i, j), glyph, fg, bg)
                    } else {
                        old(self).cell(i, j)
                    }),
            decreases y1 - cy,
        {
            let mut cx = x0;
            while cx < x1
                invariant
                    x0 == x as i64,
                    y0 == y as i64,
                    x1 == x0 + width,
                    y1 == y0 + height,
                    y0 <= cy < y1,
                    x0 <= cx <= x1 || cx == x0,
                    self.spec_width() == old(self).spec_width(),
                    self.spec_height() == old(self).spec_height(),
                    forall|i: int, j: int|
                        old(self).in_bounds(i, j) ==> #[trigger] self.cell(i, j) == (if (x0 <= i
                            < x1 && y0 <= j < cy) || (y0 <= j && j == cy && x0 <= i < cx) {
                            merge_cell(old(self).cell(i, j), glyph, fg, bg)
                        } else {
                            old(self).cell(i, j)
                        }),
                decreases x1 - cx,
            {
                self.draw_opt(cx, cy, glyph, fg, bg);
                cx += 1;
            }
            cy += 1;
        }
    }
}

/// A coordinate pair on a `w` by `h` grid indexes one cell of the row-major
/// cell vector.
proof fn lemma_grid_index(w: int, h: int, x: int, y: int)
    requires
        0 <= x < w,
        0 <= y < h,
    ensures
        0 <= y * w + x < w * h,
{
    assert(0 <= y * w + x < w * h) by (nonlinear_arith)
        requires
            0 <= x < w && 0 <= y < h,
    ;
}

/// Two distinct on-grid coordinate pairs index distinct cells.
proof fn lemma_grid_index_injective(w: int, x1: int, y1: int, x2: int, y2: int)
    requires
        0 <= x1 < w,
        0 <= x2 < w,
        y1 >= 0,
        y2 >= 0,
        y1 * w + x1 == y2 * w + x2,
    ensures
        x1 == x2 && y1 == y2,
{
    assert(x1 == x2 && y1 == y2) by (nonlinear_arith)
        requires
            0 <= x1 < w && 0 <= x2 < w && y1 >= 0 && y2 >= 0 && y1 * w + x1 == y2 * w + x2,
    ;
}

} // verus!
