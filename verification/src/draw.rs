//! A character buffer for rendering a dungeon map as text. Rooms become
//! boxed cells of `sx` by `sy` characters; connections are drawn on the
//! shared edges. Printing the finished buffer is the caller's business.

use vstd::prelude::*;
use crate::base::Side;

verus! {

/// A rectangular character buffer of `width * sx` columns and
/// `height * sy` rows, with grid coordinates translated by `(ox, oy)`.
pub struct DrawBuffer {
    pub sx: usize,
    pub sy: usize,
    pub ox: i32,
    pub oy: i32,
    pub width: usize,
    pub height: usize,
    pub buffer: Vec<char>,
}

impl DrawBuffer {
    /// The buffer holds exactly one character per cell of the canvas, and
    /// the cell dimensions leave room for the glyphs the draw calls place.
    pub open spec fn wf(self) -> bool {
        &&& self.buffer@.len() == self.width * self.sx * self.height * self.sy
    }

    /// Characters per canvas row.
    pub open spec fn stride(self) -> int {
        self.width * self.sx
    }

    /// A fresh canvas filled with spaces.
    pub fn new(width: usize, height: usize, ox: i32, oy: i32, sx: usize, sy: usize) -> (r:
        DrawBuffer)
        requires
            width * sx <= usize::MAX,
            width * sx * height <= usize::MAX,
            width * sx * height * sy <= usize::MAX,
        ensures
            r.wf(),
            r.width == width && r.height == height && r.sx == sx && r.sy == sy && r.ox == ox
                && r.oy == oy,
            forall|i: int| 0 <= i < r.buffer@.len() ==> r.buffer@[i] == ' ',
    {
        let size = width * sx * height * sy;
        let mut buffer: Vec<char> = Vec::new();
        let mut i: usize = 0;
        while i < size
            invariant
                i <= size,
                buffer@.len() == i,
                forall|j: int| 0 <= j < i ==> buffer@[j] == ' ',
            decreases size - i,
        {
            buffer.push(' ');
            i += 1;
        }
        DrawBuffer { sx, sy, ox, oy, width, height, buffer }
    }

    /// Writes one character at a raw buffer position.
    fn put(&mut self, idx: usize, c: char)
        requires
            old(self).wf(),
            idx < old(self).buffer@.len(),
        ensures
            final(self).wf(),
            final(self).buffer@.len() == old(self).buffer@.len(),
            final(self).buffer@[idx as int] == c,
            forall|j: int|
                0 <= j < old(self).buffer@.len() && j != idx ==> #[trigger] final(self).buffer@[j]
                    == old(self).buffer@[j],
            final(self).width == old(self).width && final(self).height == old(self).height,
            final(self).sx == old(self).sx && final(self).sy == old(self).sy,
            final(self).ox == old(self).ox && final(self).oy == old(self).oy,
    {
        let _ = self.buffer.remove(idx);
        self.buffer.insert(idx, c);
        proof {
            assert(final(self).buffer@ =~= old(self).buffer@.update(idx as int, c));
        }
    }

    /// A canvas cell at row `row` and column `col` lies inside the buffer.
    proof fn lemma_cell_in_bounds(self, row: int, col: int)
        requires
            self.wf(),
            0 <= row < self.height * self.sy,
            0 <= col < self.stride(),
        ensures
            0 <= row * self.stride() + col < self.buffer@.len(),
            0 <= row * self.stride(),
            self.stride() <= self.buffer@.len(),
    {
        let w = self.stride();
        let h = self.height * self.sy;
        assert(row * w + col < w * h && 0 <= row * w && (h >= 1 ==> w <= w * h)) by (
        nonlinear_arith)
            requires
                0 <= row < h,
                0 <= col < w,
        ;
        assert(self.width * self.sx * self.height * self.sy == w * h) by (nonlinear_arith)
            requires
                w == self.width * self.sx,
                h == self.height * self.sy,
        ;
    }

    /// Draws `b` along a horizontal run of cells: row `y`, columns
    /// `[x, tx)`.
    pub fn draw_hline(&mut self, y: usize, x: usize, tx: usize, b: char)
        requires
            old(self).wf(),
            x < tx ==> y < old(self).height * old(self).sy && tx <= old(self).stride(),
        ensures
            final(self).wf(),
            final(self).width == old(self).width && final(self).height == old(self).height,
            final(self).sx == old(self).sx && final(self).sy == old(self).sy,
            final(self).ox == old(self).ox && final(self).oy == old(self).oy,
            forall|i: int|
                x <= i < tx ==> #[trigger] final(self).buffer@[i + y * old(self).stride()] == b,
            forall|j: int|
                0 <= j < old(self).buffer@.len() && (j < y * old(self).stride() + x || j >= y
                    * old(self).stride() + tx) ==> #[trigger] final(self).buffer@[j] == old(
                    self,
                ).buffer@[j],
    {
        let mut i: usize = x;
        while i < tx
            invariant
                self.wf(),
                self.buffer@.len() == old(self).buffer@.len(),
                self.width == old(self).width && self.height == old(self).height,
                self.sx == old(self).sx && self.sy == old(self).sy,
                self.ox == old(self).ox && self.oy == old(self).oy,
                x <= i,
                i <= tx || i == x,
                x < tx ==> y < self.height * self.sy && tx <= self.stride(),
                forall|w: int| x <= w < i ==> #[trigger] self.buffer@[w + y * self.stride()] == b,
                forall|j: int|
                    0 <= j < old(self).buffer@.len() && (j < y * self.stride() + x || j >= y
                        * self.stride() + i) ==> #[trigger] self.buffer@[j] == old(
                        self,
                    ).buffer@[j],
            decreases tx - i,
        {
            let n = self.buffer.len();
            proof {
                self.lemma_cell_in_bounds(y as int, i as int);
                assert(self.stride() <= n);
                assert(y * self.stride() + i < n);
                assert(0 <= y * self.stride());
            }
            let idx = i + y * (self.width * self.sx);
            proof {
                assert(idx == y * self.stride() + i);
            }
            self.put(idx, b);
            i += 1;
        }
    }

    /// Draws `b` along a vertical run of cells: column `x`, rows `[y, ty)`.
    pub fn draw_vline(&mut self, x: usize, y: usize, ty: usize, b: char)
        requires
            old(self).wf(),
            y < ty ==> ty <= old(self).height * old(self).sy && x < old(self).stride(),
        ensures
            final(self).wf(),
            final(self).width == old(self).width && final(self).height == old(self).height,
            final(self).sx == old(self).sx && final(self).sy == old(self).sy,
            final(self).ox == old(self).ox && final(self).oy == old(self).oy,
            forall|i: int|
                y <= i < ty ==> #[trigger] final(self).buffer@[i * old(self).stride() + x] == b,
            forall|j: int|
                0 <= j < old(self).buffer@.len() && !(j % old(self).stride() == x && y <= j / old(
                    self,
                ).stride() < ty) ==> final(self).buffer@[j] == old(self).buffer@[j],
    {
        let mut i: usize = y;
        while i < ty
            invariant
                self.wf(),
                self.buffer@.len() == old(self).buffer@.len(),
                self.width == old(self).width && self.height == old(self).height,
                self.sx == old(self).sx && self.sy == old(self).sy,
                self.ox == old(self).ox && self.oy == old(self).oy,
                y <= i,
                i <= ty || i == y,
                y < ty ==> ty <= self.height * self.sy && x < self.stride(),
                forall|w: int| y <= w < i ==> #[trigger] self.buffer@[w * self.stride() + x] == b,
                forall|j: int|
                    0 <= j < old(self).buffer@.len() && !(j % self.stride() == x && y <= j
                        / self.stride() < i) ==> self.buffer@[j] == old(self).buffer@[j],
            decreases ty - i,
        {
            let n = self.buffer.len();
            proof {
                self.lemma_cell_in_bounds(i as int, x as int);
                lemma_row_col(i as int, self.stride(), x as int);
                assert(self.stride() <= n);
                assert(i * self.stride() + x < n);
                assert(0 <= i * self.stride());
            }
            let idx = i * (self.width * self.sx) + x;
            proof {
                assert(idx == i * self.stride() + x);
            }
            self.put(idx, b);
            proof {
                assert forall|w: int|
                    y <= w < i + 1 implies #[trigger] self.buffer@[w * self.stride() + x] == b by {
                    self.lemma_cell_in_bounds(w, x as int);
                    lemma_row_col(w, self.stride(), x as int);
                    lemma_row_col(i as int, self.stride(), x as int);
                    if w < i {
                        assert(w * self.stride() + x != idx);
                    }
                }
                assert forall|j: int|
                    0 <= j < old(self).buffer@.len() && !(j % self.stride() == x && y <= j
                        / self.stride() < i + 1) implies self.buffer@[j] == old(
                        self,
                    ).buffer@[j] by {
                    lemma_row_col(i as int, self.stride(), x as int);
                    if j == i * self.stride() + x {
                        assert(j % self.stride() == x && j / self.stride() == i);
                    } else {
                        assert(j != idx);
                    }
                }
            }
            i += 1;
        }
    }

    /// Writes one character at the canvas cell `(row, col)`.
    fn put_cell(&mut self, row: usize, col: usize, c: char)
        requires
            old(self).wf(),
            row < old(self).height * old(self).sy,
            col < old(self).stride(),
        ensures
            final(self).wf(),
            final(self).buffer@.len() == old(self).buffer@.len(),
            final(self).width == old(self).width && final(self).height == old(self).height,
            final(self).sx == old(self).sx && final(self).sy == old(self).sy,
            final(self).ox == old(self).ox && final(self).oy == old(self).oy,
            final(self).buffer@[row * old(self).stride() + col] == c,
            forall|j: int|
                0 <= j < old(self).buffer@.len() && j != row * old(self).stride() + col ==> (
                #[trigger] final(self).buffer@[j]) == old(self).buffer@[j],
    {
        let n = self.buffer.len();
        proof {
            self.lemma_cell_in_bounds(row as int, col as int);
            assert(self.stride() <= n);
            assert(row * self.stride() + col < n);
            assert(0 <= row * self.stride());
        }
        let idx = row * (self.width * self.sx) + col;
        proof {
            assert(idx == row * self.stride() + col);
        }
        self.put(idx, c);
    }

    /// One room cell's spans lie inside the canvas.
    proof fn lemma_room_cell_bounds(self, x0: int, y0: int)
        requires
            self.wf(),
            self.sx >= 1,
            self.sy >= 1,
            0 <= x0 < self.width,
            0 <= y0 < self.height,
        ensures
            0 <= x0 * self.sx,
            x0 * self.sx + self.sx <= self.stride(),
            0 <= y0 * self.sy,
            y0 * self.sy + self.sy <= self.height * self.sy,
            self.stride() <= self.buffer@.len(),
            self.height * self.sy <= self.buffer@.len(),
    {
        let w = self.stride();
        let h = self.height * self.sy;
        assert(0 <= x0 * self.sx && x0 * self.sx + self.sx <= self.width * self.sx) by (
        nonlinear_arith)
            requires
                0 <= x0 < self.width,
                self.sx >= 1,
        ;
        assert(0 <= y0 * self.sy && y0 * self.sy + self.sy <= h) by (nonlinear_arith)
            requires
                0 <= y0 < self.height,
                self.sy >= 1,
                h == self.height * self.sy,
        ;
        assert(1 <= self.width * self.sx && 1 <= h) by (nonlinear_arith)
            requires
                1 <= self.width,
                1 <= self.sx,
                1 <= self.height,
                1 <= self.sy,
                h == self.height * self.sy,
        ;
        assert(w <= w * h && h <= w * h) by (nonlinear_arith)
            requires
                w >= 1,
                h >= 1,
        ;
        assert(self.width * self.sx * self.height * self.sy == w * h) by (nonlinear_arith)
            requires
                w == self.width * self.sx,
                h == self.height * self.sy,
        ;
    }

    /// Draws the box of the room at grid position `(x, y)`: its border
    /// lines and four corners.
    pub fn draw_rect(&mut self, x: i32, y: i32)
        requires
            old(self).wf(),
            old(self).sx >= 4,
            old(self).sy >= 3,
            old(self).ox <= x,
            old(self).oy <= y,
            x - old(self).ox < old(self).width,
            y - old(self).oy < old(self).height,
            x - old(self).ox <= i32::MAX,
            y - old(self).oy <= i32::MAX,
        ensures
            final(self).wf(),
            final(self).buffer@.len() == old(self).buffer@.len(),
            final(self).width == old(self).width && final(self).height == old(self).height,
            final(self).sx == old(self).sx && final(self).sy == old(self).sy,
            final(self).ox == old(self).ox && final(self).oy == old(self).oy,
    {
        let x0 = (x - self.ox) as usize;
        let y0 = (y - self.oy) as usize;
        let sx = self.sx;
        let sy = self.sy;
        let n = self.buffer.len();
        proof {
            self.lemma_room_cell_bounds(x0 as int, y0 as int);
            assert(self.stride() <= n);
            assert(self.height * self.sy <= n);
        }

        // Border lines.
        self.draw_hline(y0 * sy, x0 * sx, x0 * sx + sx - 3, '\u{2501}');
        self.draw_hline(y0 * sy + sy - 2, x0 * sx, x0 * sx + sx - 3, '\u{2501}');
        self.draw_vline(x0 * sx, y0 * sy, y0 * sy + sy - 1, '\u{2503}');
        self.draw_vline(x0 * sx + sx - 3, y0 * sy, y0 * sy + sy - 1, '\u{2503}');

        // Corners.
        self.put_cell(y0 * sy, x0 * sx, '\u{250f}');
        self.put_cell(y0 * sy, x0 * sx + sx - 3, '\u{2513}');
        self.put_cell(y0 * sy + sy - 2, x0 * sx, '\u{2517}');
        self.put_cell(y0 * sy + sy - 2, x0 * sx + sx - 3, '\u{251b}');
    }

    /// Writes `text` inside the room cell at grid position `(x, y)`, at the
    /// in-cell offset `(ox, oy)`.
    pub fn draw_text(&mut self, x: i32, y: i32, ox: usize, oy: usize, text: &str)
        requires
            old(self).wf(),
            old(self).sx >= 1,
            old(self).sy >= 1,
            old(self).ox <= x,
            old(self).oy <= y,
            x - old(self).ox < old(self).width,
            y - old(self).oy < old(self).height,
            x - old(self).ox <= i32::MAX,
            y - old(self).oy <= i32::MAX,
            oy < old(self).sy,
            ox + text@.len() <= old(self).sx,
        ensures
            final(self).wf(),
            final(self).buffer@.len() == old(self).buffer@.len(),
            final(self).width == old(self).width && final(self).height == old(self).height,
            final(self).sx == old(self).sx && final(self).sy == old(self).sy,
            final(self).ox == old(self).ox && final(self).oy == old(self).oy,
            forall|i: int|
                0 <= i < text@.len() ==> #[trigger] final(self).buffer@[((y - old(self).oy) * old(
                    self,
                ).sy + oy) * old(self).stride() + (x - old(self).ox) * old(self).sx + ox + i]
                    == text@[i],
            forall|j: int|
                0 <= j < old(self).buffer@.len() && (j < ((y - old(self).oy) * old(self).sy + oy)
                    * old(self).stride() + (x - old(self).ox) * old(self).sx + ox || j >= ((y - old(
                    self,
                ).oy) * old(self).sy + oy) * old(self).stride() + (x - old(self).ox) * old(
                    self,
                ).sx + ox + text@.len()) ==> #[trigger] final(self).buffer@[j] == old(
                    self,
                ).buffer@[j],
    {
        let x0 = (x - self.ox) as usize;
        let y0 = (y - self.oy) as usize;
        let n = self.buffer.len();
        proof {
            self.lemma_room_cell_bounds(x0 as int, y0 as int);
            assert(self.stride() <= n);
            assert(self.height * self.sy <= n);
        }
        let row = y0 * self.sy + oy;
        let col = x0 * self.sx + ox;
        let len = text.unicode_len();
        let mut i: usize = 0;
        while i < len
            invariant
                self.wf(),
                self.buffer@.len() == old(self).buffer@.len(),
                self.width == old(self).width && self.height == old(self).height,
                self.sx == old(self).sx && self.sy == old(self).sy,
                self.ox == old(self).ox && self.oy == old(self).oy,
                i <= len,
                len == text@.len(),
                row == (y - self.oy) * self.sy + oy,
                col == (x - self.ox) * self.sx + ox,
                row < self.height * self.sy,
                col + len <= self.stride(),
                col + len <= self.buffer@.len(),
                forall|w: int|
                    0 <= w < i ==> #[trigger] self.buffer@[row * self.stride() + col + w]
                        == text@[w],
                forall|j: int|
                    0 <= j < old(self).buffer@.len() && (j < row * self.stride() + col || j >= row
                        * self.stride() + col + i) ==> #[trigger] self.buffer@[j] == old(
                        self,
                    ).buffer@[j],
            decreases len - i,
        {
            let n2 = self.buffer.len();
            proof {
                assert(col + i < n2);
            }
            let c = text.get_char(i);
            self.put_cell(row, col + i, c);
            proof {
                assert forall|w: int|
                    0 <= w < i + 1 implies #[trigger] self.buffer@[row * self.stride() + col + w]
                        == text@[w] by {
                    self.lemma_cell_in_bounds(row as int, col + w);
                    if w < i {
                        assert(row * self.stride() + col + w != row * self.stride() + col + i);
                    }
                }
            }
            i += 1;
        }
        proof {
            assert forall|i2: int|
                0 <= i2 < text@.len() implies #[trigger] self.buffer@[((y - self.oy) * self.sy
                + oy) * self.stride() + (x - self.ox) * self.sx + ox + i2] == text@[i2] by {
                assert(self.buffer@[row * self.stride() + col + i2] == text@[i2]);
                assert(((y - self.oy) * self.sy + oy) == row as int);
                assert((x - self.ox) * self.sx + ox == col as int);
            }
            assert forall|j: int|
                0 <= j < old(self).buffer@.len() && (j < ((y - self.oy) * self.sy + oy)
                    * self.stride() + (x - self.ox) * self.sx + ox || j >= ((y - self.oy) * self.sy
                    + oy) * self.stride() + (x - self.ox) * self.sx + ox + text@.len()) implies
                #[trigger] self.buffer@[j] == old(self).buffer@[j] by {
                assert(((y - self.oy) * self.sy + oy) == row as int);
                assert((x - self.ox) * self.sx + ox == col as int);
                assert(j < row * self.stride() + col || j >= row * self.stride() + col + len);
            }
        }
    }

    /// Draws the connection glyphs of a door on side `d` of the room at
    /// grid position `(x, y)`, marking it with `m`.
    pub fn draw_connection(&mut self, x: i32, y: i32, d: Side, m: char)
        requires
            old(self).wf(),
            old(self).sx >= 12,
            old(self).sy >= 5,
            old(self).ox <= x,
            old(self).oy <= y,
            x - old(self).ox < old(self).width,
            y - old(self).oy < old(self).height,
            x - old(self).ox <= i32::MAX,
            y - old(self).oy <= i32::MAX,
            d == Side::North ==> y > old(self).oy,
            d == Side::West ==> x > old(self).ox,
        ensures
            final(self).wf(),
            final(self).buffer@.len() == old(self).buffer@.len(),
            final(self).width == old(self).width && final(self).height == old(self).height,
            final(self).sx == old(self).sx && final(self).sy == old(self).sy,
            final(self).ox == old(self).ox && final(self).oy == old(self).oy,
    {
        let x0 = (x - self.ox) as usize;
        let y0 = (y - self.oy) as usize;
        let sx = self.sx;
        let sy = self.sy;
        let n = self.buffer.len();
        proof {
            self.lemma_room_cell_bounds(x0 as int, y0 as int);
            assert(self.stride() <= n);
            assert(self.height * self.sy <= n);
        }

        match d {
            Side::North => {
                proof {
                    assert(y0 * sy >= sy) by (nonlinear_arith)
                        requires
                            y0 >= 1,
                            sy >= 0,
                    ;
                }
                self.put_cell(y0 * sy, x0 * sx + 8, '\u{2580}');
                self.put_cell(y0 * sy - 1, x0 * sx + 8, '\u{2588}');
                self.put_cell(y0 * sy + 1, x0 * sx + 8, m);
            },
            Side::East => {
                self.put_cell(y0 * sy + 3, x0 * sx + sx - 4, m);
                self.put_cell(y0 * sy + 3, x0 * sx + sx - 3, '\u{2590}');
                self.put_cell(y0 * sy + 3, x0 * sx + sx - 2, '\u{2588}');
            },
            Side::South => {
                self.put_cell(y0 * sy + sy - 2, x0 * sx + 8, '\u{2584}');
                self.put_cell(y0 * sy + sy - 3, x0 * sx + 8, m);
            },
            Side::West => {
                proof {
                    assert(x0 * sx >= sx) by (nonlinear_arith)
                        requires
                            x0 >= 1,
                            sx >= 0,
                    ;
                }
                self.put_cell(y0 * sy + 3, x0 * sx + 1, m);
                self.put_cell(y0 * sy + 3, x0 * sx, '\u{258c}');
                self.put_cell(y0 * sy + 3, x0 * sx - 1, '\u{2588}');
            },
            Side::Nowhere => {},
        }
    }
}

/// A cell index decomposes back into its row and column.
proof fn lemma_row_col(i: int, w: int, x: int)
    requires
        w > 0,
        0 <= x < w,
        0 <= i,
    ensures
        (i * w + x) % w == x,
        (i * w + x) / w == i,
{
    assert((i * w + x) % w == x && (i * w + x) / w == i) by (nonlinear_arith)
        requires
            w > 0,
            0 <= x < w,
            0 <= i,
    ;
}

} // verus!
