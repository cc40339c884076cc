//! The character canvas and the drawing operations on it.
use vstd::prelude::*;
use vstd::arithmetic::div_mod::{lemma_fundamental_div_mod, lemma_mod_pos_bound};
use crate::shape::{draw_edges, draw_faces, face_edges, valid_ref};
use crate::raster::{
    along, cell_index, frame, frame_cell, is_steep, lemma_paint_off_canvas, lemma_round_falling, lemma_round_rising,
    frame_text, line_cell, line_drawn, line_len, on_canvas, paint_line, point, put,
};

verus! {

/// Character that every cell holds before anything is drawn.
pub const BACKGROUND: char = '_';

/// A fixed-size grid of characters, stored row-major in one buffer.
pub struct Screen {
    buffer: Vec<char>,
    resolution: (usize, usize),
}

impl Screen {
    /// Width of the canvas in cells.
    pub closed spec fn width(&self) -> int {
        self.resolution.0 as int
    }

    /// Height of the canvas in cells.
    pub closed spec fn height(&self) -> int {
        self.resolution.1 as int
    }

    /// The cells, row after row.
    pub closed spec fn cells(&self) -> Seq<char> {
        self.buffer@
    }

    /// The buffer holds exactly one cell per column and row.
    pub closed spec fn wf(&self) -> bool {
        self.buffer@.len() == self.resolution.0 * self.resolution.1
    }

    /// A canvas of `resolution.0` columns and `resolution.1` rows, every cell
    /// holding the background character.
    pub fn new(resolution: (usize, usize)) -> (s: Screen)
        requires
            resolution.0 * resolution.1 <= usize::MAX,
        ensures
            s.wf(),
            s.width() == resolution.0,
            s.height() == resolution.1,
            s.cells() == Seq::new((resolution.0 * resolution.1) as nat, |i: int| BACKGROUND),
    {
        let n: usize = resolution.0 * resolution.1;
        let mut buffer: Vec<char> = Vec::new();
        let mut i: usize = 0;
        while i < n
            invariant
                i <= n,
                buffer@ == Seq::new(i as nat, |k: int| BACKGROUND),
            decreases n - i,
        {
            buffer.push(BACKGROUND);
            i = i + 1;
        }
        Screen { buffer, resolution }
    }

    /// Writes `pixel` at the 1-based position `(column, row)`; a zero coordinate
    /// or a position past the edge is dropped silently.
    pub fn draw_pixel(&mut self, position: (usize, usize), pixel: char)
        requires
            old(self).wf(),
        ensures
            final(self).wf(),
            final(self).width() == old(self).width(),
            final(self).height() == old(self).height(),
            final(self).cells() == put(old(self).cells(), old(self).width(), old(self).height(),
                (position.0 as int, position.1 as int), pixel),
            position.0 == 0 || position.1 == 0 ==> final(self).cells() == old(self).cells(),
    {
        let (w, h) = self.resolution;
        let n: usize = self.buffer.len();
        if position.0 > 0 && position.1 > 0 && position.0 <= w && position.1 <= h {
            proof {
                let (x, y) = (position.0 as int, position.1 as int);
                assert((y - 1) * w + (x - 1) < n && 0 <= (y - 1) * w <= n) by (nonlinear_arith)
                    requires x <= w, y <= h, x >= 1, y >= 1, n == w * h;
            }
            let idx: usize = (position.1 - 1) * w + (position.0 - 1);
            self.buffer.set(idx, pixel);
        }
    }
}

impl Screen {
    /// Writes `pixel` at the cell whose walking coordinate is `x` and whose
    /// other coordinate is `y`.
    fn plot(&mut self, steep: bool, x: usize, y: usize, pixel: char)
        requires
            old(self).wf(),
        ensures
            final(self).wf(),
            final(self).width() == old(self).width(),
            final(self).height() == old(self).height(),
            final(self).cells() == put(old(self).cells(), old(self).width(), old(self).height(),
                along((x as int, y as int), steep), pixel),
    {
        if steep {
            self.draw_pixel((y, x), pixel);
        } else {
            self.draw_pixel((x, y), pixel);
        }
    }

    /// Draws the cell at walking coordinate `x` of the walk from `a` to `b`.
    fn draw_step(&mut self, a: (usize, usize), b: (usize, usize), steep: bool, x: usize, pixel: char)
        requires
            old(self).wf(),
            a.0 <= x <= b.0,
        ensures
            final(self).wf(),
            final(self).width() == old(self).width(),
            final(self).height() == old(self).height(),
            final(self).cells() == put(old(self).cells(), old(self).width(), old(self).height(),
                frame_cell(point(a), point(b), steep, x - a.0), pixel),
    {
        let run: usize = b.0 - a.0;
        let t: usize = x - a.0;
        if run == 0 {
            self.plot(steep, x, a.1, pixel);
        } else {
            let run_w: u128 = run as u128;
            let (dist, rising): (usize, bool) = if b.1 >= a.1 {
                (b.1 - a.1, true)
            } else {
                (a.1 - b.1, false)
            };
            proof {
                let (d, tt) = (dist as int, t as int);
                assert(d * tt <= usize::MAX * usize::MAX) by (nonlinear_arith)
                    requires 0 <= d <= usize::MAX, 0 <= tt <= usize::MAX;
            }
            let prod: u128 = dist as u128 * t as u128;
            let q: u128 = prod / run_w;
            let r: u128 = prod % run_w;
            proof {
                lemma_fundamental_div_mod(prod as int, run_w as int);
                lemma_mod_pos_bound(prod as int, run_w as int);
            }
            if rising {
                let bump: u128 = if 2 * r >= run_w { 1 } else { 0 };
                proof {
                    lemma_round_rising(a.1 as int, dist as int, t as int, run as int, q as int, r as int);
                    assert((b.1 - a.1) * t == dist * t);
                }
                if q <= usize::MAX as u128 {
                    let y: u128 = a.1 as u128 + q + bump;
                    if y <= usize::MAX as u128 {
                        self.plot(steep, x, y as usize, pixel);
                    }
                }
            } else {
                let bump: u128 = if 2 * r > run_w { 1 } else { 0 };
                proof {
                    lemma_round_falling(a.1 as int, dist as int, t as int, run as int, q as int, r as int);
                    assert((b.1 - a.1) * t == -(dist * t)) by (nonlinear_arith)
                        requires dist == a.1 - b.1;
                }
                let down: usize = (q + bump) as usize;
                self.plot(steep, x, a.1 - down, pixel);
            }
        }
    }

    /// Draws the line between two 1-based grid positions: the walk goes one
    /// cell at a time along the axis of the larger extent, from the lower end
    /// of that axis to the higher, and the other coordinate is the rounded
    /// point-slope value. Cells off the canvas are dropped.
    pub fn draw_line(&mut self, position1: (usize, usize), position2: (usize, usize), pixel: char)
        requires
            old(self).wf(),
        ensures
            final(self).wf(),
            final(self).width() == old(self).width(),
            final(self).height() == old(self).height(),
            final(self).cells() == line_drawn(old(self).cells(), old(self).width(), old(self).height(),
                point(position1), point(position2), pixel),
    {
        let ghost (p1, p2) = (point(position1), point(position2));
        let ghost (cells0, w0, h0) = (self.cells(), self.width(), self.height());
        let dx: usize = if position2.0 >= position1.0 {
            position2.0 - position1.0
        } else {
            position1.0 - position2.0
        };
        let dy: usize = if position2.1 >= position1.1 {
            position2.1 - position1.1
        } else {
            position1.1 - position2.1
        };
        let steep: bool = dy > dx;
        let (mut a, mut b) = if steep {
            ((position1.1, position1.0), (position2.1, position2.0))
        } else {
            (position1, position2)
        };
        if a.0 > b.0 {
            let first = a;
            a = b;
            b = first;
        }
        assert(steep == is_steep(p1, p2));
        assert(frame(p1, p2) == (point(a), point(b)));
        let (w, h) = self.resolution;
        let walk_dim: usize = if steep { h } else { w };
        let lo: usize = if a.0 >= 1 { a.0 } else { 1 };
        let hi: usize = if b.0 <= walk_dim { b.0 } else { walk_dim };
        proof {
            assert forall|t: int| 0 <= t < lo - a.0 implies !on_canvas(w0, h0, #[trigger] line_cell(p1, p2, t)) by {
                assert(line_cell(p1, p2, t) == frame_cell(point(a), point(b), steep, t));
            }
            lemma_paint_off_canvas(cells0, w0, h0, p1, p2, pixel, 0, lo - a.0);
        }
        if lo <= hi {
            let count: usize = hi - lo + 1;
            let mut k: usize = 0;
            while k < count
                invariant
                    a.0 <= lo <= hi <= b.0,
                    count == hi - lo + 1,
                    k <= count,
                    self.wf(),
                    self.width() == w0,
                    self.height() == h0,
                    frame(p1, p2) == (point(a), point(b)),
                    steep == is_steep(p1, p2),
                    self.cells() == paint_line(cells0, w0, h0, p1, p2, pixel, lo - a.0 + k),
                decreases count - k,
            {
                self.draw_step(a, b, steep, lo + k, pixel);
                k = k + 1;
            }
            proof {
                assert forall|t: int| hi - a.0 + 1 <= t < line_len(p1, p2) implies !on_canvas(w0, h0, #[trigger] line_cell(p1, p2, t)) by {
                    assert(line_cell(p1, p2, t) == frame_cell(point(a), point(b), steep, t));
                }
                lemma_paint_off_canvas(cells0, w0, h0, p1, p2, pixel, hi - a.0 + 1, line_len(p1, p2));
            }
        } else {
            proof {
                assert forall|t: int| 0 <= t < line_len(p1, p2) implies !on_canvas(w0, h0, #[trigger] line_cell(p1, p2, t)) by {
                    assert(line_cell(p1, p2, t) == frame_cell(point(a), point(b), steep, t));
                }
                lemma_paint_off_canvas(cells0, w0, h0, p1, p2, pixel, 0, line_len(p1, p2));
            }
        }
    }
}

impl Screen {
    /// Draws every face as a closed polygon of lines between projected points.
    /// Face entries are 1-based references into `projected`; an edge with a
    /// reference that names no point is skipped, and the rest of the face is
    /// still drawn.
    pub fn draw_shape(&mut self, projected: &Vec<(usize, usize)>, faces: &Vec<Vec<usize>>, pixel: char)
        requires
            old(self).wf(),
        ensures
            final(self).wf(),
            final(self).width() == old(self).width(),
            final(self).height() == old(self).height(),
            final(self).cells() == draw_faces(old(self).cells(), old(self).width(), old(self).height(),
                projected@, faces@, pixel, faces@.len() as int),
    {
        let ghost (cells0, w0, h0) = (self.cells(), self.width(), self.height());
        let n_points: usize = projected.len();
        let mut i: usize = 0;
        while i < faces.len()
            invariant
                i <= faces.len(),
                n_points == projected@.len(),
                self.wf(),
                self.width() == w0,
                self.height() == h0,
                self.cells() == draw_faces(cells0, w0, h0, projected@, faces@, pixel, i as int),
            decreases faces.len() - i,
        {
            let face: &Vec<usize> = &faces[i];
            let n: usize = face.len();
            let ghost start = self.cells();
            let mut j: usize = 0;
            while j < n
                invariant
                    j <= n,
                    n == face@.len(),
                    n_points == projected@.len(),
                    self.wf(),
                    self.width() == w0,
                    self.height() == h0,
                    self.cells() == draw_edges(start, w0, h0, projected@, face_edges(face@), pixel, j as int),
                decreases n - j,
            {
                let from: usize = face[j];
                let to: usize = face[(j + 1) % n];
                assert(face_edges(face@)[j as int] == (from, to));
                if from >= 1 && from - 1 < n_points && to >= 1 && to - 1 < n_points {
                    self.draw_line(projected[from - 1], projected[to - 1], pixel);
                }
                j = j + 1;
            }
            i = i + 1;
        }
    }
}

impl Screen {
    /// The canvas size as (columns, rows).
    pub fn resolution(&self) -> (r: (usize, usize))
        ensures
            r.0 == self.width(),
            r.1 == self.height(),
    {
        self.resolution
    }

    /// The character at the 1-based position `(column, row)`, or `None` off the canvas.
    pub fn pixel(&self, position: (usize, usize)) -> (r: Option<char>)
        requires
            self.wf(),
        ensures
            on_canvas(self.width(), self.height(), point(position)) ==> r == Some(
                self.cells()[cell_index(self.width(), position.0 as int, position.1 as int)],
            ),
            !on_canvas(self.width(), self.height(), point(position)) ==> r.is_none(),
    {
        let (w, h) = self.resolution;
        let n: usize = self.buffer.len();
        if position.0 > 0 && position.1 > 0 && position.0 <= w && position.1 <= h {
            proof {
                let (x, y) = (position.0 as int, position.1 as int);
                assert((y - 1) * w + (x - 1) < n && 0 <= (y - 1) * w <= n) by (nonlinear_arith)
                    requires x <= w, y <= h, x >= 1, y >= 1, n == w * h;
            }
            Some(self.buffer[(position.1 - 1) * w + (position.0 - 1)])
        } else {
            None
        }
    }

    /// The frame as text: the rows from top to bottom, each followed by a line break.
    pub fn frame(&self) -> (r: Vec<char>)
        requires
            self.wf(),
        ensures
            r@ == frame_text(self.cells(), self.width(), self.height()),
    {
        let (w, h) = self.resolution;
        let ghost cells = self.cells();
        let n: usize = self.buffer.len();
        let mut text: Vec<char> = Vec::new();
        let mut row: usize = 0;
        while row < h
            invariant
                self.wf(),
                (w, h) == self.resolution,
                cells == self.cells(),
                n == w * h,
                row <= h,
                text@ == frame_text(cells, w as int, row as int),
            decreases h - row,
        {
            proof {
                assert((row + 1) * w <= w * h && row * w + w == (row + 1) * w) by (nonlinear_arith)
                    requires row < h;
            }
            let start: usize = row * w;
            let mut col: usize = 0;
            while col < w
                invariant
                    self.wf(),
                    (w, h) == self.resolution,
                    cells == self.cells(),
                    n == w * h,
                    row < h,
                    start == row * w,
                    start + w <= w * h,
                    col <= w,
                    text@ == frame_text(cells, w as int, row as int) + cells.subrange(start as int, start + col),
                decreases w - col,
            {
                text.push(self.buffer[start + col]);
                col = col + 1;
                assert(cells.subrange(start as int, start + col) =~= cells.subrange(start as int, start + col - 1).push(cells[start + col - 1]));
            }
            text.push('\n');
            row = row + 1;
        }
        text
    }
}

} // verus!
