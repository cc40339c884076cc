//! Mathematical model of the canvas, of pixel writes and of the cells a line covers.
use vstd::prelude::*;
use vstd::arithmetic::div_mod::lemma_fundamental_div_mod_converse;

verus! {

/// Index in the row-major cell sequence of the 1-based cell `(col, row)`.
pub open spec fn cell_index(width: int, col: int, row: int) -> int {
    (row - 1) * width + (col - 1)
}

/// The frame as text: the first `rows` rows of a canvas `width` cells wide,
/// each followed by a line break.
pub open spec fn frame_text(cells: Seq<char>, width: int, rows: int) -> Seq<char>
    decreases rows,
{
    if rows <= 0 {
        Seq::empty()
    } else {
        frame_text(cells, width, rows - 1) + cells.subrange((rows - 1) * width, rows * width) + seq!['\n']
    }
}

/// A pair of grid coordinates as integers.
pub open spec fn point(p: (usize, usize)) -> (int, int) {
    (p.0 as int, p.1 as int)
}

/// Whether the 1-based cell `(col, row)` lies on a `width` x `height` canvas.
pub open spec fn on_canvas(width: int, height: int, p: (int, int)) -> bool {
    1 <= p.0 <= width && 1 <= p.1 <= height
}

/// The cells after writing `c` at the 1-based position `p`; positions off the
/// canvas (a zero coordinate included) leave the cells as they were.
pub open spec fn put(cells: Seq<char>, width: int, height: int, p: (int, int), c: char) -> Seq<char> {
    if on_canvas(width, height, p) {
        cells.update(cell_index(width, p.0, p.1), c)
    } else {
        cells
    }
}

/// Absolute value.
pub open spec fn abs(a: int) -> int {
    if a < 0 {
        -a
    } else {
        a
    }
}

/// Whether the segment spans more rows than columns, measured before any
/// reordering of its endpoints.
pub open spec fn is_steep(p1: (int, int), p2: (int, int)) -> bool {
    abs(p2.1 - p1.1) > abs(p2.0 - p1.0)
}

/// The point with its coordinates exchanged when `steep`, so that the axis the
/// line is walked along comes first.
pub open spec fn along(p: (int, int), steep: bool) -> (int, int) {
    if steep {
        (p.1, p.0)
    } else {
        p
    }
}

/// The endpoints in the walking frame: walking axis first, ordered by it.
pub open spec fn frame(p1: (int, int), p2: (int, int)) -> ((int, int), (int, int)) {
    let s = is_steep(p1, p2);
    let a = along(p1, s);
    let b = along(p2, s);
    if a.0 > b.0 {
        (b, a)
    } else {
        (a, b)
    }
}

/// `n / d` rounded to the nearest integer, halves away from zero (`d > 0`).
pub open spec fn round_div(n: int, d: int) -> int {
    if n >= 0 {
        (2 * n + d) / (2 * d)
    } else {
        -((-2 * n + d) / (2 * d))
    }
}

/// The cell at step `t` of the walk from `a` to `b` (both in the walking frame):
/// the walking coordinate advances by one per step, the other one follows the
/// point-slope form, rounded; a zero run keeps the start's coordinate.
pub open spec fn frame_cell(a: (int, int), b: (int, int), steep: bool, t: int) -> (int, int) {
    let run = b.0 - a.0;
    let y = if run == 0 {
        a.1
    } else {
        round_div(a.1 * run + (b.1 - a.1) * t, run)
    };
    along((a.0 + t, y), steep)
}

/// Number of cells on the line between `p1` and `p2`.
pub open spec fn line_len(p1: (int, int), p2: (int, int)) -> int {
    frame(p1, p2).1.0 - frame(p1, p2).0.0 + 1
}

/// The cell drawn at step `t` of the line between `p1` and `p2`.
pub open spec fn line_cell(p1: (int, int), p2: (int, int), t: int) -> (int, int) {
    frame_cell(frame(p1, p2).0, frame(p1, p2).1, is_steep(p1, p2), t)
}

/// The cells after the first `k` steps of drawing the line between `p1` and `p2`.
pub open spec fn paint_line(
    cells: Seq<char>,
    width: int,
    height: int,
    p1: (int, int),
    p2: (int, int),
    c: char,
    k: int,
) -> Seq<char>
    decreases k,
{
    if k <= 0 {
        cells
    } else {
        put(paint_line(cells, width, height, p1, p2, c, k - 1), width, height, line_cell(p1, p2, k - 1), c)
    }
}

/// The cells after drawing the whole line between `p1` and `p2` with `c`.
pub open spec fn line_drawn(
    cells: Seq<char>,
    width: int,
    height: int,
    p1: (int, int),
    p2: (int, int),
    c: char,
) -> Seq<char> {
    paint_line(cells, width, height, p1, p2, c, line_len(p1, p2))
}

/// Steps whose cells lie off the canvas change nothing.
pub proof fn lemma_paint_off_canvas(
    cells: Seq<char>,
    width: int,
    height: int,
    p1: (int, int),
    p2: (int, int),
    c: char,
    k0: int,
    k1: int,
)
    requires
        0 <= k0 <= k1,
        forall|t: int| k0 <= t < k1 ==> !on_canvas(width, height, #[trigger] line_cell(p1, p2, t)),
    ensures
        paint_line(cells, width, height, p1, p2, c, k1) == paint_line(cells, width, height, p1, p2, c, k0),
    decreases k1,
{
    if k1 > k0 {
        lemma_paint_off_canvas(cells, width, height, p1, p2, c, k0, k1 - 1);
        assert(!on_canvas(width, height, line_cell(p1, p2, k1 - 1)));
    }
}

/// Rounding of `a1 + rise * t / run` for a rising line, from the quotient and
/// remainder of `rise * t` by `run`.
pub proof fn lemma_round_rising(a1: int, rise: int, t: int, run: int, q: int, r: int)
    requires
        a1 >= 0,
        rise >= 0,
        t >= 0,
        run > 0,
        rise * t == q * run + r,
        0 <= r < run,
    ensures
        round_div(a1 * run + rise * t, run) == a1 + q + (if 2 * r >= run { 1int } else { 0int }),
{
    let n = a1 * run + rise * t;
    let bump: int = if 2 * r >= run { 1 } else { 0 };
    assert(n >= 0) by (nonlinear_arith)
        requires a1 >= 0, rise >= 0, t >= 0, run > 0, n == a1 * run + rise * t;
    let rem: int = if 2 * r >= run { 2 * r - run } else { 2 * r + run };
    assert(2 * n + run == (a1 + q + bump) * (2 * run) + rem) by (nonlinear_arith)
        requires
            n == a1 * run + rise * t,
            rise * t == q * run + r,
            bump == (if 2 * r >= run { 1int } else { 0int }),
            rem == (if 2 * r >= run { 2 * r - run } else { 2 * r + run }),
    ;
    lemma_fundamental_div_mod_converse(2 * n + run, 2 * run, a1 + q + bump, rem);
}

/// Rounding of `a1 - fall * t / run` for a falling line that stays at or above
/// zero, from the quotient and remainder of `fall * t` by `run`.
pub proof fn lemma_round_falling(a1: int, fall: int, t: int, run: int, q: int, r: int)
    requires
        fall <= a1,
        fall >= 0,
        0 <= t <= run,
        run > 0,
        fall * t == q * run + r,
        0 <= r < run,
    ensures
        q + (if 2 * r > run { 1int } else { 0int }) <= a1,
        round_div(a1 * run - fall * t, run) == a1 - q - (if 2 * r > run { 1int } else { 0int }),
{
    let n = a1 * run - fall * t;
    let down: int = q + if 2 * r > run { 1int } else { 0int };
    assert(n >= 0) by (nonlinear_arith)
        requires fall <= a1, fall >= 0, 0 <= t <= run, n == a1 * run - fall * t;
    let rem: int = if 2 * r > run { 3 * run - 2 * r } else { run - 2 * r };
    assert(2 * n + run == (a1 - down) * (2 * run) + rem) by (nonlinear_arith)
        requires
            n == a1 * run - fall * t,
            fall * t == q * run + r,
            down == q + (if 2 * r > run { 1int } else { 0int }),
            rem == (if 2 * r > run { 3 * run - 2 * r } else { run - 2 * r }),
    ;
    lemma_fundamental_div_mod_converse(2 * n + run, 2 * run, a1 - down, rem);
    assert((2 * n + run) / (2 * run) >= 0) by (nonlinear_arith)
        requires n >= 0, run > 0;
}

/// Both orders of a line's endpoints give the same walking frame.
proof fn lemma_frame_symmetric(p1: (int, int), p2: (int, int))
    ensures
        is_steep(p1, p2) == is_steep(p2, p1),
        frame(p1, p2) == frame(p2, p1),
{
}

/// Lines drawn over the same frame agree after the same number of steps.
proof fn lemma_paint_same_frame(
    cells: Seq<char>,
    width: int,
    height: int,
    p1: (int, int),
    p2: (int, int),
    c: char,
    k: int,
)
    requires
        frame(p1, p2) == frame(p2, p1),
        is_steep(p1, p2) == is_steep(p2, p1),
    ensures
        paint_line(cells, width, height, p1, p2, c, k) == paint_line(cells, width, height, p2, p1, c, k),
    decreases k,
{
    if k > 0 {
        lemma_paint_same_frame(cells, width, height, p1, p2, c, k - 1);
    }
}

/// Drawing a line does not depend on the order of its endpoints: the canvas
/// after drawing from `p1` to `p2` is the canvas after drawing from `p2` to `p1`.
pub proof fn lemma_line_symmetric(
    cells: Seq<char>,
    width: int,
    height: int,
    p1: (int, int),
    p2: (int, int),
    c: char,
)
    ensures
        line_drawn(cells, width, height, p1, p2, c) == line_drawn(cells, width, height, p2, p1, c),
{
    lemma_frame_symmetric(p1, p2);
    lemma_paint_same_frame(cells, width, height, p1, p2, c, line_len(p1, p2));
}

/// A line from a cell on the canvas to itself writes that one cell and no other.
pub proof fn lemma_point_line(cells: Seq<char>, width: int, height: int, p: (int, int), c: char)
    requires
        on_canvas(width, height, p),
    ensures
        line_drawn(cells, width, height, p, p, c) == cells.update(cell_index(width, p.0, p.1), c),
{
    assert(line_len(p, p) == 1);
    assert(line_cell(p, p, 0) == p);
    assert(paint_line(cells, width, height, p, p, c, 0) == cells);
}

} // verus!
