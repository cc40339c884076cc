//! Model of drawing a mesh's faces as closed polygons of lines.
use vstd::prelude::*;
use crate::raster::{line_drawn, point};

verus! {

/// The edges of a face: each vertex reference paired with the next one, the
/// last paired with the first.
pub open spec fn face_edges(face: Seq<usize>) -> Seq<(usize, usize)> {
    Seq::new(face.len(), |i: int| (face[i], face[(i + 1) % (face.len() as int)]))
}

/// Whether the 1-based vertex reference `r` names one of `n` points.
pub open spec fn valid_ref(r: usize, n: int) -> bool {
    1 <= r && r - 1 < n
}

/// The cells after the first `k` edges of `edges` are attempted: an edge whose
/// two references are valid draws the line between their points, any other
/// edge is skipped.
pub open spec fn draw_edges(
    cells: Seq<char>,
    width: int,
    height: int,
    points: Seq<(usize, usize)>,
    edges: Seq<(usize, usize)>,
    c: char,
    k: int,
) -> Seq<char>
    decreases k,
{
    if k <= 0 {
        cells
    } else {
        let prev = draw_edges(cells, width, height, points, edges, c, k - 1);
        let e = edges[k - 1];
        if valid_ref(e.0, points.len() as int) && valid_ref(e.1, points.len() as int) {
            line_drawn(prev, width, height, point(points[e.0 - 1]), point(points[e.1 - 1]), c)
        } else {
            prev
        }
    }
}

/// The cells after the first `k` faces are drawn, each with all of its edges.
pub open spec fn draw_faces(
    cells: Seq<char>,
    width: int,
    height: int,
    points: Seq<(usize, usize)>,
    faces: Seq<Vec<usize>>,
    c: char,
    k: int,
) -> Seq<char>
    decreases k,
{
    if k <= 0 {
        cells
    } else {
        let prev = draw_faces(cells, width, height, points, faces, c, k - 1);
        let face = faces[k - 1]@;
        draw_edges(prev, width, height, points, face_edges(face), c, face.len() as int)
    }
}

/// A face of `n` references is drawn as exactly `n` edge attempts: one from
/// each reference to the next, and one from the last back to the first.
pub proof fn lemma_face_attempts(face: Seq<usize>)
    requires
        face.len() > 0,
    ensures
        face_edges(face).len() == face.len(),
        forall|i: int| 0 <= i < face.len() - 1 ==> #[trigger] face_edges(face)[i] == (face[i], face[i + 1]),
        face_edges(face)[face.len() - 1] == (face[face.len() - 1], face[0]),
{
    let n = face.len() as int;
    assert forall|i: int| 0 <= i < n - 1 implies #[trigger] face_edges(face)[i] == (face[i], face[i + 1]) by {
        assert((i + 1) % n == i + 1) by (nonlinear_arith)
            requires 0 <= i < n - 1;
    }
    assert((n - 1 + 1) % n == 0) by (nonlinear_arith)
        requires n > 0;
}

} // verus!
