use vstd::prelude::*;

verus! {

/// `c - 1`, or `0` for `c == 0`.
pub open spec fn back_one(c: int) -> int {
    if c > 0 {
        c - 1
    } else {
        0
    }
}

/// The two samples of a central difference along one axis at coordinate `c`
/// of an axis of `extent` cells: `(c + 1, c - 1)` when both lie on the axis,
/// and `None` on the first and the last cell (and beyond), where the
/// derivative is taken to be zero.
pub fn central_span(c: usize, extent: usize) -> (r: Option<(usize, usize)>)
    requires
        c < usize::MAX,
    ensures
        r is Some <==> (c > 0 && c + 1 < extent),
        r matches Some(p) ==> p.0 == c + 1 && p.1 == c - 1,
{
    if c == 0 || c + 1 >= extent {
        None
    } else {
        Some((c + 1, c - 1))
    }
}

/// The four cells that the discrete Laplacian at `(x, y)` sums: right, left,
/// below and above. On the first row or column the left or upper sample
/// falls back onto the cell itself; samples beyond the last row or column
/// lie outside the grid and read as zero.
pub fn laplacian_points(x: usize, y: usize) -> (r: [(usize, usize); 4])
    requires
        x < usize::MAX,
        y < usize::MAX,
    ensures
        r@[0] == ((x + 1) as usize, y),
        r@[1] == (back_one(x as int) as usize, y),
        r@[2] == (x, (y + 1) as usize),
        r@[3] == (x, back_one(y as int) as usize),
        x > 0 ==> r@[1].0 == x - 1,
        x == 0 ==> r@[1].0 == 0,
        y > 0 ==> r@[3].1 == y - 1,
        y == 0 ==> r@[3].1 == 0,
{
    let left = if x > 0 {
        x - 1
    } else {
        0
    };
    let up = if y > 0 {
        y - 1
    } else {
        0
    };
    [(x + 1, y), (left, y), (x, y + 1), (x, up)]
}

/// The four points at which the divergence at `(x, y)` samples the
/// gradient: the vertical component at the right and left points, the
/// horizontal component at the upper and lower points, with the left and
/// upper points falling back onto `(x, y)` on the first column or row.
pub fn divergence_points(x: usize, y: usize) -> (r: [(usize, usize); 4])
    requires
        x + 2 <= usize::MAX,
        y + 2 <= usize::MAX,
    ensures
        r@[0] == ((x + 1) as usize, y),
        r@[1] == (back_one(x as int) as usize, y),
        r@[2] == (x, back_one(y as int) as usize),
        r@[3] == (x, (y + 1) as usize),
        x > 0 ==> r@[1].0 == x - 1,
        x == 0 ==> r@[1].0 == 0,
        y > 0 ==> r@[2].1 == y - 1,
        y == 0 ==> r@[2].1 == 0,
{
    let left = if x > 0 {
        x - 1
    } else {
        0
    };
    let up = if y > 0 {
        y - 1
    } else {
        0
    };
    [(x + 1, y), (left, y), (x, up), (x, y + 1)]
}

/// Stepping back from a coordinate gives the one before it, and stays at
/// `0` on the first row or column: the left and upper samples of the
/// Laplacian and of the divergence at `(x, y)` are `(x - 1, y)` and
/// `(x, y - 1)` whenever those exist.
pub proof fn lemma_back_one_is_previous(c: int)
    requires
        c >= 0,
    ensures
        c > 0 ==> back_one(c) == c - 1,
        c == 0 ==> back_one(c) == 0,
        0 <= back_one(c) <= c,
        back_one(c + 1) == c,
{
}

} // verus!
