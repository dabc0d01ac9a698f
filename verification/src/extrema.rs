use vstd::prelude::*;
use crate::grid::{
    GridShape,
    lemma_index_in_range,
    lemma_index_injective,
    lemma_index_roundtrip,
    lemma_position_is_cell,
};
use crate::ranks::{rank_greater, ranked_above};

verus! {

/// `(nx, ny)` is one of the eight cells around `(x, y)` (the cell itself is
/// not its own neighbour).
pub open spec fn adjacent(x: int, y: int, nx: int, ny: int) -> bool {
    &&& -1 <= nx - x <= 1
    &&& -1 <= ny - y <= 1
    &&& !(nx == x && ny == y)
}

/// The rank stored for cell `(x, y)`.
pub open spec fn rank_at(shape: GridShape, ranks: Seq<Option<u64>>, x: int, y: int) -> Option<u64> {
    ranks[shape.index_spec(x, y)]
}

/// The neighbour `(nx, ny)` of `(x, y)` lies inside the grid and disqualifies
/// `(x, y)`: when looking for maxima, by a strictly greater rank; when
/// looking for minima, by a strictly smaller one.
pub open spec fn outranks(
    shape: GridShape,
    ranks: Seq<Option<u64>>,
    x: int,
    y: int,
    nx: int,
    ny: int,
    maxima: bool,
) -> bool {
    &&& adjacent(x, y, nx, ny)
    &&& shape.holds(nx, ny)
    &&& if maxima {
        rank_greater(rank_at(shape, ranks, nx, ny), rank_at(shape, ranks, x, y))
    } else {
        rank_greater(rank_at(shape, ranks, x, y), rank_at(shape, ranks, nx, ny))
    }
}

/// Cell `(x, y)` is a local maximum (or minimum): no neighbour inside the
/// grid is strictly greater (or smaller). Equal neighbours do not
/// disqualify it, so every cell of a flat grid is both.
pub open spec fn is_extremum(
    shape: GridShape,
    ranks: Seq<Option<u64>>,
    x: int,
    y: int,
    maxima: bool,
) -> bool {
    forall|nx: int, ny: int| !#[trigger] outranks(shape, ranks, x, y, nx, ny, maxima)
}

/// The extrema among the first `k` cells in row-major order, as coordinate
/// pairs in that order.
pub open spec fn extrema_prefix(shape: GridShape, ranks: Seq<Option<u64>>, k: int, maxima: bool) -> Seq<
    (usize, usize),
>
    decreases k,
{
    if k <= 0 {
        Seq::empty()
    } else {
        let before = extrema_prefix(shape, ranks, k - 1, maxima);
        let x = shape.column_of(k - 1);
        let y = shape.row_of(k - 1);
        if is_extremum(shape, ranks, x, y, maxima) {
            before.push((x as usize, y as usize))
        } else {
            before
        }
    }
}

/// All extrema of the grid, row by row and left to right within a row.
pub open spec fn extrema_spec(shape: GridShape, ranks: Seq<Option<u64>>, maxima: bool) -> Seq<
    (usize, usize),
> {
    extrema_prefix(shape, ranks, shape.cell_count_spec(), maxima)
}

/// Whether neighbour `(nx, ny)` disqualifies `(x, y)`.
fn neighbour_outranks(
    shape: &GridShape,
    ranks: &Vec<Option<u64>>,
    x: usize,
    y: usize,
    nx: usize,
    ny: usize,
    maxima: bool,
) -> (b: bool)
    requires
        shape.wf(),
        ranks@.len() == shape.cell_count_spec(),
        shape.holds(x as int, y as int),
        shape.holds(nx as int, ny as int),
        adjacent(x as int, y as int, nx as int, ny as int),
    ensures
        b == outranks(*shape, ranks@, x as int, y as int, nx as int, ny as int, maxima),
{
    proof {
        lemma_index_in_range(*shape, x as int, y as int);
        lemma_index_in_range(*shape, nx as int, ny as int);
    }
    let centre = ranks[y * shape.width + x];
    let other = ranks[ny * shape.width + nx];
    if maxima {
        ranked_above(other, centre)
    } else {
        ranked_above(centre, other)
    }
}

/// Whether cell `(x, y)` is a local extremum: each of its up to eight
/// neighbours inside the grid is tested.
fn cell_is_extremum(shape: &GridShape, ranks: &Vec<Option<u64>>, x: usize, y: usize, maxima: bool) -> (b:
    bool)
    requires
        shape.wf(),
        ranks@.len() == shape.cell_count_spec(),
        shape.holds(x as int, y as int),
    ensures
        b == is_extremum(*shape, ranks@, x as int, y as int, maxima),
{
    let ghost s = ranks@;
    let mut dy: usize = 0;
    while dy < 3
        invariant
            dy <= 3,
            shape.wf(),
            ranks@ == s,
            s.len() == shape.cell_count_spec(),
            shape.holds(x as int, y as int),
            forall|nx: int, ny: int|
                ny < y - 1 + dy ==> !#[trigger] outranks(*shape, s, x as int, y as int, nx, ny, maxima),
        decreases 3 - dy,
    {
        let mut dx: usize = 0;
        while dx < 3
            invariant
                dx <= 3,
                dy < 3,
                shape.wf(),
                ranks@ == s,
                s.len() == shape.cell_count_spec(),
                shape.holds(x as int, y as int),
                forall|nx: int, ny: int|
                    ny < y - 1 + dy ==> !#[trigger] outranks(*shape, s, x as int, y as int, nx, ny, maxima),
                forall|nx: int|
                    nx < x - 1 + dx ==> !#[trigger] outranks(
                        *shape,
                        s,
                        x as int,
                        y as int,
                        nx,
                        y - 1 + dy,
                        maxima,
                    ),
            decreases 3 - dx,
        {
            let in_x = (dx == 0 && x >= 1) || dx == 1 || (dx == 2 && x + 1 < shape.width);
            let in_y = (dy == 0 && y >= 1) || dy == 1 || (dy == 2 && y + 1 < shape.height);
            if in_x && in_y && !(dx == 1 && dy == 1) {
                let nx = if dx == 0 {
                    x - 1
                } else if dx == 1 {
                    x
                } else {
                    x + 1
                };
                let ny = if dy == 0 {
                    y - 1
                } else if dy == 1 {
                    y
                } else {
                    y + 1
                };
                if neighbour_outranks(shape, ranks, x, y, nx, ny, maxima) {
                    return false;
                }
            }
            dx += 1;
        }
        assert forall|nx: int, ny: int| ny < y - 1 + dy + 1 implies !#[trigger] outranks(
            *shape,
            s,
            x as int,
            y as int,
            nx,
            ny,
            maxima,
        ) by {
            if ny == y - 1 + dy && nx < x - 1 + dx {
                assert(!outranks(*shape, s, x as int, y as int, nx, y - 1 + dy, maxima));
            }
        }
        dy += 1;
    }
    true
}

/// The local extrema of a grid of ranks, row by row.
fn extrema(shape: &GridShape, ranks: &Vec<Option<u64>>, maxima: bool) -> (r: Vec<(usize, usize)>)
    requires
        shape.wf(),
        ranks@.len() == shape.cell_count_spec(),
    ensures
        r@ == extrema_spec(*shape, ranks@, maxima),
{
    let mut result: Vec<(usize, usize)> = Vec::new();
    let w = shape.width;
    let h = shape.height;
    let mut y: usize = 0;
    while y < h
        invariant
            shape.wf(),
            w == shape.width,
            h == shape.height,
            ranks@.len() == shape.cell_count_spec(),
            y <= h,
            result@ == extrema_prefix(*shape, ranks@, y * w, maxima),
        decreases h - y,
    {
        let mut x: usize = 0;
        while x < w
            invariant
                shape.wf(),
                w == shape.width,
                h == shape.height,
                ranks@.len() == shape.cell_count_spec(),
                y < h,
                x <= w,
                result@ == extrema_prefix(*shape, ranks@, y * w + x, maxima),
            decreases w - x,
        {
            proof {
                lemma_index_roundtrip(*shape, x as int, y as int);
                lemma_index_in_range(*shape, x as int, y as int);
            }
            if cell_is_extremum(shape, ranks, x, y, maxima) {
                result.push((x, y));
            }
            x += 1;
        }
        proof {
            assert(y * w + w == (y + 1) * w) by (nonlinear_arith);
        }
        y += 1;
    }
    assert(h * w == w * h) by (nonlinear_arith);
    result
}

/// Cells whose rank is at least that of each of their (up to eight)
/// neighbours inside the grid, row by row and left to right.
pub fn local_maxima(shape: &GridShape, ranks: &Vec<Option<u64>>) -> (r: Vec<(usize, usize)>)
    requires
        shape.wf(),
        ranks@.len() == shape.cell_count_spec(),
    ensures
        r@ == extrema_spec(*shape, ranks@, true),
{
    extrema(shape, ranks, true)
}

/// Cells whose rank is at most that of each of their (up to eight)
/// neighbours inside the grid, row by row and left to right.
pub fn local_minima(shape: &GridShape, ranks: &Vec<Option<u64>>) -> (r: Vec<(usize, usize)>)
    requires
        shape.wf(),
        ranks@.len() == shape.cell_count_spec(),
    ensures
        r@ == extrema_spec(*shape, ranks@, false),
{
    extrema(shape, ranks, false)
}

/// What the first `k` cells contribute: exactly the extrema among them,
/// each a cell of the grid.
proof fn lemma_prefix_members(shape: GridShape, ranks: Seq<Option<u64>>, maxima: bool, k: int)
    requires
        0 <= k <= shape.cell_count_spec(),
        shape.wf(),
    ensures
        forall|j: int|
            0 <= j < extrema_prefix(shape, ranks, k, maxima).len() ==> {
                let e = #[trigger] extrema_prefix(shape, ranks, k, maxima)[j];
                &&& shape.holds(e.0 as int, e.1 as int)
                &&& shape.index_spec(e.0 as int, e.1 as int) < k
                &&& is_extremum(shape, ranks, e.0 as int, e.1 as int, maxima)
            },
        forall|x: int, y: int|
            #![trigger is_extremum(shape, ranks, x, y, maxima)]
            shape.holds(x, y) && shape.index_spec(x, y) < k && is_extremum(
                shape,
                ranks,
                x,
                y,
                maxima,
            ) ==> extrema_prefix(shape, ranks, k, maxima).contains((x as usize, y as usize)),
    decreases k,
{
    if k > 0 {
        lemma_prefix_members(shape, ranks, maxima, k - 1);
        lemma_position_is_cell(shape, k - 1);
        let before = extrema_prefix(shape, ranks, k - 1, maxima);
        let cx = shape.column_of(k - 1);
        let cy = shape.row_of(k - 1);
        let now = extrema_prefix(shape, ranks, k, maxima);
        assert forall|x: int, y: int|
            #![trigger is_extremum(shape, ranks, x, y, maxima)]
            shape.holds(x, y) && shape.index_spec(x, y) < k && is_extremum(
                shape,
                ranks,
                x,
                y,
                maxima,
            ) implies now.contains((x as usize, y as usize)) by {
            if shape.index_spec(x, y) < k - 1 {
                let j = choose|j: int| 0 <= j < before.len() && before[j] == (x as usize, y as usize);
                if is_extremum(shape, ranks, cx, cy, maxima) {
                    assert(now[j] == (x as usize, y as usize));
                }
            } else {
                lemma_index_injective(shape, x, y, cx, cy);
                assert(now[now.len() - 1] == (x as usize, y as usize));
            }
        }
    }
}

/// A cell appears among the extrema exactly when it is a local extremum,
/// and nothing else appears.
pub proof fn lemma_extrema_membership(shape: GridShape, ranks: Seq<Option<u64>>, maxima: bool)
    requires
        shape.wf(),
    ensures
        forall|x: int, y: int|
            #![trigger is_extremum(shape, ranks, x, y, maxima)]
            shape.holds(x, y) ==> (extrema_spec(shape, ranks, maxima).contains(
                (x as usize, y as usize),
            ) <==> is_extremum(shape, ranks, x, y, maxima)),
        forall|e: (usize, usize)|
            #[trigger] extrema_spec(shape, ranks, maxima).contains(e) ==> shape.holds(
                e.0 as int,
                e.1 as int,
            ),
{
    let k = shape.cell_count_spec();
    assert(k >= 0) by (nonlinear_arith)
        requires
            k == shape.width * shape.height,
    ;
    lemma_prefix_members(shape, ranks, maxima, k);
    let all = extrema_spec(shape, ranks, maxima);
    assert forall|x: int, y: int|
        #![trigger is_extremum(shape, ranks, x, y, maxima)]
        shape.holds(x, y) implies (all.contains((x as usize, y as usize)) <==> is_extremum(
            shape,
            ranks,
            x,
            y,
            maxima,
        )) by {
        lemma_index_in_range(shape, x, y);
        if all.contains((x as usize, y as usize)) {
            let j = choose|j: int| 0 <= j < all.len() && all[j] == (x as usize, y as usize);
            let e = all[j];
            assert(is_extremum(shape, ranks, e.0 as int, e.1 as int, maxima));
        }
    }
}

/// On a grid where every cell has the same rank, every cell is both a local
/// maximum and a local minimum, so each list holds all the cells.
pub proof fn lemma_flat_grid_is_all_extrema(shape: GridShape, ranks: Seq<Option<u64>>, maxima: bool)
    requires
        shape.wf(),
        ranks.len() == shape.cell_count_spec(),
        forall|i: int, j: int| 0 <= i < ranks.len() && 0 <= j < ranks.len() ==> ranks[i] == ranks[j],
    ensures
        extrema_spec(shape, ranks, maxima).len() == shape.cell_count_spec(),
{
    let n = shape.cell_count_spec();
    assert(n >= 0) by (nonlinear_arith)
        requires
            n == shape.width * shape.height,
    ;
    lemma_flat_prefix(shape, ranks, maxima, n);
}

proof fn lemma_flat_prefix(shape: GridShape, ranks: Seq<Option<u64>>, maxima: bool, k: int)
    requires
        shape.wf(),
        0 <= k <= shape.cell_count_spec(),
        ranks.len() == shape.cell_count_spec(),
        forall|i: int, j: int| 0 <= i < ranks.len() && 0 <= j < ranks.len() ==> ranks[i] == ranks[j],
    ensures
        extrema_prefix(shape, ranks, k, maxima).len() == k,
    decreases k,
{
    if k > 0 {
        lemma_flat_prefix(shape, ranks, maxima, k - 1);
        lemma_position_is_cell(shape, k - 1);
        let x = shape.column_of(k - 1);
        let y = shape.row_of(k - 1);
        assert forall|nx: int, ny: int| !#[trigger] outranks(shape, ranks, x, y, nx, ny, maxima) by {
            if adjacent(x, y, nx, ny) && shape.holds(nx, ny) {
                lemma_index_in_range(shape, nx, ny);
                lemma_index_in_range(shape, x, y);
                assert(rank_at(shape, ranks, nx, ny) == rank_at(shape, ranks, x, y));
            }
        }
    }
}

/// A cell whose rank no cell of the grid exceeds (such as the one cell that
/// holds energy in an otherwise empty field) is a local maximum.
pub proof fn lemma_top_cell_is_local_maximum(shape: GridShape, ranks: Seq<Option<u64>>, x: int, y: int)
    requires
        shape.wf(),
        ranks.len() == shape.cell_count_spec(),
        shape.holds(x, y),
        forall|i: int|
            0 <= i < ranks.len() ==> !rank_greater(
                #[trigger] ranks[i],
                ranks[shape.index_spec(x, y)],
            ),
    ensures
        extrema_spec(shape, ranks, true).contains((x as usize, y as usize)),
{
    assert forall|nx: int, ny: int| !#[trigger] outranks(shape, ranks, x, y, nx, ny, true) by {
        if shape.holds(nx, ny) {
            lemma_index_in_range(shape, nx, ny);
            assert(!rank_greater(ranks[shape.index_spec(nx, ny)], ranks[shape.index_spec(x, y)]));
        }
    }
    lemma_extrema_membership(shape, ranks, true);
    assert(is_extremum(shape, ranks, x, y, true));
}

/// A cell of the grid is among the local maxima exactly when none of its
/// eight neighbours inside the grid, diagonals included, holds a rank
/// strictly greater than its own (ranks compared as integers; an unranked
/// cell, a NaN, compares with nothing). Every listed pair is a cell of the
/// grid.
pub proof fn lemma_local_maxima_exact(shape: GridShape, ranks: Seq<Option<u64>>, x: int, y: int)
    requires
        shape.wf(),
        ranks.len() == shape.cell_count_spec(),
        0 <= x < shape.width,
        0 <= y < shape.height,
    ensures
        extrema_spec(shape, ranks, true).contains((x as usize, y as usize)) <==> (forall|nx: int, ny: int|
            #![trigger shape.holds(nx, ny)]
            x - 1 <= nx <= x + 1 && y - 1 <= ny <= y + 1 && !(nx == x && ny == y) && shape.holds(nx, ny) ==> !(ranks[ny * shape.width as int + nx] is Some && ranks[y * shape.width as int + x] is Some && ranks[ny * shape.width as int + nx]->0 > ranks[y * shape.width as int + x]->0)),
        forall|e: (usize, usize)|
            #[trigger] extrema_spec(shape, ranks, true).contains(e) ==> e.0 < shape.width && e.1
                < shape.height,
{
    lemma_extrema_membership(shape, ranks, true);
    if extrema_spec(shape, ranks, true).contains((x as usize, y as usize)) {
        assert(is_extremum(shape, ranks, x, y, true));
        assert forall|nx: int, ny: int|
            #![trigger shape.holds(nx, ny)]
            x - 1 <= nx <= x + 1 && y - 1 <= ny <= y + 1 && !(nx == x && ny == y) && shape.holds(nx, ny) implies !(ranks[ny * shape.width as int + nx] is Some && ranks[y * shape.width as int + x] is Some && ranks[ny * shape.width as int + nx]->0 > ranks[y * shape.width as int + x]->0) by {
            assert(!outranks(shape, ranks, x, y, nx, ny, true));
        }
    }
    if forall|nx: int, ny: int|
        #![trigger shape.holds(nx, ny)]
        x - 1 <= nx <= x + 1 && y - 1 <= ny <= y + 1 && !(nx == x && ny == y) && shape.holds(nx, ny) ==> !(ranks[ny * shape.width as int + nx] is Some && ranks[y * shape.width as int + x] is Some && ranks[ny * shape.width as int + nx]->0 > ranks[y * shape.width as int + x]->0) {
        assert forall|nx: int, ny: int| !#[trigger] outranks(shape, ranks, x, y, nx, ny, true) by {
            if adjacent(x, y, nx, ny) && shape.holds(nx, ny) {
                assert(!(ranks[ny * shape.width as int + nx] is Some && ranks[y * shape.width as int + x] is Some && ranks[ny * shape.width as int + nx]->0 > ranks[y * shape.width as int + x]->0));
            }
        }
        assert(is_extremum(shape, ranks, x, y, true));
    }
}

/// A cell of the grid is among the local minima exactly when none of its
/// eight neighbours inside the grid, diagonals included, holds a rank
/// strictly smaller than its own (ranks compared as integers; an unranked
/// cell, a NaN, compares with nothing). Every listed pair is a cell of the
/// grid.
pub proof fn lemma_local_minima_exact(shape: GridShape, ranks: Seq<Option<u64>>, x: int, y: int)
    requires
        shape.wf(),
        ranks.len() == shape.cell_count_spec(),
        0 <= x < shape.width,
        0 <= y < shape.height,
    ensures
        extrema_spec(shape, ranks, false).contains((x as usize, y as usize)) <==> (forall|nx: int, ny: int|
            #![trigger shape.holds(nx, ny)]
            x - 1 <= nx <= x + 1 && y - 1 <= ny <= y + 1 && !(nx == x && ny == y) && shape.holds(nx, ny) ==> !(ranks[y * shape.width as int + x] is Some && ranks[ny * shape.width as int + nx] is Some && ranks[y * shape.width as int + x]->0 > ranks[ny * shape.width as int + nx]->0)),
        forall|e: (usize, usize)|
            #[trigger] extrema_spec(shape, ranks, false).contains(e) ==> e.0 < shape.width && e.1
                < shape.height,
{
    lemma_extrema_membership(shape, ranks, false);
    if extrema_spec(shape, ranks, false).contains((x as usize, y as usize)) {
        assert(is_extremum(shape, ranks, x, y, false));
        assert forall|nx: int, ny: int|
            #![trigger shape.holds(nx, ny)]
            x - 1 <= nx <= x + 1 && y - 1 <= ny <= y + 1 && !(nx == x && ny == y) && shape.holds(nx, ny) implies !(ranks[y * shape.width as int + x] is Some && ranks[ny * shape.width as int + nx] is Some && ranks[y * shape.width as int + x]->0 > ranks[ny * shape.width as int + nx]->0) by {
            assert(!outranks(shape, ranks, x, y, nx, ny, false));
        }
    }
    if forall|nx: int, ny: int|
        #![trigger shape.holds(nx, ny)]
        x - 1 <= nx <= x + 1 && y - 1 <= ny <= y + 1 && !(nx == x && ny == y) && shape.holds(nx, ny) ==> !(ranks[y * shape.width as int + x] is Some && ranks[ny * shape.width as int + nx] is Some && ranks[y * shape.width as int + x]->0 > ranks[ny * shape.width as int + nx]->0) {
        assert forall|nx: int, ny: int| !#[trigger] outranks(shape, ranks, x, y, nx, ny, false) by {
            if adjacent(x, y, nx, ny) && shape.holds(nx, ny) {
                assert(!(ranks[y * shape.width as int + x] is Some && ranks[ny * shape.width as int + nx] is Some && ranks[y * shape.width as int + x]->0 > ranks[ny * shape.width as int + nx]->0));
            }
        }
        assert(is_extremum(shape, ranks, x, y, false));
    }
}

/// The extrema among the first `k` cells come in strictly increasing
/// row-major position, each below `k`.
proof fn lemma_prefix_sorted(shape: GridShape, ranks: Seq<Option<u64>>, maxima: bool, k: int)
    requires
        shape.wf(),
        0 <= k <= shape.cell_count_spec(),
    ensures
        forall|i: int, j: int|
            0 <= i < j < extrema_prefix(shape, ranks, k, maxima).len() ==> {
                let a = #[trigger] extrema_prefix(shape, ranks, k, maxima)[i];
                let b = #[trigger] extrema_prefix(shape, ranks, k, maxima)[j];
                a.1 * shape.width + a.0 < b.1 * shape.width + b.0
            },
    decreases k,
{
    if k > 0 {
        lemma_prefix_sorted(shape, ranks, maxima, k - 1);
        lemma_prefix_members(shape, ranks, maxima, k - 1);
        lemma_position_is_cell(shape, k - 1);
        let before = extrema_prefix(shape, ranks, k - 1, maxima);
        let now = extrema_prefix(shape, ranks, k, maxima);
        let cx = shape.column_of(k - 1);
        let cy = shape.row_of(k - 1);
        assert forall|i: int, j: int| 0 <= i < j < now.len() implies #[trigger] now[i].1
            * shape.width + now[i].0 < #[trigger] now[j].1 * shape.width + now[j].0 by {
            if j < before.len() {
                assert(now[i] == before[i] && now[j] == before[j]);
            } else {
                assert(now[i] == before[i]);
                assert(now[j] == (cx as usize, cy as usize));
                let e = before[i];
                assert(shape.index_spec(e.0 as int, e.1 as int) < k - 1);
            }
        }
    }
}

/// The local maxima and minima are listed in strictly increasing row-major
/// order, `(y, x)` before `(y', x')` when `y < y'` or `y == y'` and
/// `x < x'`; in particular no cell is listed twice.
pub proof fn lemma_extrema_row_major(shape: GridShape, ranks: Seq<Option<u64>>, maxima: bool)
    requires
        shape.wf(),
    ensures
        forall|i: int, j: int|
            0 <= i < j < extrema_spec(shape, ranks, maxima).len() ==> {
                let a = #[trigger] extrema_spec(shape, ranks, maxima)[i];
                let b = #[trigger] extrema_spec(shape, ranks, maxima)[j];
                a.1 < b.1 || (a.1 == b.1 && a.0 < b.0)
            },
{
    let n = shape.cell_count_spec();
    assert(n >= 0) by (nonlinear_arith)
        requires
            n == shape.width * shape.height,
    ;
    lemma_prefix_sorted(shape, ranks, maxima, n);
    lemma_prefix_members(shape, ranks, maxima, n);
    let all = extrema_spec(shape, ranks, maxima);
    assert forall|i: int, j: int| 0 <= i < j < all.len() implies #[trigger] all[i].1 < #[trigger] all[j].1 || (
    all[i].1 == all[j].1 && all[i].0 < all[j].0) by {
        let a = all[i];
        let b = all[j];
        assert(shape.holds(a.0 as int, a.1 as int) && shape.holds(b.0 as int, b.1 as int));
        let w = shape.width as int;
        assert(a.1 * w + a.0 < b.1 * w + b.0);
        if a.1 > b.1 {
            let (ay, by): (int, int) = (a.1 as int, b.1 as int);
            assert(ay * w >= by * w + w) by (nonlinear_arith)
                requires
                    ay >= by + 1,
                    w >= 0,
            ;
        }
    }
}

} // verus!
