use vstd::prelude::*;
use crate::grid::{GridShape, lemma_index_in_range};

verus! {

/// The offset `(dx, dy)` from `(x, y)` lies within Euclidean distance `r`
/// and lands on a cell of the grid.
pub open spec fn in_disc(shape: GridShape, x: int, y: int, r: int, dx: int, dy: int) -> bool {
    &&& dx * dx + dy * dy <= r * r
    &&& shape.holds(x + dx, y + dy)
}

/// The entry for the cell at offset `(dx, dy)` from `(x, y)`: its
/// coordinates and its value.
pub open spec fn disc_entry<T>(shape: GridShape, cells: Seq<T>, x: int, y: int, dx: int, dy: int) -> (
    (usize, usize),
    T,
) {
    (((x + dx) as usize, (y + dy) as usize), cells[shape.index_spec(x + dx, y + dy)])
}

/// The entries of row offset `dy` for the column offsets `-r .. -r + n`, in
/// increasing order of `dx`.
pub open spec fn disc_row<T>(
    shape: GridShape,
    cells: Seq<T>,
    x: int,
    y: int,
    r: int,
    dy: int,
    n: int,
) -> Seq<((usize, usize), T)>
    decreases n,
{
    if n <= 0 {
        Seq::empty()
    } else {
        let before = disc_row(shape, cells, x, y, r, dy, n - 1);
        let dx = -r + n - 1;
        if in_disc(shape, x, y, r, dx, dy) {
            before.push(disc_entry(shape, cells, x, y, dx, dy))
        } else {
            before
        }
    }
}

/// The entries of the row offsets `-r .. -r + m`, row after row.
pub open spec fn disc_rows<T>(shape: GridShape, cells: Seq<T>, x: int, y: int, r: int, m: int) -> Seq<
    ((usize, usize), T),
>
    decreases m,
{
    if m <= 0 {
        Seq::empty()
    } else {
        disc_rows(shape, cells, x, y, r, m - 1) + disc_row(shape, cells, x, y, r, -r + m - 1, 2 * r + 1)
    }
}

/// Every cell of the grid within Euclidean distance `r` of `(x, y)`, with its
/// value: row offsets from `-r` to `r`, and within a row column offsets from
/// `-r` to `r`.
pub open spec fn neighborhood_spec<T>(shape: GridShape, cells: Seq<T>, x: int, y: int, r: int) -> Seq<
    ((usize, usize), T),
> {
    disc_rows(shape, cells, x, y, r, 2 * r + 1)
}

/// The inputs on which the offsets and squared distances stay within `i64`.
pub open spec fn neighborhood_in_range(x: int, y: int, radius: int) -> bool {
    &&& radius * radius + radius * radius <= i64::MAX
    &&& x + radius <= i64::MAX
    &&& y + radius <= i64::MAX
}

/// `c + d`, when it is a position below `limit`.
fn shifted_within(c: usize, d: i64, limit: usize) -> (r: Option<usize>)
    requires
        -0x8000_0000 < d < 0x8000_0000,
    ensures
        r matches Some(v) ==> v == c + d,
        r is Some <==> 0 <= c + d < limit,
{
    if d >= 0 {
        let step = d as usize;
        if step < limit && c < limit - step {
            Some(c + step)
        } else {
            None
        }
    } else {
        let step = (-d) as usize;
        if step <= c && c - step < limit {
            Some(c - step)
        } else {
            None
        }
    }
}

/// All cells within Euclidean distance `radius` of `(x, y)` that lie inside
/// the grid, each with its value, row by row from `y - radius` down to
/// `y + radius` and left to right within a row. The centre need not lie
/// inside the grid.
pub fn neighborhood<T: Copy>(shape: &GridShape, cells: &Vec<T>, x: usize, y: usize, radius: usize) -> (r:
    Vec<((usize, usize), T)>)
    requires
        shape.wf(),
        cells@.len() == shape.cell_count_spec(),
        neighborhood_in_range(x as int, y as int, radius as int),
    ensures
        r@ == neighborhood_spec(*shape, cells@, x as int, y as int, radius as int),
{
    let mut result: Vec<((usize, usize), T)> = Vec::new();
    let rad: i64 = radius as i64;
    assert(0 <= rad * rad && rad < 0x8000_0000) by (nonlinear_arith)
        requires
            rad >= 0,
            rad * rad + rad * rad <= i64::MAX,
    ;
    let r2: i64 = rad * rad;
    let mut dy: i64 = -rad;
    while dy <= rad
        invariant
            shape.wf(),
            cells@.len() == shape.cell_count_spec(),
            neighborhood_in_range(x as int, y as int, radius as int),
            rad == radius,
            rad < 0x8000_0000,
            r2 == rad * rad,
            -rad <= dy <= rad + 1,
            result@ == disc_rows(*shape, cells@, x as int, y as int, rad as int, dy + rad),
        decreases rad + 1 - dy,
    {
        let ghost done = result@;
        let mut dx: i64 = -rad;
        while dx <= rad
            invariant
                shape.wf(),
                cells@.len() == shape.cell_count_spec(),
                neighborhood_in_range(x as int, y as int, radius as int),
                rad == radius,
                rad < 0x8000_0000,
                r2 == rad * rad,
                -rad <= dy <= rad,
                -rad <= dx <= rad + 1,
                done == disc_rows(*shape, cells@, x as int, y as int, rad as int, dy + rad),
                result@ == done + disc_row(
                    *shape,
                    cells@,
                    x as int,
                    y as int,
                    rad as int,
                    dy as int,
                    dx + rad,
                ),
            decreases rad + 1 - dx,
        {
            assert(0 <= dx * dx <= rad * rad && 0 <= dy * dy <= rad * rad) by (nonlinear_arith)
                requires
                    -rad <= dx <= rad,
                    -rad <= dy <= rad,
            ;
            let d2: i64 = dx * dx + dy * dy;
            if d2 <= r2 {
                if let (Some(ux), Some(uy)) = (
                    shifted_within(x, dx, shape.width),
                    shifted_within(y, dy, shape.height),
                ) {
                    proof {
                        lemma_index_in_range(*shape, ux as int, uy as int);
                    }
                    let v = cells[uy * shape.width + ux];
                    result.push(((ux, uy), v));
                }
            }
            proof {
                let n = dx + rad + 1;
                assert(-(rad as int) + n - 1 == dx);
                assert(result@ == done + disc_row(
                    *shape,
                    cells@,
                    x as int,
                    y as int,
                    rad as int,
                    dy as int,
                    n,
                )) by {
                    assert(disc_row(*shape, cells@, x as int, y as int, rad as int, dy as int, n)
                        == (if in_disc(*shape, x as int, y as int, rad as int, dx as int, dy as int) {
                        disc_row(*shape, cells@, x as int, y as int, rad as int, dy as int, n - 1).push(
                            disc_entry(*shape, cells@, x as int, y as int, dx as int, dy as int),
                        )
                    } else {
                        disc_row(*shape, cells@, x as int, y as int, rad as int, dy as int, n - 1)
                    }));
                }
            }
            dx = dx + 1;
        }
        proof {
            let m = dy + rad + 1;
            assert(-(rad as int) + m - 1 == dy);
            assert(disc_rows(*shape, cells@, x as int, y as int, rad as int, m) == disc_rows(
                *shape,
                cells@,
                x as int,
                y as int,
                rad as int,
                m - 1,
            ) + disc_row(*shape, cells@, x as int, y as int, rad as int, dy as int, 2 * rad + 1));
        }
        dy = dy + 1;
    }
    result
}

/// Entry `e` is the entry of some cell within distance `r` of `(x, y)`.
pub open spec fn from_disc<T>(
    shape: GridShape,
    cells: Seq<T>,
    x: int,
    y: int,
    r: int,
    e: ((usize, usize), T),
) -> bool {
    exists|dx: int, dy: int|
        #[trigger] in_disc(shape, x, y, r, dx, dy) && e == disc_entry(shape, cells, x, y, dx, dy)
}

/// Within one row offset: the entries are exactly those of the column
/// offsets `-r .. -r + n` that land in the disc.
proof fn lemma_row_members<T>(
    shape: GridShape,
    cells: Seq<T>,
    x: int,
    y: int,
    r: int,
    dy: int,
    n: int,
)
    ensures
        forall|j: int|
            0 <= j < disc_row(shape, cells, x, y, r, dy, n).len() ==> #[trigger] from_disc(
                shape,
                cells,
                x,
                y,
                r,
                disc_row(shape, cells, x, y, r, dy, n)[j],
            ),
        forall|dx: int|
            -r <= dx < -r + n && #[trigger] in_disc(shape, x, y, r, dx, dy) ==> disc_row(
                shape,
                cells,
                x,
                y,
                r,
                dy,
                n,
            ).contains(disc_entry(shape, cells, x, y, dx, dy)),
    decreases n,
{
    if n > 0 {
        lemma_row_members(shape, cells, x, y, r, dy, n - 1);
        let before = disc_row(shape, cells, x, y, r, dy, n - 1);
        let now = disc_row(shape, cells, x, y, r, dy, n);
        let last = -r + n - 1;
        assert forall|j: int| 0 <= j < now.len() implies #[trigger] from_disc(
            shape,
            cells,
            x,
            y,
            r,
            now[j],
        ) by {
            if j < before.len() {
                assert(now[j] == before[j]);
                assert(from_disc(shape, cells, x, y, r, before[j]));
            } else {
                assert(in_disc(shape, x, y, r, last, dy));
                assert(now == before.push(disc_entry(shape, cells, x, y, last, dy)));
                assert(now[j] == disc_entry(shape, cells, x, y, last, dy));
            }
        }
        assert forall|dx: int|
            -r <= dx < -r + n && #[trigger] in_disc(shape, x, y, r, dx, dy) implies now.contains(
            disc_entry(shape, cells, x, y, dx, dy),
        ) by {
            if dx < last {
                let j = choose|j: int|
                    0 <= j < before.len() && before[j] == disc_entry(shape, cells, x, y, dx, dy);
                assert(now[j] == before[j]);
            } else {
                assert(now[now.len() - 1] == disc_entry(shape, cells, x, y, dx, dy));
            }
        }
    }
}

/// Over the row offsets `-r .. -r + m`: the entries are exactly those of
/// the offsets in the disc.
proof fn lemma_rows_members<T>(shape: GridShape, cells: Seq<T>, x: int, y: int, r: int, m: int)
    requires
        r >= 0,
    ensures
        forall|j: int|
            0 <= j < disc_rows(shape, cells, x, y, r, m).len() ==> #[trigger] from_disc(
                shape,
                cells,
                x,
                y,
                r,
                disc_rows(shape, cells, x, y, r, m)[j],
            ),
        forall|dx: int, dy: int|
            -r <= dx <= r && -r <= dy < -r + m && #[trigger] in_disc(shape, x, y, r, dx, dy)
                ==> disc_rows(shape, cells, x, y, r, m).contains(
                disc_entry(shape, cells, x, y, dx, dy),
            ),
    decreases m,
{
    if m > 0 {
        lemma_rows_members(shape, cells, x, y, r, m - 1);
        let row_dy = -r + m - 1;
        lemma_row_members(shape, cells, x, y, r, row_dy, 2 * r + 1);
        let before = disc_rows(shape, cells, x, y, r, m - 1);
        let row = disc_row(shape, cells, x, y, r, row_dy, 2 * r + 1);
        let now = disc_rows(shape, cells, x, y, r, m);
        assert(now == before + row);
        assert forall|j: int| 0 <= j < now.len() implies #[trigger] from_disc(
            shape,
            cells,
            x,
            y,
            r,
            now[j],
        ) by {
            if j < before.len() {
                assert(now[j] == before[j]);
                assert(from_disc(shape, cells, x, y, r, before[j]));
            } else {
                assert(now[j] == row[j - before.len()]);
                assert(from_disc(shape, cells, x, y, r, row[j - before.len()]));
            }
        }
        assert forall|dx: int, dy: int|
            -r <= dx <= r && -r <= dy < -r + m && #[trigger] in_disc(
                shape,
                x,
                y,
                r,
                dx,
                dy,
            ) implies now.contains(disc_entry(shape, cells, x, y, dx, dy)) by {
            let e = disc_entry(shape, cells, x, y, dx, dy);
            if dy < row_dy {
                let j = choose|j: int| 0 <= j < before.len() && before[j] == e;
                assert(now[j] == e);
            } else {
                let j = choose|j: int| 0 <= j < row.len() && row[j] == e;
                assert(now[before.len() + j] == e);
            }
        }
    }
}

/// The neighbourhood holds exactly the cells of the grid within Euclidean
/// distance `r` of the centre, each with its value: every such cell is in
/// it, and everything in it is such a cell.
pub proof fn lemma_neighborhood_membership<T>(shape: GridShape, cells: Seq<T>, x: int, y: int, r: int)
    requires
        r >= 0,
    ensures
        forall|dx: int, dy: int|
            #[trigger] in_disc(shape, x, y, r, dx, dy) ==> neighborhood_spec(
                shape,
                cells,
                x,
                y,
                r,
            ).contains(disc_entry(shape, cells, x, y, dx, dy)),
        forall|j: int|
            0 <= j < neighborhood_spec(shape, cells, x, y, r).len() ==> #[trigger] from_disc(
                shape,
                cells,
                x,
                y,
                r,
                neighborhood_spec(shape, cells, x, y, r)[j],
            ),
{
    lemma_rows_members(shape, cells, x, y, r, 2 * r + 1);
    assert forall|dx: int, dy: int| #[trigger] in_disc(shape, x, y, r, dx, dy) implies -r <= dx <= r
        && -r <= dy <= r by {
        assert(-r <= dx <= r && -r <= dy <= r) by (nonlinear_arith)
            requires
                dx * dx + dy * dy <= r * r,
                r >= 0,
        ;
    }
}

/// With radius zero the neighbourhood is the centre alone, when the centre
/// lies inside the grid, and empty otherwise.
pub proof fn lemma_radius_zero_is_centre<T>(shape: GridShape, cells: Seq<T>, x: int, y: int)
    ensures
        neighborhood_spec(shape, cells, x, y, 0) == (if shape.holds(x, y) {
            seq![disc_entry(shape, cells, x, y, 0, 0)]
        } else {
            Seq::empty()
        }),
{
    let row = disc_row(shape, cells, x, y, 0, 0, 1);
    assert(disc_row(shape, cells, x, y, 0, 0, 0) == Seq::<((usize, usize), T)>::empty());
    assert(disc_rows(shape, cells, x, y, 0, 0) == Seq::<((usize, usize), T)>::empty());
    assert(neighborhood_spec(shape, cells, x, y, 0) == Seq::<((usize, usize), T)>::empty() + row);
    if shape.holds(x, y) {
        assert(row == seq![disc_entry(shape, cells, x, y, 0, 0)]);
    } else {
        assert(row == Seq::<((usize, usize), T)>::empty());
    }
    assert(Seq::<((usize, usize), T)>::empty() + row == row);
}

/// The neighbourhood of `(x, y)` with radius `r` lists cell `(nx, ny)` of
/// the grid, with the value stored for it, exactly when
/// `(nx - x)² + (ny - y)² <= r²`: every such cell is listed, and every
/// listed entry is such a cell with its value.
pub proof fn lemma_neighborhood_exact<T>(shape: GridShape, cells: Seq<T>, x: int, y: int, r: int)
    requires
        r >= 0,
    ensures
        forall|nx: int, ny: int|
            #![trigger shape.holds(nx, ny)]
            (nx - x) * (nx - x) + (ny - y) * (ny - y) <= r * r && shape.holds(nx, ny)
                ==> neighborhood_spec(shape, cells, x, y, r).contains(
                ((nx as usize, ny as usize), cells[ny * shape.width + nx]),
            ),
        forall|j: int|
            0 <= j < neighborhood_spec(shape, cells, x, y, r).len() ==> {
                let e = #[trigger] neighborhood_spec(shape, cells, x, y, r)[j];
                let (nx, ny) = (e.0.0 as int, e.0.1 as int);
                &&& (nx - x) * (nx - x) + (ny - y) * (ny - y) <= r * r
                &&& 0 <= nx < shape.width
                &&& 0 <= ny < shape.height
                &&& e.1 == cells[ny * shape.width + nx]
            },
{
    lemma_neighborhood_membership(shape, cells, x, y, r);
    let all = neighborhood_spec(shape, cells, x, y, r);
    assert forall|nx: int, ny: int|
        #![trigger shape.holds(nx, ny)]
        (nx - x) * (nx - x) + (ny - y) * (ny - y) <= r * r && shape.holds(nx, ny) implies all.contains(
        ((nx as usize, ny as usize), cells[ny * shape.width + nx]),
    ) by {
        let dx = nx - x;
        let dy = ny - y;
        assert(in_disc(shape, x, y, r, dx, dy));
        assert(disc_entry(shape, cells, x, y, dx, dy) == ((nx as usize, ny as usize), cells[ny
            * shape.width + nx]));
    }
    assert forall|j: int| 0 <= j < all.len() implies {
        let e = #[trigger] all[j];
        let (nx, ny) = (e.0.0 as int, e.0.1 as int);
        &&& (nx - x) * (nx - x) + (ny - y) * (ny - y) <= r * r
        &&& 0 <= nx < shape.width
        &&& 0 <= ny < shape.height
        &&& e.1 == cells[ny * shape.width + nx]
    } by {
        assert(from_disc(shape, cells, x, y, r, all[j]));
        let (dx, dy) = choose|dx: int, dy: int|
            #[trigger] in_disc(shape, x, y, r, dx, dy) && all[j] == disc_entry(
                shape,
                cells,
                x,
                y,
                dx,
                dy,
            );
        assert(shape.holds(x + dx, y + dy));
    }
}

/// The entries of one row offset lie on row `y + dy`, left of column
/// `x - r + n`, from left to right.
proof fn lemma_row_sorted<T>(shape: GridShape, cells: Seq<T>, x: int, y: int, r: int, dy: int, n: int)
    ensures
        forall|j: int|
            0 <= j < disc_row(shape, cells, x, y, r, dy, n).len() ==> {
                let e = #[trigger] disc_row(shape, cells, x, y, r, dy, n)[j];
                &&& e.0.1 as int == y + dy
                &&& 0 <= e.0.0 < x - r + n
            },
        forall|i: int, j: int|
            0 <= i < j < disc_row(shape, cells, x, y, r, dy, n).len() ==> (#[trigger] disc_row(
                shape,
                cells,
                x,
                y,
                r,
                dy,
                n,
            )[i]).0.0 < (#[trigger] disc_row(shape, cells, x, y, r, dy, n)[j]).0.0,
    decreases n,
{
    if n > 0 {
        lemma_row_sorted(shape, cells, x, y, r, dy, n - 1);
        let before = disc_row(shape, cells, x, y, r, dy, n - 1);
        let now = disc_row(shape, cells, x, y, r, dy, n);
        let dx = -r + n - 1;
        if in_disc(shape, x, y, r, dx, dy) {
            assert(now == before.push(disc_entry(shape, cells, x, y, dx, dy)));
            assert forall|j: int| 0 <= j < now.len() implies {
                let e = #[trigger] now[j];
                &&& e.0.1 as int == y + dy
                &&& 0 <= e.0.0 < x - r + n
            } by {
                if j < before.len() {
                    assert(now[j] == before[j]);
                }
            }
            assert forall|i: int, j: int| 0 <= i < j < now.len() implies (#[trigger] now[i]).0.0 < (
            #[trigger] now[j]).0.0 by {
                assert(now[i] == before[i]);
                if j < before.len() {
                    assert(now[j] == before[j]);
                }
            }
        }
    }
}

/// The entries of the row offsets `-r .. -r + m` lie above row
/// `y - r + m`, in row-major order.
proof fn lemma_rows_sorted<T>(shape: GridShape, cells: Seq<T>, x: int, y: int, r: int, m: int)
    ensures
        forall|j: int|
            0 <= j < disc_rows(shape, cells, x, y, r, m).len() ==> (
            #[trigger] disc_rows(shape, cells, x, y, r, m)[j]).0.1 < y - r + m,
        forall|i: int, j: int|
            0 <= i < j < disc_rows(shape, cells, x, y, r, m).len() ==> {
                let a = #[trigger] disc_rows(shape, cells, x, y, r, m)[i];
                let b = #[trigger] disc_rows(shape, cells, x, y, r, m)[j];
                a.0.1 < b.0.1 || (a.0.1 == b.0.1 && a.0.0 < b.0.0)
            },
    decreases m,
{
    if m > 0 {
        lemma_rows_sorted(shape, cells, x, y, r, m - 1);
        let row_dy = -r + m - 1;
        lemma_row_sorted(shape, cells, x, y, r, row_dy, 2 * r + 1);
        let before = disc_rows(shape, cells, x, y, r, m - 1);
        let row = disc_row(shape, cells, x, y, r, row_dy, 2 * r + 1);
        let now = disc_rows(shape, cells, x, y, r, m);
        assert(now == before + row);
        assert forall|j: int| 0 <= j < now.len() implies (#[trigger] now[j]).0.1 < y - r + m by {
            if j < before.len() {
                assert(now[j] == before[j]);
            } else {
                assert(now[j] == row[j - before.len()]);
            }
        }
        assert forall|i: int, j: int| 0 <= i < j < now.len() implies {
            let a = #[trigger] now[i];
            let b = #[trigger] now[j];
            a.0.1 < b.0.1 || (a.0.1 == b.0.1 && a.0.0 < b.0.0)
        } by {
            if j < before.len() {
                assert(now[i] == before[i] && now[j] == before[j]);
            } else if i < before.len() {
                assert(now[i] == before[i]);
                assert(now[j] == row[j - before.len()]);
            } else {
                assert(now[i] == row[i - before.len()]);
                assert(now[j] == row[j - before.len()]);
            }
        }
    }
}

/// The neighbourhood comes in row-major order: row by row from top to
/// bottom, left to right within a row, each cell once.
pub proof fn lemma_neighborhood_row_major<T>(shape: GridShape, cells: Seq<T>, x: int, y: int, r: int)
    ensures
        forall|i: int, j: int|
            0 <= i < j < neighborhood_spec(shape, cells, x, y, r).len() ==> {
                let a = #[trigger] neighborhood_spec(shape, cells, x, y, r)[i];
                let b = #[trigger] neighborhood_spec(shape, cells, x, y, r)[j];
                a.0.1 < b.0.1 || (a.0.1 == b.0.1 && a.0.0 < b.0.0)
            },
{
    lemma_rows_sorted(shape, cells, x, y, r, 2 * r + 1);
}

} // verus!
