//! The circular footprint of an EMP on the map, in raster order.

use vstd::prelude::*;

use crate::emp::Emp;
use crate::MAP_SIZE;

verus! {

/// Whether cell `(x, y)` lies on the map, inside the event's bounding square
/// and within its radius of the centre.
pub open spec fn in_footprint(e: Emp, x: int, y: int) -> bool {
    let dx = x - e.x_coord;
    let dy = y - e.y_coord;
    &&& 0 <= x < MAP_SIZE
    &&& 0 <= y < MAP_SIZE
    &&& e.x_coord - e.radius <= x <= e.x_coord + e.radius
    &&& e.y_coord - e.radius <= y <= e.y_coord + e.radius
    &&& dx * dx + dy * dy <= e.radius * e.radius
}

pub open spec fn lo_x(e: Emp) -> int {
    if e.x_coord - e.radius < 0 { 0 } else { e.x_coord - e.radius }
}

pub open spec fn hi_x(e: Emp) -> int {
    if e.x_coord + e.radius > MAP_SIZE - 1 { MAP_SIZE - 1 } else { e.x_coord + e.radius }
}

pub open spec fn lo_y(e: Emp) -> int {
    if e.y_coord - e.radius < 0 { 0 } else { e.y_coord - e.radius }
}

pub open spec fn hi_y(e: Emp) -> int {
    if e.y_coord + e.radius > MAP_SIZE - 1 { MAP_SIZE - 1 } else { e.y_coord + e.radius }
}

pub open spec fn cell_if(e: Emp, x: int, y: int) -> Seq<(i32, i32)> {
    if in_footprint(e, x, y) {
        seq![(x as i32, y as i32)]
    } else {
        seq![]
    }
}

/// The footprint cells `(x, y)` with `lo_y(e) <= y < lo_y(e) + n`.
pub open spec fn row_cells(e: Emp, x: int, n: int) -> Seq<(i32, i32)>
    decreases n,
{
    if n <= 0 {
        seq![]
    } else {
        row_cells(e, x, n - 1) + cell_if(e, x, lo_y(e) + n - 1)
    }
}

/// The footprint cells of the first `n` columns of the clipped square.
pub open spec fn rows(e: Emp, n: int) -> Seq<(i32, i32)>
    decreases n,
{
    if n <= 0 {
        seq![]
    } else {
        rows(e, n - 1) + row_cells(e, lo_x(e) + n - 1, hi_y(e) - lo_y(e) + 1)
    }
}

/// Every affected cell of `e`, by `x` and then by `y`.
pub open spec fn footprint(e: Emp) -> Seq<(i32, i32)> {
    rows(e, hi_x(e) - lo_x(e) + 1)
}

proof fn lemma_row_cells(e: Emp, x: int, n: int, c: (i32, i32))
    requires
        0 <= x < MAP_SIZE,
    ensures
        row_cells(e, x, n).contains(c) <==> (c.0 == x && lo_y(e) <= c.1 < lo_y(e) + n
            && in_footprint(e, c.0 as int, c.1 as int)),
    decreases n,
{
    if n > 0 {
        lemma_row_cells(e, x, n - 1, c);
        let s = row_cells(e, x, n - 1);
        let t = cell_if(e, x, lo_y(e) + n - 1);
        let u = s + t;
        if u.contains(c) {
            let k = choose|k: int| 0 <= k < u.len() && u[k] == c;
            if k < s.len() {
                assert(s[k] == c);
            } else {
                assert(t[k - s.len()] == c);
            }
        }
        if s.contains(c) {
            let k = choose|k: int| 0 <= k < s.len() && s[k] == c;
            assert(u[k] == c);
        }
        if c.0 == x && c.1 == lo_y(e) + n - 1 && in_footprint(e, c.0 as int, c.1 as int) {
            assert(u[s.len() as int] == c);
        }
    }
}

proof fn lemma_rows(e: Emp, n: int, c: (i32, i32))
    requires
        0 <= lo_x(e),
        n <= hi_x(e) - lo_x(e) + 1,
    ensures
        rows(e, n).contains(c) <==> (lo_x(e) <= c.0 < lo_x(e) + n && in_footprint(
            e,
            c.0 as int,
            c.1 as int,
        )),
    decreases n,
{
    if n > 0 {
        lemma_rows(e, n - 1, c);
        let x = lo_x(e) + n - 1;
        lemma_row_cells(e, x, hi_y(e) - lo_y(e) + 1, c);
        let s = rows(e, n - 1);
        let t = row_cells(e, x, hi_y(e) - lo_y(e) + 1);
        let u = s + t;
        if u.contains(c) {
            let k = choose|k: int| 0 <= k < u.len() && u[k] == c;
            if k < s.len() {
                assert(s[k] == c);
            } else {
                assert(t[k - s.len()] == c);
            }
        }
        if s.contains(c) {
            let k = choose|k: int| 0 <= k < s.len() && s[k] == c;
            assert(u[k] == c);
        }
        if t.contains(c) {
            let k = choose|k: int| 0 <= k < t.len() && t[k] == c;
            assert(u[s.len() + k] == c);
        }
    }
}

/// A cell is listed in the footprint exactly when it is on the map, inside
/// the bounding square and inside the circle.
pub proof fn lemma_footprint_contains(e: Emp, c: (i32, i32))
    ensures
        footprint(e).contains(c) <==> in_footprint(e, c.0 as int, c.1 as int),
{
    lemma_rows(e, hi_x(e) - lo_x(e) + 1, c);
}

/// For a non-negative radius the footprint is the disc clipped to the map:
/// `(x, y)` is affected exactly when `(x - cx)^2 + (y - cy)^2 <= r^2` and both
/// coordinates lie in `[0, MAP_SIZE)`. Corners of the bounding square are not.
pub proof fn lemma_circular_footprint(e: Emp, x: i32, y: i32)
    requires
        e.radius >= 0,
    ensures
        footprint(e).contains((x, y)) <==> ((x - e.x_coord) * (x - e.x_coord) + (y - e.y_coord) * (y
            - e.y_coord) <= e.radius * e.radius && 0 <= x < MAP_SIZE && 0 <= y < MAP_SIZE),
{
    lemma_footprint_contains(e, (x, y));
    let dx: int = x - e.x_coord;
    let dy: int = y - e.y_coord;
    let r: int = e.radius as int;
    if dx * dx + dy * dy <= r * r {
        assert(-r <= dx <= r && -r <= dy <= r) by (nonlinear_arith)
            requires
                dx * dx + dy * dy <= r * r,
                r >= 0,
        ;
    }
}

proof fn lemma_concat_no_duplicates(s: Seq<(i32, i32)>, t: Seq<(i32, i32)>)
    requires
        s.no_duplicates(),
        t.no_duplicates(),
        forall|c: (i32, i32)| s.contains(c) ==> !t.contains(c),
    ensures
        (s + t).no_duplicates(),
{
    let u = s + t;
    assert forall|a: int, b: int| 0 <= a < u.len() && 0 <= b < u.len() && a != b implies u[a]
        != u[b] by {
        if a < s.len() && b >= s.len() {
            assert(s[a] == u[a] && s.contains(u[a]));
            assert(t[b - s.len()] == u[b] && t.contains(u[b]));
        } else if b < s.len() && a >= s.len() {
            assert(s[b] == u[b] && s.contains(u[b]));
            assert(t[a - s.len()] == u[a] && t.contains(u[a]));
        } else if a < s.len() {
            assert(s[a] == u[a] && s[b] == u[b]);
        } else {
            assert(t[a - s.len()] == u[a] && t[b - s.len()] == u[b]);
        }
    }
}

proof fn lemma_row_cells_no_duplicates(e: Emp, x: int, n: int)
    requires
        0 <= x < MAP_SIZE,
    ensures
        row_cells(e, x, n).no_duplicates(),
    decreases n,
{
    if n > 0 {
        lemma_row_cells_no_duplicates(e, x, n - 1);
        let y = lo_y(e) + n - 1;
        assert forall|c: (i32, i32)| row_cells(e, x, n - 1).contains(c) implies !cell_if(
            e,
            x,
            y,
        ).contains(c) by {
            lemma_row_cells(e, x, n - 1, c);
            if cell_if(e, x, y).contains(c) {
                assert(cell_if(e, x, y)[0] == c);
            }
        }
        lemma_concat_no_duplicates(row_cells(e, x, n - 1), cell_if(e, x, y));
    }
}

proof fn lemma_rows_no_duplicates(e: Emp, n: int)
    requires
        n <= hi_x(e) - lo_x(e) + 1,
    ensures
        rows(e, n).no_duplicates(),
    decreases n,
{
    if n > 0 {
        lemma_rows_no_duplicates(e, n - 1);
        let x = lo_x(e) + n - 1;
        let m = hi_y(e) - lo_y(e) + 1;
        lemma_row_cells_no_duplicates(e, x, m);
        assert forall|c: (i32, i32)| rows(e, n - 1).contains(c) implies !row_cells(
            e,
            x,
            m,
        ).contains(c) by {
            lemma_rows(e, n - 1, c);
            lemma_row_cells(e, x, m, c);
        }
        lemma_concat_no_duplicates(rows(e, n - 1), row_cells(e, x, m));
    }
}

/// The footprint lists each affected cell once.
pub proof fn lemma_footprint_no_duplicates(e: Emp)
    ensures
        footprint(e).no_duplicates(),
{
    lemma_rows_no_duplicates(e, hi_x(e) - lo_x(e) + 1);
}

/// The corner cell `(cx + r, cy + r)` of the bounding square is outside the
/// footprint whenever the radius is positive.
pub proof fn lemma_corner_outside(e: Emp)
    requires
        e.radius > 0,
    ensures
        !in_footprint(e, e.x_coord + e.radius, e.y_coord + e.radius),
{
    let r: int = e.radius as int;
    assert(r * r + r * r > r * r) by (nonlinear_arith)
        requires
            r > 0,
    ;
}

} // verus!
