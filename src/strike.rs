//! What one fired EMP does to the battlefield: damage on every cell of its
//! footprint to the defender there and to each unit whose current-frame trace
//! passed through it, and the set of structures it covers.

use vstd::prelude::*;

use crate::battlefield::{Attacker, BuildingsManager, DefenseManager};
use crate::emp::Emp;
use crate::footprint::{cell_if, footprint, hi_x, hi_y, in_footprint, lo_x, lo_y, row_cells, rows};
use crate::MAP_SIZE;

verus! {

/// The last (most recent) index at which `trace` holds cell `c`.
pub open spec fn last_index(trace: Seq<(i32, i32)>, c: (i32, i32)) -> Option<int>
    decreases trace.len(),
{
    if trace.len() == 0 {
        None
    } else if trace.last() == c {
        Some(trace.len() - 1)
    } else {
        last_index(trace.drop_last(), c)
    }
}

/// The hit a unit with trace `trace` takes from damage `d` on cell `c`: the
/// damage and the number of frames since it last stood there.
pub open spec fn hit_of(trace: Seq<(i32, i32)>, c: (i32, i32), d: i32) -> Seq<(i32, usize)> {
    match last_index(trace, c) {
        Some(k) => seq![(d, (trace.len() - 1 - k) as usize)],
        None => seq![],
    }
}

/// The hits a unit with trace `trace` takes from damage `d` over `cells`.
pub open spec fn unit_hits(trace: Seq<(i32, i32)>, cells: Seq<(i32, i32)>, d: i32) -> Seq<
    (i32, usize),
>
    decreases cells.len(),
{
    if cells.len() == 0 {
        seq![]
    } else {
        unit_hits(trace, cells.drop_last(), d) + hit_of(trace, cells.last(), d)
    }
}

/// Same units, told apart only by the hits they have taken.
pub open spec fn same_units(a: Seq<Attacker>, b: Seq<Attacker>) -> bool {
    &&& a.len() == b.len()
    &&& forall|j: int|
        0 <= j < a.len() ==> {
            &&& (#[trigger] a[j]).id == b[j].id
            &&& a[j].path@ == b[j].path@
            &&& a[j].path_in_current_frame@ == b[j].path_in_current_frame@
            &&& a[j].planted@ == b[j].planted@
        }
}

pub open spec fn building_at(grid: Seq<Vec<i32>>, c: (i32, i32)) -> i32 {
    grid[c.0 as int]@[c.1 as int]
}

/// `b` is a structure (not road) standing on one of `cells`.
pub open spec fn covers(grid: Seq<Vec<i32>>, cells: Seq<(i32, i32)>, b: i32) -> bool {
    b != 0 && exists|k: int| 0 <= k < cells.len() && building_at(grid, #[trigger] cells[k]) == b
}

/// Where in `trace` the unit last stood on `(x, y)`.
pub fn last_position(trace: &Vec<(i32, i32)>, x: i32, y: i32) -> (r: Option<usize>)
    ensures
        match last_index(trace@, (x, y)) {
            Some(k) => r == Some(k as usize),
            None => r is None,
        },
{
    let mut p: usize = trace.len();
    assert(trace@.take(p as int) =~= trace@);
    while p > 0
        invariant
            p <= trace@.len(),
            last_index(trace@, (x, y)) == last_index(trace@.take(p as int), (x, y)),
        decreases p,
    {
        let q = p - 1;
        assert(trace@.take(p as int).drop_last() =~= trace@.take(q as int));
        if trace[q].0 == x && trace[q].1 == y {
            return Some(q);
        }
        p = q;
    }
    None
}

/// Damages, once each, the units whose trace passed through `(x, y)`, with
/// the number of frames since the most recent such position.
pub fn hit_units(attackers: &mut Vec<Attacker>, x: i32, y: i32, damage: i32)
    ensures
        same_units(old(attackers)@, final(attackers)@),
        forall|j: int|
            0 <= j < old(attackers)@.len() ==> (#[trigger] final(attackers)@[j]).damage_taken@ == old(
                attackers,
            )@[j].damage_taken@ + hit_of(old(attackers)@[j].path_in_current_frame@, (x, y), damage),
{
    let ghost a0 = attackers@;
    let mut j: usize = 0;
    while j < attackers.len()
        invariant
            j <= attackers@.len(),
            same_units(a0, attackers@),
            forall|i: int|
                0 <= i < j ==> (#[trigger] attackers@[i]).damage_taken@ == a0[i].damage_taken@
                    + hit_of(a0[i].path_in_current_frame@, (x, y), damage),
            forall|i: int| j <= i < a0.len() ==> (#[trigger] attackers@[i]).damage_taken@ == a0[i].damage_taken@,
        decreases attackers@.len() - j,
    {
        let found = last_position(&attackers[j].path_in_current_frame, x, y);
        proof {
            lemma_last_index(attackers@[j as int].path_in_current_frame@, (x, y));
        }
        match found {
            Some(k) => {
                let frames = attackers[j].path_in_current_frame.len() - 1 - k;
                attackers[j].get_damage(damage, frames);
            },
            None => {
                assert(a0[j as int].damage_taken@ + seq![] =~= a0[j as int].damage_taken@);
            },
        }
        j = j + 1;
    }
}

proof fn lemma_last_index(trace: Seq<(i32, i32)>, c: (i32, i32))
    ensures
        match last_index(trace, c) {
            Some(k) => 0 <= k < trace.len() && trace[k] == c && forall|k2: int|
                k < k2 < trace.len() ==> #[trigger] trace[k2] != c,
            None => !trace.contains(c),
        },
    decreases trace.len(),
{
    if trace.len() > 0 {
        let p = trace.drop_last();
        lemma_last_index(p, c);
        if trace.last() != c {
            match last_index(p, c) {
                Some(k) => {
                    assert forall|k2: int| k < k2 < trace.len() implies #[trigger] trace[k2] != c by {
                        if k2 < p.len() {
                            assert(p[k2] == trace[k2]);
                        }
                    }
                },
                None => {
                    if trace.contains(c) {
                        let j = choose|j: int| 0 <= j < trace.len() && trace[j] == c;
                        assert(p[j] == c);
                    }
                },
            }
        }
    }
}

/// A unit is hit at most once for a cell, and not at all if its trace never
/// reached it; the index it is hit with counts the frames since the most
/// recent position of its trace on that cell.
pub proof fn lemma_hit_once(trace: Seq<(i32, i32)>, c: (i32, i32), d: i32)
    ensures
        hit_of(trace, c, d).len() <= 1,
        !trace.contains(c) ==> hit_of(trace, c, d).len() == 0,
        trace.contains(c) ==> exists|k: int|
            0 <= k < trace.len() && #[trigger] trace[k] == c && hit_of(trace, c, d) == seq![
                (d, (trace.len() - 1 - k) as usize),
            ] && forall|k2: int| k < k2 < trace.len() ==> #[trigger] trace[k2] != c,
{
    lemma_last_index(trace, c);
    if let Some(k) = last_index(trace, c) {
        assert(trace[k] == c);
    } else {
        if trace.contains(c) {
            let j = choose|j: int| 0 <= j < trace.len() && trace[j] == c;
            assert(trace[j] == c);
        }
    }
}

proof fn lemma_unit_hits_push(t: Seq<(i32, i32)>, s: Seq<(i32, i32)>, c: (i32, i32), d: i32)
    ensures
        unit_hits(t, s.push(c), d) == unit_hits(t, s, d) + hit_of(t, c, d),
{
    assert(s.push(c).drop_last() =~= s);
}

proof fn lemma_covers_push(grid: Seq<Vec<i32>>, s: Seq<(i32, i32)>, c: (i32, i32), b: i32)
    ensures
        covers(grid, s.push(c), b) <==> covers(grid, s, b) || (b != 0 && building_at(grid, c) == b),
{
    let u = s.push(c);
    if covers(grid, u, b) {
        let k = choose|k: int| 0 <= k < u.len() && building_at(grid, #[trigger] u[k]) == b;
        if k < s.len() {
            assert(s[k] == u[k]);
        }
    }
    if covers(grid, s, b) {
        let k = choose|k: int| 0 <= k < s.len() && building_at(grid, #[trigger] s[k]) == b;
        assert(u[k] == s[k]);
    }
    if b != 0 && building_at(grid, c) == b {
        assert(u[s.len() as int] == c);
    }
}

fn contains_id(v: &Vec<i32>, b: i32) -> (r: bool)
    ensures
        r == v@.contains(b),
{
    let mut i: usize = 0;
    while i < v.len()
        invariant
            i <= v@.len(),
            forall|j: int| 0 <= j < i ==> v@[j] != b,
        decreases v@.len() - i,
    {
        if v[i] == b {
            return true;
        }
        i = i + 1;
    }
    false
}

/// Resolves one fired EMP: every cell of its footprint, in raster order, is
/// damaged for the defender there and for each unit whose trace passed through
/// it (once, at its most recent position there). Returns the distinct ids of
/// the structures standing on the footprint, for effects on structures and
/// their occupants that are yet to be defined.
pub fn detonate(
    emp: &Emp,
    buildings_manager: &BuildingsManager,
    defense_manager: &mut DefenseManager,
    attackers: &mut Vec<Attacker>,
) -> (affected: Vec<i32>)
    requires
        buildings_manager.wf(),
    ensures
        final(defense_manager).damaged_cells@ == old(defense_manager).damaged_cells@ + footprint(*emp),
        same_units(old(attackers)@, final(attackers)@),
        forall|j: int|
            0 <= j < old(attackers)@.len() ==> (#[trigger] final(attackers)@[j]).damage_taken@ == old(
                attackers,
            )@[j].damage_taken@ + unit_hits(
                old(attackers)@[j].path_in_current_frame@,
                footprint(*emp),
                emp.damage,
            ),
        affected@.no_duplicates(),
        forall|b: i32|
            affected@.contains(b) <==> covers(buildings_manager.buildings_grid@, footprint(*emp), b),
{
    let ghost e = *emp;
    let ghost grid = buildings_manager.buildings_grid@;
    let ghost d0 = defense_manager.damaged_cells@;
    let ghost a0 = attackers@;
    let cx: i64 = emp.x_coord as i64;
    let cy: i64 = emp.y_coord as i64;
    let r: i64 = emp.radius as i64;
    let max: i64 = MAP_SIZE as i64 - 1;
    let lox: i64 = if cx - r < 0 { 0 } else { cx - r };
    let hix: i64 = if cx + r > max { max } else { cx + r };
    let loy: i64 = if cy - r < 0 { 0 } else { cy - r };
    let hiy: i64 = if cy + r > max { max } else { cy + r };
    let rr: i128 = r as i128;
    assert(0 <= rr * rr <= 0x10_0000_0000_0000_0000) by (nonlinear_arith)
        requires
            -0x1_0000_0000 <= rr <= 0x1_0000_0000,
    ;
    let r2: i128 = rr * rr;
    let mut affected: Vec<i32> = Vec::new();
    let mut x: i64 = lox;
    while x <= hix
        invariant
            lox == lo_x(e),
            hix == hi_x(e),
            loy == lo_y(e),
            hiy == hi_y(e),
            cx == e.x_coord,
            cy == e.y_coord,
            r == e.radius,
            r2 == e.radius * e.radius,
            *emp == e,
            grid == buildings_manager.buildings_grid@,
            buildings_manager.wf(),
            lox <= x,
            x <= hix + 1 || x == lox,
            defense_manager.damaged_cells@ == d0 + rows(e, x - lox),
            same_units(a0, attackers@),
            forall|j: int|
                0 <= j < a0.len() ==> (#[trigger] attackers@[j]).damage_taken@ == a0[j].damage_taken@
                    + unit_hits(a0[j].path_in_current_frame@, rows(e, x - lox), e.damage),
            affected@.no_duplicates(),
            forall|b: i32| affected@.contains(b) <==> covers(grid, rows(e, x - lox), b),
        decreases hix + 1 - x,
    {
        let ghost done = rows(e, x - lox);
        let mut y: i64 = loy;
        while y <= hiy
            invariant
                lox == lo_x(e),
                hix == hi_x(e),
                loy == lo_y(e),
                hiy == hi_y(e),
                cx == e.x_coord,
                cy == e.y_coord,
                r == e.radius,
                r2 == e.radius * e.radius,
                *emp == e,
                grid == buildings_manager.buildings_grid@,
                buildings_manager.wf(),
                lox <= x <= hix,
                loy <= y,
                y <= hiy + 1 || y == loy,
                done == rows(e, x - lox),
                defense_manager.damaged_cells@ == d0 + (done + row_cells(e, x as int, y - loy)),
                same_units(a0, attackers@),
                forall|j: int|
                    0 <= j < a0.len() ==> (#[trigger] attackers@[j]).damage_taken@
                        == a0[j].damage_taken@ + unit_hits(
                        a0[j].path_in_current_frame@,
                        done + row_cells(e, x as int, y - loy),
                        e.damage,
                    ),
                affected@.no_duplicates(),
                forall|b: i32|
                    affected@.contains(b) <==> covers(grid, done + row_cells(e, x as int, y - loy), b),
            decreases hiy + 1 - y,
        {
            let ghost cells = done + row_cells(e, x as int, y - loy);
            let dx: i128 = (x - cx) as i128;
            let dy: i128 = (y - cy) as i128;
            assert(0 <= dx * dx <= 0x10_0000_0000_0000_0000 && 0 <= dy * dy <= 0x10_0000_0000_0000_0000)
                by (nonlinear_arith)
                requires
                    -0x1_0000_0000 <= dx <= 0x1_0000_0000,
                    -0x1_0000_0000 <= dy <= 0x1_0000_0000,
            ;
            let dist: i128 = dx * dx + dy * dy;
            assert(row_cells(e, x as int, y + 1 - loy) == row_cells(e, x as int, y - loy) + cell_if(
                e,
                x as int,
                y as int,
            ));
            if dist <= r2 {
                assert(in_footprint(e, x as int, y as int));
                let c: (i32, i32) = (x as i32, y as i32);
                assert(cell_if(e, x as int, y as int) =~= seq![c]);
                assert(done + row_cells(e, x as int, y + 1 - loy) =~= cells.push(c));
                assert(d0 + cells.push(c) =~= (d0 + cells).push(c));
                defense_manager.get_damage(x as i32, y as i32);
                let ghost a1 = attackers@;
                hit_units(attackers, x as i32, y as i32, emp.damage);
                assert forall|j: int| 0 <= j < a0.len() implies (#[trigger] attackers@[j]).damage_taken@
                    == a0[j].damage_taken@ + unit_hits(
                    a0[j].path_in_current_frame@,
                    cells.push(c),
                    e.damage,
                ) by {
                    lemma_unit_hits_push(a0[j].path_in_current_frame@, cells, c, e.damage);
                    assert(a1[j].path_in_current_frame@ == a0[j].path_in_current_frame@);
                    assert(attackers@[j].damage_taken@ =~= a0[j].damage_taken@ + (unit_hits(
                        a0[j].path_in_current_frame@,
                        cells,
                        e.damage,
                    ) + hit_of(a0[j].path_in_current_frame@, c, e.damage)));
                }
                let b = buildings_manager.buildings_grid[x as usize][y as usize];
                assert(b == building_at(grid, c));
                let ghost aff0 = affected@;
                if b != 0 && !contains_id(&affected, b) {
                    affected.push(b);
                    assert forall|p: int, q: int|
                        0 <= p < affected@.len() && 0 <= q < affected@.len() && p != q implies affected@[p]
                        != affected@[q] by {
                        if p < aff0.len() && q < aff0.len() {
                            assert(aff0[p] == affected@[p] && aff0[q] == affected@[q]);
                        } else if p < aff0.len() {
                            assert(aff0[p] == affected@[p]);
                        } else if q < aff0.len() {
                            assert(aff0[q] == affected@[q]);
                        }
                    }
                }
                assert forall|bb: i32| affected@.contains(bb) <==> covers(grid, cells.push(c), bb) by {
                    lemma_covers_push(grid, cells, c, bb);
                    if affected@.contains(bb) && bb != b {
                        let k = choose|k: int| 0 <= k < affected@.len() && affected@[k] == bb;
                        assert(aff0[k] == bb);
                    }
                    if aff0.contains(bb) {
                        let k = choose|k: int| 0 <= k < aff0.len() && aff0[k] == bb;
                        assert(affected@[k] == bb);
                    }
                    if bb == b && b != 0 && !aff0.contains(b) {
                        assert(affected@[aff0.len() as int] == b);
                    }
                }
            } else {
                assert(!in_footprint(e, x as int, y as int));
                assert(row_cells(e, x as int, y + 1 - loy) =~= row_cells(e, x as int, y - loy));
            }
            y = y + 1;
        }
        assert(row_cells(e, x as int, y - loy) == row_cells(e, x as int, hiy - loy + 1));
        assert(rows(e, x + 1 - lox) == done + row_cells(e, x as int, hiy - loy + 1));
        x = x + 1;
    }
    assert(rows(e, x - lox) == footprint(e));
    affected
}

} // verus!
