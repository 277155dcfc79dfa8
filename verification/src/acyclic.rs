//! Why a carved maze has no loop: every floor cell was made floor after
//! all but one of the floor cells beside it, and on a loop the cell that was
//! made floor last has two such cells beside it.
use crate::carving::{carving_shape, is_carved, rooms_adjacent, step_effect, step_made};
use crate::grid::{adjacent, lemma_path_kept, Grid};
use crate::maze::{CellType, Position};
use crate::solving::{gates_opened, has_gates, same_floor};
use vstd::prelude::*;

verus! {

/// The cell `(u, v)` is floor and was made floor before the cell `(x, y)`.
pub open spec fn lower(
    grid: Grid,
    rank: spec_fn(int, int) -> int,
    x: int,
    y: int,
    u: int,
    v: int,
) -> bool {
    grid.floor(u, v) && rank(u, v) < rank(x, y)
}

/// No two of the four cells beside `(x, y)` are floor and were made floor
/// before it.
pub open spec fn no_two_lower(grid: Grid, rank: spec_fn(int, int) -> int, x: int, y: int) -> bool {
    let above = lower(grid, rank, x, y, x, y - 1);
    let below = lower(grid, rank, x, y, x, y + 1);
    let right = lower(grid, rank, x, y, x + 1, y);
    let left = lower(grid, rank, x, y, x - 1, y);
    &&& !(above && below)
    &&& !(above && right)
    &&& !(above && left)
    &&& !(below && right)
    &&& !(below && left)
    &&& !(right && left)
}

/// At most one of the four cells beside `(x, y)` is floor and was made
/// floor before it.
#[verifier::opaque]
pub open spec fn one_lower(grid: Grid, rank: spec_fn(int, int) -> int, x: int, y: int) -> bool {
    no_two_lower(grid, rank, x, y)
}

/// A cell has one lower cell beside it at most where no two are.
pub proof fn lemma_one_lower(grid: Grid, rank: spec_fn(int, int) -> int, x: int, y: int)
    ensures
        one_lower(grid, rank, x, y) == no_two_lower(grid, rank, x, y),
{
    reveal(one_lower);
}

/// The floor cells are numbered in the order in which they were made
/// floor, with numbers below `next` and no number twice, and each has at
/// most one floor cell beside it with a smaller number.
pub open spec fn ranked(grid: Grid, rank: spec_fn(int, int) -> int, next: int) -> bool {
    &&& forall|x: int, y: int| #[trigger]
        grid.floor(x, y) ==> rank(x, y) < next && one_lower(grid, rank, x, y)
    &&& forall|x: int, y: int, u: int, v: int|
        #![trigger grid.floor(x, y), grid.floor(u, v)]
        grid.floor(x, y) && grid.floor(u, v) && rank(x, y) == rank(u, v) ==> x == u && y == v
}

/// The numbers after a step of the carving: the opened wall gets the next
/// number, and the room behind it the one after.
pub open spec fn ranked_step(
    rank: spec_fn(int, int) -> int,
    next: int,
    cx: int,
    cy: int,
    nx: int,
    ny: int,
) -> spec_fn(int, int) -> int {
    |x: int, y: int|
        if x == cx + nx + 1 && y == cy + ny + 1 {
            next
        } else if x == 2 * nx + 1 && y == 2 * ny + 1 {
            next + 1
        } else {
            rank(x, y)
        }
}

/// The first room of a carving is numbered.
pub proof fn lemma_ranked_starts(grid: Grid, sx: int, sy: int)
    requires
        grid.wf(),
        forall|x: int, y: int| #[trigger] grid.floor(x, y) ==> x == 2 * sx + 1 && y == 2 * sy + 1,
    ensures
        ranked(grid, |x: int, y: int| 0int, 1),
{
    let rank = |x: int, y: int| 0int;
    assert forall|x: int, y: int| #[trigger] grid.floor(x, y) implies rank(x, y) < 1 && one_lower(
        grid,
        rank,
        x,
        y,
    ) by {
        lemma_one_lower(grid, rank, x, y);
    }
}

/// A step of the carving keeps the floor cells numbered.
pub proof fn lemma_ranked_steps(
    grid: Grid,
    next_grid: Grid,
    rank: spec_fn(int, int) -> int,
    next: int,
    cx: int,
    cy: int,
    nx: int,
    ny: int,
)
    requires
        grid.wf(),
        carving_shape(grid),
        carving_shape(next_grid),
        grid.room_seen(cx, cy),
        rooms_adjacent(cx, cy, nx, ny),
        grid.has_room(nx, ny),
        !grid.room_seen(nx, ny),
        step_made(grid, next_grid, cx, cy, nx, ny),
        step_effect(grid, next_grid, cx, cy, nx, ny),
        ranked(grid, rank, next),
    ensures
        ranked(next_grid, ranked_step(rank, next, cx, cy, nx, ny), next + 2),
{
    let mx = cx + nx + 1;
    let my = cy + ny + 1;
    let rx = 2 * nx + 1;
    let ry = 2 * ny + 1;
    let next_rank = ranked_step(rank, next, cx, cy, nx, ny);
    assert(grid.holds(mx, my));
    assert(grid.holds(rx, ry));
    // What is floor after the step: the floor of before, the wall and the room.
    assert forall|x: int, y: int| #[trigger] next_grid.floor(x, y) <==> (grid.floor(x, y) || (x
        == mx && y == my) || (x == rx && y == ry)) by {
        if grid.holds(x, y) {
            let c = next_grid.cell(x, y);
        }
    }
    assert(!grid.floor(rx, ry)) by {
        if grid.floor(rx, ry) {
            assert(grid.cell(rx, ry).cell_type == CellType::Floor);
        }
    }
    // No wall beside the new room was open before.
    assert forall|u: int, v: int|
        (u == rx && (v == ry - 1 || v == ry + 1)) || (v == ry && (u == rx - 1 || u == rx
            + 1)) implies !#[trigger] grid.floor(u, v) by {
        if grid.floor(u, v) {
            assert(grid.cell(u, v).cell_type == CellType::Floor);
            assert(grid.is_inner_wall(u, v));
        }
    }
    // The cells beside the opened wall, off its axis, are never floor.
    assert forall|u: int, v: int|
        next_grid.holds(u, v) && u % 2 == 0 && v % 2 == 0 implies !#[trigger] next_grid.floor(
        u,
        v,
    ) by {
        if next_grid.floor(u, v) {
            assert(next_grid.cell(u, v).cell_type == CellType::Floor);
        }
    }
    assert forall|x: int, y: int| #[trigger] next_grid.floor(x, y) implies next_rank(x, y) < next
        + 2 && one_lower(next_grid, next_rank, x, y) by {
        lemma_one_lower(next_grid, next_rank, x, y);
        lemma_one_lower(grid, rank, x, y);
        if x == mx && y == my {
            assert(next_rank(rx, ry) == next + 1);
            if mx % 2 == 0 {
                assert(!next_grid.floor(mx, my - 1));
                assert(!next_grid.floor(mx, my + 1));
            } else {
                assert(!next_grid.floor(mx - 1, my));
                assert(!next_grid.floor(mx + 1, my));
            }
        } else if x == rx && y == ry {
            assert(next_grid.floor(rx, ry - 1) ==> ry - 1 == my && rx == mx);
            assert(next_grid.floor(rx, ry + 1) ==> ry + 1 == my && rx == mx);
            assert(next_grid.floor(rx - 1, ry) ==> rx - 1 == mx && ry == my);
            assert(next_grid.floor(rx + 1, ry) ==> rx + 1 == mx && ry == my);
        } else {
            assert(grid.floor(x, y));
            assert(one_lower(grid, rank, x, y));
            assert(rank(x, y) < next);
            assert(lower(next_grid, next_rank, x, y, x, y - 1) ==> lower(
                grid,
                rank,
                x,
                y,
                x,
                y - 1,
            ));
            assert(lower(next_grid, next_rank, x, y, x, y + 1) ==> lower(
                grid,
                rank,
                x,
                y,
                x,
                y + 1,
            ));
            assert(lower(next_grid, next_rank, x, y, x + 1, y) ==> lower(
                grid,
                rank,
                x,
                y,
                x + 1,
                y,
            ));
            assert(lower(next_grid, next_rank, x, y, x - 1, y) ==> lower(
                grid,
                rank,
                x,
                y,
                x - 1,
                y,
            ));
        }
    }
    assert forall|x: int, y: int, u: int, v: int|
        #![trigger next_grid.floor(x, y), next_grid.floor(u, v)]
        next_grid.floor(x, y) && next_grid.floor(u, v) && next_rank(x, y) == next_rank(
            u,
            v,
        ) implies x == u && y == v by {
        if grid.floor(x, y) {
            assert(rank(x, y) < next);
        }
        if grid.floor(u, v) {
            assert(rank(u, v) < next);
        }
    }
}

/// A loop: a walk over floor of three steps at least that ends where it
/// starts and comes by no other cell twice.
pub open spec fn is_floor_cycle(grid: Grid, cycle: Seq<Position>) -> bool {
    &&& grid.is_floor_path(cycle)
    &&& cycle.len() >= 4
    &&& cycle.first() == cycle.last()
    &&& forall|i: int, j: int| 0 <= i < j < cycle.len() - 1 ==> cycle[i] != cycle[j]
}

/// The floor of the grid has no loop.
pub open spec fn is_acyclic(grid: Grid) -> bool {
    forall|cycle: Seq<Position>| !#[trigger] is_floor_cycle(grid, cycle)
}

/// The cell before the cell `k` of a loop.
pub open spec fn cycle_before(cycle: Seq<Position>, k: int) -> Position {
    if k == 0 {
        cycle[cycle.len() - 2]
    } else {
        cycle[k - 1]
    }
}

/// On a loop, the cell before a cell and the cell after it are two floor
/// cells beside it.
pub proof fn lemma_cycle_neighbours(grid: Grid, cycle: Seq<Position>, k: int)
    requires
        is_floor_cycle(grid, cycle),
        0 <= k < cycle.len() - 1,
    ensures
        cycle_before(cycle, k) != cycle[k + 1],
        adjacent(cycle[k], cycle_before(cycle, k)),
        adjacent(cycle[k], cycle[k + 1]),
        grid.floor_at(cycle_before(cycle, k)),
        grid.floor_at(cycle[k + 1]),
        cycle_before(cycle, k) != cycle[k],
        cycle[k + 1] != cycle[k],
{
    let n = cycle.len() - 1;
    assert(cycle[n] == cycle[0]);
    assert(adjacent(cycle[k], cycle[k + 1]));
    if k == 0 {
        assert(adjacent(cycle[n - 1], cycle[n]));
        assert(cycle[n - 1] != cycle[1]);
    } else {
        assert(adjacent(cycle[k - 1], cycle[k]));
        if k + 1 == n {
            assert(cycle[0] != cycle[k - 1]);
        } else {
            assert(cycle[k - 1] != cycle[k + 1]);
        }
    }
}

/// The place, among the first `upto` cells of a walk, of the one with the
/// highest number.
pub open spec fn highest(rank: spec_fn(int, int) -> int, cycle: Seq<Position>, upto: int) -> int
    decreases upto,
{
    if upto <= 1 {
        0
    } else {
        let rest = highest(rank, cycle, upto - 1);
        if rank(cycle[upto - 1].0 as int, cycle[upto - 1].1 as int) > rank(
            cycle[rest].0 as int,
            cycle[rest].1 as int,
        ) {
            upto - 1
        } else {
            rest
        }
    }
}

/// No cell among the first `upto` has a higher number than the one that
/// `highest` finds.
pub proof fn lemma_highest(rank: spec_fn(int, int) -> int, cycle: Seq<Position>, upto: int)
    requires
        1 <= upto <= cycle.len(),
    ensures
        0 <= highest(rank, cycle, upto) < upto,
        forall|i: int|
            0 <= i < upto ==> rank((#[trigger] cycle[i]).0 as int, cycle[i].1 as int) <= rank(
                cycle[highest(rank, cycle, upto)].0 as int,
                cycle[highest(rank, cycle, upto)].1 as int,
            ),
    decreases upto,
{
    if upto > 1 {
        lemma_highest(rank, cycle, upto - 1);
    }
}

/// Floor that is numbered has no loop.
pub proof fn lemma_ranked_acyclic(grid: Grid, rank: spec_fn(int, int) -> int, next: int)
    requires
        grid.wf(),
        ranked(grid, rank, next),
    ensures
        is_acyclic(grid),
{
    assert forall|cycle: Seq<Position>| !#[trigger] is_floor_cycle(grid, cycle) by {
        if is_floor_cycle(grid, cycle) {
            let n = cycle.len() - 1;
            lemma_highest(rank, cycle, n);
            let k = highest(rank, cycle, n);
            let here = cycle[k];
            let before = cycle_before(cycle, k);
            let after = cycle[k + 1];
            lemma_cycle_neighbours(grid, cycle, k);
            let x = here.0 as int;
            let y = here.1 as int;
            assert(grid.floor_at(here));
            assert(grid.floor(x, y));
            assert(grid.floor(before.0 as int, before.1 as int));
            assert(grid.floor(after.0 as int, after.1 as int));
            // Both are cells of the loop, so neither has a higher number.
            assert(rank(before.0 as int, before.1 as int) <= rank(x, y)) by {
                if k == 0 {
                    assert(before == cycle[n - 1]);
                } else {
                    assert(before == cycle[k - 1]);
                }
            }
            assert(rank(after.0 as int, after.1 as int) <= rank(x, y)) by {
                if k + 1 == n {
                    assert(after == cycle[0]);
                }
            }
            assert(lower(grid, rank, x, y, before.0 as int, before.1 as int));
            assert(lower(grid, rank, x, y, after.0 as int, after.1 as int));
            assert(one_lower(grid, rank, x, y));
            lemma_one_lower(grid, rank, x, y);
            assert(false);
        }
    }
}

/// Floor without a loop has none in a grid with floor in the same cells.
pub proof fn lemma_same_floor_keeps_acyclic(grid: Grid, other: Grid)
    requires
        is_acyclic(grid),
        same_floor(grid, other),
    ensures
        is_acyclic(other),
{
    assert forall|cycle: Seq<Position>| !#[trigger] is_floor_cycle(other, cycle) by {
        if is_floor_cycle(other, cycle) {
            assert(other.floors_kept_in(grid)) by {
                assert forall|x: int, y: int| #[trigger] other.floor(x, y) implies grid.floor(
                    x,
                    y,
                ) by {
                    assert(grid.floor(x, y) <==> other.floor(x, y));
                }
            }
            lemma_path_kept(other, grid, cycle);
            assert(is_floor_cycle(grid, cycle));
        }
    }
}

/// The two gates add no loop to a carved maze: each has one floor cell
/// beside it, the room behind it.
pub proof fn lemma_gates_keep_acyclic(before: Grid, after: Grid, west: int, east: int)
    requires
        before.wf(),
        is_carved(before),
        is_acyclic(before),
        gates_opened(before, after, west, east),
        has_gates(after, west, east),
        after.wf(),
        after.width == before.width,
        after.height == before.height,
        forall|x: int, y: int|
            before.holds(x, y) ==> (#[trigger] after.floor(x, y) <==> (before.floor(x, y) || (x == 0
                && y == 2 * west + 1) || (x == before.east() && y == 2 * east + 1))),
    ensures
        is_acyclic(after),
{
    assert forall|cycle: Seq<Position>| !#[trigger] is_floor_cycle(after, cycle) by {
        if is_floor_cycle(after, cycle) {
            let n = cycle.len() - 1;
            assert forall|k: int| 0 <= k < cycle.len() implies before.floor_at(
                #[trigger] cycle[k],
            ) by {
                let here = cycle[k];
                let x = here.0 as int;
                let y = here.1 as int;
                assert(after.floor_at(here));
                assert(after.floor(x, y));
                if !before.floor(x, y) {
                    let j = if k == n {
                        0
                    } else {
                        k
                    };
                    assert(cycle[j] == here);
                    lemma_cycle_neighbours(after, cycle, j);
                    let prev = cycle_before(cycle, j);
                    let next = cycle[j + 1];
                    assert(after.floor(prev.0 as int, prev.1 as int));
                    assert(after.floor(next.0 as int, next.1 as int));
                    assert(after.holds(prev.0 as int, prev.1 as int));
                    assert(after.holds(next.0 as int, next.1 as int));
                    if x == 0 {
                        assert(prev.0 == 0 ==> prev.1 == 2 * west + 1);
                        assert(next.0 == 0 ==> next.1 == 2 * west + 1);
                    } else {
                        assert(prev.0 == after.east() ==> prev.1 == 2 * east + 1);
                        assert(next.0 == after.east() ==> next.1 == 2 * east + 1);
                    }
                    assert(false);
                }
            }
            assert(is_floor_cycle(before, cycle));
        }
    }
}

/// The walk comes by no cell twice.
pub open spec fn is_simple(path: Seq<Position>) -> bool {
    forall|i: int, j: int| 0 <= i < j < path.len() ==> path[i] != path[j]
}

/// How far two walks go together, from the place `from` on.
pub open spec fn parting(one: Seq<Position>, two: Seq<Position>, from: int) -> int
    decreases one.len() - from,
{
    if 0 <= from < one.len() && from < two.len() && one[from] == two[from] {
        parting(one, two, from + 1)
    } else {
        from
    }
}

/// Up to where they part, two walks have the same cells.
pub proof fn lemma_parting(one: Seq<Position>, two: Seq<Position>, from: int)
    requires
        0 <= from <= one.len(),
        from <= two.len(),
    ensures
        from <= parting(one, two, from) <= one.len(),
        parting(one, two, from) <= two.len(),
        forall|t: int| from <= t < parting(one, two, from) ==> one[t] == two[t],
        parting(one, two, from) < one.len() && parting(one, two, from) < two.len()
            ==> one[parting(one, two, from)] != two[parting(one, two, from)],
    decreases one.len() - from,
{
    if from < one.len() && from < two.len() && one[from] == two[from] {
        lemma_parting(one, two, from + 1);
    }
}

/// The cell `cell` is one of the cells of the walk from the place `from`
/// on.
pub open spec fn comes_later(path: Seq<Position>, from: int, cell: Position) -> bool {
    exists|k: int| from <= k < path.len() && #[trigger] path[k] == cell
}

/// The first place, from `at` on, in which the walk `one` is on a cell that
/// the walk `two` comes by from its place `from` on.
pub open spec fn meeting(one: Seq<Position>, two: Seq<Position>, from: int, at: int) -> int
    decreases one.len() - at,
{
    if 0 <= at < one.len() && !comes_later(two, from, one[at]) {
        meeting(one, two, from, at + 1)
    } else {
        at
    }
}

/// Two walks that end in the same cell meet, and not before the place that
/// `meeting` finds.
pub proof fn lemma_meeting(one: Seq<Position>, two: Seq<Position>, from: int, at: int)
    requires
        0 <= at < one.len(),
        0 <= from < two.len(),
        one.last() == two.last(),
    ensures
        at <= meeting(one, two, from, at) < one.len(),
        comes_later(two, from, one[meeting(one, two, from, at)]),
        forall|t: int|
            at <= t < meeting(one, two, from, at) ==> !comes_later(two, from, #[trigger] one[t]),
    decreases one.len() - at,
{
    if !comes_later(two, from, one[at]) {
        if at == one.len() - 1 {
            assert(two[two.len() - 1] == one[at]);
            assert(false);
        }
        lemma_meeting(one, two, from, at + 1);
    }
}

/// Where the floor has no loop there is one way at most from a cell to
/// another that comes by no cell twice.
pub proof fn lemma_one_way(grid: Grid, one: Seq<Position>, two: Seq<Position>)
    requires
        is_acyclic(grid),
        grid.is_floor_path(one),
        grid.is_floor_path(two),
        is_simple(one),
        is_simple(two),
        one.first() == two.first(),
        one.last() == two.last(),
    ensures
        one == two,
{
    lemma_parting(one, two, 0);
    let i = parting(one, two, 0);
    assert(i >= 1);
    if i == one.len() {
        if two.len() > i {
            assert(two[i - 1] == one[i - 1]);
            assert(two[two.len() - 1] == one[i - 1]);
            assert(false);
        }
        assert(one =~= two);
    } else if i == two.len() {
        assert(one[i - 1] == two[i - 1]);
        assert(one[one.len() - 1] == two[i - 1]);
        assert(false);
    } else {
        lemma_meeting(one, two, i, i);
        let j = meeting(one, two, i, i);
        let k = choose|k: int| i <= k < two.len() && #[trigger] two[k] == one[j];
        assert(j + k >= 2 * i + 1) by {
            if j == i && k == i {
                assert(one[i] == two[i]);
            }
        }
        let out = one.subrange(i - 1, j + 1);
        let back = two.subrange(i - 1, k).reverse();
        let cycle = out + back;
        assert(out.len() == j - i + 2);
        assert(back.len() == k - i + 1);
        assert forall|t: int| 0 <= t < cycle.len() implies #[trigger] cycle[t] == (if t
            < out.len() {
            one[i - 1 + t]
        } else {
            two[k - 1 - (t - out.len())]
        }) by {
            if t >= out.len() {
                assert(cycle[t] == back[t - out.len()]);
            }
        }
        assert(grid.is_floor_path(cycle)) by {
            assert forall|t: int| 0 <= t < cycle.len() implies grid.floor_at(
                #[trigger] cycle[t],
            ) by {
                if t < out.len() {
                    assert(grid.floor_at(one[i - 1 + t]));
                } else {
                    assert(grid.floor_at(two[k - 1 - (t - out.len())]));
                }
            }
            assert forall|t: int, u: int|
                0 <= t && u == t + 1 && u < cycle.len() implies adjacent(
                #[trigger] cycle[t],
                #[trigger] cycle[u],
            ) by {
                if u < out.len() {
                    assert(adjacent(one[i - 1 + t], one[i - 1 + u]));
                } else if t < out.len() {
                    assert(cycle[t] == one[j]);
                    assert(cycle[u] == two[k - 1]);
                    assert(adjacent(two[k - 1], two[k]));
                } else {
                    let high = k - 1 - (t - out.len());
                    let low = k - 1 - (u - out.len());
                    assert(adjacent(two[low], two[high]));
                }
            }
        }
        assert(cycle.first() == one[i - 1]);
        assert(cycle.last() == two[i - 1]);
        assert forall|t: int, u: int| 0 <= t < u < cycle.len() - 1 implies cycle[t]
            != cycle[u] by {
            if u < out.len() {
                assert(one[i - 1 + t] != one[i - 1 + u]);
            } else if t >= out.len() {
                let high = k - 1 - (t - out.len());
                let low = k - 1 - (u - out.len());
                assert(two[low] != two[high]);
            } else {
                let place = k - 1 - (u - out.len());
                assert(i <= place < k);
                if t == 0 {
                    assert(two[i - 1] != two[place]);
                } else if i - 1 + t == j {
                    assert(two[place] != two[k]);
                } else {
                    assert(!comes_later(two, i, one[i - 1 + t]));
                    assert(two[place] != one[i - 1 + t]);
                }
            }
        }
        assert(is_floor_cycle(grid, cycle));
        assert(false);
    }
}

} // verus!
