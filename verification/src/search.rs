//! The way that the search for a way through keeps, as a function of the
//! floor alone: the marks that the cells carry before the search have no
//! part in it.
use crate::grid::{raw, Grid};
use crate::maze::Position;
use crate::solving::{is_west_gate, search_counts, unseen_floor, unseen_floor_around};
use vstd::prelude::*;

verus! {

/// The cells of the grid that are floor.
pub open spec fn floor_plan(grid: Grid) -> Set<(int, int)> {
    Set::new(|c: (int, int)| grid.floor(c.0, c.1))
}

/// The cell `(x, y)` where it is floor and has not been marked.
pub open spec fn free_floor(
    plan: Set<(int, int)>,
    marked: Set<(int, int)>,
    x: int,
    y: int,
) -> Seq<Position> {
    if plan.contains((x, y)) && !marked.contains((x, y)) {
        seq![raw(x, y)]
    } else {
        Seq::empty()
    }
}

/// The floor cells next to `(x, y)` that have not been marked: the one
/// below first, then the one above, the one to the right and the one to the
/// left.
pub open spec fn free_floor_around(
    plan: Set<(int, int)>,
    marked: Set<(int, int)>,
    x: int,
    y: int,
) -> Seq<Position> {
    free_floor(plan, marked, x, y + 1) + free_floor(plan, marked, x, y - 1) + free_floor(
        plan,
        marked,
        x + 1,
        y,
    ) + free_floor(plan, marked, x - 1, y)
}

/// The walk that a depth-first search over the floor ends with, from the
/// walk and the marks that it has reached, in `steps` steps at most. The
/// search is over where the walk is empty or its last cell lies in the
/// column `east`. Else it goes to the first floor cell next to the last
/// cell of the walk that has no mark, and marks it; where there is none,
/// the walk loses its last cell.
pub open spec fn searched(
    plan: Set<(int, int)>,
    east: int,
    marked: Set<(int, int)>,
    path: Seq<Position>,
    steps: nat,
) -> Seq<Position>
    decreases steps,
{
    if steps == 0 || path.len() == 0 || path.last().0 >= east {
        path
    } else {
        let around = free_floor_around(plan, marked, path.last().0 as int, path.last().1 as int);
        if around.len() == 0 {
            searched(plan, east, marked, path.drop_last(), (steps - 1) as nat)
        } else {
            searched(
                plan,
                east,
                marked.insert((around[0].0 as int, around[0].1 as int)),
                path.push(around[0]),
                (steps - 1) as nat,
            )
        }
    }
}

/// The cell `(0, y)` is the first floor cell of the west border, from the
/// top.
pub open spec fn is_entrance(plan: Set<(int, int)>, y: int) -> bool {
    &&& 0 <= y
    &&& plan.contains((0, y))
    &&& forall|v: int| 0 <= v < y ==> !#[trigger] plan.contains((0, v))
}

/// The steps that a search takes at most: each cell comes on the walk
/// once and leaves it once.
pub open spec fn search_steps(grid: Grid) -> nat {
    (2 * (grid.raw_width() * grid.raw_height())) as nat
}

/// The way through that the search keeps: what a depth-first search over
/// the floor ends with that starts at the entrance with no other cell
/// marked; no way where the west border has no floor.
pub open spec fn kept_way(grid: Grid) -> Seq<Position> {
    let plan = floor_plan(grid);
    if exists|y: int| is_entrance(plan, y) {
        let y = choose|y: int| is_entrance(plan, y);
        searched(
            plan,
            grid.east(),
            Set::<(int, int)>::empty().insert((0, y)),
            seq![raw(0, y)],
            search_steps(grid),
        )
    } else {
        Seq::empty()
    }
}

/// Grids of the same kinds have the same floor, and the search keeps the
/// same way in both, whatever marks their cells carry.
pub proof fn lemma_kept_way_of_kinds(grid: Grid, other: Grid)
    requires
        grid.same_kinds(other),
    ensures
        floor_plan(grid) == floor_plan(other),
        kept_way(grid) == kept_way(other),
{
    assert(floor_plan(grid) =~= floor_plan(other)) by {
        assert forall|c: (int, int)| floor_plan(grid).contains(c) <==> floor_plan(other).contains(
            c,
        ) by {
            if grid.holds(c.0, c.1) {
                let cell = grid.cell(c.0, c.1);
            }
        }
    }
}

/// The entrance of a grid is the entrance of its floor, and the only one.
pub proof fn lemma_entrance(grid: Grid, y: int)
    requires
        is_west_gate(grid, y),
    ensures
        is_entrance(floor_plan(grid), y),
        forall|v: int| is_entrance(floor_plan(grid), v) ==> v == y,
{
    let plan = floor_plan(grid);
    assert forall|v: int| 0 <= v < y implies !#[trigger] plan.contains((0, v)) by {
        assert(!grid.floor(0, v));
    }
    assert forall|v: int| is_entrance(plan, v) implies v == y by {
        if v < y {
            assert(!grid.floor(0, v));
        }
        if y < v {
            assert(!plan.contains((0, y)));
        }
    }
}

/// A west border without floor has no entrance.
pub proof fn lemma_no_entrance(grid: Grid)
    requires
        forall|v: int| 0 <= v < grid.raw_height() ==> !#[trigger] grid.floor(0, v),
    ensures
        kept_way(grid) == Seq::<Position>::empty(),
{
    let plan = floor_plan(grid);
    if exists|y: int| is_entrance(plan, y) {
        let y = choose|y: int| is_entrance(plan, y);
        assert(grid.floor(0, y));
        assert(false);
    }
}

/// The floor cells without a mark are those that have not been visited,
/// where the marks are those of the visited cells.
pub proof fn lemma_free_floor_around(grid: Grid, marked: Set<(int, int)>, x: int, y: int)
    requires
        search_counts(grid, marked),
    ensures
        unseen_floor_around(grid, x, y) == free_floor_around(floor_plan(grid), marked, x, y),
{
    let plan = floor_plan(grid);
    assert(unseen_floor(grid, x, y + 1) == free_floor(plan, marked, x, y + 1)) by {
        assert(marked.contains((x, y + 1)) <==> grid.seen(x, y + 1));
    }
    assert(unseen_floor(grid, x, y - 1) == free_floor(plan, marked, x, y - 1)) by {
        assert(marked.contains((x, y - 1)) <==> grid.seen(x, y - 1));
    }
    assert(unseen_floor(grid, x + 1, y) == free_floor(plan, marked, x + 1, y)) by {
        assert(marked.contains((x + 1, y)) <==> grid.seen(x + 1, y));
    }
    assert(unseen_floor(grid, x - 1, y) == free_floor(plan, marked, x - 1, y)) by {
        assert(marked.contains((x - 1, y)) <==> grid.seen(x - 1, y));
    }
}

/// A search that is over ends with the walk that it has.
pub proof fn lemma_searched_stops(
    plan: Set<(int, int)>,
    east: int,
    marked: Set<(int, int)>,
    path: Seq<Position>,
    steps: nat,
)
    requires
        path.len() == 0 || path.last().0 >= east,
    ensures
        searched(plan, east, marked, path, steps) == path,
{
}

/// A search ends with what it ends with after its walk has lost a last
/// cell that has no free floor next to it.
pub proof fn lemma_searched_retreats(
    plan: Set<(int, int)>,
    east: int,
    marked: Set<(int, int)>,
    path: Seq<Position>,
    steps: nat,
)
    requires
        steps > 0,
        path.len() > 0,
        path.last().0 < east,
        free_floor_around(plan, marked, path.last().0 as int, path.last().1 as int).len() == 0,
    ensures
        searched(plan, east, marked, path, steps) == searched(
            plan,
            east,
            marked,
            path.drop_last(),
            (steps - 1) as nat,
        ),
{
}

/// A search ends with what it ends with after its next step onto free
/// floor.
pub proof fn lemma_searched_advances(
    plan: Set<(int, int)>,
    east: int,
    marked: Set<(int, int)>,
    path: Seq<Position>,
    steps: nat,
)
    requires
        steps > 0,
        path.len() > 0,
        path.last().0 < east,
        free_floor_around(plan, marked, path.last().0 as int, path.last().1 as int).len() > 0,
    ensures
        ({
            let next = free_floor_around(
                plan,
                marked,
                path.last().0 as int,
                path.last().1 as int,
            )[0];
            searched(plan, east, marked, path, steps) == searched(
                plan,
                east,
                marked.insert((next.0 as int, next.1 as int)),
                path.push(next),
                (steps - 1) as nat,
            )
        }),
{
}

} // verus!
