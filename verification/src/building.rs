//! A maze as a function of the numbers that were drawn for it: the same
//! size and the same draws give the same walls, cell by cell.
use crate::carving::unseen_around;
use crate::grid::{room, Grid};
use crate::maze::{Cell, CellType, Position};
use crate::random::{draw_at, extends};
use vstd::prelude::*;

verus! {

/// The grid of the given size in which every cell is an unvisited wall.
pub open spec fn blank_grid(width: nat, height: nat) -> Grid {
    Grid {
        width,
        height,
        rows: Seq::new(
            2 * height + 1,
            |y: int|
                Seq::new(
                    2 * width + 1,
                    |x: int| Cell { visited: false, cell_type: CellType::Wall },
                ),
        ),
    }
}

/// There is one blank grid of each size.
pub proof fn lemma_blank_grid(grid: Grid)
    requires
        grid.wf(),
        grid.is_blank(),
    ensures
        grid == blank_grid(grid.width, grid.height),
{
    let blank = blank_grid(grid.width, grid.height);
    assert forall|y: int| 0 <= y < grid.rows.len() implies #[trigger] grid.rows[y]
        =~= blank.rows[y] by {
        assert forall|x: int| 0 <= x < grid.rows[y].len() implies grid.rows[y][x]
            == blank.rows[y][x] by {
            assert(grid.holds(x, y));
            assert(grid.cell(x, y) == (Cell { visited: false, cell_type: CellType::Wall }));
        }
    }
    assert(grid.rows =~= blank.rows);
}

/// The stack once the rooms on top of it that have no unvisited room beside
/// them have left it.
pub open spec fn settled(grid: Grid, stack: Seq<Position>) -> Seq<Position>
    decreases stack.len(),
{
    if stack.len() == 0 {
        stack
    } else if unseen_around(grid, stack.last().0 as int, stack.last().1 as int).len() == 0 {
        settled(grid, stack.drop_last())
    } else {
        stack
    }
}

/// The grid after one step of the carving from the room `from` to the room
/// `to`: the cell between them is floor, and the cell of `to` is floor and
/// marked as visited.
pub open spec fn carved_step(grid: Grid, from: Position, to: Position) -> Grid {
    grid.with_floor(from.0 + to.0 + 1, from.1 + to.1 + 1).with_cell(
        2 * to.0 + 1,
        2 * to.1 + 1,
        Cell { visited: true, cell_type: CellType::Floor },
    )
}

/// The grid that the carving ends with, from the grid and the stack that it
/// has reached, where its next draw is the one at the place `k` of `values`
/// and it has `steps` steps left at most. Each step goes from the room on
/// top of the settled stack to one of the unvisited rooms beside it: the one
/// whose place among them, in the order of `unseen_around`, is the draw
/// modulo their number.
pub open spec fn carved(
    grid: Grid,
    stack: Seq<Position>,
    values: Seq<usize>,
    k: int,
    steps: nat,
) -> Grid
    decreases steps,
{
    let rest = settled(grid, stack);
    if steps == 0 || rest.len() == 0 {
        grid
    } else {
        let around = unseen_around(grid, rest.last().0 as int, rest.last().1 as int);
        let next = around[draw_at(values, k) % (around.len() as int)];
        carved(
            carved_step(grid, rest.last(), next),
            rest.push(next),
            values,
            k + 1,
            (steps - 1) as nat,
        )
    }
}

/// The carved maze that the draws of `values` from the place `k` on make
/// of a blank grid: the first two choose the column and the row of the
/// first room, and one draw follows for each wall that is opened.
pub open spec fn carved_maze(blank: Grid, values: Seq<usize>, k: int) -> Grid {
    let sx = draw_at(values, k) % (blank.width as int);
    let sy = draw_at(values, k + 1) % (blank.height as int);
    carved(
        blank.with_cell(
            2 * sx + 1,
            2 * sy + 1,
            Cell { visited: true, cell_type: CellType::Floor },
        ),
        seq![room(sx, sy)],
        values,
        k + 2,
        (blank.width * blank.height - 1) as nat,
    )
}

/// The grid with the two gates that the draws at the places `k` and `k + 1`
/// of `values` choose: the row of rooms of the entrance, then that of the
/// exit.
pub open spec fn gated(grid: Grid, values: Seq<usize>, k: int) -> Grid {
    let west = draw_at(values, k) % (grid.height as int);
    let east = draw_at(values, k + 1) % (grid.height as int);
    grid.with_floor(0, 2 * west + 1).with_floor(grid.east(), 2 * east + 1)
}

/// The maze of the given size that the draws of `values` build: carved,
/// then given its gates. A maze of `width` by `height` rooms takes
/// `width * height + 3` draws.
pub open spec fn built(width: nat, height: nat, values: Seq<usize>) -> Grid {
    gated(
        carved_maze(blank_grid(width, height), values, 0),
        values,
        (width * height + 1) as int,
    )
}

/// A room that has left the stack does not change what the carving ends
/// with.
pub proof fn lemma_carved_settles(
    grid: Grid,
    stack: Seq<Position>,
    values: Seq<usize>,
    k: int,
    steps: nat,
)
    requires
        stack.len() > 0,
        unseen_around(grid, stack.last().0 as int, stack.last().1 as int).len() == 0,
    ensures
        carved(grid, stack, values, k, steps) == carved(grid, stack.drop_last(), values, k, steps),
{
    assert(settled(grid, stack) == settled(grid, stack.drop_last()));
}

/// The carving ends with what it ends with after its next step.
pub proof fn lemma_carved_steps(
    grid: Grid,
    stack: Seq<Position>,
    values: Seq<usize>,
    k: int,
    steps: nat,
)
    requires
        stack.len() > 0,
        unseen_around(grid, stack.last().0 as int, stack.last().1 as int).len() > 0,
        steps > 0,
    ensures
        ({
            let around = unseen_around(grid, stack.last().0 as int, stack.last().1 as int);
            let next = around[draw_at(values, k) % (around.len() as int)];
            carved(grid, stack, values, k, steps) == carved(
                carved_step(grid, stack.last(), next),
                stack.push(next),
                values,
                k + 1,
                (steps - 1) as nat,
            )
        }),
{
    assert(settled(grid, stack) == stack);
}

/// With no room left to come back to, the carving ends with the grid that
/// it has.
pub proof fn lemma_carved_ends(grid: Grid, values: Seq<usize>, k: int, steps: nat)
    ensures
        carved(grid, Seq::<Position>::empty(), values, k, steps) == grid,
{
    assert(settled(grid, Seq::<Position>::empty()) == Seq::<Position>::empty());
}

/// A list that begins with a log begins with every beginning of it.
pub proof fn lemma_extends_shorter(all: Seq<usize>, log: Seq<usize>, shorter: Seq<usize>)
    requires
        extends(all, log),
        shorter.len() <= log.len(),
        shorter == log.take(shorter.len() as int),
    ensures
        extends(all, shorter),
{
    assert forall|k: int| 0 <= k < shorter.len() implies draw_at(all, k)
        == #[trigger] shorter[k] by {
        assert(shorter[k] == log[k]);
    }
}

/// A log begins with itself.
pub proof fn lemma_extends_itself(log: Seq<usize>)
    ensures
        extends(log, log),
{
}

/// Determinism: two mazes of the same size that were built with the same
/// draws have the same kinds, cell by cell, whatever marks their cells
/// carry.
pub proof fn lemma_same_draws_same_maze(
    width: nat,
    height: nat,
    values: Seq<usize>,
    one: Grid,
    other: Grid,
)
    requires
        one.same_kinds(built(width, height, values)),
        other.same_kinds(built(width, height, values)),
    ensures
        one.same_kinds(other),
        other.same_kinds(one),
{
    let both = built(width, height, values);
    assert forall|x: int, y: int| one.holds(x, y) implies (#[trigger] one.cell(x, y)).cell_type
        == other.cell(x, y).cell_type by {
        assert(other.holds(x, y));
        assert(one.cell(x, y).cell_type == both.cell(x, y).cell_type);
        assert(other.cell(x, y).cell_type == both.cell(x, y).cell_type);
    }
    assert forall|x: int, y: int| other.holds(x, y) implies (#[trigger] other.cell(x, y)).cell_type
        == one.cell(x, y).cell_type by {
        assert(one.holds(x, y));
        assert(one.cell(x, y).cell_type == both.cell(x, y).cell_type);
        assert(other.cell(x, y).cell_type == both.cell(x, y).cell_type);
    }
}

} // verus!
