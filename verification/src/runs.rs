//! The straight runs of wall cells in a grid: what a scan of its rows and
//! columns collects.
use crate::grid::{raw, Grid};
use crate::maze::{CellType, Wall};
use vstd::prelude::*;

verus! {

/// The cell at `(x, y)` lies in the grid and is wall.
pub open spec fn wall_at(grid: Grid, x: int, y: int) -> bool {
    grid.holds(x, y) && grid.cell(x, y).cell_type == CellType::Wall
}

/// The cell at the place `along` of a line is wall: of the row `line` where
/// `horizontal`, else of the column `line`.
pub open spec fn wall_along(grid: Grid, horizontal: bool, line: int, along: int) -> bool {
    if horizontal {
        wall_at(grid, along, line)
    } else {
        wall_at(grid, line, along)
    }
}

/// The number of rows where `horizontal`, else of columns.
pub open spec fn line_count(grid: Grid, horizontal: bool) -> int {
    if horizontal {
        grid.raw_height()
    } else {
        grid.raw_width()
    }
}

/// The number of cells in a row where `horizontal`, else in a column.
pub open spec fn line_length(grid: Grid, horizontal: bool) -> int {
    if horizontal {
        grid.raw_width()
    } else {
        grid.raw_height()
    }
}

/// The cells `from` to `to` of a line are a run of wall that cannot be
/// made longer at either end.
pub open spec fn is_run(grid: Grid, horizontal: bool, line: int, from: int, to: int) -> bool {
    &&& 0 <= line < line_count(grid, horizontal)
    &&& 0 <= from <= to < line_length(grid, horizontal)
    &&& forall|k: int| from <= k <= to ==> #[trigger] wall_along(grid, horizontal, line, k)
    &&& !wall_along(grid, horizontal, line, from - 1)
    &&& !wall_along(grid, horizontal, line, to + 1)
}

/// The wall that spans the cells `from` to `to` of a line.
pub open spec fn run_wall(horizontal: bool, line: int, from: int, to: int) -> Wall {
    if horizontal {
        Wall(raw(from, line), raw(to, line))
    } else {
        Wall(raw(line, from), raw(line, to))
    }
}

/// The wall spans a run of two cells or more that cannot be made longer.
pub open spec fn spans_run(grid: Grid, wall: Wall) -> bool {
    exists|horizontal: bool, line: int, from: int, to: int|
        from < to && is_run(grid, horizontal, line, from, to) && wall == #[trigger] run_wall(
            horizontal,
            line,
            from,
            to,
        )
}

/// Where the run of wall begins that holds the wall cell `to` of a line.
pub open spec fn run_start(grid: Grid, horizontal: bool, line: int, to: int) -> int
    decreases to,
{
    if to > 0 && wall_along(grid, horizontal, line, to - 1) {
        run_start(grid, horizontal, line, to - 1)
    } else {
        to
    }
}

/// The cell `to` of a line ends a run of two cells or more.
pub open spec fn ends_run(grid: Grid, horizontal: bool, line: int, to: int) -> bool {
    &&& wall_along(grid, horizontal, line, to)
    &&& !wall_along(grid, horizontal, line, to + 1)
    &&& run_start(grid, horizontal, line, to) < to
}

/// The walls of the runs of a line that end before its cell `upto`, in
/// their order along the line. A run of a single cell gives no wall.
pub open spec fn line_runs(grid: Grid, horizontal: bool, line: int, upto: int) -> Seq<Wall>
    decreases upto,
{
    if upto <= 0 {
        Seq::empty()
    } else if ends_run(grid, horizontal, line, upto - 1) {
        line_runs(grid, horizontal, line, upto - 1).push(
            run_wall(horizontal, line, run_start(grid, horizontal, line, upto - 1), upto - 1),
        )
    } else {
        line_runs(grid, horizontal, line, upto - 1)
    }
}

/// The walls of the first `lines` rows, or columns, line by line.
pub open spec fn runs_of_lines(grid: Grid, horizontal: bool, lines: int) -> Seq<Wall>
    decreases lines,
{
    if lines <= 0 {
        Seq::empty()
    } else {
        runs_of_lines(grid, horizontal, lines - 1) + line_runs(
            grid,
            horizontal,
            lines - 1,
            line_length(grid, horizontal),
        )
    }
}

/// The walls of a grid: those of its rows from the top down, then those of
/// its columns from left to right.
pub open spec fn wall_runs(grid: Grid) -> Seq<Wall> {
    runs_of_lines(grid, true, grid.raw_height()) + runs_of_lines(grid, false, grid.raw_width())
}

/// From where its run begins up to a wall cell, a line is all wall, and it
/// is not wall before.
pub proof fn lemma_run_start(grid: Grid, horizontal: bool, line: int, to: int)
    requires
        0 <= to,
        wall_along(grid, horizontal, line, to),
    ensures
        0 <= run_start(grid, horizontal, line, to) <= to,
        !wall_along(grid, horizontal, line, run_start(grid, horizontal, line, to) - 1),
        forall|k: int|
            run_start(grid, horizontal, line, to) <= k <= to ==> #[trigger] wall_along(
                grid,
                horizontal,
                line,
                k,
            ),
    decreases to,
{
    if to > 0 && wall_along(grid, horizontal, line, to - 1) {
        lemma_run_start(grid, horizontal, line, to - 1);
    }
}

/// Every cell of a run knows where the run begins.
pub proof fn lemma_run_start_of_run(
    grid: Grid,
    horizontal: bool,
    line: int,
    from: int,
    to: int,
    at: int,
)
    requires
        is_run(grid, horizontal, line, from, to),
        from <= at <= to,
    ensures
        run_start(grid, horizontal, line, at) == from,
    decreases at - from,
{
    if at > from {
        assert(wall_along(grid, horizontal, line, at - 1));
        lemma_run_start_of_run(grid, horizontal, line, from, to, at - 1);
    }
}

/// Soundness for one line: each wall found spans a run of two cells or more
/// that cannot be made longer.
pub proof fn lemma_line_runs_sound(grid: Grid, horizontal: bool, line: int, upto: int)
    requires
        grid.wf(),
        0 <= line < line_count(grid, horizontal),
        upto <= line_length(grid, horizontal),
    ensures
        forall|i: int|
            0 <= i < line_runs(grid, horizontal, line, upto).len() ==> spans_run(
                grid,
                #[trigger] line_runs(grid, horizontal, line, upto)[i],
            ),
    decreases upto,
{
    if upto > 0 {
        lemma_line_runs_sound(grid, horizontal, line, upto - 1);
        let to = upto - 1;
        if ends_run(grid, horizontal, line, to) {
            lemma_run_start(grid, horizontal, line, to);
            let from = run_start(grid, horizontal, line, to);
            assert(is_run(grid, horizontal, line, from, to));
            let found = run_wall(horizontal, line, from, to);
            assert(spans_run(grid, found));
            let all = line_runs(grid, horizontal, line, upto);
            let earlier = line_runs(grid, horizontal, line, upto - 1);
            assert forall|i: int| 0 <= i < all.len() implies spans_run(grid, #[trigger] all[i]) by {
                if i < earlier.len() {
                    assert(all[i] == earlier[i]);
                }
            }
        }
    }
}

/// Completeness for one line: the wall of each run of two cells or more is
/// found once the scan has passed its end.
pub proof fn lemma_line_runs_complete(
    grid: Grid,
    horizontal: bool,
    line: int,
    upto: int,
    from: int,
    to: int,
)
    requires
        is_run(grid, horizontal, line, from, to),
        from < to < upto,
    ensures
        line_runs(grid, horizontal, line, upto).contains(run_wall(horizontal, line, from, to)),
    decreases upto,
{
    let all = line_runs(grid, horizontal, line, upto);
    let earlier = line_runs(grid, horizontal, line, upto - 1);
    let wanted = run_wall(horizontal, line, from, to);
    if to == upto - 1 {
        lemma_run_start_of_run(grid, horizontal, line, from, to, to);
        assert(all[all.len() - 1] == wanted);
    } else {
        lemma_line_runs_complete(grid, horizontal, line, upto - 1, from, to);
        let i = choose|i: int| 0 <= i < earlier.len() && earlier[i] == wanted;
        assert(all[i] == wanted);
    }
}

/// Soundness for the lines: each wall found spans a run of two cells or
/// more that cannot be made longer.
pub proof fn lemma_runs_of_lines_sound(grid: Grid, horizontal: bool, lines: int)
    requires
        grid.wf(),
        lines <= line_count(grid, horizontal),
    ensures
        forall|i: int|
            0 <= i < runs_of_lines(grid, horizontal, lines).len() ==> spans_run(
                grid,
                #[trigger] runs_of_lines(grid, horizontal, lines)[i],
            ),
    decreases lines,
{
    if lines > 0 {
        lemma_runs_of_lines_sound(grid, horizontal, lines - 1);
        lemma_line_runs_sound(grid, horizontal, lines - 1, line_length(grid, horizontal));
        let earlier = runs_of_lines(grid, horizontal, lines - 1);
        let last = line_runs(grid, horizontal, lines - 1, line_length(grid, horizontal));
        let all = runs_of_lines(grid, horizontal, lines);
        assert forall|i: int| 0 <= i < all.len() implies spans_run(grid, #[trigger] all[i]) by {
            if i < earlier.len() {
                assert(all[i] == earlier[i]);
            } else {
                assert(all[i] == last[i - earlier.len()]);
            }
        }
    }
}

/// Completeness for the lines: the wall of each run of two cells or more in
/// one of the first `lines` lines is found.
pub proof fn lemma_runs_of_lines_complete(
    grid: Grid,
    horizontal: bool,
    lines: int,
    line: int,
    from: int,
    to: int,
)
    requires
        is_run(grid, horizontal, line, from, to),
        from < to,
        line < lines,
    ensures
        runs_of_lines(grid, horizontal, lines).contains(run_wall(horizontal, line, from, to)),
    decreases lines,
{
    let earlier = runs_of_lines(grid, horizontal, lines - 1);
    let last = line_runs(grid, horizontal, lines - 1, line_length(grid, horizontal));
    let all = runs_of_lines(grid, horizontal, lines);
    let wanted = run_wall(horizontal, line, from, to);
    if line == lines - 1 {
        lemma_line_runs_complete(grid, horizontal, line, line_length(grid, horizontal), from, to);
        let i = choose|i: int| 0 <= i < last.len() && last[i] == wanted;
        assert(all[earlier.len() + i] == wanted);
    } else {
        lemma_runs_of_lines_complete(grid, horizontal, lines - 1, line, from, to);
        let i = choose|i: int| 0 <= i < earlier.len() && earlier[i] == wanted;
        assert(all[i] == wanted);
    }
}

/// What the scan of a grid collects: a wall for each run of two wall cells
/// or more that cannot be made longer, along a row or along a column, and
/// nothing else. A wall cell with no wall before or after it in its line
/// gives no wall in that line, so that no wall begins where it ends.
pub proof fn lemma_wall_runs(grid: Grid)
    requires
        grid.wf(),
    ensures
        forall|i: int|
            0 <= i < wall_runs(grid).len() ==> spans_run(grid, #[trigger] wall_runs(grid)[i]),
        forall|i: int|
            0 <= i < wall_runs(grid).len() ==> (#[trigger] wall_runs(grid)[i]).0 != wall_runs(
                grid,
            )[i].1,
        forall|horizontal: bool, line: int, from: int, to: int|
            from < to && is_run(grid, horizontal, line, from, to) ==> wall_runs(grid).contains(
                #[trigger] run_wall(horizontal, line, from, to),
            ),
{
    let rows = runs_of_lines(grid, true, grid.raw_height());
    let columns = runs_of_lines(grid, false, grid.raw_width());
    let all = wall_runs(grid);
    lemma_runs_of_lines_sound(grid, true, grid.raw_height());
    lemma_runs_of_lines_sound(grid, false, grid.raw_width());
    assert forall|i: int| 0 <= i < all.len() implies spans_run(grid, #[trigger] all[i]) by {
        if i < rows.len() {
            assert(all[i] == rows[i]);
        } else {
            assert(all[i] == columns[i - rows.len()]);
        }
    }
    assert forall|i: int| 0 <= i < all.len() implies (#[trigger] all[i]).0 != all[i].1 by {
        assert(spans_run(grid, all[i]));
        let (horizontal, line, from, to) = choose|
            horizontal: bool,
            line: int,
            from: int,
            to: int,
        |
            from < to && is_run(grid, horizontal, line, from, to) && all[i] == #[trigger] run_wall(
                horizontal,
                line,
                from,
                to,
            );
        assert(0 <= from < to <= usize::MAX);
    }
    assert forall|horizontal: bool, line: int, from: int, to: int|
        from < to && is_run(grid, horizontal, line, from, to) implies all.contains(
        #[trigger] run_wall(horizontal, line, from, to),
    ) by {
        let wanted = run_wall(horizontal, line, from, to);
        if horizontal {
            lemma_runs_of_lines_complete(grid, true, grid.raw_height(), line, from, to);
            let i = choose|i: int| 0 <= i < rows.len() && rows[i] == wanted;
            assert(all[i] == wanted);
        } else {
            lemma_runs_of_lines_complete(grid, false, grid.raw_width(), line, from, to);
            let i = choose|i: int| 0 <= i < columns.len() && columns[i] == wanted;
            assert(all[rows.len() + i] == wanted);
        }
    }
}

/// The line that a wall lies in: its row where `horizontal`, else its
/// column.
pub open spec fn wall_line(horizontal: bool, wall: Wall) -> int {
    if horizontal {
        wall.0.1 as int
    } else {
        wall.0.0 as int
    }
}

/// The place along its line where a wall ends.
pub open spec fn wall_end(horizontal: bool, wall: Wall) -> int {
    if horizontal {
        wall.1.0 as int
    } else {
        wall.1.1 as int
    }
}

/// The wall runs along a line, from a cell to a later one.
pub open spec fn runs_along(horizontal: bool, wall: Wall) -> bool {
    if horizontal {
        wall.0.1 == wall.1.1 && wall.0.0 < wall.1.0
    } else {
        wall.0.0 == wall.1.0 && wall.0.1 < wall.1.1
    }
}

/// The walls of a line lie in it and come in the order of their ends, each
/// further along than the one before.
pub proof fn lemma_line_runs_ordered(grid: Grid, horizontal: bool, line: int, upto: int)
    requires
        grid.wf(),
        0 <= line < line_count(grid, horizontal),
        upto <= line_length(grid, horizontal),
    ensures
        forall|i: int|
            0 <= i < line_runs(grid, horizontal, line, upto).len() ==> {
                let wall = #[trigger] line_runs(grid, horizontal, line, upto)[i];
                &&& runs_along(horizontal, wall)
                &&& wall_line(horizontal, wall) == line
                &&& wall_end(horizontal, wall) < upto
            },
        forall|i: int, j: int|
            0 <= i < j < line_runs(grid, horizontal, line, upto).len() ==> wall_end(
                horizontal,
                #[trigger] line_runs(grid, horizontal, line, upto)[i],
            ) < wall_end(horizontal, #[trigger] line_runs(grid, horizontal, line, upto)[j]),
    decreases upto,
{
    if upto > 0 {
        lemma_line_runs_ordered(grid, horizontal, line, upto - 1);
        let earlier = line_runs(grid, horizontal, line, upto - 1);
        let all = line_runs(grid, horizontal, line, upto);
        if ends_run(grid, horizontal, line, upto - 1) {
            lemma_run_start(grid, horizontal, line, upto - 1);
            let found = run_wall(
                horizontal,
                line,
                run_start(grid, horizontal, line, upto - 1),
                upto - 1,
            );
            assert(all[all.len() - 1] == found);
            assert(runs_along(horizontal, found));
            assert(wall_end(horizontal, found) == upto - 1);
            assert forall|i: int| 0 <= i < all.len() implies {
                let wall = #[trigger] all[i];
                &&& runs_along(horizontal, wall)
                &&& wall_line(horizontal, wall) == line
                &&& wall_end(horizontal, wall) < upto
            } by {
                if i < earlier.len() {
                    assert(all[i] == earlier[i]);
                }
            }
            assert forall|i: int, j: int| 0 <= i < j < all.len() implies wall_end(
                horizontal,
                #[trigger] all[i],
            ) < wall_end(horizontal, #[trigger] all[j]) by {
                assert(all[i] == earlier[i]);
                if j < earlier.len() {
                    assert(all[j] == earlier[j]);
                }
            }
        }
    }
}

/// The walls of the lines come line by line and, in a line, in the order of
/// their ends: no two of them are the same wall.
pub proof fn lemma_runs_of_lines_ordered(grid: Grid, horizontal: bool, lines: int)
    requires
        grid.wf(),
        lines <= line_count(grid, horizontal),
    ensures
        forall|i: int|
            0 <= i < runs_of_lines(grid, horizontal, lines).len() ==> {
                let wall = #[trigger] runs_of_lines(grid, horizontal, lines)[i];
                &&& runs_along(horizontal, wall)
                &&& wall_line(horizontal, wall) < lines
            },
        forall|i: int, j: int|
            0 <= i < j < runs_of_lines(grid, horizontal, lines).len() ==> {
                let one = #[trigger] runs_of_lines(grid, horizontal, lines)[i];
                let two = #[trigger] runs_of_lines(grid, horizontal, lines)[j];
                wall_line(horizontal, one) < wall_line(horizontal, two) || (wall_line(
                    horizontal,
                    one,
                ) == wall_line(horizontal, two) && wall_end(horizontal, one) < wall_end(
                    horizontal,
                    two,
                ))
            },
    decreases lines,
{
    if lines > 0 {
        lemma_runs_of_lines_ordered(grid, horizontal, lines - 1);
        lemma_line_runs_ordered(grid, horizontal, lines - 1, line_length(grid, horizontal));
        let earlier = runs_of_lines(grid, horizontal, lines - 1);
        let last = line_runs(grid, horizontal, lines - 1, line_length(grid, horizontal));
        let all = runs_of_lines(grid, horizontal, lines);
        assert forall|i: int| 0 <= i < all.len() implies {
            let wall = #[trigger] all[i];
            &&& runs_along(horizontal, wall)
            &&& wall_line(horizontal, wall) < lines
        } by {
            if i < earlier.len() {
                assert(all[i] == earlier[i]);
            } else {
                assert(all[i] == last[i - earlier.len()]);
            }
        }
        assert forall|i: int, j: int| 0 <= i < j < all.len() implies {
            let one = #[trigger] all[i];
            let two = #[trigger] all[j];
            wall_line(horizontal, one) < wall_line(horizontal, two) || (wall_line(horizontal, one)
                == wall_line(horizontal, two) && wall_end(horizontal, one) < wall_end(
                horizontal,
                two,
            ))
        } by {
            if j < earlier.len() {
                assert(all[i] == earlier[i]);
                assert(all[j] == earlier[j]);
            } else if i < earlier.len() {
                assert(all[i] == earlier[i]);
                assert(all[j] == last[j - earlier.len()]);
            } else {
                assert(all[i] == last[i - earlier.len()]);
                assert(all[j] == last[j - earlier.len()]);
            }
        }
    }
}

/// Each run gives its wall once: the scan of a grid collects no wall
/// twice.
pub proof fn lemma_wall_runs_once(grid: Grid)
    requires
        grid.wf(),
    ensures
        forall|i: int, j: int|
            0 <= i < j < wall_runs(grid).len() ==> wall_runs(grid)[i] != wall_runs(grid)[j],
{
    let rows = runs_of_lines(grid, true, grid.raw_height());
    let columns = runs_of_lines(grid, false, grid.raw_width());
    let all = wall_runs(grid);
    lemma_runs_of_lines_ordered(grid, true, grid.raw_height());
    lemma_runs_of_lines_ordered(grid, false, grid.raw_width());
    assert forall|i: int, j: int| 0 <= i < j < all.len() implies all[i] != all[j] by {
        if j < rows.len() {
            assert(all[i] == rows[i]);
            assert(all[j] == rows[j]);
        } else if i < rows.len() {
            assert(all[i] == rows[i]);
            assert(all[j] == columns[j - rows.len()]);
            assert(runs_along(true, rows[i]));
            assert(runs_along(false, columns[j - rows.len()]));
        } else {
            assert(all[i] == columns[i - rows.len()]);
            assert(all[j] == columns[j - rows.len()]);
        }
    }
}

} // verus!
