//! What the search for a way through a maze keeps true from step to step,
//! and what its two ends mean: a way found is a way through, and where the
//! search runs dry there is none.
use crate::acyclic::{
    is_simple, lemma_gates_keep_acyclic, lemma_one_way, lemma_same_floor_keeps_acyclic,
};
use crate::carving::is_carved;
use crate::grid::{
    adjacent, lemma_path_joined, lemma_path_kept, lemma_path_step, lemma_reachable_kept,
    lemma_rect_len, lemma_with_cell, raw, rect, room_cell, Grid,
};
use crate::maze::{Cell, CellType, Position};
use vstd::prelude::*;

verus! {

/// Each of the four cells next to the raw cell `(x, y)` has been visited,
/// where it is floor.
pub open spec fn floor_around_seen(grid: Grid, x: int, y: int) -> bool {
    &&& grid.floor(x, y + 1) ==> grid.seen(x, y + 1)
    &&& grid.floor(x, y - 1) ==> grid.seen(x, y - 1)
    &&& grid.floor(x + 1, y) ==> grid.seen(x + 1, y)
    &&& grid.floor(x - 1, y) ==> grid.seen(x - 1, y)
}

/// Every floor cell next to the raw cell `(x, y)` has been visited.
#[verifier::opaque]
pub open spec fn cell_closed(grid: Grid, x: int, y: int) -> bool {
    floor_around_seen(grid, x, y)
}

/// A cell is closed where the floor next to it has been visited.
pub proof fn lemma_cell_closed(grid: Grid, x: int, y: int)
    ensures
        cell_closed(grid, x, y) == floor_around_seen(grid, x, y),
{
    reveal(cell_closed);
}

/// The raw cell `(x, y)` where it is floor and has not been visited.
pub open spec fn unseen_floor(grid: Grid, x: int, y: int) -> Seq<Position> {
    if grid.floor(x, y) && !grid.seen(x, y) {
        seq![raw(x, y)]
    } else {
        Seq::empty()
    }
}

/// The floor cells next to `(x, y)` that have not been visited: the one
/// below first, then the one above, the one to the right and the one to the
/// left.
pub open spec fn unseen_floor_around(grid: Grid, x: int, y: int) -> Seq<Position> {
    unseen_floor(grid, x, y + 1) + unseen_floor(grid, x, y - 1) + unseen_floor(grid, x + 1, y)
        + unseen_floor(grid, x - 1, y)
}

/// Each cell of `unseen_floor_around` is an unvisited floor cell one step
/// from `(x, y)`, and where there is none the cell `(x, y)` is closed.
pub proof fn lemma_unseen_floor_around(grid: Grid, x: int, y: int)
    requires
        grid.wf(),
        grid.holds(x, y),
    ensures
        unseen_floor_around(grid, x, y).len() == 0 ==> cell_closed(grid, x, y),
        forall|i: int|
            0 <= i < unseen_floor_around(grid, x, y).len() ==> {
                let next = #[trigger] unseen_floor_around(grid, x, y)[i];
                &&& adjacent(raw(x, y), next)
                &&& grid.floor(next.0 as int, next.1 as int)
                &&& !grid.seen(next.0 as int, next.1 as int)
            },
{
    lemma_cell_closed(grid, x, y);
    let below = unseen_floor(grid, x, y + 1);
    let above = unseen_floor(grid, x, y - 1);
    let right = unseen_floor(grid, x + 1, y);
    let left = unseen_floor(grid, x - 1, y);
    let around = unseen_floor_around(grid, x, y);
    assert(around.len() == below.len() + above.len() + right.len() + left.len());
    assert forall|i: int| 0 <= i < around.len() implies {
        let next = #[trigger] around[i];
        &&& adjacent(raw(x, y), next)
        &&& grid.floor(next.0 as int, next.1 as int)
        &&& !grid.seen(next.0 as int, next.1 as int)
    } by {
        if i < below.len() {
            assert(around[i] == below[i]);
        } else if i < below.len() + above.len() {
            assert(around[i] == above[i - below.len()]);
        } else if i < below.len() + above.len() + right.len() {
            assert(around[i] == right[i - below.len() - above.len()]);
        } else {
            assert(around[i] == left[i - below.len() - above.len() - right.len()]);
        }
    }
}

/// The cell `(0, y)` is the entrance: the first floor cell of the west
/// border, from the top.
pub open spec fn is_west_gate(grid: Grid, y: int) -> bool {
    grid.floor(0, y) && forall|v: int| 0 <= v < y ==> !#[trigger] grid.floor(0, v)
}

/// A way through the maze: a walk over floor without a cell twice, from the
/// entrance to the east border, which it touches with its last cell only.
pub open spec fn is_way_through(grid: Grid, path: Seq<Position>) -> bool {
    &&& grid.is_floor_path(path)
    &&& path.first().0 == 0
    &&& is_west_gate(grid, path.first().1 as int)
    &&& path.last().0 == grid.east()
    &&& forall|i: int, j: int| 0 <= i < j < path.len() ==> path[i] != path[j]
    &&& forall|i: int| 0 <= i < path.len() - 1 ==> (#[trigger] path[i]).0 < grid.east()
}

/// The cell `(2 * width, e)` of the east border can be reached from the cell
/// `(0, y)` of the west border.
pub open spec fn reaches_east(grid: Grid, y: int, e: int) -> bool {
    grid.reachable(raw(0, y), raw(grid.east(), e))
}

/// The maze has an entrance from which the east border can be reached.
pub open spec fn has_way_through(grid: Grid) -> bool {
    exists|y: int, e: int| is_west_gate(grid, y) && #[trigger] reaches_east(grid, y, e)
}

/// The grid with one cell marked as visited.
pub open spec fn with_visit(grid: Grid, x: int, y: int) -> Grid {
    grid.with_cell(x, y, Cell { visited: true, cell_type: grid.cell(x, y).cell_type })
}

/// What marking the cell `(nx, ny)` changes: no floor, and the visits by
/// that cell.
pub open spec fn visit_effect(grid: Grid, next_grid: Grid, nx: int, ny: int) -> bool {
    &&& next_grid.wf()
    &&& next_grid.width == grid.width
    &&& next_grid.height == grid.height
    &&& next_grid.same_kinds(grid)
    &&& forall|x: int, y: int| #[trigger] next_grid.floor(x, y) <==> grid.floor(x, y)
    &&& forall|x: int, y: int| #[trigger]
        next_grid.seen(x, y) <==> (grid.seen(x, y) || (x == nx && y == ny))
}

/// Marking a cell has the effect that `visit_effect` states.
pub proof fn lemma_visit_effect(grid: Grid, nx: int, ny: int)
    requires
        grid.wf(),
        grid.holds(nx, ny),
    ensures
        visit_effect(grid, with_visit(grid, nx, ny), nx, ny),
{
    let next_grid = with_visit(grid, nx, ny);
    lemma_with_cell(
        grid,
        nx,
        ny,
        Cell { visited: true, cell_type: grid.cell(nx, ny).cell_type },
    );
    assert forall|x: int, y: int| #[trigger] next_grid.floor(x, y) <==> grid.floor(x, y) by {
        if grid.holds(x, y) {
            let c = next_grid.cell(x, y);
        }
    }
    assert forall|x: int, y: int| #[trigger]
        next_grid.seen(x, y) <==> (grid.seen(x, y) || (x == nx && y == ny)) by {
        if grid.holds(x, y) {
            let c = next_grid.cell(x, y);
        }
    }
    assert forall|x: int, y: int| next_grid.holds(x, y) implies (#[trigger] next_grid.cell(
        x,
        y,
    )).cell_type == grid.cell(x, y).cell_type by {}
}

/// The walk that the search holds: from the entrance to its last cell, over
/// visited floor, without a cell twice, and off the east border before its
/// last cell.
pub open spec fn search_path(grid: Grid, sy: int, path: Seq<Position>) -> bool {
    &&& path.len() > 0 ==> grid.connects(path, raw(0, sy), path.last())
    &&& forall|i: int|
        0 <= i < path.len() ==> grid.seen((#[trigger] path[i]).0 as int, path[i].1 as int)
    &&& forall|i: int, j: int| 0 <= i < j < path.len() ==> path[i] != path[j]
    &&& forall|i: int| 0 <= i < path.len() - 1 ==> (#[trigger] path[i]).0 < grid.east()
}

/// The visited cells of the search: every one that is off the walk is
/// closed, and one on the east border is the last cell of the walk.
pub open spec fn search_marks(grid: Grid, path: Seq<Position>) -> bool {
    &&& forall|x: int, y: int| #[trigger] grid.seen(x, y) ==> grid.floor(x, y)
    &&& forall|x: int, y: int| #[trigger]
        grid.seen(x, y) && !path.contains(raw(x, y)) ==> cell_closed(grid, x, y)
    &&& forall|x: int, y: int| #[trigger]
        grid.seen(x, y) && x == grid.east() ==> path.len() > 0 && path.last() == raw(x, y)
}

/// The visited cells of the search, counted.
pub open spec fn search_counts(grid: Grid, marked: Set<(int, int)>) -> bool {
    &&& marked.finite()
    &&& forall|c: (int, int)| #[trigger] marked.contains(c) <==> grid.seen(c.0, c.1)
}

/// What holds between two steps of the search that began at the entrance
/// `(0, sy)`.
pub open spec fn solving(grid: Grid, sy: int, path: Seq<Position>, marked: Set<(int, int)>) -> bool {
    &&& grid.wf()
    &&& is_west_gate(grid, sy)
    &&& grid.seen(0, sy)
    &&& search_path(grid, sy, path)
    &&& search_marks(grid, path)
    &&& search_counts(grid, marked)
}

/// The search begins: no cell is marked but the entrance, which is the
/// whole walk.
pub proof fn lemma_solving_starts(clear: Grid, sy: int)
    requires
        clear.wf(),
        forall|x: int, y: int| !#[trigger] clear.seen(x, y),
        is_west_gate(clear, sy),
    ensures
        solving(
            with_visit(clear, 0, sy),
            sy,
            seq![raw(0, sy)],
            Set::<(int, int)>::empty().insert((0, sy)),
        ),
{
    let grid = with_visit(clear, 0, sy);
    let path = seq![raw(0, sy)];
    let marked = Set::<(int, int)>::empty().insert((0, sy));
    lemma_visit_effect(clear, 0, sy);
    assert(path[0] == raw(0, sy));
    assert(grid.floor(0, sy));
    assert(is_west_gate(grid, sy));
    assert(grid.seen(0, sy));
    assert(search_path(grid, sy, path)) by {
        assert(grid.floor_at(path[0]));
        assert(grid.connects(path, raw(0, sy), path.last()));
    }
    assert(search_marks(grid, path)) by {
        assert forall|x: int, y: int| #[trigger] grid.seen(x, y) implies grid.floor(x, y)
            && path.contains(raw(x, y)) && x != grid.east() by {
            assert(!clear.seen(x, y));
            assert(x == 0 && y == sy);
        }
    }
    assert(search_counts(grid, marked)) by {
        assert forall|c: (int, int)| #[trigger] marked.contains(c) <==> grid.seen(c.0, c.1) by {
            assert(!clear.seen(c.0, c.1));
        }
    }
}

/// A step of the search keeps its walk: the new cell is its last.
pub proof fn lemma_visit_keeps_path(
    grid: Grid,
    next_grid: Grid,
    sy: int,
    path: Seq<Position>,
    nx: int,
    ny: int,
)
    requires
        grid.wf(),
        search_path(grid, sy, path),
        path.len() > 0,
        path.last().0 < grid.east(),
        adjacent(path.last(), raw(nx, ny)),
        grid.floor(nx, ny),
        !grid.seen(nx, ny),
        visit_effect(grid, next_grid, nx, ny),
    ensures
        search_path(next_grid, sy, path.push(raw(nx, ny))),
{
    let next_path = path.push(raw(nx, ny));
    assert(grid.floors_kept_in(next_grid)) by {
        assert forall|x: int, y: int| #[trigger] grid.floor(x, y) implies next_grid.floor(
            x,
            y,
        ) by {}
    }
    lemma_path_kept(grid, next_grid, path);
    assert(next_grid.floor(nx, ny));
    lemma_path_step(next_grid, path, raw(0, sy), path.last(), raw(nx, ny));
    assert forall|i: int| 0 <= i < next_path.len() implies next_grid.seen(
        (#[trigger] next_path[i]).0 as int,
        next_path[i].1 as int,
    ) by {
        if i < path.len() {
            assert(next_path[i] == path[i]);
            assert(grid.seen(path[i].0 as int, path[i].1 as int));
        }
    }
    assert forall|i: int, j: int| 0 <= i < j < next_path.len() implies next_path[i]
        != next_path[j] by {
        assert(next_path[i] == path[i]);
        assert(grid.seen(path[i].0 as int, path[i].1 as int));
        if j < path.len() {
            assert(next_path[j] == path[j]);
        }
    }
    assert forall|i: int| 0 <= i < next_path.len() - 1 implies (#[trigger] next_path[i]).0 < next_grid.east() by {
        assert(next_path[i] == path[i]);
    }
}

/// A step of the search keeps its marks: what was closed stays closed, and
/// the new cell is on the walk.
pub proof fn lemma_visit_keeps_marks(
    grid: Grid,
    next_grid: Grid,
    path: Seq<Position>,
    nx: int,
    ny: int,
)
    requires
        grid.wf(),
        search_marks(grid, path),
        path.len() > 0,
        path.last().0 < grid.east(),
        grid.floor(nx, ny),
        visit_effect(grid, next_grid, nx, ny),
    ensures
        search_marks(next_grid, path.push(raw(nx, ny))),
{
    let next_path = path.push(raw(nx, ny));
    assert(next_path[path.len() as int] == raw(nx, ny));
    assert forall|x: int, y: int| #[trigger] next_grid.seen(x, y) && !next_path.contains(
        raw(x, y),
    ) implies cell_closed(next_grid, x, y) by {
        assert(!(x == nx && y == ny));
        assert(grid.seen(x, y));
        if path.contains(raw(x, y)) {
            let i = choose|i: int| 0 <= i < path.len() && path[i] == raw(x, y);
            assert(next_path[i] == raw(x, y));
        }
        assert(cell_closed(grid, x, y));
        lemma_cell_closed(grid, x, y);
        lemma_cell_closed(next_grid, x, y);
        assert(next_grid.floor(x, y + 1) <==> grid.floor(x, y + 1));
        assert(next_grid.floor(x, y - 1) <==> grid.floor(x, y - 1));
        assert(next_grid.floor(x + 1, y) <==> grid.floor(x + 1, y));
        assert(next_grid.floor(x - 1, y) <==> grid.floor(x - 1, y));
        assert(grid.seen(x, y + 1) ==> next_grid.seen(x, y + 1));
        assert(grid.seen(x, y - 1) ==> next_grid.seen(x, y - 1));
        assert(grid.seen(x + 1, y) ==> next_grid.seen(x + 1, y));
        assert(grid.seen(x - 1, y) ==> next_grid.seen(x - 1, y));
    }
    assert forall|x: int, y: int| #[trigger] next_grid.seen(x, y) && x == next_grid.east() implies next_path.len() > 0 && next_path.last() == raw(x, y) by {
        if grid.seen(x, y) {
            assert(path.last() == raw(x, y));
        }
    }
    assert forall|x: int, y: int| #[trigger] next_grid.seen(x, y) implies next_grid.floor(
        x,
        y,
    ) by {
        if grid.seen(x, y) {
            assert(grid.floor(x, y));
        }
    }
}

/// A step of the search marks one cell more, and there was one to mark.
pub proof fn lemma_visit_keeps_counts(
    grid: Grid,
    next_grid: Grid,
    marked: Set<(int, int)>,
    nx: int,
    ny: int,
)
    requires
        grid.wf(),
        search_counts(grid, marked),
        !grid.seen(nx, ny),
        visit_effect(grid, next_grid, nx, ny),
    ensures
        search_counts(next_grid, marked.insert((nx, ny))),
        marked.insert((nx, ny)).len() == marked.len() + 1,
        marked.len() + 1 <= grid.raw_width() * grid.raw_height(),
{
    let next_marked = marked.insert((nx, ny));
    assert(!marked.contains((nx, ny)));
    assert forall|c: (int, int)| #[trigger]
        next_marked.contains(c) <==> next_grid.seen(c.0, c.1) by {
        assert(marked.contains(c) <==> grid.seen(c.0, c.1));
        assert(next_grid.seen(c.0, c.1) <==> (grid.seen(c.0, c.1) || (c.0 == nx && c.1 == ny)));
    }
    lemma_rect_len(grid.raw_width(), grid.raw_height());
    assert(next_marked.subset_of(rect(grid.raw_width(), grid.raw_height()))) by {
        assert forall|c: (int, int)| next_marked.contains(c) implies rect(
            grid.raw_width(),
            grid.raw_height(),
        ).contains(c) by {
            assert(next_grid.seen(c.0, c.1));
        }
    }
    vstd::set_lib::lemma_len_subset(next_marked, rect(grid.raw_width(), grid.raw_height()));
}

/// The search goes on: an unvisited floor cell next to the last cell of the
/// walk is marked and becomes the last cell.
pub proof fn lemma_solving_advances(
    grid: Grid,
    sy: int,
    path: Seq<Position>,
    marked: Set<(int, int)>,
    nx: int,
    ny: int,
)
    requires
        solving(grid, sy, path, marked),
        path.len() > 0,
        path.last().0 < grid.east(),
        adjacent(path.last(), raw(nx, ny)),
        grid.floor(nx, ny),
        !grid.seen(nx, ny),
    ensures
        solving(with_visit(grid, nx, ny), sy, path.push(raw(nx, ny)), marked.insert((nx, ny))),
        marked.insert((nx, ny)).len() == marked.len() + 1,
        marked.len() + 1 <= grid.raw_width() * grid.raw_height(),
{
    let next_grid = with_visit(grid, nx, ny);
    lemma_visit_effect(grid, nx, ny);
    lemma_visit_keeps_path(grid, next_grid, sy, path, nx, ny);
    lemma_visit_keeps_marks(grid, next_grid, path, nx, ny);
    lemma_visit_keeps_counts(grid, next_grid, marked, nx, ny);
    assert(next_grid.floor(0, sy));
    assert(is_west_gate(next_grid, sy)) by {
        assert forall|v: int| 0 <= v < sy implies !#[trigger] next_grid.floor(0, v) by {
            assert(!grid.floor(0, v));
        }
    }
    assert(next_grid.seen(0, sy));
}

/// The search comes back: the last cell of the walk, off the east border
/// and with no unvisited floor next to it, leaves the walk.
pub proof fn lemma_solving_retreats(
    grid: Grid,
    sy: int,
    path: Seq<Position>,
    marked: Set<(int, int)>,
)
    requires
        solving(grid, sy, path, marked),
        path.len() > 0,
        path.last().0 < grid.east(),
        cell_closed(grid, path.last().0 as int, path.last().1 as int),
    ensures
        solving(grid, sy, path.drop_last(), marked),
{
    let rest = path.drop_last();
    assert(search_path(grid, sy, rest)) by {
        assert forall|i: int| 0 <= i < rest.len() implies grid.seen(
            (#[trigger] rest[i]).0 as int,
            rest[i].1 as int,
        ) by {
            assert(rest[i] == path[i]);
        }
        assert forall|i: int, j: int| 0 <= i < j < rest.len() implies rest[i] != rest[j] by {
            assert(rest[i] == path[i]);
            assert(rest[j] == path[j]);
        }
        assert forall|i: int| 0 <= i < rest.len() - 1 implies (#[trigger] rest[i]).0 < grid.east() by {
            assert(rest[i] == path[i]);
        }
        if rest.len() > 0 {
            assert forall|i: int| 0 <= i < rest.len() implies grid.floor_at(#[trigger] rest[i]) by {
                assert(rest[i] == path[i]);
            }
            assert forall|i: int, j: int| 0 <= i && j == i + 1 && j < rest.len() implies adjacent(
                #[trigger] rest[i],
                #[trigger] rest[j],
            ) by {
                assert(rest[i] == path[i]);
                assert(rest[j] == path[j]);
            }
            assert(rest[0] == path[0]);
        }
    }
    assert(search_marks(grid, rest)) by {
        assert forall|x: int, y: int| #[trigger] grid.seen(x, y) && !rest.contains(
            raw(x, y),
        ) implies cell_closed(grid, x, y) by {
            if path.contains(raw(x, y)) {
                let i = choose|i: int| 0 <= i < path.len() && path[i] == raw(x, y);
                if i < rest.len() {
                    assert(rest[i] == raw(x, y));
                }
                assert(path.last() == raw(x, y));
            }
        }
        assert forall|x: int, y: int| #[trigger] grid.seen(x, y) && x == grid.east() implies rest.len() > 0 && rest.last() == raw(x, y) by {
            assert(path.last() == raw(x, y));
        }
    }
}

/// A floor cell beside a closed cell has been visited.
pub proof fn lemma_closed_cell(grid: Grid, here: Position, there: Position)
    requires
        cell_closed(grid, here.0 as int, here.1 as int),
        adjacent(here, there),
        grid.floor_at(there),
    ensures
        grid.seen(there.0 as int, there.1 as int),
{
    lemma_cell_closed(grid, here.0 as int, here.1 as int);
}

/// A walk over floor from a visited cell stays on visited cells, where
/// every visited cell is closed.
pub proof fn lemma_walk_stays_marked(grid: Grid, path: Seq<Position>, upto: int)
    requires
        grid.wf(),
        grid.is_floor_path(path),
        grid.seen(path[0].0 as int, path[0].1 as int),
        forall|x: int, y: int| #[trigger] grid.seen(x, y) ==> cell_closed(grid, x, y),
        0 <= upto < path.len(),
    ensures
        grid.seen(path[upto].0 as int, path[upto].1 as int),
    decreases upto,
{
    if upto > 0 {
        lemma_walk_stays_marked(grid, path, upto - 1);
        let here = path[upto - 1];
        let there = path[upto];
        assert(adjacent(here, there));
        assert(grid.floor_at(there));
        assert(cell_closed(grid, here.0 as int, here.1 as int));
        lemma_closed_cell(grid, here, there);
    }
}

/// The search runs dry: with no cell left on the walk, the east border
/// cannot be reached from the entrance.
pub proof fn lemma_solving_fails(grid: Grid, sy: int, marked: Set<(int, int)>)
    requires
        solving(grid, sy, Seq::<Position>::empty(), marked),
    ensures
        !has_way_through(grid),
{
    if has_way_through(grid) {
        let (y, e) = choose|y: int, e: int|
            is_west_gate(grid, y) && #[trigger] reaches_east(grid, y, e);
        assert(y == sy) by {
            if y < sy {
                assert(!grid.floor(0, y));
            }
            if sy < y {
                assert(!grid.floor(0, sy));
            }
        }
        let path = choose|path: Seq<Position>|
            grid.connects(path, raw(0, sy), raw(grid.east(), e));
        assert forall|x: int, y: int| #[trigger] grid.seen(x, y) implies cell_closed(
            grid,
            x,
            y,
        ) by {
            assert(!Seq::<Position>::empty().contains(raw(x, y)));
        }
        lemma_walk_stays_marked(grid, path, path.len() - 1);
        let last = path[path.len() - 1];
        assert(grid.seen(last.0 as int, last.1 as int));
        assert(grid.floor_at(last));
        assert(last.0 as int == grid.east());
    }
}

/// The search is over: its walk, with its last cell on the east border, is
/// a way through.
pub proof fn lemma_solving_succeeds(
    grid: Grid,
    sy: int,
    path: Seq<Position>,
    marked: Set<(int, int)>,
)
    requires
        solving(grid, sy, path, marked),
        path.len() > 0,
        path.last().0 == grid.east(),
    ensures
        is_way_through(grid, path),
        has_way_through(grid),
{
    let last = path.last();
    assert(grid.floor_at(last));
    assert(raw(grid.east(), last.1 as int) == last);
    assert(reaches_east(grid, sy, last.1 as int));
}

/// The border is wall but for two cells: the entrance `(0, 2 * west + 1)`
/// in the row of rooms `west`, and the exit on the east border in the row
/// of rooms `east`.
pub open spec fn has_gates(grid: Grid, west: int, east: int) -> bool {
    &&& 0 <= west < grid.height
    &&& 0 <= east < grid.height
    &&& forall|x: int, y: int|
        grid.holds(x, y) && (x == 0 || y == 0 || x == grid.east() || y == grid.raw_height() - 1)
            ==> (#[trigger] grid.floor(x, y) <==> ((x == 0 && y == 2 * west + 1) || (x
            == grid.east() && y == 2 * east + 1)))
}

/// The grid `after` is the grid `before` with the two border cells of
/// `has_gates` made floor.
pub open spec fn gates_opened(before: Grid, after: Grid, west: int, east: int) -> bool {
    &&& 0 <= west < before.height
    &&& 0 <= east < before.height
    &&& after == before.with_floor(0, 2 * west + 1).with_floor(before.east(), 2 * east + 1)
}

/// Both grids have floor in the same cells.
pub open spec fn same_floor(grid: Grid, other: Grid) -> bool {
    &&& grid.width == other.width
    &&& grid.height == other.height
    &&& forall|x: int, y: int| #[trigger] grid.floor(x, y) <==> other.floor(x, y)
}

/// Grids of the same kinds have floor in the same cells.
pub proof fn lemma_same_kinds_same_floor(grid: Grid, other: Grid)
    requires
        grid.same_kinds(other),
    ensures
        same_floor(grid, other),
        same_floor(other, grid),
{
    assert forall|x: int, y: int| #[trigger] grid.floor(x, y) <==> other.floor(x, y) by {
        if grid.holds(x, y) {
            let c = grid.cell(x, y);
        }
    }
    assert forall|x: int, y: int| #[trigger] other.floor(x, y) <==> grid.floor(x, y) by {
        assert(grid.floor(x, y) <==> other.floor(x, y));
    }
}

/// A perfect maze with its gates and a way through stays one in a grid
/// that has floor in the same cells, whatever the marks of its cells.
pub proof fn lemma_same_floor_keeps(grid: Grid, other: Grid, west: int, east: int)
    requires
        grid.is_perfect(),
        has_gates(grid, west, east),
        other.wf(),
        same_floor(grid, other),
    ensures
        other.is_perfect(),
        has_gates(other, west, east),
{
    lemma_same_floor_keeps_acyclic(grid, other);
    assert(grid.floors_kept_in(other)) by {
        assert forall|x: int, y: int| #[trigger] grid.floor(x, y) implies other.floor(x, y) by {}
    }
    assert(other.is_laid_out()) by {
        assert forall|cx: int, cy: int| #[trigger] other.has_room(cx, cy) implies other.floor(
            2 * cx + 1,
            2 * cy + 1,
        ) by {
            assert(grid.has_room(cx, cy));
            assert(grid.floor(2 * cx + 1, 2 * cy + 1));
        }
        assert forall|x: int, y: int|
            other.holds(x, y) && x % 2 == 0 && y % 2 == 0 implies !#[trigger] other.floor(
            x,
            y,
        ) by {
            assert(grid.holds(x, y));
            assert(!grid.floor(x, y));
        }
    }
    assert(other.open_walls() =~= grid.open_walls()) by {
        assert forall|p: (int, int)| other.open_walls().contains(p) <==> grid.open_walls().contains(
            p,
        ) by {
            assert(grid.floor(p.0, p.1) <==> other.floor(p.0, p.1));
        }
    }
    assert forall|ax: int, ay: int, bx: int, by: int|
        #![trigger other.has_room(ax, ay), other.has_room(bx, by)]
        other.has_room(ax, ay) && other.has_room(bx, by) implies other.reachable(
        room_cell(ax, ay),
        room_cell(bx, by),
    ) by {
        assert(grid.has_room(ax, ay) && grid.has_room(bx, by));
        lemma_reachable_kept(grid, other, room_cell(ax, ay), room_cell(bx, by));
    }
    assert forall|x: int, y: int|
        other.holds(x, y) && (x == 0 || y == 0 || x == other.east() || y == other.raw_height()
            - 1) implies (#[trigger] other.floor(x, y) <==> ((x == 0 && y == 2 * west + 1) || (x
        == other.east() && y == 2 * east + 1))) by {
        assert(grid.holds(x, y));
        assert(grid.floor(x, y) <==> other.floor(x, y));
    }
}

/// A perfect maze with its gates has a way through: from the entrance into
/// the room beside it, from room to room, and out of the room beside the
/// exit.
pub proof fn lemma_gated_maze_has_way(grid: Grid, west: int, east: int)
    requires
        grid.is_perfect(),
        has_gates(grid, west, east),
    ensures
        has_way_through(grid),
        is_west_gate(grid, 2 * west + 1),
{
    let entrance = raw(0, 2 * west + 1);
    let exit = raw(grid.east(), 2 * east + 1);
    let near = room_cell(0, west);
    let far = room_cell(grid.width - 1, east);
    assert(grid.has_room(0, west));
    assert(grid.has_room(grid.width - 1, east));
    assert(grid.holds(0, 2 * west + 1));
    assert(grid.holds(grid.east(), 2 * east + 1));
    assert(grid.floor(0, 2 * west + 1));
    assert(grid.floor(grid.east(), 2 * east + 1));
    assert(is_west_gate(grid, 2 * west + 1)) by {
        assert forall|v: int| 0 <= v < 2 * west + 1 implies !#[trigger] grid.floor(0, v) by {
            assert(grid.holds(0, v));
        }
    }
    assert(grid.floor(1, 2 * west + 1));
    assert(grid.floor(2 * (grid.width - 1) + 1, 2 * east + 1));
    let first = seq![entrance];
    assert(first[0] == entrance);
    assert(grid.floor_at(first[0]));
    assert(grid.connects(first, entrance, entrance));
    lemma_path_step(grid, first, entrance, entrance, near);
    let inner = choose|path: Seq<Position>| grid.connects(path, near, far);
    lemma_path_joined(grid, first.push(near), inner, entrance, near, far);
    let most = first.push(near) + inner.drop_first();
    lemma_path_step(grid, most, entrance, far, exit);
    assert(grid.connects(most.push(exit), entrance, exit));
    assert(reaches_east(grid, 2 * west + 1, 2 * east + 1));
}

/// Opening the two gates of a carved maze leaves it perfect.
pub proof fn lemma_gates_opened(before: Grid, after: Grid, west: int, east: int)
    requires
        before.is_perfect(),
        is_carved(before),
        gates_opened(before, after, west, east),
    ensures
        after.wf(),
        after.width == before.width,
        after.height == before.height,
        after.is_perfect(),
        has_gates(after, west, east),
{
    let between = before.with_floor(0, 2 * west + 1);
    assert(before.holds(0, 2 * west + 1));
    assert(before.holds(before.east(), 2 * east + 1));
    lemma_with_cell(
        before,
        0,
        2 * west + 1,
        Cell { visited: before.cell(0, 2 * west + 1).visited, cell_type: CellType::Floor },
    );
    lemma_with_cell(
        between,
        before.east(),
        2 * east + 1,
        Cell {
            visited: between.cell(before.east(), 2 * east + 1).visited,
            cell_type: CellType::Floor,
        },
    );
    assert forall|x: int, y: int| before.holds(x, y) implies (#[trigger] after.floor(x, y) <==> (
    before.floor(x, y) || (x == 0 && y == 2 * west + 1) || (x == before.east() && y == 2 * east
        + 1))) by {
        assert(between.holds(x, y));
        let c = after.cell(x, y);
        let b = between.cell(x, y);
    }
    assert(before.floors_kept_in(after)) by {
        assert forall|x: int, y: int| #[trigger] before.floor(x, y) implies after.floor(x, y) by {
            assert(before.holds(x, y));
        }
    }
    assert(after.is_laid_out()) by {
        assert forall|cx: int, cy: int| #[trigger] after.has_room(cx, cy) implies after.floor(
            2 * cx + 1,
            2 * cy + 1,
        ) by {
            assert(before.has_room(cx, cy));
            assert(before.floor(2 * cx + 1, 2 * cy + 1));
        }
        assert forall|x: int, y: int|
            after.holds(x, y) && x % 2 == 0 && y % 2 == 0 implies !#[trigger] after.floor(
            x,
            y,
        ) by {
            assert(before.holds(x, y));
            assert(!before.floor(x, y));
        }
    }
    assert(after.open_walls() =~= before.open_walls()) by {
        assert forall|p: (int, int)| after.open_walls().contains(p) <==> before.open_walls().contains(
            p,
        ) by {
            if before.is_inner_wall(p.0, p.1) {
                assert(before.holds(p.0, p.1));
            }
        }
    }
    assert forall|ax: int, ay: int, bx: int, by: int|
        #![trigger after.has_room(ax, ay), after.has_room(bx, by)]
        after.has_room(ax, ay) && after.has_room(bx, by) implies after.reachable(
        room_cell(ax, ay),
        room_cell(bx, by),
    ) by {
        assert(before.has_room(ax, ay) && before.has_room(bx, by));
        lemma_reachable_kept(before, after, room_cell(ax, ay), room_cell(bx, by));
    }
    assert forall|x: int, y: int|
        after.holds(x, y) && (x == 0 || y == 0 || x == after.east() || y == after.raw_height()
            - 1) implies (#[trigger] after.floor(x, y) <==> ((x == 0 && y == 2 * west + 1) || (x
        == after.east() && y == 2 * east + 1))) by {
        assert(before.holds(x, y));
        if before.floor(x, y) {
            assert(before.cell(x, y).cell_type == CellType::Floor);
            assert(before.cell(x, y).visited || before.is_inner_wall(x, y));
        }
    }
    lemma_gates_keep_acyclic(before, after, west, east);
}

/// A perfect maze with its gates has one way through, and no other: the
/// floor has no loop, and every way through goes from the one entrance to
/// the one exit.
pub proof fn lemma_one_way_through(
    grid: Grid,
    west: int,
    east: int,
    one: Seq<Position>,
    two: Seq<Position>,
)
    requires
        grid.is_perfect(),
        has_gates(grid, west, east),
        is_way_through(grid, one),
        is_way_through(grid, two),
    ensures
        one == two,
{
    lemma_gated_maze_has_way(grid, west, east);
    assert(one.first() == two.first()) by {
        let a = one.first();
        let b = two.first();
        if a.1 < b.1 {
            assert(!grid.floor(0, a.1 as int));
        }
        if b.1 < a.1 {
            assert(!grid.floor(0, b.1 as int));
        }
    }
    assert(one.last() == two.last()) by {
        let a = one[one.len() - 1];
        let b = two[two.len() - 1];
        assert(grid.floor_at(a));
        assert(grid.floor_at(b));
        assert(grid.floor(a.0 as int, a.1 as int));
        assert(grid.floor(b.0 as int, b.1 as int));
        assert(a.1 == 2 * east + 1);
        assert(b.1 == 2 * east + 1);
    }
    assert(is_simple(one));
    assert(is_simple(two));
    lemma_one_way(grid, one, two);
}

} // verus!
