//! What the carving of a maze keeps true from its first room to its last,
//! and what follows once no room is left to visit.
use crate::grid::{
    lemma_path_kept, lemma_path_step, lemma_reachable_back, lemma_reachable_on, lemma_rect_len,
    lemma_with_cell, raw, rect, room, room_cell, Grid,
};
use crate::maze::{Cell, CellType, Position};
use vstd::prelude::*;

verus! {

/// The rooms `(ax, ay)` and `(bx, by)` are next to each other.
pub open spec fn rooms_adjacent(ax: int, ay: int, bx: int, by: int) -> bool {
    ||| (ax == bx && (ay + 1 == by || by + 1 == ay))
    ||| (ay == by && (ax + 1 == bx || bx + 1 == ax))
}

/// Each of the four rooms next to the room `(cx, cy)` has been visited,
/// where the maze has it.
pub open spec fn rooms_around_seen(grid: Grid, cx: int, cy: int) -> bool {
    &&& grid.has_room(cx, cy + 1) ==> grid.room_seen(cx, cy + 1)
    &&& grid.has_room(cx, cy - 1) ==> grid.room_seen(cx, cy - 1)
    &&& grid.has_room(cx + 1, cy) ==> grid.room_seen(cx + 1, cy)
    &&& grid.has_room(cx - 1, cy) ==> grid.room_seen(cx - 1, cy)
}

/// Every room next to the room `(cx, cy)` has been visited.
#[verifier::opaque]
pub open spec fn room_closed(grid: Grid, cx: int, cy: int) -> bool {
    rooms_around_seen(grid, cx, cy)
}

/// A room is closed where the rooms next to it have been visited.
pub proof fn lemma_room_closed(grid: Grid, cx: int, cy: int)
    ensures
        room_closed(grid, cx, cy) == rooms_around_seen(grid, cx, cy),
{
    reveal(room_closed);
}

/// The room `(cx, cy)` where the maze has it and it has not been visited.
pub open spec fn unseen_room(grid: Grid, cx: int, cy: int) -> Seq<Position> {
    if grid.has_room(cx, cy) && !grid.room_seen(cx, cy) {
        seq![room(cx, cy)]
    } else {
        Seq::empty()
    }
}

/// The rooms next to `(cx, cy)` that have not been visited: the one below
/// first, then the one above, the one to the right and the one to the left.
pub open spec fn unseen_around(grid: Grid, cx: int, cy: int) -> Seq<Position> {
    unseen_room(grid, cx, cy + 1) + unseen_room(grid, cx, cy - 1) + unseen_room(grid, cx + 1, cy)
        + unseen_room(grid, cx - 1, cy)
}

/// Each room of `unseen_around` is a room next to `(cx, cy)` that has not
/// been visited, and where there is none the room `(cx, cy)` is closed.
pub proof fn lemma_unseen_around(grid: Grid, cx: int, cy: int)
    requires
        grid.wf(),
        grid.has_room(cx, cy),
    ensures
        unseen_around(grid, cx, cy).len() <= 4,
        unseen_around(grid, cx, cy).len() == 0 ==> room_closed(grid, cx, cy),
        forall|i: int|
            0 <= i < unseen_around(grid, cx, cy).len() ==> {
                let next = #[trigger] unseen_around(grid, cx, cy)[i];
                &&& rooms_adjacent(cx, cy, next.0 as int, next.1 as int)
                &&& grid.has_room(next.0 as int, next.1 as int)
                &&& !grid.room_seen(next.0 as int, next.1 as int)
            },
{
    lemma_room_closed(grid, cx, cy);
    let below = unseen_room(grid, cx, cy + 1);
    let above = unseen_room(grid, cx, cy - 1);
    let right = unseen_room(grid, cx + 1, cy);
    let left = unseen_room(grid, cx - 1, cy);
    let around = unseen_around(grid, cx, cy);
    assert(around.len() == below.len() + above.len() + right.len() + left.len());
    assert forall|i: int| 0 <= i < around.len() implies {
        let next = #[trigger] around[i];
        &&& rooms_adjacent(cx, cy, next.0 as int, next.1 as int)
        &&& grid.has_room(next.0 as int, next.1 as int)
        &&& !grid.room_seen(next.0 as int, next.1 as int)
    } by {
        if i < below.len() {
            assert(around[i] == below[i]);
        } else if i < below.len() + above.len() {
            assert(around[i] == above[i - below.len()]);
        } else if i < below.len() + above.len() + right.len() {
            assert(around[i] == right[i - below.len() - above.len()]);
        } else {
            assert(around[i] == left[i - below.len() - above.len() - right.len()]);
        }
    }
}

/// The shape of a grid while it is carved: only rooms are marked as
/// visited, and they are floor; the floor besides them is open wall between
/// two visited rooms.
pub open spec fn carving_shape(grid: Grid) -> bool {
    &&& forall|x: int, y: int|
        grid.holds(x, y) && (#[trigger] grid.cell(x, y)).visited ==> x % 2 == 1 && y % 2 == 1
            && grid.cell(x, y).cell_type == CellType::Floor
    &&& forall|x: int, y: int|
        grid.holds(x, y) && (#[trigger] grid.cell(x, y)).cell_type == CellType::Floor ==> grid.cell(
            x,
            y,
        ).visited || grid.is_inner_wall(x, y)
    &&& forall|x: int, y: int|
        grid.is_inner_wall(x, y) && #[trigger] grid.floor(x, y) ==> if x % 2 == 0 {
            grid.cell(x - 1, y).visited && grid.cell(x + 1, y).visited
        } else {
            grid.cell(x, y - 1).visited && grid.cell(x, y + 1).visited
        }
}

/// The visited rooms and the open walls, counted: one wall was opened for
/// each room but the first.
pub open spec fn carving_counts(
    grid: Grid,
    seen: Set<(int, int)>,
    carved: Set<(int, int)>,
) -> bool {
    &&& seen.finite()
    &&& carved.finite()
    &&& seen.len() == carved.len() + 1
    &&& forall|c: (int, int)| #[trigger] seen.contains(c) <==> grid.room_seen(c.0, c.1)
    &&& forall|p: (int, int)| #[trigger]
        carved.contains(p) <==> grid.is_inner_wall(p.0, p.1) && grid.floor(p.0, p.1)
}

/// What holds between two steps of the carving that began in the room
/// `start`, with the rooms of `stack` still to come back to: the shape and
/// the counts above; every visited room that is off the stack is closed;
/// and every visited room can be reached from the first over floor.
pub open spec fn carving(
    grid: Grid,
    start: (int, int),
    stack: Seq<Position>,
    seen: Set<(int, int)>,
    carved: Set<(int, int)>,
) -> bool {
    &&& grid.wf()
    &&& grid.room_seen(start.0, start.1)
    &&& carving_shape(grid)
    &&& carving_counts(grid, seen, carved)
    &&& forall|i: int|
        0 <= i < stack.len() ==> grid.room_seen(
            (#[trigger] stack[i]).0 as int,
            stack[i].1 as int,
        )
    &&& forall|cx: int, cy: int| #[trigger]
        grid.room_seen(cx, cy) && !stack.contains(room(cx, cy)) ==> room_closed(grid, cx, cy)
    &&& forall|cx: int, cy: int| #[trigger]
        grid.room_seen(cx, cy) ==> grid.reachable(
            room_cell(start.0, start.1),
            room_cell(cx, cy),
        )
}

/// The carving begins: in a blank grid, the first room is made floor and
/// marked as visited.
pub proof fn lemma_carving_starts(blank: Grid, grid: Grid, sx: int, sy: int)
    requires
        blank.wf(),
        blank.is_blank(),
        blank.has_room(sx, sy),
        grid == blank.with_cell(
            2 * sx + 1,
            2 * sy + 1,
            Cell { visited: true, cell_type: CellType::Floor },
        ),
    ensures
        carving(
            grid,
            (sx, sy),
            seq![room(sx, sy)],
            Set::<(int, int)>::empty().insert((sx, sy)),
            Set::<(int, int)>::empty(),
        ),
{
    lemma_with_cell(
        blank,
        2 * sx + 1,
        2 * sy + 1,
        Cell { visited: true, cell_type: CellType::Floor },
    );
    let stack = seq![room(sx, sy)];
    let seen = Set::<(int, int)>::empty().insert((sx, sy));
    let carved = Set::<(int, int)>::empty();
    assert(stack[0] == room(sx, sy));
    assert forall|x: int, y: int| grid.holds(x, y) implies (#[trigger] grid.cell(x, y)) == (if x
        == 2 * sx + 1 && y == 2 * sy + 1 {
        Cell { visited: true, cell_type: CellType::Floor }
    } else {
        Cell { visited: false, cell_type: CellType::Wall }
    }) by {
        assert(blank.holds(x, y));
    }
    assert(carving_shape(grid)) by {
        assert forall|x: int, y: int| grid.is_inner_wall(x, y) && #[trigger] grid.floor(
            x,
            y,
        ) implies (if x % 2 == 0 {
            grid.cell(x - 1, y).visited && grid.cell(x + 1, y).visited
        } else {
            grid.cell(x, y - 1).visited && grid.cell(x, y + 1).visited
        }) by {
            assert(grid.cell(x, y).cell_type == CellType::Floor);
        }
    }
    assert(carving_counts(grid, seen, carved)) by {
        assert forall|c: (int, int)| #[trigger] seen.contains(c) <==> grid.room_seen(
            c.0,
            c.1,
        ) by {
            if grid.room_seen(c.0, c.1) {
                assert(grid.holds(2 * c.0 + 1, 2 * c.1 + 1));
                assert(grid.cell(2 * c.0 + 1, 2 * c.1 + 1).visited);
                assert(c == (sx, sy));
            }
            if c == (sx, sy) {
                assert(grid.holds(2 * sx + 1, 2 * sy + 1));
            }
        }
        assert forall|p: (int, int)| #[trigger]
            carved.contains(p) <==> grid.is_inner_wall(p.0, p.1) && grid.floor(p.0, p.1) by {
            if grid.is_inner_wall(p.0, p.1) && grid.floor(p.0, p.1) {
                assert(grid.cell(p.0, p.1).cell_type == CellType::Floor);
            }
        }
    }
    assert forall|cx: int, cy: int| #[trigger]
        grid.room_seen(cx, cy) && !stack.contains(room(cx, cy)) implies room_closed(
        grid,
        cx,
        cy,
    ) by {
        assert(grid.holds(2 * cx + 1, 2 * cy + 1));
        assert(grid.cell(2 * cx + 1, 2 * cy + 1).visited);
        assert(cx == sx && cy == sy);
    }
    assert forall|cx: int, cy: int| #[trigger] grid.room_seen(cx, cy) implies grid.reachable(
        room_cell(sx, sy),
        room_cell(cx, cy),
    ) by {
        assert(grid.holds(2 * cx + 1, 2 * cy + 1));
        assert(grid.cell(2 * cx + 1, 2 * cy + 1).visited);
        assert(cx == sx && cy == sy);
        let path = seq![room_cell(sx, sy)];
        assert(grid.floor_at(path[0]));
        assert(grid.connects(path, room_cell(sx, sy), room_cell(cx, cy)));
    }
    assert(grid.holds(2 * sx + 1, 2 * sy + 1));
}

/// One step of the carving from the room `(cx, cy)` to the room
/// `(nx, ny)` next to it: the cell between them is made floor, the cell of
/// the second room is made floor and marked as visited, and no other cell
/// changes.
pub open spec fn step_made(grid: Grid, next_grid: Grid, cx: int, cy: int, nx: int, ny: int) -> bool {
    &&& next_grid.wf()
    &&& next_grid.width == grid.width
    &&& next_grid.height == grid.height
    &&& forall|x: int, y: int|
        grid.holds(x, y) ==> #[trigger] next_grid.cell(x, y) == (if x == cx + nx + 1 && y == cy
            + ny + 1 {
            Cell { visited: false, cell_type: CellType::Floor }
        } else if x == 2 * nx + 1 && y == 2 * ny + 1 {
            Cell { visited: true, cell_type: CellType::Floor }
        } else {
            grid.cell(x, y)
        })
}

/// What a step changes: one wall between rooms, closed before, is open
/// after it, and one room more is visited.
pub open spec fn step_effect(grid: Grid, next_grid: Grid, cx: int, cy: int, nx: int, ny: int) -> bool {
    &&& grid.is_inner_wall(cx + nx + 1, cy + ny + 1)
    &&& !grid.floor(cx + nx + 1, cy + ny + 1)
    &&& grid.floors_kept_in(next_grid)
    &&& next_grid.floor(cx + nx + 1, cy + ny + 1)
    &&& next_grid.floor(2 * nx + 1, 2 * ny + 1)
    &&& forall|ax: int, ay: int| #[trigger]
        next_grid.room_seen(ax, ay) <==> (grid.room_seen(ax, ay) || (ax == nx && ay == ny))
    &&& forall|x: int, y: int|
        next_grid.is_inner_wall(x, y) ==> (#[trigger] next_grid.floor(x, y) <==> (grid.floor(x, y)
            || (x == cx + nx + 1 && y == cy + ny + 1)))
}

/// A step has the effect that `step_effect` states.
pub proof fn lemma_step_effect(grid: Grid, next_grid: Grid, cx: int, cy: int, nx: int, ny: int)
    requires
        grid.wf(),
        carving_shape(grid),
        grid.room_seen(cx, cy),
        rooms_adjacent(cx, cy, nx, ny),
        grid.has_room(nx, ny),
        !grid.room_seen(nx, ny),
        step_made(grid, next_grid, cx, cy, nx, ny),
    ensures
        step_effect(grid, next_grid, cx, cy, nx, ny),
{
    let mx = cx + nx + 1;
    let my = cy + ny + 1;
    assert(grid.is_inner_wall(mx, my));
    assert(grid.holds(mx, my));
    assert(grid.holds(2 * nx + 1, 2 * ny + 1));
    assert(grid.holds(2 * cx + 1, 2 * cy + 1));
    assert(!grid.floor(mx, my)) by {
        if grid.floor(mx, my) {
            if mx % 2 == 0 {
                assert(grid.cell(mx - 1, my).visited && grid.cell(mx + 1, my).visited);
            } else {
                assert(grid.cell(mx, my - 1).visited && grid.cell(mx, my + 1).visited);
            }
        }
    }
    assert(grid.floors_kept_in(next_grid)) by {
        assert forall|x: int, y: int| #[trigger] grid.floor(x, y) implies next_grid.floor(
            x,
            y,
        ) by {
            assert(next_grid.cell(x, y).cell_type == CellType::Floor);
        }
    }
    assert(next_grid.cell(mx, my).cell_type == CellType::Floor);
    assert(next_grid.cell(2 * nx + 1, 2 * ny + 1).cell_type == CellType::Floor);
    assert forall|ax: int, ay: int| #[trigger]
        next_grid.room_seen(ax, ay) <==> (grid.room_seen(ax, ay) || (ax == nx && ay == ny)) by {
        if grid.has_room(ax, ay) {
            assert(grid.holds(2 * ax + 1, 2 * ay + 1));
            let c = next_grid.cell(2 * ax + 1, 2 * ay + 1);
        }
    }
    assert forall|x: int, y: int| next_grid.is_inner_wall(x, y) implies (#[trigger] next_grid.floor(
        x,
        y,
    ) <==> (grid.floor(x, y) || (x == mx && y == my))) by {
        assert(grid.holds(x, y));
        let c = next_grid.cell(x, y);
    }
}

/// A step keeps the shape of the grid.
pub proof fn lemma_step_keeps_shape(grid: Grid, next_grid: Grid, cx: int, cy: int, nx: int, ny: int)
    requires
        grid.wf(),
        carving_shape(grid),
        grid.room_seen(cx, cy),
        rooms_adjacent(cx, cy, nx, ny),
        grid.has_room(nx, ny),
        !grid.room_seen(nx, ny),
        step_made(grid, next_grid, cx, cy, nx, ny),
    ensures
        carving_shape(next_grid),
{
    let mx = cx + nx + 1;
    let my = cy + ny + 1;
    lemma_step_effect(grid, next_grid, cx, cy, nx, ny);
    assert(grid.holds(mx, my));
    assert(grid.holds(2 * nx + 1, 2 * ny + 1));
    assert(grid.holds(2 * cx + 1, 2 * cy + 1));
    assert forall|x: int, y: int|
        next_grid.holds(x, y) && (#[trigger] next_grid.cell(x, y)).visited implies x % 2 == 1 && y
        % 2 == 1 && next_grid.cell(x, y).cell_type == CellType::Floor by {
        assert(grid.holds(x, y));
        if !(x == 2 * nx + 1 && y == 2 * ny + 1) {
            assert(grid.cell(x, y).visited);
        }
    }
    assert forall|x: int, y: int|
        next_grid.holds(x, y) && (#[trigger] next_grid.cell(x, y)).cell_type
            == CellType::Floor implies next_grid.cell(x, y).visited || next_grid.is_inner_wall(
        x,
        y,
    ) by {
        assert(grid.holds(x, y));
        if !(x == 2 * nx + 1 && y == 2 * ny + 1) && !(x == mx && y == my) {
            assert(grid.cell(x, y).cell_type == CellType::Floor);
        }
    }
    assert forall|x: int, y: int|
        next_grid.is_inner_wall(x, y) && #[trigger] next_grid.floor(x, y) implies (if x % 2 == 0 {
        next_grid.cell(x - 1, y).visited && next_grid.cell(x + 1, y).visited
    } else {
        next_grid.cell(x, y - 1).visited && next_grid.cell(x, y + 1).visited
    }) by {
        assert(grid.holds(x, y));
        if x == mx && y == my {
            assert(next_grid.cell(2 * nx + 1, 2 * ny + 1).visited);
            assert(grid.cell(2 * cx + 1, 2 * cy + 1).visited);
            assert(next_grid.cell(2 * cx + 1, 2 * cy + 1).visited);
        } else {
            assert(grid.floor(x, y));
            if x % 2 == 0 {
                assert(grid.holds(x - 1, y) && grid.holds(x + 1, y));
                assert(grid.cell(x - 1, y).visited && grid.cell(x + 1, y).visited);
                assert(next_grid.cell(x - 1, y).visited);
                assert(next_grid.cell(x + 1, y).visited);
            } else {
                assert(grid.holds(x, y - 1) && grid.holds(x, y + 1));
                assert(grid.cell(x, y - 1).visited && grid.cell(x, y + 1).visited);
                assert(next_grid.cell(x, y - 1).visited);
                assert(next_grid.cell(x, y + 1).visited);
            }
        }
    }
}

/// A step adds one to the visited rooms and one to the open walls.
pub proof fn lemma_step_keeps_counts(
    grid: Grid,
    next_grid: Grid,
    seen: Set<(int, int)>,
    carved: Set<(int, int)>,
    cx: int,
    cy: int,
    nx: int,
    ny: int,
)
    requires
        grid.wf(),
        next_grid.width == grid.width,
        next_grid.height == grid.height,
        carving_counts(grid, seen, carved),
        step_effect(grid, next_grid, cx, cy, nx, ny),
        !grid.room_seen(nx, ny),
    ensures
        carving_counts(
            next_grid,
            seen.insert((nx, ny)),
            carved.insert((cx + nx + 1, cy + ny + 1)),
        ),
        seen.insert((nx, ny)).len() == seen.len() + 1,
        seen.len() + 1 <= grid.width * grid.height,
{
    let mx = cx + nx + 1;
    let my = cy + ny + 1;
    let next_seen = seen.insert((nx, ny));
    let next_carved = carved.insert((mx, my));
    assert(!seen.contains((nx, ny)));
    assert(!carved.contains((mx, my)));
    assert forall|c: (int, int)| #[trigger]
        next_seen.contains(c) <==> next_grid.room_seen(c.0, c.1) by {
        assert(seen.contains(c) <==> grid.room_seen(c.0, c.1));
        assert(next_grid.room_seen(c.0, c.1) <==> (grid.room_seen(c.0, c.1) || (c.0 == nx && c.1
            == ny)));
    }
    assert forall|p: (int, int)| #[trigger]
        next_carved.contains(p) <==> next_grid.is_inner_wall(p.0, p.1) && next_grid.floor(
            p.0,
            p.1,
        ) by {
        assert(carved.contains(p) <==> grid.is_inner_wall(p.0, p.1) && grid.floor(p.0, p.1));
        if next_grid.is_inner_wall(p.0, p.1) {
            assert(next_grid.floor(p.0, p.1) <==> (grid.floor(p.0, p.1) || (p.0 == mx && p.1
                == my)));
        }
    }
    lemma_rect_len(grid.width as int, grid.height as int);
    assert(next_seen.subset_of(rect(grid.width as int, grid.height as int))) by {
        assert forall|c: (int, int)| next_seen.contains(c) implies rect(
            grid.width as int,
            grid.height as int,
        ).contains(c) by {
            assert(next_grid.room_seen(c.0, c.1));
        }
    }
    vstd::set_lib::lemma_len_subset(next_seen, rect(grid.width as int, grid.height as int));
}

/// After a step, every visited room that is off the stack is still closed.
pub proof fn lemma_step_keeps_closed(
    grid: Grid,
    next_grid: Grid,
    stack: Seq<Position>,
    cx: int,
    cy: int,
    nx: int,
    ny: int,
)
    requires
        next_grid.width == grid.width,
        next_grid.height == grid.height,
        step_effect(grid, next_grid, cx, cy, nx, ny),
        forall|ax: int, ay: int| #[trigger]
            grid.room_seen(ax, ay) && !stack.contains(room(ax, ay)) ==> room_closed(grid, ax, ay),
    ensures
        forall|ax: int, ay: int| #[trigger]
            next_grid.room_seen(ax, ay) && !stack.push(room(nx, ny)).contains(room(ax, ay))
                ==> room_closed(next_grid, ax, ay),
{
    let next_stack = stack.push(room(nx, ny));
    assert forall|ax: int, ay: int| #[trigger]
        next_grid.room_seen(ax, ay) && !next_stack.contains(room(ax, ay)) implies room_closed(
        next_grid,
        ax,
        ay,
    ) by {
        assert(next_stack[stack.len() as int] == room(nx, ny));
        assert(!(ax == nx && ay == ny));
        assert(grid.room_seen(ax, ay));
        if stack.contains(room(ax, ay)) {
            let i = choose|i: int| 0 <= i < stack.len() && stack[i] == room(ax, ay);
            assert(next_stack[i] == room(ax, ay));
        }
        assert(room_closed(grid, ax, ay));
        lemma_room_closed(grid, ax, ay);
        lemma_room_closed(next_grid, ax, ay);
        assert(next_grid.room_seen(ax, ay + 1) <==> (grid.room_seen(ax, ay + 1) || (ax == nx && ay
            + 1 == ny)));
        assert(next_grid.room_seen(ax, ay - 1) <==> (grid.room_seen(ax, ay - 1) || (ax == nx && ay
            - 1 == ny)));
        assert(next_grid.room_seen(ax + 1, ay) <==> (grid.room_seen(ax + 1, ay) || (ax + 1 == nx
            && ay == ny)));
        assert(next_grid.room_seen(ax - 1, ay) <==> (grid.room_seen(ax - 1, ay) || (ax - 1 == nx
            && ay == ny)));
    }
}

/// After a step, every visited room can still be reached from `first`: the
/// new one through the opened wall.
pub proof fn lemma_step_keeps_reach(
    grid: Grid,
    next_grid: Grid,
    first: Position,
    cx: int,
    cy: int,
    nx: int,
    ny: int,
)
    requires
        grid.wf(),
        next_grid.width == grid.width,
        next_grid.height == grid.height,
        grid.room_seen(cx, cy),
        grid.has_room(nx, ny),
        rooms_adjacent(cx, cy, nx, ny),
        step_effect(grid, next_grid, cx, cy, nx, ny),
        forall|ax: int, ay: int| #[trigger]
            grid.room_seen(ax, ay) ==> grid.reachable(first, room_cell(ax, ay)),
    ensures
        forall|ax: int, ay: int| #[trigger]
            next_grid.room_seen(ax, ay) ==> next_grid.reachable(first, room_cell(ax, ay)),
{
    let mx = cx + nx + 1;
    let my = cy + ny + 1;
    assert forall|ax: int, ay: int| #[trigger]
        next_grid.room_seen(ax, ay) implies next_grid.reachable(first, room_cell(ax, ay)) by {
        if ax == nx && ay == ny {
            let here = room_cell(cx, cy);
            let path = choose|path: Seq<Position>| grid.connects(path, first, here);
            lemma_path_kept(grid, next_grid, path);
            lemma_path_step(next_grid, path, first, here, raw(mx, my));
            lemma_path_step(next_grid, path.push(raw(mx, my)), first, raw(mx, my), room_cell(nx, ny));
            assert(next_grid.connects(
                path.push(raw(mx, my)).push(room_cell(nx, ny)),
                first,
                room_cell(ax, ay),
            ));
        } else {
            assert(grid.room_seen(ax, ay));
            let path = choose|path: Seq<Position>| grid.connects(path, first, room_cell(ax, ay));
            lemma_path_kept(grid, next_grid, path);
            assert(next_grid.connects(path, first, room_cell(ax, ay)));
        }
    }
}

/// The carving goes on: from the room on top of the stack, the wall to an
/// unvisited room next to it is opened, and that room is made floor, marked
/// as visited and put on the stack.
pub proof fn lemma_carving_advances(
    grid: Grid,
    next_grid: Grid,
    start: (int, int),
    stack: Seq<Position>,
    seen: Set<(int, int)>,
    carved: Set<(int, int)>,
    nx: int,
    ny: int,
)
    requires
        carving(grid, start, stack, seen, carved),
        stack.len() > 0,
        rooms_adjacent(stack.last().0 as int, stack.last().1 as int, nx, ny),
        grid.has_room(nx, ny),
        !grid.room_seen(nx, ny),
        step_made(grid, next_grid, stack.last().0 as int, stack.last().1 as int, nx, ny),
    ensures
        carving(
            next_grid,
            start,
            stack.push(room(nx, ny)),
            seen.insert((nx, ny)),
            carved.insert((stack.last().0 + nx + 1, stack.last().1 + ny + 1)),
        ),
        seen.insert((nx, ny)).len() == seen.len() + 1,
        seen.len() + 1 <= grid.width * grid.height,
{
    let cx = stack.last().0 as int;
    let cy = stack.last().1 as int;
    let next_stack = stack.push(room(nx, ny));
    assert(grid.room_seen(cx, cy));
    lemma_step_effect(grid, next_grid, cx, cy, nx, ny);
    lemma_step_keeps_shape(grid, next_grid, cx, cy, nx, ny);
    lemma_step_keeps_counts(grid, next_grid, seen, carved, cx, cy, nx, ny);
    lemma_step_keeps_closed(grid, next_grid, stack, cx, cy, nx, ny);
    lemma_step_keeps_reach(grid, next_grid, room_cell(start.0, start.1), cx, cy, nx, ny);
    assert forall|i: int| 0 <= i < next_stack.len() implies next_grid.room_seen(
        (#[trigger] next_stack[i]).0 as int,
        next_stack[i].1 as int,
    ) by {
        if i < stack.len() {
            assert(next_stack[i] == stack[i]);
            assert(grid.room_seen(stack[i].0 as int, stack[i].1 as int));
        }
    }
    assert(next_grid.room_seen(start.0, start.1));
}

/// The carving comes back: the room on top of the stack, with no unvisited
/// room next to it, leaves the stack.
pub proof fn lemma_carving_retreats(
    grid: Grid,
    start: (int, int),
    stack: Seq<Position>,
    seen: Set<(int, int)>,
    carved: Set<(int, int)>,
)
    requires
        carving(grid, start, stack, seen, carved),
        stack.len() > 0,
        room_closed(grid, stack.last().0 as int, stack.last().1 as int),
    ensures
        carving(grid, start, stack.drop_last(), seen, carved),
{
    let rest = stack.drop_last();
    assert forall|i: int| 0 <= i < rest.len() implies grid.room_seen(
        (#[trigger] rest[i]).0 as int,
        rest[i].1 as int,
    ) by {
        assert(rest[i] == stack[i]);
    }
    assert forall|ax: int, ay: int| #[trigger]
        grid.room_seen(ax, ay) && !rest.contains(room(ax, ay)) implies room_closed(
        grid,
        ax,
        ay,
    ) by {
        if stack.contains(room(ax, ay)) {
            let i = choose|i: int| 0 <= i < stack.len() && stack[i] == room(ax, ay);
            if i < rest.len() {
                assert(rest[i] == room(ax, ay));
            }
            assert(stack.last() == room(ax, ay));
        }
    }
}

/// A room beside a closed room has been visited.
pub proof fn lemma_closed_room(grid: Grid, cx: int, cy: int, nx: int, ny: int)
    requires
        room_closed(grid, cx, cy),
        rooms_adjacent(cx, cy, nx, ny),
        grid.has_room(nx, ny),
    ensures
        grid.room_seen(nx, ny),
{
    lemma_room_closed(grid, cx, cy);
}

/// A room is visited where the first room is and every visited room is
/// closed: the visits spread from room to room over the whole maze.
pub proof fn lemma_closed_rooms_spread(grid: Grid, sx: int, sy: int, cx: int, cy: int)
    requires
        grid.wf(),
        grid.room_seen(sx, sy),
        grid.has_room(cx, cy),
        forall|ax: int, ay: int| #[trigger] grid.room_seen(ax, ay) ==> room_closed(grid, ax, ay),
    ensures
        grid.room_seen(cx, cy),
    decreases (if cx > sx { cx - sx } else { sx - cx }) + (if cy > sy { cy - sy } else { sy - cy }),
{
    if cx > sx {
        lemma_closed_rooms_spread(grid, sx, sy, cx - 1, cy);
        lemma_closed_room(grid, cx - 1, cy, cx, cy);
    } else if cx < sx {
        lemma_closed_rooms_spread(grid, sx, sy, cx + 1, cy);
        lemma_closed_room(grid, cx + 1, cy, cx, cy);
    } else if cy > sy {
        lemma_closed_rooms_spread(grid, sx, sy, cx, cy - 1);
        lemma_closed_room(grid, cx, cy - 1, cx, cy);
    } else if cy < sy {
        lemma_closed_rooms_spread(grid, sx, sy, cx, cy + 1);
        lemma_closed_room(grid, cx, cy + 1, cx, cy);
    }
}

/// The grid as the carving leaves it: every room visited and floor, the
/// border and the crossings wall, and nothing else marked as visited.
pub open spec fn is_carved(grid: Grid) -> bool {
    &&& carving_shape(grid)
    &&& forall|cx: int, cy: int| #[trigger] grid.has_room(cx, cy) ==> grid.room_seen(cx, cy)
}

/// The carving ends: once the stack is empty every room has been visited,
/// and the open walls span the rooms.
pub proof fn lemma_carving_done(
    grid: Grid,
    start: (int, int),
    seen: Set<(int, int)>,
    carved: Set<(int, int)>,
)
    requires
        carving(grid, start, Seq::<Position>::empty(), seen, carved),
    ensures
        grid.spans_rooms(),
        is_carved(grid),
        seen.len() == grid.width * grid.height,
{
    let first = room_cell(start.0, start.1);
    assert forall|ax: int, ay: int| #[trigger] grid.room_seen(ax, ay) implies room_closed(
        grid,
        ax,
        ay,
    ) by {
        assert(!Seq::<Position>::empty().contains(room(ax, ay)));
    }
    assert forall|cx: int, cy: int| #[trigger] grid.has_room(cx, cy) implies grid.room_seen(
        cx,
        cy,
    ) by {
        lemma_closed_rooms_spread(grid, start.0, start.1, cx, cy);
    }
    assert(grid.is_laid_out()) by {
        assert forall|cx: int, cy: int| #[trigger] grid.has_room(cx, cy) implies grid.floor(
            2 * cx + 1,
            2 * cy + 1,
        ) by {
            assert(grid.room_seen(cx, cy));
            assert(grid.holds(2 * cx + 1, 2 * cy + 1));
            assert(grid.cell(2 * cx + 1, 2 * cy + 1).visited);
        }
        assert forall|x: int, y: int|
            grid.holds(x, y) && x % 2 == 0 && y % 2 == 0 implies !#[trigger] grid.floor(x, y) by {
            if grid.floor(x, y) {
                assert(grid.cell(x, y).cell_type == CellType::Floor);
            }
        }
    }
    lemma_rect_len(grid.width as int, grid.height as int);
    assert(seen =~= rect(grid.width as int, grid.height as int)) by {
        assert forall|c: (int, int)| seen.contains(c) <==> rect(
            grid.width as int,
            grid.height as int,
        ).contains(c) by {
            if grid.has_room(c.0, c.1) {
                assert(grid.room_seen(c.0, c.1));
            }
        }
    }
    assert(carved =~= grid.open_walls());
    assert forall|ax: int, ay: int, bx: int, by: int|
        #![trigger grid.has_room(ax, ay), grid.has_room(bx, by)]
        grid.has_room(ax, ay) && grid.has_room(bx, by) implies grid.reachable(
        room_cell(ax, ay),
        room_cell(bx, by),
    ) by {
        assert(grid.room_seen(ax, ay));
        assert(grid.room_seen(bx, by));
        lemma_reachable_back(grid, first, room_cell(ax, ay));
        lemma_reachable_on(grid, room_cell(ax, ay), first, room_cell(bx, by));
    }
}

} // verus!
