//! The raw grid of a maze as a mathematical value: rows of cells at doubled
//! resolution, in which the rooms of the maze stand at the odd coordinates
//! and the walls between them at the coordinates in between.
use crate::acyclic::is_acyclic;
use crate::maze::{Cell, CellType, Position};
use crate::text::decimal;
use vstd::prelude::*;

verus! {

/// A grid of `2 * width + 1` by `2 * height + 1` cells: `rows[y][x]` is the
/// cell at the raw coordinates `(x, y)`.
pub struct Grid {
    pub width: nat,
    pub height: nat,
    pub rows: Seq<Seq<Cell>>,
}

/// Two positions are one step apart, horizontally or vertically.
pub open spec fn adjacent(p: Position, q: Position) -> bool {
    ||| (p.0 == q.0 && (p.1 + 1 == q.1 || q.1 + 1 == p.1))
    ||| (p.1 == q.1 && (p.0 + 1 == q.0 || q.0 + 1 == p.0))
}

impl Grid {
    /// The number of cells in a row.
    pub open spec fn raw_width(self) -> int {
        (2 * self.width + 1) as int
    }

    /// The column of the east border.
    pub open spec fn east(self) -> int {
        (2 * self.width) as int
    }

    /// The number of rows.
    pub open spec fn raw_height(self) -> int {
        (2 * self.height + 1) as int
    }

    /// The grid has a room at least, and all its rows in full.
    pub open spec fn wf(self) -> bool {
        &&& self.width > 0
        &&& self.height > 0
        &&& self.raw_width() <= usize::MAX
        &&& self.raw_height() <= usize::MAX
        &&& self.rows.len() == self.raw_height()
        &&& forall|y: int|
            0 <= y < self.rows.len() ==> (#[trigger] self.rows[y]).len() == self.raw_width()
    }

    /// The raw coordinates lie in the grid.
    pub open spec fn holds(self, x: int, y: int) -> bool {
        0 <= x < self.raw_width() && 0 <= y < self.raw_height()
    }

    /// The cell at the raw coordinates `(x, y)`.
    pub open spec fn cell(self, x: int, y: int) -> Cell {
        self.rows[y][x]
    }

    /// The cell at `(x, y)` lies in the grid and is floor.
    pub open spec fn floor(self, x: int, y: int) -> bool {
        self.holds(x, y) && self.cell(x, y).cell_type == CellType::Floor
    }

    /// The cell at `(x, y)` lies in the grid and is marked as visited.
    pub open spec fn seen(self, x: int, y: int) -> bool {
        self.holds(x, y) && self.cell(x, y).visited
    }

    /// The grid with one cell replaced.
    pub open spec fn with_cell(self, x: int, y: int, cell: Cell) -> Grid {
        Grid {
            width: self.width,
            height: self.height,
            rows: self.rows.update(y, self.rows[y].update(x, cell)),
        }
    }

    /// The grid with one cell made floor.
    pub open spec fn with_floor(self, x: int, y: int) -> Grid {
        self.with_cell(
            x,
            y,
            Cell { visited: self.cell(x, y).visited, cell_type: CellType::Floor },
        )
    }

    /// Both grids have the same size and, cell by cell, the same kinds.
    pub open spec fn same_kinds(self, other: Grid) -> bool {
        &&& self.width == other.width
        &&& self.height == other.height
        &&& forall|x: int, y: int|
            self.holds(x, y) ==> (#[trigger] self.cell(x, y)).cell_type == other.cell(
                x,
                y,
            ).cell_type
    }

    /// Every cell of the grid is an unvisited wall.
    pub open spec fn is_blank(self) -> bool {
        forall|x: int, y: int|
            self.holds(x, y) ==> #[trigger] self.cell(x, y) == (Cell {
                visited: false,
                cell_type: CellType::Wall,
            })
    }
}

/// The character that stands for a cell: a hash sign for wall, a blank
/// for floor.
pub open spec fn cell_char(cell: Cell) -> char {
    match cell.cell_type {
        CellType::Floor => ' ',
        CellType::Wall => '#',
    }
}

/// The first `upto` cells of the row `y` as text: each cell's character
/// and a blank, or a line feed behind the last cell of the row.
pub open spec fn row_text(grid: Grid, y: int, upto: int) -> Seq<char>
    decreases upto,
{
    if upto <= 0 {
        Seq::empty()
    } else {
        row_text(grid, y, upto - 1).push(cell_char(grid.cell(upto - 1, y))).push(
            if upto == grid.raw_width() {
                '\n'
            } else {
                ' '
            },
        )
    }
}

/// The first `upto` rows as text, one line each.
pub open spec fn rows_text(grid: Grid, upto: int) -> Seq<char>
    decreases upto,
{
    if upto <= 0 {
        Seq::empty()
    } else {
        rows_text(grid, upto - 1) + row_text(grid, upto - 1, grid.raw_width())
    }
}

/// The size of a maze in words.
pub open spec fn dimension_text(width: nat, height: nat) -> Seq<char> {
    "Maze of dimension "@ + decimal(width) + seq!['x'] + decimal(height)
}

/// A maze as text: its picture, or only its size where it has more than 20
/// rooms either way.
pub open spec fn description_text(grid: Grid) -> Seq<char> {
    if grid.width > 20 || grid.height > 20 {
        dimension_text(grid.width, grid.height)
    } else {
        rows_text(grid, grid.raw_height())
    }
}

/// The room `(cx, cy)` as a position among the rooms.
pub open spec fn room(cx: int, cy: int) -> Position {
    Position(cx as usize, cy as usize)
}

/// The raw cell `(x, y)` as a position in the raw grid.
pub open spec fn raw(x: int, y: int) -> Position {
    Position(x as usize, y as usize)
}

/// The raw cell in which the room `(cx, cy)` stands.
pub open spec fn room_cell(cx: int, cy: int) -> Position {
    Position((2 * cx + 1) as usize, (2 * cy + 1) as usize)
}

/// The pairs `(x, y)` with `x` below `w` and `y` below `h`.
pub open spec fn rect(w: int, h: int) -> Set<(int, int)> {
    Set::new(|c: (int, int)| 0 <= c.0 < w && 0 <= c.1 < h)
}

impl Grid {
    /// The maze has a room `(cx, cy)`.
    pub open spec fn has_room(self, cx: int, cy: int) -> bool {
        0 <= cx < self.width && 0 <= cy < self.height
    }

    /// The maze has a room `(cx, cy)`, and its cell is marked as visited.
    pub open spec fn room_seen(self, cx: int, cy: int) -> bool {
        self.has_room(cx, cy) && self.cell(2 * cx + 1, 2 * cy + 1).visited
    }

    /// The raw cell `(x, y)` is the place of a wall between two rooms:
    /// inside the border, with one odd coordinate and one even.
    pub open spec fn is_inner_wall(self, x: int, y: int) -> bool {
        0 < x < 2 * self.width && 0 < y < 2 * self.height && (x + y) % 2 == 1
    }

    /// The places of walls between rooms that are floor.
    pub open spec fn open_walls(self) -> Set<(int, int)> {
        Set::new(|p: (int, int)| self.is_inner_wall(p.0, p.1) && self.floor(p.0, p.1))
    }

    /// The cell at the raw position `p` lies in the grid and is floor.
    pub open spec fn floor_at(self, p: Position) -> bool {
        self.floor(p.0 as int, p.1 as int)
    }

    /// A walk over floor: one floor cell at least, each one step from the
    /// one before it.
    pub open spec fn is_floor_path(self, path: Seq<Position>) -> bool {
        &&& path.len() > 0
        &&& forall|i: int| 0 <= i < path.len() ==> self.floor_at(#[trigger] path[i])
        &&& forall|i: int, j: int|
            0 <= i && j == i + 1 && j < path.len() ==> adjacent(
                #[trigger] path[i],
                #[trigger] path[j],
            )
    }

    /// `path` is a walk over floor from `from` to `to`.
    pub open spec fn connects(self, path: Seq<Position>, from: Position, to: Position) -> bool {
        self.is_floor_path(path) && path.first() == from && path.last() == to
    }

    /// There is a walk over floor from `from` to `to`.
    pub open spec fn reachable(self, from: Position, to: Position) -> bool {
        exists|path: Seq<Position>| self.connects(path, from, to)
    }

    /// Every cell that is floor in this grid is floor in `other`.
    pub open spec fn floors_kept_in(self, other: Grid) -> bool {
        forall|x: int, y: int| #[trigger] self.floor(x, y) ==> other.floor(x, y)
    }

    /// The rooms are floor, and the crossings of the wall lines between
    /// them are wall.
    pub open spec fn is_laid_out(self) -> bool {
        &&& forall|cx: int, cy: int| #[trigger]
            self.has_room(cx, cy) ==> self.floor(2 * cx + 1, 2 * cy + 1)
        &&& forall|x: int, y: int|
            self.holds(x, y) && x % 2 == 0 && y % 2 == 0 ==> !#[trigger] self.floor(x, y)
    }

    /// The open walls span the rooms: all the rooms are floor, exactly one
    /// wall less than there are rooms is open between them, and every room
    /// can be reached from every other over floor.
    pub open spec fn spans_rooms(self) -> bool {
        &&& self.wf()
        &&& self.is_laid_out()
        &&& self.open_walls().finite()
        &&& self.open_walls().len() == self.width * self.height - 1
        &&& forall|ax: int, ay: int, bx: int, by: int|
            #![trigger self.has_room(ax, ay), self.has_room(bx, by)]
            self.has_room(ax, ay) && self.has_room(bx, by) ==> self.reachable(
                room_cell(ax, ay),
                room_cell(bx, by),
            )
    }

    /// A perfect maze: the open walls are the edges of a spanning tree of
    /// the rooms. They join every room to every other, one less than there
    /// are rooms is open, and the floor has no loop.
    pub open spec fn is_perfect(self) -> bool {
        self.spans_rooms() && is_acyclic(self)
    }
}

/// A walk over floor stays one where no floor is lost.
pub proof fn lemma_path_kept(grid: Grid, other: Grid, path: Seq<Position>)
    requires
        grid.is_floor_path(path),
        grid.floors_kept_in(other),
    ensures
        other.is_floor_path(path),
{
    assert forall|i: int| 0 <= i < path.len() implies other.floor_at(#[trigger] path[i]) by {
        assert(grid.floor_at(path[i]));
        assert(grid.floor(path[i].0 as int, path[i].1 as int));
    }
}

/// A walk can go one step further, onto a floor cell next to its end.
pub proof fn lemma_path_step(grid: Grid, path: Seq<Position>, from: Position, to: Position, next: Position)
    requires
        grid.connects(path, from, to),
        grid.floor_at(next),
        adjacent(to, next),
    ensures
        grid.connects(path.push(next), from, next),
{
    let longer = path.push(next);
    assert forall|i: int| 0 <= i < longer.len() implies grid.floor_at(#[trigger] longer[i]) by {
        if i < path.len() {
            assert(longer[i] == path[i]);
        }
    }
    assert forall|i: int, j: int| 0 <= i && j == i + 1 && j < longer.len() implies adjacent(
        #[trigger] longer[i],
        #[trigger] longer[j],
    ) by {
        if j < path.len() {
            assert(longer[i] == path[i]);
            assert(longer[j] == path[j]);
        } else {
            assert(longer[i] == path[i]);
        }
    }
}

/// A walk can be walked back.
pub proof fn lemma_path_reversed(grid: Grid, path: Seq<Position>, from: Position, to: Position)
    requires
        grid.connects(path, from, to),
    ensures
        grid.connects(path.reverse(), to, from),
{
    let back = path.reverse();
    assert forall|i: int| 0 <= i < back.len() implies grid.floor_at(#[trigger] back[i]) by {
        assert(back[i] == path[path.len() - 1 - i]);
    }
    assert forall|i: int, j: int| 0 <= i && j == i + 1 && j < back.len() implies adjacent(
        #[trigger] back[i],
        #[trigger] back[j],
    ) by {
        assert(back[i] == path[path.len() - 1 - i]);
        assert(back[j] == path[path.len() - 1 - j]);
        assert(adjacent(path[path.len() - 1 - j], path[path.len() - 1 - i]));
    }
}

/// Two walks, the second from where the first ends, make one walk.
pub proof fn lemma_path_joined(
    grid: Grid,
    first: Seq<Position>,
    second: Seq<Position>,
    from: Position,
    via: Position,
    to: Position,
)
    requires
        grid.connects(first, from, via),
        grid.connects(second, via, to),
    ensures
        grid.connects(first + second.drop_first(), from, to),
{
    let rest = second.drop_first();
    let whole = first + rest;
    assert forall|i: int| 0 <= i < whole.len() implies grid.floor_at(#[trigger] whole[i]) by {
        if i < first.len() {
            assert(whole[i] == first[i]);
        } else {
            assert(whole[i] == second[i - first.len() + 1]);
        }
    }
    assert forall|i: int, j: int| 0 <= i && j == i + 1 && j < whole.len() implies adjacent(
        #[trigger] whole[i],
        #[trigger] whole[j],
    ) by {
        if j < first.len() {
            assert(whole[i] == first[i]);
            assert(whole[j] == first[j]);
        } else if i < first.len() {
            assert(whole[i] == first[i]);
            assert(first[i] == second[0]);
            assert(whole[j] == second[1]);
            assert(adjacent(second[0], second[1]));
        } else {
            assert(whole[i] == second[i - first.len() + 1]);
            assert(whole[j] == second[j - first.len() + 1]);
            assert(adjacent(second[i - first.len() + 1], second[j - first.len() + 1]));
        }
    }
    if rest.len() == 0 {
        assert(whole =~= first);
        assert(second.len() == 1);
    } else {
        assert(whole.last() == second.last());
    }
}

/// Reaching is symmetric.
pub proof fn lemma_reachable_back(grid: Grid, from: Position, to: Position)
    requires
        grid.reachable(from, to),
    ensures
        grid.reachable(to, from),
{
    let path = choose|path: Seq<Position>| grid.connects(path, from, to);
    lemma_path_reversed(grid, path, from, to);
}

/// Reaching is transitive.
pub proof fn lemma_reachable_on(grid: Grid, from: Position, via: Position, to: Position)
    requires
        grid.reachable(from, via),
        grid.reachable(via, to),
    ensures
        grid.reachable(from, to),
{
    let first = choose|path: Seq<Position>| grid.connects(path, from, via);
    let second = choose|path: Seq<Position>| grid.connects(path, via, to);
    lemma_path_joined(grid, first, second, from, via, to);
}

/// What can be reached stays in reach where no floor is lost.
pub proof fn lemma_reachable_kept(grid: Grid, other: Grid, from: Position, to: Position)
    requires
        grid.reachable(from, to),
        grid.floors_kept_in(other),
    ensures
        other.reachable(from, to),
{
    let path = choose|path: Seq<Position>| grid.connects(path, from, to);
    lemma_path_kept(grid, other, path);
    assert(other.connects(path, from, to));
}

/// The pairs `(x, y)` with `x` below `w`.
pub open spec fn row(w: int, y: int) -> Set<(int, int)> {
    Set::new(|c: (int, int)| 0 <= c.0 < w && c.1 == y)
}

/// A row of `w` pairs has `w` members.
pub proof fn lemma_row_len(w: int, y: int)
    requires
        w >= 0,
    ensures
        row(w, y).finite(),
        row(w, y).len() == w,
    decreases w,
{
    if w == 0 {
        assert(row(w, y) =~= Set::<(int, int)>::empty());
    } else {
        lemma_row_len(w - 1, y);
        assert(row(w, y) =~= row(w - 1, y).insert((w - 1, y)));
    }
}

/// A rectangle of `w` by `h` pairs has `w * h` members.
pub proof fn lemma_rect_len(w: int, h: int)
    requires
        w >= 0,
        h >= 0,
    ensures
        rect(w, h).finite(),
        rect(w, h).len() == w * h,
    decreases h,
{
    if h == 0 {
        assert(rect(w, h) =~= Set::<(int, int)>::empty());
        assert(w * h == 0) by (nonlinear_arith)
            requires
                h == 0,
        ;
    } else {
        lemma_rect_len(w, h - 1);
        lemma_row_len(w, h - 1);
        assert(rect(w, h) =~= rect(w, h - 1).union(row(w, h - 1)));
        assert(rect(w, h - 1).disjoint(row(w, h - 1)));
        vstd::set_lib::lemma_set_disjoint_lens(rect(w, h - 1), row(w, h - 1));
        assert(w * h == w * (h - 1) + w) by (nonlinear_arith);
    }
}

/// Replacing a cell changes that cell and no other.
pub proof fn lemma_with_cell(grid: Grid, x: int, y: int, cell: Cell)
    requires
        grid.wf(),
        grid.holds(x, y),
    ensures
        grid.with_cell(x, y, cell).wf(),
        grid.with_cell(x, y, cell).cell(x, y) == cell,
        forall|u: int, v: int|
            grid.holds(u, v) && (u != x || v != y) ==> #[trigger] grid.with_cell(x, y, cell).cell(
                u,
                v,
            ) == grid.cell(u, v),
        forall|u: int, v: int| grid.holds(u, v) <==> #[trigger] grid.with_cell(x, y, cell).holds(u, v),
{
}

} // verus!
