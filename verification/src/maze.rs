//! The maze: a grid of rooms in which a randomized depth-first search opens
//! the walls of a spanning tree, with an entrance, an exit and the way
//! from the one to the other.
use crate::acyclic::{
    lemma_ranked_acyclic, lemma_ranked_starts, lemma_ranked_steps, ranked, ranked_step,
};
use crate::building::{
    built, carved, carved_maze, carved_step, gated, lemma_blank_grid, lemma_carved_ends,
    lemma_carved_settles, lemma_carved_steps, lemma_extends_itself, lemma_extends_shorter,
};
use crate::carving::{
    carving, is_carved, lemma_carving_advances, lemma_carving_done, lemma_carving_retreats,
    lemma_carving_starts, lemma_step_effect, lemma_unseen_around, step_made, unseen_around,
    unseen_room,
};
use crate::grid::{
    description_text, lemma_with_cell, raw, room, row_text, rows_text, Grid,
};
use crate::random::{draw_at, extends, seed_from_u64, Draws};
use crate::runs::{
    is_run, lemma_run_start, lemma_wall_runs, lemma_wall_runs_once, line_count, line_length,
    line_runs, run_start, run_wall, runs_of_lines, spans_run, wall_along, wall_runs,
};
use crate::search::{
    floor_plan, kept_way, lemma_entrance, lemma_free_floor_around, lemma_kept_way_of_kinds,
    lemma_no_entrance, lemma_searched_advances, lemma_searched_retreats, lemma_searched_stops,
    search_steps, searched,
};
use crate::solving::{
    gates_opened, has_gates, has_way_through, is_way_through, is_west_gate,
    lemma_gated_maze_has_way, lemma_gates_opened, lemma_one_way_through, lemma_same_floor_keeps,
    lemma_same_kinds_same_floor, lemma_solving_advances, lemma_solving_fails,
    lemma_solving_retreats, lemma_solving_starts, lemma_solving_succeeds,
    lemma_unseen_floor_around, lemma_visit_effect, reaches_east, solving, unseen_floor,
    unseen_floor_around, with_visit,
};
use crate::text::{push_char, push_decimal, push_text};
use rand::rngs::StdRng;
use vstd::prelude::*;

verus! {

/// What stands in a cell of the raw grid.
#[derive(Copy, Clone, PartialEq, Eq, Structural, Debug)]
pub enum CellType {
    Wall,
    Floor,
}

/// One cell of the raw grid.
#[derive(Copy, Clone, PartialEq, Eq, Structural, Debug)]
pub struct Cell {
    pub visited: bool,
    pub cell_type: CellType,
}

impl Cell {
    /// A wall that no traversal has seen yet.
    pub fn blank() -> (cell: Cell)
        ensures
            cell == (Cell { visited: false, cell_type: CellType::Wall }),
    {
        Cell { visited: false, cell_type: CellType::Wall }
    }
}

/// A pair of coordinates `(x, y)`: of a room among the rooms, or of a cell
/// in the raw grid.
#[derive(Copy, Clone, PartialEq, Eq, Structural, Debug)]
pub struct Position(pub usize, pub usize);

impl From<(usize, usize)> for Position {
    fn from(point: (usize, usize)) -> (position: Position) {
        Position(point.0, point.1)
    }
}

impl vstd::std_specs::convert::FromSpecImpl<(usize, usize)> for Position {
    open spec fn obeys_from_spec() -> bool {
        true
    }

    open spec fn from_spec(point: (usize, usize)) -> Position {
        Position(point.0, point.1)
    }
}

/// A straight run of wall cells, from its first cell to its last.
#[derive(Copy, Clone, PartialEq, Eq, Structural, Debug)]
pub struct Wall(pub Position, pub Position);

/// The way a wall runs.
#[derive(Copy, Clone, PartialEq, Eq, Structural, Debug)]
pub enum Orientation {
    Horizontal,
    Vertical,
}

impl Wall {
    /// The way the wall runs: horizontal where its ends differ in `x`,
    /// else vertical where they differ in `y`; a wall that ends where it
    /// begins runs neither way.
    pub fn orientation(&self) -> (orientation: Option<Orientation>)
        ensures
            orientation == if self.0.0 != self.1.0 {
                Some(Orientation::Horizontal)
            } else if self.0.1 != self.1.1 {
                Some(Orientation::Vertical)
            } else {
                None
            },
    {
        let Wall(a, b) = *self;
        if a.0 != b.0 {
            Some(Orientation::Horizontal)
        } else if a.1 != b.1 {
            Some(Orientation::Vertical)
        } else {
            None
        }
    }
}

/// Why a maze was not built.
#[derive(Copy, Clone, PartialEq, Eq, Structural, Debug)]
pub enum MazeError {
    /// The width or the height is zero.
    EmptyGrid,
    /// The raw grid would hold more cells than can be counted.
    TooLarge,
}

/// A maze of `width` by `height` rooms in a raw grid of doubled resolution,
/// with the way through it.
#[derive(Debug)]
pub struct Maze {
    width: usize,
    height: usize,
    data: Vec<Cell>,
    path: Vec<Position>,
}

/// The place of a raw cell in the flat array lies within it.
proof fn lemma_index_bound(raw_width: int, raw_height: int, x: int, y: int)
    by (nonlinear_arith)
    requires
        0 <= x < raw_width,
        0 <= y < raw_height,
    ensures
        0 <= y * raw_width,
        0 <= y * raw_width + x < raw_width * raw_height,
{
}

/// Two raw cells that share a place in the flat array are the same cell.
proof fn lemma_index_injective(raw_width: int, x1: int, y1: int, x2: int, y2: int)
    by (nonlinear_arith)
    requires
        0 <= x1 < raw_width,
        0 <= x2 < raw_width,
        0 <= y1,
        0 <= y2,
        y1 * raw_width + x1 == y2 * raw_width + x2,
    ensures
        x1 == x2,
        y1 == y2,
{
}

/// A grid of at least one room has at least three cells each way, and no
/// more each way than in all.
proof fn lemma_raw_sides(raw_width: int, raw_height: int)
    by (nonlinear_arith)
    requires
        raw_width >= 3,
        raw_height >= 3,
    ensures
        raw_width <= raw_width * raw_height,
        raw_height <= raw_width * raw_height,
{
}

impl Maze {
    /// The raw grid of the maze.
    pub closed spec fn grid(&self) -> Grid {
        Grid {
            width: self.width as nat,
            height: self.height as nat,
            rows: Seq::new(
                (2 * self.height + 1) as nat,
                |y: int|
                    Seq::new(
                        (2 * self.width + 1) as nat,
                        |x: int| self.data@[y * (2 * self.width + 1) + x],
                    ),
            ),
        }
    }

    /// The way through the maze that the maze holds.
    pub closed spec fn solution(&self) -> Seq<Position> {
        self.path@
    }

    /// The maze has a room at least, and a cell for each place of its raw
    /// grid.
    pub closed spec fn wf(&self) -> bool {
        &&& self.width > 0
        &&& self.height > 0
        &&& self.data@.len() == (2 * self.width + 1) * (2 * self.height + 1)
        &&& self.data@.len() <= usize::MAX
    }

    /// The raw grid of a well-formed maze is well-formed, and its sides can
    /// be counted.
    pub proof fn lemma_grid_wf(&self)
        requires
            self.wf(),
        ensures
            self.grid().wf(),
            self.grid().raw_width() <= usize::MAX,
            self.grid().raw_height() <= usize::MAX,
    {
        lemma_raw_sides(2 * self.width + 1, 2 * self.height + 1);
    }

    /// An all-wall maze of the given size, with no way through it yet.
    pub fn blank(width: usize, height: usize) -> (result: Result<Maze, MazeError>)
        ensures
            match result {
                Ok(maze) => {
                    &&& maze.wf()
                    &&& maze.grid().width == width
                    &&& maze.grid().height == height
                    &&& maze.grid().is_blank()
                    &&& maze.solution().len() == 0
                },
                Err(MazeError::EmptyGrid) => width == 0 || height == 0,
                Err(MazeError::TooLarge) => width > 0 && height > 0 && (2 * width + 1) * (2
                    * height + 1) > usize::MAX,
            },
    {
        if width == 0 || height == 0 {
            return Err(MazeError::EmptyGrid);
        }
        let raw_width: usize = match width.checked_mul(2) {
            Some(doubled) => match doubled.checked_add(1) {
                Some(side) => side,
                None => {
                    proof {
                        lemma_raw_sides(2 * width + 1, 2 * height + 1);
                    }
                    return Err(MazeError::TooLarge);
                },
            },
            None => {
                proof {
                    lemma_raw_sides(2 * width + 1, 2 * height + 1);
                }
                return Err(MazeError::TooLarge);
            },
        };
        let raw_height: usize = match height.checked_mul(2) {
            Some(doubled) => match doubled.checked_add(1) {
                Some(side) => side,
                None => {
                    proof {
                        lemma_raw_sides(2 * width + 1, 2 * height + 1);
                    }
                    return Err(MazeError::TooLarge);
                },
            },
            None => {
                proof {
                    lemma_raw_sides(2 * width + 1, 2 * height + 1);
                }
                return Err(MazeError::TooLarge);
            },
        };
        let count: usize = match raw_width.checked_mul(raw_height) {
            Some(count) => count,
            None => {
                return Err(MazeError::TooLarge);
            },
        };
        let mut data: Vec<Cell> = Vec::new();
        let mut filled: usize = 0;
        while filled < count
            invariant
                filled <= count,
                data@.len() == filled,
                forall|i: int|
                    0 <= i < filled ==> #[trigger] data@[i] == (Cell {
                        visited: false,
                        cell_type: CellType::Wall,
                    }),
            decreases count - filled,
        {
            data.push(Cell::blank());
            filled += 1;
        }
        let maze = Maze { width, height, data, path: Vec::new() };
        proof {
            assert forall|x: int, y: int| maze.grid().holds(x, y) implies #[trigger] maze.grid().cell(
                x,
                y,
            ) == (Cell { visited: false, cell_type: CellType::Wall }) by {
                lemma_index_bound(2 * width + 1, 2 * height + 1, x, y);
            }
        }
        Ok(maze)
    }

    /// The number of rooms in a row.
    pub fn width(&self) -> (width: usize)
        ensures
            width == self.grid().width,
    {
        self.width
    }

    /// The number of rows of rooms.
    pub fn height(&self) -> (height: usize)
        ensures
            height == self.grid().height,
    {
        self.height
    }

    /// The place of the raw cell `(x, y)` in the flat array.
    fn index_of(&self, x: usize, y: usize) -> (index: usize)
        requires
            self.wf(),
            self.grid().holds(x as int, y as int),
        ensures
            index == y * (2 * self.width + 1) + x,
            index < self.data@.len(),
            self.data@[index as int] == self.grid().cell(x as int, y as int),
    {
        proof {
            lemma_raw_sides(2 * self.width + 1, 2 * self.height + 1);
            lemma_index_bound(2 * self.width + 1, 2 * self.height + 1, x as int, y as int);
        }
        y * (self.width * 2 + 1) + x
    }

    /// The cell at the raw coordinates `(x, y)`, for `x` from 0 to twice the
    /// width and `y` from 0 to twice the height, both included.
    pub fn raw_cell_at(&self, x: usize, y: usize) -> (found: Option<Cell>)
        requires
            self.wf(),
        ensures
            found == if self.grid().holds(x as int, y as int) {
                Some(self.grid().cell(x as int, y as int))
            } else {
                None
            },
    {
        proof {
            lemma_raw_sides(2 * self.width + 1, 2 * self.height + 1);
        }
        if x > self.width * 2 || y > self.height * 2 {
            return None;
        }
        let index = self.index_of(x, y);
        Some(self.data[index])
    }

    /// The cell of the room `position`, for a room of the maze.
    pub fn cell_at(&self, position: Position) -> (found: Option<Cell>)
        requires
            self.wf(),
        ensures
            found == if position.0 < self.grid().width && position.1 < self.grid().height {
                Some(self.grid().cell(2 * position.0 + 1, 2 * position.1 + 1))
            } else {
                None
            },
    {
        proof {
            lemma_raw_sides(2 * self.width + 1, 2 * self.height + 1);
        }
        let Position(x, y) = position;
        if x >= self.width || y >= self.height {
            return None;
        }
        let index = self.index_of(x * 2 + 1, y * 2 + 1);
        Some(self.data[index])
    }

    /// Replaces the cell at the raw coordinates `(x, y)`.
    fn set_cell(&mut self, x: usize, y: usize, cell: Cell)
        requires
            old(self).wf(),
            old(self).grid().holds(x as int, y as int),
        ensures
            final(self).wf(),
            final(self).grid() == old(self).grid().with_cell(x as int, y as int, cell),
            final(self).solution() == old(self).solution(),
    {
        let index = self.index_of(x, y);
        self.data[index] = cell;
        proof {
            let raw_width = 2 * self.width + 1;
            let before = old(self).grid();
            let after = self.grid();
            let expected = before.with_cell(x as int, y as int, cell);
            assert forall|v: int| 0 <= v < after.rows.len() implies #[trigger] after.rows[v]
                =~= expected.rows[v] by {
                assert forall|u: int| 0 <= u < raw_width implies after.rows[v][u]
                    == expected.rows[v][u] by {
                    lemma_index_bound(raw_width, 2 * self.height + 1, u, v);
                    if u != x || v != y {
                        if v * raw_width + u == y * raw_width + x {
                            lemma_index_injective(raw_width, u, v, x as int, y as int);
                        }
                    }
                }
            }
            assert(after.rows =~= expected.rows);
        }
    }

    /// Tells whether `position` is a room of the maze that has not been
    /// visited.
    fn is_unvisited_room(&self, position: Position) -> (unvisited: bool)
        requires
            self.wf(),
        ensures
            unvisited == (self.grid().has_room(position.0 as int, position.1 as int)
                && !self.grid().room_seen(position.0 as int, position.1 as int)),
    {
        match self.cell_at(position) {
            Some(cell) => !cell.visited,
            None => false,
        }
    }

    /// The rooms next to `position` that have not been visited: the one
    /// below first, then the one above, the one to the right and the one to
    /// the left.
    pub fn unvisited_neighbours(&self, position: Position) -> (unvisited: Vec<Position>)
        requires
            self.wf(),
            self.grid().has_room(position.0 as int, position.1 as int),
        ensures
            unvisited@ == unseen_around(self.grid(), position.0 as int, position.1 as int),
    {
        proof {
            self.lemma_grid_wf();
        }
        let Position(x, y) = position;
        let ghost grid = self.grid();
        let mut unvisited: Vec<Position> = Vec::with_capacity(4);
        if self.is_unvisited_room(Position(x, y + 1)) {
            unvisited.push(Position(x, y + 1));
        }
        assert(unvisited@ =~= unseen_room(grid, x as int, y + 1));
        if y > 0 && self.is_unvisited_room(Position(x, y - 1)) {
            unvisited.push(Position(x, y - 1));
        }
        assert(unvisited@ =~= unseen_room(grid, x as int, y + 1) + unseen_room(
            grid,
            x as int,
            y - 1,
        ));
        if self.is_unvisited_room(Position(x + 1, y)) {
            unvisited.push(Position(x + 1, y));
        }
        assert(unvisited@ =~= unseen_room(grid, x as int, y + 1) + unseen_room(
            grid,
            x as int,
            y - 1,
        ) + unseen_room(grid, x + 1, y as int));
        if x > 0 && self.is_unvisited_room(Position(x - 1, y)) {
            unvisited.push(Position(x - 1, y));
        }
        assert(unvisited@ =~= unseen_around(grid, x as int, y as int));
        unvisited
    }

    /// One of the unvisited rooms next to `position`: the one whose place
    /// among them, in the order of `unvisited_neighbours`, is a draw below
    /// their number. Where all the rooms have been visited there is none,
    /// and nothing is drawn.
    pub fn random_unvisited_neighbour(&self, position: Position, draws: &mut Draws) -> (found:
        Option<Position>)
        requires
            self.wf(),
            self.grid().has_room(position.0 as int, position.1 as int),
            old(draws).wf(),
        ensures
            final(draws).wf(),
            final(draws).listed() == old(draws).listed(),
            match found {
                Some(next) => {
                    let around = unseen_around(self.grid(), position.0 as int, position.1 as int);
                    &&& around.len() > 0
                    &&& final(draws).log().len() == old(draws).log().len() + 1
                    &&& final(draws).log().drop_last() == old(draws).log()
                    &&& next == around[(final(draws).log().last() as int) % (around.len() as int)]
                },
                None => {
                    &&& unseen_around(self.grid(), position.0 as int, position.1 as int).len()
                        == 0
                    &&& final(draws).log() == old(draws).log()
                },
            },
    {
        let unvisited = self.unvisited_neighbours(position);
        if unvisited.len() == 0 {
            None
        } else {
            let pick = draws.below(unvisited.len());
            Some(unvisited[pick])
        }
    }

    /// Opens the wall between two rooms: the raw cell half-way between
    /// their cells becomes floor.
    pub fn collapse_wall_between(&mut self, position_a: Position, position_b: Position)
        requires
            old(self).wf(),
            old(self).grid().has_room(position_a.0 as int, position_a.1 as int),
            old(self).grid().has_room(position_b.0 as int, position_b.1 as int),
        ensures
            final(self).wf(),
            final(self).grid() == old(self).grid().with_floor(
                position_a.0 + position_b.0 + 1,
                position_a.1 + position_b.1 + 1,
            ),
            final(self).solution() == old(self).solution(),
    {
        proof {
            self.lemma_grid_wf();
        }
        let x = position_a.0 + position_b.0 + 1;
        let y = position_a.1 + position_b.1 + 1;
        self.make_floor(x, y);
    }

    /// Makes the raw cell `(x, y)` floor.
    fn make_floor(&mut self, x: usize, y: usize)
        requires
            old(self).wf(),
            old(self).grid().holds(x as int, y as int),
        ensures
            final(self).wf(),
            final(self).grid() == old(self).grid().with_floor(x as int, y as int),
            final(self).solution() == old(self).solution(),
    {
        let index = self.index_of(x, y);
        let visited = self.data[index].visited;
        self.set_cell(x, y, Cell { visited, cell_type: CellType::Floor });
    }

    /// Makes the cell of the room `position` floor and marks it as visited.
    fn visit_room(&mut self, position: Position)
        requires
            old(self).wf(),
            old(self).grid().has_room(position.0 as int, position.1 as int),
        ensures
            final(self).wf(),
            final(self).grid() == old(self).grid().with_cell(
                2 * position.0 + 1,
                2 * position.1 + 1,
                Cell { visited: true, cell_type: CellType::Floor },
            ),
            final(self).solution() == old(self).solution(),
    {
        proof {
            self.lemma_grid_wf();
        }
        self.set_cell(
            position.0 * 2 + 1,
            position.1 * 2 + 1,
            Cell { visited: true, cell_type: CellType::Floor },
        );
    }

    /// Carves a perfect maze into a blank grid by a randomized depth-first
    /// search. The first room is drawn, its column before its row; then,
    /// from the room on top of the stack, one unvisited room next to it is
    /// drawn, the wall to it opened and the room visited, until the stack,
    /// which loses its top where no such room is left, is empty. One draw
    /// is made for each room but the first, after the two for the first.
    pub fn initialise_maze(&mut self, draws: &mut Draws)
        requires
            old(self).wf(),
            old(self).grid().is_blank(),
            old(draws).wf(),
        ensures
            final(self).wf(),
            final(self).grid().width == old(self).grid().width,
            final(self).grid().height == old(self).grid().height,
            final(self).grid().is_perfect(),
            is_carved(final(self).grid()),
            final(self).solution() == old(self).solution(),
            final(draws).wf(),
            final(draws).listed() == old(draws).listed(),
            final(draws).log().len() == old(draws).log().len() + old(self).grid().width * old(
                self,
            ).grid().height + 1,
            final(draws).log().take(old(draws).log().len() as int) == old(draws).log(),
            forall|all: Seq<usize>| #[trigger]
                extends(all, final(draws).log()) ==> final(self).grid() == carved_maze(
                    old(self).grid(),
                    all,
                    old(draws).log().len() as int,
                ),
    {
        proof {
            self.lemma_grid_wf();
        }
        let ghost blank = self.grid();
        let ghost base = draws.log().len() as int;
        let start_x = draws.below(self.width);
        let ghost raw_x = draws.log().last();
        let start_y = draws.below(self.height);
        let ghost raw_y = draws.log().last();
        let start = Position(start_x, start_y);
        let ghost first = (start_x as int, start_y as int);
        self.visit_room(start);
        let mut cell_positions: Vec<Position> = Vec::new();
        cell_positions.push(start);
        let ghost mut seen = Set::<(int, int)>::empty().insert(first);
        let ghost mut carved_walls = Set::<(int, int)>::empty();
        let ghost begun = self.grid();
        let ghost mut rank = |x: int, y: int| 0int;
        let ghost mut next_rank = 1int;
        proof {
            lemma_with_cell(
                blank,
                2 * first.0 + 1,
                2 * first.1 + 1,
                Cell { visited: true, cell_type: CellType::Floor },
            );
            assert forall|x: int, y: int| #[trigger] begun.floor(x, y) implies x == 2 * first.0
                + 1 && y == 2 * first.1 + 1 by {
                assert(blank.holds(x, y));
                let c = begun.cell(x, y);
            }
            lemma_ranked_starts(begun, first.0, first.1);
            lemma_carving_starts(blank, self.grid(), first.0, first.1);
            assert(cell_positions@ =~= seq![room(first.0, first.1)]);
            assert(blank.width * blank.height >= 1) by (nonlinear_arith)
                requires
                    blank.width >= 1,
                    blank.height >= 1,
            ;
            assert(draws.log().drop_last().drop_last() == old(draws).log());
            assert(draws.log().take(base) =~= old(draws).log());
            assert(draws.log()[base] == raw_x);
            assert(draws.log()[base + 1] == raw_y);
            assert forall|all: Seq<usize>| #[trigger] extends(all, draws.log()) implies carved_maze(
                blank,
                all,
                base,
            ) == carved(
                begun,
                cell_positions@,
                all,
                draws.log().len() as int,
                (blank.width * blank.height - seen.len()) as nat,
            ) by {
                assert(draw_at(all, base) == draws.log()[base]);
                assert(draw_at(all, base + 1) == draws.log()[base + 1]);
            }
        }
        while cell_positions.len() > 0
            invariant
                self.wf(),
                self.grid().width == blank.width,
                self.grid().height == blank.height,
                blank == old(self).grid(),
                self.solution() == old(self).solution(),
                carving(self.grid(), first, cell_positions@, seen, carved_walls),
                ranked(self.grid(), rank, next_rank),
                draws.wf(),
                draws.listed() == old(draws).listed(),
                base == old(draws).log().len(),
                draws.log().len() == base + seen.len() + 1,
                draws.log().take(base) == old(draws).log(),
                seen.len() <= blank.width * blank.height,
                forall|all: Seq<usize>| #[trigger]
                    extends(all, draws.log()) ==> carved_maze(blank, all, base) == carved(
                        self.grid(),
                        cell_positions@,
                        all,
                        draws.log().len() as int,
                        (blank.width * blank.height - seen.len()) as nat,
                    ),
            decreases blank.width * blank.height - seen.len(), cell_positions@.len(),
        {
            let current = cell_positions[cell_positions.len() - 1];
            let ghost before = self.grid();
            let ghost stack = cell_positions@;
            let ghost log = draws.log();
            let ghost steps = (blank.width * blank.height - seen.len()) as nat;
            proof {
                lemma_unseen_around(before, current.0 as int, current.1 as int);
            }
            match self.random_unvisited_neighbour(current, draws) {
                Some(next) => {
                    let ghost around = unseen_around(before, current.0 as int, current.1 as int);
                    let ghost pick = (draws.log().last() as int) % (around.len() as int);
                    proof {
                        assert(around[pick] == next);
                    }
                    self.collapse_wall_between(current, next);
                    let ghost between = self.grid();
                    self.visit_room(next);
                    cell_positions.push(next);
                    proof {
                        let mx = current.0 + next.0 + 1;
                        let my = current.1 + next.1 + 1;
                        assert(before.holds(mx, my));
                        assert(!before.cell(mx, my).visited);
                        lemma_with_cell(
                            before,
                            mx,
                            my,
                            Cell { visited: before.cell(mx, my).visited, cell_type: CellType::Floor },
                        );
                        lemma_with_cell(
                            between,
                            2 * next.0 + 1,
                            2 * next.1 + 1,
                            Cell { visited: true, cell_type: CellType::Floor },
                        );
                        assert(step_made(
                            before,
                            self.grid(),
                            current.0 as int,
                            current.1 as int,
                            next.0 as int,
                            next.1 as int,
                        ));
                        lemma_carving_advances(
                            before,
                            self.grid(),
                            first,
                            stack,
                            seen,
                            carved_walls,
                            next.0 as int,
                            next.1 as int,
                        );
                        lemma_step_effect(
                            before,
                            self.grid(),
                            current.0 as int,
                            current.1 as int,
                            next.0 as int,
                            next.1 as int,
                        );
                        lemma_ranked_steps(
                            before,
                            self.grid(),
                            rank,
                            next_rank,
                            current.0 as int,
                            current.1 as int,
                            next.0 as int,
                            next.1 as int,
                        );
                        rank = ranked_step(
                            rank,
                            next_rank,
                            current.0 as int,
                            current.1 as int,
                            next.0 as int,
                            next.1 as int,
                        );
                        next_rank = next_rank + 2;
                        assert(cell_positions@ =~= stack.push(room(next.0 as int, next.1 as int)));
                        assert(room(next.0 as int, next.1 as int) == next);
                        assert(self.grid() == carved_step(before, current, next));
                        assert(draws.log().take(base) =~= old(draws).log()) by {
                            assert(draws.log().drop_last() == log);
                        }
                        assert forall|all: Seq<usize>| #[trigger]
                            extends(all, draws.log()) implies carved_maze(blank, all, base)
                            == carved(
                            self.grid(),
                            cell_positions@,
                            all,
                            draws.log().len() as int,
                            (steps - 1) as nat,
                        ) by {
                            lemma_extends_shorter(all, draws.log(), log);
                            assert(draw_at(all, log.len() as int) == draws.log()[log.len() as int]);
                            lemma_carved_steps(before, stack, all, log.len() as int, steps);
                        }
                        seen = seen.insert((next.0 as int, next.1 as int));
                        carved_walls = carved_walls.insert((mx, my));
                    }
                },
                None => {
                    proof {
                        lemma_carving_retreats(before, first, stack, seen, carved_walls);
                        assert forall|all: Seq<usize>| #[trigger]
                            extends(all, draws.log()) implies carved_maze(blank, all, base)
                            == carved(
                            before,
                            stack.drop_last(),
                            all,
                            draws.log().len() as int,
                            steps,
                        ) by {
                            lemma_carved_settles(before, stack, all, log.len() as int, steps);
                        }
                    }
                    cell_positions.pop();
                    assert(cell_positions@ =~= stack.drop_last());
                },
            }
        }
        proof {
            assert(cell_positions@ =~= Seq::<Position>::empty());
            lemma_carving_done(self.grid(), first, seen, carved_walls);
            lemma_ranked_acyclic(self.grid(), rank, next_rank);
            assert forall|all: Seq<usize>| #[trigger]
                extends(all, draws.log()) implies self.grid() == carved_maze(blank, all, base) by {
                lemma_carved_ends(
                    self.grid(),
                    all,
                    draws.log().len() as int,
                    (blank.width * blank.height - seen.len()) as nat,
                );
            }
        }
    }

    /// Opens the entrance in the row of rooms `west_row` and the exit in the
    /// row of rooms `east_row`: one cell of the west border and one of the
    /// east border become floor.
    pub fn open_gates(&mut self, west_row: usize, east_row: usize)
        requires
            old(self).wf(),
            west_row < old(self).grid().height,
            east_row < old(self).grid().height,
        ensures
            final(self).wf(),
            gates_opened(old(self).grid(), final(self).grid(), west_row as int, east_row as int),
            final(self).solution() == old(self).solution(),
    {
        proof {
            self.lemma_grid_wf();
        }
        let ghost before = self.grid();
        self.make_floor(0, west_row * 2 + 1);
        proof {
            lemma_with_cell(
                before,
                0,
                2 * west_row + 1,
                Cell {
                    visited: before.cell(0, 2 * west_row + 1).visited,
                    cell_type: CellType::Floor,
                },
            );
        }
        self.make_floor(self.width * 2, east_row * 2 + 1);
    }

    /// Opens an entrance and an exit, each in a row of rooms that is drawn:
    /// the row of the entrance first.
    pub fn collapse_entry_and_exit(&mut self, draws: &mut Draws)
        requires
            old(self).wf(),
            old(draws).wf(),
        ensures
            final(self).wf(),
            exists|west: int, east: int| #[trigger]
                gates_opened(old(self).grid(), final(self).grid(), west, east),
            final(self).solution() == old(self).solution(),
            final(draws).wf(),
            final(draws).listed() == old(draws).listed(),
            final(draws).log().len() == old(draws).log().len() + 2,
            final(draws).log().take(old(draws).log().len() as int) == old(draws).log(),
            forall|all: Seq<usize>| #[trigger]
                extends(all, final(draws).log()) ==> final(self).grid() == gated(
                    old(self).grid(),
                    all,
                    old(draws).log().len() as int,
                ),
    {
        let ghost base = draws.log().len() as int;
        let west_wall = draws.below(self.height);
        let east_wall = draws.below(self.height);
        self.open_gates(west_wall, east_wall);
        proof {
            assert(gates_opened(old(self).grid(), self.grid(), west_wall as int, east_wall as int));
            assert(draws.log().drop_last().drop_last() == old(draws).log());
            assert(draws.log().take(base) =~= old(draws).log());
            assert(west_wall == (draws.log()[base] as int) % (self.height as int));
            assert(east_wall == (draws.log()[base + 1] as int) % (self.height as int));
            assert forall|all: Seq<usize>| #[trigger]
                extends(all, draws.log()) implies self.grid() == gated(
                old(self).grid(),
                all,
                base,
            ) by {
                assert(draw_at(all, base) == draws.log()[base]);
                assert(draw_at(all, base + 1) == draws.log()[base + 1]);
            }
        }
    }

    /// Takes the mark of a visit from every cell.
    fn unvisit_all(&mut self)
        requires
            old(self).wf(),
        ensures
            final(self).wf(),
            final(self).grid().same_kinds(old(self).grid()),
            forall|x: int, y: int| !#[trigger] final(self).grid().seen(x, y),
            final(self).solution() == old(self).solution(),
    {
        let count = self.data.len();
        let mut index: usize = 0;
        while index < count
            invariant
                self.width == old(self).width,
                self.height == old(self).height,
                self.path == old(self).path,
                count == self.data@.len(),
                count == old(self).data@.len(),
                index <= count,
                forall|i: int| 0 <= i < index ==> !(#[trigger] self.data@[i]).visited,
                forall|i: int|
                    0 <= i < count ==> (#[trigger] self.data@[i]).cell_type == old(
                        self,
                    ).data@[i].cell_type,
            decreases count - index,
        {
            let cell = self.data[index];
            self.data[index] = Cell { visited: false, cell_type: cell.cell_type };
            index += 1;
        }
        proof {
            let raw_width = 2 * self.width + 1;
            let raw_height = 2 * self.height + 1;
            assert forall|x: int, y: int| self.grid().holds(x, y) implies (#[trigger] self.grid().cell(
                x,
                y,
            )).cell_type == old(self).grid().cell(x, y).cell_type && !self.grid().cell(
                x,
                y,
            ).visited by {
                lemma_index_bound(raw_width, raw_height, x, y);
            }
        }
    }

    /// Marks the raw cell `(x, y)` as visited.
    fn mark_visited(&mut self, x: usize, y: usize)
        requires
            old(self).wf(),
            old(self).grid().holds(x as int, y as int),
        ensures
            final(self).wf(),
            final(self).grid() == with_visit(old(self).grid(), x as int, y as int),
            final(self).solution() == old(self).solution(),
    {
        let index = self.index_of(x, y);
        let cell_type = self.data[index].cell_type;
        self.set_cell(x, y, Cell { visited: true, cell_type });
    }

    /// Tells whether the raw cell `(x, y)` lies in the grid, is floor and
    /// has not been visited.
    fn is_unvisited_floor(&self, x: usize, y: usize) -> (unvisited: bool)
        requires
            self.wf(),
        ensures
            unvisited == (self.grid().floor(x as int, y as int) && !self.grid().seen(
                x as int,
                y as int,
            )),
    {
        match self.raw_cell_at(x, y) {
            Some(cell) => !cell.visited && cell.cell_type == CellType::Floor,
            None => false,
        }
    }

    /// The floor cells next to the raw cell `position` that have not been
    /// visited: the one below first, then the one above, the one to the
    /// right and the one to the left.
    pub fn unvisited_floor_neighbours(&self, position: Position) -> (unvisited: Vec<Position>)
        requires
            self.wf(),
            self.grid().holds(position.0 as int, position.1 as int),
        ensures
            unvisited@ == unseen_floor_around(self.grid(), position.0 as int, position.1 as int),
    {
        proof {
            self.lemma_grid_wf();
        }
        let Position(x, y) = position;
        let ghost grid = self.grid();
        let mut unvisited: Vec<Position> = Vec::with_capacity(4);
        if self.is_unvisited_floor(x, y + 1) {
            unvisited.push(Position(x, y + 1));
        }
        assert(unvisited@ =~= unseen_floor(grid, x as int, y + 1));
        if y > 0 && self.is_unvisited_floor(x, y - 1) {
            unvisited.push(Position(x, y - 1));
        }
        assert(unvisited@ =~= unseen_floor(grid, x as int, y + 1) + unseen_floor(
            grid,
            x as int,
            y - 1,
        ));
        if self.is_unvisited_floor(x + 1, y) {
            unvisited.push(Position(x + 1, y));
        }
        assert(unvisited@ =~= unseen_floor(grid, x as int, y + 1) + unseen_floor(
            grid,
            x as int,
            y - 1,
        ) + unseen_floor(grid, x + 1, y as int));
        if x > 0 && self.is_unvisited_floor(x - 1, y) {
            unvisited.push(Position(x - 1, y));
        }
        assert(unvisited@ =~= unseen_floor_around(grid, x as int, y as int));
        unvisited
    }

    /// The first of the unvisited floor cells next to the raw cell
    /// `position`, in the order of `unvisited_floor_neighbours`.
    pub fn any_unvisited_neighbour(&self, position: Position) -> (found: Option<Position>)
        requires
            self.wf(),
            self.grid().holds(position.0 as int, position.1 as int),
        ensures
            found == if unseen_floor_around(
                self.grid(),
                position.0 as int,
                position.1 as int,
            ).len() == 0 {
                None
            } else {
                Some(unseen_floor_around(self.grid(), position.0 as int, position.1 as int)[0])
            },
    {
        let unvisited = self.unvisited_floor_neighbours(position);
        if unvisited.len() == 0 {
            None
        } else {
            Some(unvisited[0])
        }
    }

    /// Looks for a way through the maze and keeps it: a depth-first search
    /// over floor from the entrance, the first floor cell of the west
    /// border, which stops at the first cell of the east border that it
    /// reaches. The way depends on the kinds of the cells alone: the marks
    /// that they carry are taken from them first. Each step goes to the first unvisited floor cell next to the
    /// last cell of the walk, and takes that last cell back where there is
    /// none. Where the maze has no entrance, or the east border cannot be
    /// reached from it, no way is kept.
    pub fn solve(&mut self)
        requires
            old(self).wf(),
        ensures
            final(self).wf(),
            final(self).grid().same_kinds(old(self).grid()),
            final(self).solution() == kept_way(old(self).grid()),
            forall|other: Grid|
                other.same_kinds(old(self).grid()) ==> final(self).solution() == #[trigger] kept_way(
                    other,
                ),
            final(self).solution().len() > 0 <==> has_way_through(final(self).grid()),
            final(self).solution().len() > 0 ==> is_way_through(
                final(self).grid(),
                final(self).solution(),
            ),
    {
        proof {
            self.lemma_grid_wf();
            assert forall|other: Grid| other.same_kinds(old(self).grid()) implies #[trigger] kept_way(
                other,
            ) == kept_way(old(self).grid()) by {
                lemma_kept_way_of_kinds(other, old(self).grid());
            }
        }
        self.path.clear();
        let raw_height = self.height * 2 + 1;
        let east = self.width * 2;
        self.unvisit_all();
        let ghost clear = self.grid();
        let ghost plan = floor_plan(clear);
        let ghost kept = kept_way(clear);
        proof {
            lemma_kept_way_of_kinds(clear, old(self).grid());
        }
        let mut start: Option<Position> = None;
        let mut y: usize = 0;
        while y < raw_height && start.is_none()
            invariant
                self.wf(),
                self.grid() == clear,
                raw_height == clear.raw_height(),
                y <= raw_height,
                forall|v: int| 0 <= v < y ==> !#[trigger] clear.floor(0, v),
                match start {
                    Some(found) => found == Position(0, y) && clear.floor(0, y as int),
                    None => true,
                },
            decreases raw_height - y, (if start.is_none() { 1int } else { 0int }),
        {
            match self.raw_cell_at(0, y) {
                Some(cell) => {
                    if cell.cell_type == CellType::Floor {
                        start = Some(Position(0, y));
                    } else {
                        y += 1;
                    }
                },
                None => {
                    y += 1;
                },
            }
        }
        let mut current = match start {
            Some(found) => found,
            None => {
                proof {
                    if has_way_through(clear) {
                        let (gate, e) = choose|gate: int, e: int|
                            is_west_gate(clear, gate) && #[trigger] reaches_east(
                                clear,
                                gate,
                                e,
                            );
                        assert(clear.floor(0, gate));
                    }
                    lemma_no_entrance(clear);
                }
                return ;
            },
        };
        let ghost sy = y as int;
        self.mark_visited(current.0, current.1);
        self.path.push(current);
        let ghost mut marked = Set::<(int, int)>::empty().insert((0, sy));
        let ghost cells = clear.raw_width() * clear.raw_height();
        let ghost mut steps = search_steps(clear);
        proof {
            lemma_solving_starts(clear, sy);
            lemma_visit_effect(clear, 0, sy);
            assert(self.path@ =~= seq![raw(0, sy)]);
            lemma_entrance(clear, sy);
            lemma_kept_way_of_kinds(self.grid(), clear);
            assert(cells >= 1) by (nonlinear_arith)
                requires
                    cells == clear.raw_width() * clear.raw_height(),
                    clear.raw_width() >= 1,
                    clear.raw_height() >= 1,
            ;
        }
        while self.path.len() > 0 && current.0 < east
            invariant
                self.wf(),
                self.grid().same_kinds(old(self).grid()),
                east == self.grid().east(),
                solving(self.grid(), sy, self.path@, marked),
                self.path@.len() > 0 ==> current == self.path@.last(),
                floor_plan(self.grid()) == plan,
                cells == self.grid().raw_width() * self.grid().raw_height(),
                marked.len() <= cells,
                steps >= 2 * (cells - marked.len()) + self.path@.len(),
                searched(plan, east as int, marked, self.path@, steps) == kept,
            decreases
                    self.grid().raw_width() * self.grid().raw_height() - marked.len(),
                    self.path@.len(),
        {
            let ghost before = self.grid();
            let ghost walk = self.path@;
            proof {
                assert(before.seen(current.0 as int, current.1 as int));
                lemma_unseen_floor_around(before, current.0 as int, current.1 as int);
            }
            match self.any_unvisited_neighbour(current) {
                Some(next) => {
                    proof {
                        let around = unseen_floor_around(
                            before,
                            current.0 as int,
                            current.1 as int,
                        );
                        assert(around[0] == next);
                        lemma_free_floor_around(
                            before,
                            marked,
                            current.0 as int,
                            current.1 as int,
                        );
                        lemma_searched_advances(plan, east as int, marked, walk, steps);
                        lemma_solving_advances(
                            before,
                            sy,
                            walk,
                            marked,
                            next.0 as int,
                            next.1 as int,
                        );
                        lemma_visit_effect(before, next.0 as int, next.1 as int);
                    }
                    self.mark_visited(next.0, next.1);
                    self.path.push(next);
                    current = next;
                    proof {
                        assert(self.path@ =~= walk.push(
                            raw(next.0 as int, next.1 as int),
                        ));
                        marked = marked.insert((next.0 as int, next.1 as int));
                        steps = (steps - 1) as nat;
                        lemma_kept_way_of_kinds(self.grid(), before);
                    }
                },
                None => {
                    proof {
                        lemma_solving_retreats(before, sy, walk, marked);
                        lemma_free_floor_around(
                            before,
                            marked,
                            current.0 as int,
                            current.1 as int,
                        );
                        lemma_searched_retreats(plan, east as int, marked, walk, steps);
                        steps = (steps - 1) as nat;
                    }
                    self.path.pop();
                    assert(self.path@ =~= walk.drop_last());
                    if self.path.len() > 0 {
                        current = self.path[self.path.len() - 1];
                    }
                },
            }
        }
        proof {
            lemma_searched_stops(plan, east as int, marked, self.path@, steps);
            if self.path@.len() == 0 {
                assert(self.path@ =~= Seq::<Position>::empty());
                lemma_solving_fails(self.grid(), sy, marked);
            } else {
                lemma_solving_succeeds(self.grid(), sy, self.path@, marked);
            }
        }
    }

    /// The way through the maze, from the entrance to the exit; empty where
    /// the maze has none.
    pub fn solution_path(&self) -> (path: &Vec<Position>)
        ensures
            path@ == self.solution(),
    {
        &self.path
    }

    /// Builds a maze of `width` by `height` rooms from fresh draws: carves
    /// it, opens an entrance and an exit, and finds the way through, of
    /// which there is one only. The draws are those of the first room, then
    /// one for each wall that is opened, then the row of the entrance and the
    /// row of the exit.
    pub fn build(width: usize, height: usize, draws: &mut Draws) -> (result: Result<
        Maze,
        MazeError,
    >)
        requires
            old(draws).wf(),
            old(draws).log().len() == 0,
        ensures
            final(draws).wf(),
            final(draws).listed() == old(draws).listed(),
            match result {
                Ok(maze) => {
                    &&& maze.wf()
                    &&& maze.grid().width == width
                    &&& maze.grid().height == height
                    &&& maze.grid().is_perfect()
                    &&& exists|west: int, east: int| #[trigger] has_gates(maze.grid(), west, east)
                    &&& is_way_through(maze.grid(), maze.solution())
                    &&& forall|way: Seq<Position>| #[trigger]
                        is_way_through(maze.grid(), way) ==> way == maze.solution()
                    &&& forall|all: Seq<usize>| #[trigger]
                        extends(all, final(draws).log()) ==> maze.grid().same_kinds(
                            built(width as nat, height as nat, all),
                        )
                },
                Err(MazeError::EmptyGrid) => width == 0 || height == 0,
                Err(MazeError::TooLarge) => width > 0 && height > 0 && (2 * width + 1) * (2
                    * height + 1) > usize::MAX,
            },
    {
        let mut maze = match Maze::blank(width, height) {
            Ok(maze) => maze,
            Err(error) => {
                return Err(error);
            },
        };
        let ghost blank = maze.grid();
        proof {
            maze.lemma_grid_wf();
            lemma_blank_grid(blank);
        }
        maze.initialise_maze(draws);
        let ghost carved_grid = maze.grid();
        let ghost carving_log = draws.log();
        maze.collapse_entry_and_exit(draws);
        let ghost gated_grid = maze.grid();
        let ghost (west, east) = choose|west: int, east: int| #[trigger]
            gates_opened(carved_grid, gated_grid, west, east);
        proof {
            lemma_gates_opened(carved_grid, gated_grid, west, east);
        }
        maze.solve();
        proof {
            maze.lemma_grid_wf();
            lemma_same_kinds_same_floor(maze.grid(), gated_grid);
            lemma_same_floor_keeps(gated_grid, maze.grid(), west, east);
            lemma_gated_maze_has_way(maze.grid(), west, east);
            assert forall|way: Seq<Position>| #[trigger]
                is_way_through(maze.grid(), way) implies way == maze.solution() by {
                lemma_one_way_through(maze.grid(), west, east, way, maze.solution());
            }
            assert forall|all: Seq<usize>| #[trigger]
                extends(all, draws.log()) implies maze.grid().same_kinds(
                built(width as nat, height as nat, all),
            ) by {
                lemma_extends_shorter(all, draws.log(), carving_log);
                assert(carved_grid == carved_maze(blank, all, 0));
                assert(gated_grid == gated(carved_grid, all, carving_log.len() as int));
                assert(gated_grid == built(width as nat, height as nat, all));
            }
        }
        Ok(maze)
    }

    /// Builds a maze of `width` by `height` rooms with the draws of the
    /// generator `rng`. Whatever is drawn, the maze is perfect, has its two
    /// gates and holds a way through; and it is the maze that its draws
    /// build.
    pub fn new(width: usize, height: usize, rng: StdRng) -> (result: Result<Maze, MazeError>)
        ensures
            match result {
                Ok(maze) => {
                    &&& maze.wf()
                    &&& maze.grid().width == width
                    &&& maze.grid().height == height
                    &&& maze.grid().is_perfect()
                    &&& exists|west: int, east: int| #[trigger] has_gates(maze.grid(), west, east)
                    &&& is_way_through(maze.grid(), maze.solution())
                    &&& forall|way: Seq<Position>| #[trigger]
                        is_way_through(maze.grid(), way) ==> way == maze.solution()
                    &&& exists|values: Seq<usize>|
                        maze.grid().same_kinds(#[trigger] built(width as nat, height as nat, values))
                },
                Err(MazeError::EmptyGrid) => width == 0 || height == 0,
                Err(MazeError::TooLarge) => width > 0 && height > 0 && (2 * width + 1) * (2
                    * height + 1) > usize::MAX,
            },
    {
        let mut draws = Draws::from_generator(rng);
        let result = Maze::build(width, height, &mut draws);
        proof {
            lemma_extends_itself(draws.log());
            if result is Ok {
                assert(result->Ok_0.grid().same_kinds(
                    built(width as nat, height as nat, draws.log()),
                ));
            }
        }
        result
    }

    /// Builds the maze of `width` by `height` rooms that the draws of
    /// `values` build, each reduced modulo the number of choices of its
    /// draw; a list that runs out goes on with zeros. The same size and the
    /// same list give the same maze.
    pub fn from_draws(width: usize, height: usize, values: Vec<usize>) -> (result: Result<
        Maze,
        MazeError,
    >)
        ensures
            match result {
                Ok(maze) => {
                    &&& maze.wf()
                    &&& maze.grid().width == width
                    &&& maze.grid().height == height
                    &&& maze.grid().is_perfect()
                    &&& exists|west: int, east: int| #[trigger] has_gates(maze.grid(), west, east)
                    &&& is_way_through(maze.grid(), maze.solution())
                    &&& forall|way: Seq<Position>| #[trigger]
                        is_way_through(maze.grid(), way) ==> way == maze.solution()
                    &&& maze.grid().same_kinds(built(width as nat, height as nat, values@))
                },
                Err(MazeError::EmptyGrid) => width == 0 || height == 0,
                Err(MazeError::TooLarge) => width > 0 && height > 0 && (2 * width + 1) * (2
                    * height + 1) > usize::MAX,
            },
    {
        let ghost listed = values@;
        let mut draws = Draws::from_values(values);
        let result = Maze::build(width, height, &mut draws);
        proof {
            draws.lemma_listed_extends();
        }
        result
    }

    /// Builds the maze of `Maze::new` with the generator that `seed` gives.
    pub fn with_seed(width: usize, height: usize, seed: u64) -> (result: Result<Maze, MazeError>)
        ensures
            match result {
                Ok(maze) => {
                    &&& maze.wf()
                    &&& maze.grid().width == width
                    &&& maze.grid().height == height
                    &&& maze.grid().is_perfect()
                    &&& exists|west: int, east: int| #[trigger] has_gates(maze.grid(), west, east)
                    &&& is_way_through(maze.grid(), maze.solution())
                    &&& forall|way: Seq<Position>| #[trigger]
                        is_way_through(maze.grid(), way) ==> way == maze.solution()
                    &&& exists|values: Seq<usize>|
                        maze.grid().same_kinds(#[trigger] built(width as nat, height as nat, values))
                },
                Err(MazeError::EmptyGrid) => width == 0 || height == 0,
                Err(MazeError::TooLarge) => width > 0 && height > 0 && (2 * width + 1) * (2
                    * height + 1) > usize::MAX,
            },
    {
        Maze::new(width, height, seed_from_u64(seed))
    }

    /// Tells whether the cell at the place `along` of a line lies in the
    /// grid and is wall.
    fn is_wall_along(&self, horizontal: bool, line: usize, along: usize) -> (wall: bool)
        requires
            self.wf(),
        ensures
            wall == wall_along(self.grid(), horizontal, line as int, along as int),
    {
        let found = if horizontal {
            self.raw_cell_at(along, line)
        } else {
            self.raw_cell_at(line, along)
        };
        match found {
            Some(cell) => cell.cell_type == CellType::Wall,
            None => false,
        }
    }

    /// Adds to `walls` the walls of one line, in their order along it.
    fn scan_line(&self, horizontal: bool, line: usize, walls: &mut Vec<Wall>)
        requires
            self.wf(),
            line < line_count(self.grid(), horizontal),
        ensures
            final(walls)@ == old(walls)@ + line_runs(
                self.grid(),
                horizontal,
                line as int,
                line_length(self.grid(), horizontal),
            ),
    {
        proof {
            self.lemma_grid_wf();
        }
        let ghost grid = self.grid();
        let length = if horizontal {
            self.width * 2 + 1
        } else {
            self.height * 2 + 1
        };
        let mut along: usize = 0;
        let mut start: usize = 0;
        let mut in_run = false;
        assert(walls@ =~= old(walls)@ + line_runs(grid, horizontal, line as int, 0));
        while along < length
            invariant
                self.wf(),
                grid == self.grid(),
                length == line_length(grid, horizontal),
                length <= usize::MAX,
                along <= length,
                walls@ == old(walls)@ + line_runs(grid, horizontal, line as int, along as int),
                in_run == (along > 0 && wall_along(grid, horizontal, line as int, along - 1)),
                in_run ==> start == run_start(grid, horizontal, line as int, along - 1),
            decreases length - along,
        {
            let ghost before = walls@;
            let wall = self.is_wall_along(horizontal, line, along);
            if wall {
                if !in_run {
                    start = along;
                }
                assert(start == run_start(grid, horizontal, line as int, along as int));
                let more = along + 1 < length && self.is_wall_along(horizontal, line, along + 1);
                assert(more == wall_along(grid, horizontal, line as int, along + 1));
                if !more && start < along {
                    let found = if horizontal {
                        Wall(Position(start, line), Position(along, line))
                    } else {
                        Wall(Position(line, start), Position(line, along))
                    };
                    proof {
                        lemma_run_start(grid, horizontal, line as int, along as int);
                    }
                    assert(found == run_wall(horizontal, line as int, start as int, along as int));
                    walls.push(found);
                }
            }
            in_run = wall;
            along += 1;
            assert(walls@ =~= old(walls)@ + line_runs(
                grid,
                horizontal,
                line as int,
                along as int,
            ));
        }
    }

    /// Adds to `walls` the walls of every row where `horizontal`, else of
    /// every column.
    fn scan_lines(&self, horizontal: bool, walls: &mut Vec<Wall>)
        requires
            self.wf(),
        ensures
            final(walls)@ == old(walls)@ + runs_of_lines(
                self.grid(),
                horizontal,
                line_count(self.grid(), horizontal),
            ),
    {
        proof {
            self.lemma_grid_wf();
        }
        let ghost grid = self.grid();
        let count = if horizontal {
            self.height * 2 + 1
        } else {
            self.width * 2 + 1
        };
        let mut line: usize = 0;
        assert(walls@ =~= old(walls)@ + runs_of_lines(grid, horizontal, 0));
        while line < count
            invariant
                self.wf(),
                grid == self.grid(),
                count == line_count(grid, horizontal),
                line <= count,
                walls@ == old(walls)@ + runs_of_lines(grid, horizontal, line as int),
            decreases count - line,
        {
            self.scan_line(horizontal, line, walls);
            line += 1;
            assert(walls@ =~= old(walls)@ + runs_of_lines(grid, horizontal, line as int));
        }
    }

    /// The walls of the maze as straight strokes: one for each run of two
    /// wall cells or more that cannot be made longer, row by row from the
    /// top and then column by column from the left, each run once. A wall
    /// cell that stands alone in its row gives no stroke along that row,
    /// and none along its column where it stands alone there.
    pub fn walls(&self) -> (walls: Vec<Wall>)
        requires
            self.wf(),
        ensures
            walls@ == wall_runs(self.grid()),
            forall|i: int| 0 <= i < walls@.len() ==> spans_run(self.grid(), #[trigger] walls@[i]),
            forall|i: int| 0 <= i < walls@.len() ==> (#[trigger] walls@[i]).0 != walls@[i].1,
            forall|i: int, j: int| 0 <= i < j < walls@.len() ==> walls@[i] != walls@[j],
            forall|horizontal: bool, line: int, from: int, to: int|
                from < to && is_run(self.grid(), horizontal, line, from, to) ==> walls@.contains(
                    #[trigger] run_wall(horizontal, line, from, to),
                ),
    {
        let mut walls: Vec<Wall> = Vec::new();
        self.scan_lines(true, &mut walls);
        self.scan_lines(false, &mut walls);
        proof {
            self.lemma_grid_wf();
            lemma_wall_runs(self.grid());
            lemma_wall_runs_once(self.grid());
            assert(walls@ =~= wall_runs(self.grid()));
        }
        walls
    }

    /// The maze as text. A maze of more than 20 rooms either way is only
    /// named with its size. A smaller one is drawn, row by row: a hash sign
    /// for each wall and a blank for each floor cell, with a blank between
    /// two cells and a line feed at the end of each row.
    pub fn description(&self) -> (text: String)
        requires
            self.wf(),
        ensures
            text@ == description_text(self.grid()),
    {
        proof {
            self.lemma_grid_wf();
        }
        let ghost grid = self.grid();
        let mut description = String::new();
        if self.width > 20 || self.height > 20 {
            push_text(&mut description, "Maze of dimension ");
            push_decimal(&mut description, self.width);
            push_char(&mut description, 'x');
            push_decimal(&mut description, self.height);
            assert(description@ =~= description_text(grid));
            return description;
        }
        let raw_width = self.width * 2 + 1;
        let raw_height = self.height * 2 + 1;
        let mut y: usize = 0;
        assert(description@ =~= rows_text(grid, 0));
        while y < raw_height
            invariant
                self.wf(),
                grid == self.grid(),
                raw_width == grid.raw_width(),
                raw_height == grid.raw_height(),
                y <= raw_height,
                description@ == rows_text(grid, y as int),
            decreases raw_height - y,
        {
            let ghost above = description@;
            let mut x: usize = 0;
            assert(description@ =~= above + row_text(grid, y as int, 0));
            while x < raw_width
                invariant
                    self.wf(),
                    grid == self.grid(),
                    raw_width == grid.raw_width(),
                    raw_height == grid.raw_height(),
                    y < raw_height,
                    x <= raw_width,
                    description@ == above + row_text(grid, y as int, x as int),
                decreases raw_width - x,
            {
                let index = self.index_of(x, y);
                let character = match self.data[index].cell_type {
                    CellType::Floor => ' ',
                    CellType::Wall => '#',
                };
                push_char(&mut description, character);
                if x + 1 == raw_width {
                    push_char(&mut description, '\n');
                } else {
                    push_char(&mut description, ' ');
                }
                x += 1;
                assert(description@ =~= above + row_text(grid, y as int, x as int));
            }
            y += 1;
        }
        description
    }
}

} // verus!
