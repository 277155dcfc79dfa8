use paintings::maze::{Cell, CellType, Maze, MazeError, Orientation, Position, Wall};
use paintings::random::Draws;
use rand::rngs::StdRng;
use rand::SeedableRng;

fn floor(maze: &Maze, x: usize, y: usize) -> bool {
    maze.raw_cell_at(x, y).map(|cell| cell.cell_type == CellType::Floor).unwrap_or(false)
}

/// The kinds of the raw grid, row by row: `true` for floor.
fn kinds(maze: &Maze) -> Vec<Vec<bool>> {
    (0..=2 * maze.height())
        .map(|y| (0..=2 * maze.width()).map(|x| floor(maze, x, y)).collect())
        .collect()
}

fn picture(rows: &[&str]) -> Vec<Vec<bool>> {
    rows.iter().map(|row| row.chars().map(|c| c == ' ').collect()).collect()
}

fn open_inner_walls(maze: &Maze) -> usize {
    let mut count = 0;
    for y in 1..2 * maze.height() {
        for x in 1..2 * maze.width() {
            if (x + y) % 2 == 1 && floor(maze, x, y) {
                count += 1;
            }
        }
    }
    count
}

/// The raw cells that can be reached over floor from `(x, y)`.
fn reached_from(maze: &Maze, x: usize, y: usize) -> Vec<Vec<bool>> {
    let raw_width = 2 * maze.width() + 1;
    let raw_height = 2 * maze.height() + 1;
    let mut reached = vec![vec![false; raw_width]; raw_height];
    let mut pending = vec![(x, y)];
    reached[y][x] = true;
    while let Some((x, y)) = pending.pop() {
        let mut around = vec![(x + 1, y), (x, y + 1)];
        if x > 0 {
            around.push((x - 1, y));
        }
        if y > 0 {
            around.push((x, y - 1));
        }
        for (nx, ny) in around {
            if floor(maze, nx, ny) && !reached[ny][nx] {
                reached[ny][nx] = true;
                pending.push((nx, ny));
            }
        }
    }
    reached
}

fn assert_perfect(maze: &Maze) {
    let width = maze.width();
    let height = maze.height();
    assert_eq!(open_inner_walls(maze), width * height - 1);
    let reached = reached_from(maze, 1, 1);
    for cy in 0..height {
        for cx in 0..width {
            assert!(floor(maze, 2 * cx + 1, 2 * cy + 1));
            assert!(reached[2 * cy + 1][2 * cx + 1]);
            assert_eq!(
                maze.cell_at(Position(cx, cy)).map(|cell| cell.cell_type),
                Some(CellType::Floor)
            );
        }
    }
    for y in (0..=2 * height).step_by(2) {
        for x in (0..=2 * width).step_by(2) {
            assert!(!floor(maze, x, y));
        }
    }
    let west: Vec<usize> = (0..=2 * height).filter(|&y| floor(maze, 0, y)).collect();
    let east: Vec<usize> = (0..=2 * height).filter(|&y| floor(maze, 2 * width, y)).collect();
    assert_eq!(west.len(), 1);
    assert_eq!(east.len(), 1);
    assert_eq!(west[0] % 2, 1);
    assert_eq!(east[0] % 2, 1);
    for x in 0..=2 * width {
        assert!(!floor(maze, x, 0));
        assert!(!floor(maze, x, 2 * height));
    }
}

fn assert_way_through(maze: &Maze) {
    let path = maze.solution_path();
    assert!(!path.is_empty());
    assert_eq!(path[0].0, 0);
    assert_eq!(path[path.len() - 1].0, 2 * maze.width());
    for position in path.iter() {
        assert!(floor(maze, position.0, position.1));
    }
    for pair in path.windows(2) {
        let dx = pair[0].0.abs_diff(pair[1].0);
        let dy = pair[0].1.abs_diff(pair[1].1);
        assert_eq!(dx + dy, 1);
    }
    for (i, position) in path.iter().enumerate() {
        assert!(!path[..i].contains(position));
        if i + 1 < path.len() {
            assert!(position.0 < 2 * maze.width());
        }
    }
    let first_gate = (0..=2 * maze.height()).find(|&y| floor(maze, 0, y)).unwrap();
    assert_eq!(path[0], Position(0, first_gate));
}

#[test]
fn a_blank_cell_is_an_unvisited_wall() {
    assert_eq!(Cell::blank(), Cell { visited: false, cell_type: CellType::Wall });
}

#[test]
fn a_position_is_made_of_a_pair() {
    assert_eq!(Position::from((3, 4)), Position(3, 4));
    let position: Position = (0, 9).into();
    assert_eq!(position, Position(0, 9));
}

#[test]
fn a_wall_runs_along_the_axis_on_which_its_ends_differ() {
    assert_eq!(
        Wall(Position(0, 2), Position(4, 2)).orientation(),
        Some(Orientation::Horizontal)
    );
    assert_eq!(Wall(Position(3, 0), Position(3, 6)).orientation(), Some(Orientation::Vertical));
    assert_eq!(Wall(Position(3, 3), Position(3, 3)).orientation(), None);
    assert_eq!(
        Wall(Position(0, 0), Position(1, 1)).orientation(),
        Some(Orientation::Horizontal)
    );
}

#[test]
fn a_maze_without_rooms_is_refused() {
    assert_eq!(Maze::with_seed(0, 3, 1).err(), Some(MazeError::EmptyGrid));
    assert_eq!(Maze::with_seed(3, 0, 1).err(), Some(MazeError::EmptyGrid));
    assert_eq!(Maze::with_seed(0, 0, 1).err(), Some(MazeError::EmptyGrid));
    assert_eq!(Maze::from_draws(0, 1, vec![1, 2, 3]).err(), Some(MazeError::EmptyGrid));
    assert_eq!(Maze::blank(0, usize::MAX).err(), Some(MazeError::EmptyGrid));
    assert_eq!(
        Maze::new(4, 0, StdRng::seed_from_u64(5)).err(),
        Some(MazeError::EmptyGrid)
    );
}

#[test]
fn a_maze_too_large_to_count_is_refused() {
    assert_eq!(Maze::blank(usize::MAX, 1).err(), Some(MazeError::TooLarge));
    assert_eq!(Maze::blank(1, usize::MAX / 2).err(), Some(MazeError::TooLarge));
    assert_eq!(Maze::blank(usize::MAX / 2, usize::MAX / 2).err(), Some(MazeError::TooLarge));
    assert_eq!(Maze::blank(usize::MAX / 4, usize::MAX / 4).err(), Some(MazeError::TooLarge));
    assert_eq!(Maze::with_seed(usize::MAX / 2 + 1, 1, 3).err(), Some(MazeError::TooLarge));
    assert_eq!(Maze::from_draws(1, usize::MAX, Vec::new()).err(), Some(MazeError::TooLarge));
}

#[test]
fn a_blank_maze_is_all_wall() {
    let maze = Maze::blank(3, 2).unwrap();
    assert_eq!(maze.width(), 3);
    assert_eq!(maze.height(), 2);
    for y in 0..=4 {
        for x in 0..=6 {
            assert_eq!(maze.raw_cell_at(x, y), Some(Cell::blank()));
        }
    }
    assert!(maze.solution_path().is_empty());
}

#[test]
fn the_raw_grid_ends_at_twice_the_size() {
    let maze = Maze::with_seed(3, 2, 9).unwrap();
    // The last column and the last row lie in the grid.
    assert!(maze.raw_cell_at(6, 0).is_some());
    assert!(maze.raw_cell_at(0, 4).is_some());
    assert!(maze.raw_cell_at(6, 4).is_some());
    // One step further they do not.
    assert_eq!(maze.raw_cell_at(7, 0), None);
    assert_eq!(maze.raw_cell_at(0, 5), None);
    assert_eq!(maze.raw_cell_at(7, 5), None);
    assert_eq!(maze.raw_cell_at(usize::MAX, 0), None);
    assert_eq!(maze.raw_cell_at(0, usize::MAX), None);
}

#[test]
fn the_rooms_end_at_the_size() {
    let maze = Maze::with_seed(3, 2, 9).unwrap();
    assert!(maze.cell_at(Position(2, 1)).is_some());
    assert!(maze.cell_at(Position(0, 0)).is_some());
    assert_eq!(maze.cell_at(Position(3, 0)), None);
    assert_eq!(maze.cell_at(Position(0, 2)), None);
    assert_eq!(maze.cell_at(Position(usize::MAX, usize::MAX)), None);
    assert_eq!(maze.cell_at(Position(1, 1)), maze.raw_cell_at(3, 3));
}

#[test]
fn a_maze_of_one_room_has_a_straight_way_through() {
    for seed in 0..5 {
        let maze = Maze::with_seed(1, 1, seed).unwrap();
        assert_eq!(kinds(&maze), picture(&["###", "   ", "###"]));
        assert_eq!(
            maze.solution_path(),
            &vec![Position(0, 1), Position(1, 1), Position(2, 1)]
        );
    }
}

#[test]
fn listed_draws_build_the_maze_that_they_name() {
    // First room (1, 1); then up, left and down; entrance in row 1, exit in row 0.
    let maze = Maze::from_draws(2, 2, vec![1, 1, 0, 0, 0, 1, 0]).unwrap();
    assert_eq!(
        kinds(&maze),
        picture(&["#####", "#    ", "# # #", "  # #", "#####"])
    );
    assert_eq!(
        maze.solution_path(),
        &vec![
            Position(0, 3),
            Position(1, 3),
            Position(1, 2),
            Position(1, 1),
            Position(2, 1),
            Position(3, 1),
            Position(4, 1),
        ]
    );
    assert_perfect(&maze);
    assert_way_through(&maze);
}

#[test]
fn a_draw_counts_modulo_the_number_of_choices() {
    let plain = Maze::from_draws(2, 2, vec![1, 1, 0, 0, 0, 1, 0]).unwrap();
    let large = Maze::from_draws(2, 2, vec![3, 5, 2, 7, 9, 3, 4]).unwrap();
    assert_eq!(kinds(&large), kinds(&plain));
    assert_eq!(large.solution_path(), plain.solution_path());
    // The other room beside the first one: to the left.
    let other = Maze::from_draws(2, 2, vec![1, 1, 1, 0, 0, 1, 0]).unwrap();
    assert_eq!(
        kinds(&other),
        picture(&["#####", "#    ", "# ###", "    #", "#####"])
    );
}

#[test]
fn draws_that_run_out_count_as_zero() {
    let short = Maze::from_draws(2, 1, Vec::new()).unwrap();
    let zeros = Maze::from_draws(2, 1, vec![0, 0, 0, 0, 0]).unwrap();
    assert_eq!(kinds(&short), kinds(&zeros));
    assert_eq!(kinds(&short), picture(&["#####", "     ", "#####"]));
    assert_eq!(
        short.solution_path(),
        &vec![Position(0, 1), Position(1, 1), Position(2, 1), Position(3, 1), Position(4, 1)]
    );
}

#[test]
fn the_same_draws_give_the_same_maze() {
    let values = vec![4, 9, 1, 3, 0, 2, 2, 7, 5, 1, 8, 6, 0, 3, 11, 2, 4, 9, 1];
    let one = Maze::from_draws(4, 4, values.clone()).unwrap();
    let two = Maze::from_draws(4, 4, values).unwrap();
    assert_eq!(kinds(&one), kinds(&two));
    assert_eq!(one.solution_path(), two.solution_path());
    assert_perfect(&one);
    assert_way_through(&one);
}

#[test]
fn the_same_seed_gives_the_same_maze() {
    let one = Maze::with_seed(9, 6, 42).unwrap();
    let two = Maze::new(9, 6, StdRng::seed_from_u64(42)).unwrap();
    assert_eq!(kinds(&one), kinds(&two));
    assert_eq!(one.solution_path(), two.solution_path());
    assert_eq!(one.description(), two.description());
}

#[test]
fn a_carved_maze_is_a_spanning_tree_of_its_rooms() {
    for (width, height) in [(1, 1), (1, 5), (6, 1), (2, 2), (3, 3), (7, 4), (12, 9)] {
        for seed in 0..12 {
            let maze = Maze::with_seed(width, height, seed).unwrap();
            assert_eq!(maze.width(), width);
            assert_eq!(maze.height(), height);
            assert_perfect(&maze);
        }
    }
}

#[test]
fn the_way_through_walks_over_floor_from_west_to_east() {
    for (width, height) in [(1, 1), (1, 5), (6, 1), (2, 2), (3, 3), (7, 4), (12, 9)] {
        for seed in 0..12 {
            assert_way_through(&Maze::with_seed(width, height, seed).unwrap());
        }
    }
}

/// A maze of 3 by 1 rooms whose rooms are floor, with the walls between them as given.
fn corridor(open_first: bool, open_second: bool) -> Maze {
    let mut maze = Maze::blank(3, 1).unwrap();
    for x in 0..3 {
        // The cell half-way between a room and itself is its own cell.
        maze.collapse_wall_between(Position(x, 0), Position(x, 0));
    }
    if open_first {
        maze.collapse_wall_between(Position(0, 0), Position(1, 0));
    }
    if open_second {
        maze.collapse_wall_between(Position(2, 0), Position(1, 0));
    }
    maze.open_gates(0, 0);
    maze
}

#[test]
fn a_wall_is_opened_half_way_between_two_rooms() {
    let mut maze = corridor(true, false);
    assert_eq!(kinds(&maze), picture(&["#######", "    #  ", "#######"]));
    maze.collapse_wall_between(Position(1, 0), Position(2, 0));
    assert_eq!(kinds(&maze), picture(&["#######", "       ", "#######"]));
}

#[test]
fn a_way_is_found_where_there_is_one() {
    let mut maze = corridor(true, true);
    maze.solve();
    assert_eq!(
        maze.solution_path(),
        &(0..7).map(|x| Position(x, 1)).collect::<Vec<_>>()
    );
    // Solving again gives the same way.
    maze.solve();
    assert_eq!(maze.solution_path().len(), 7);
    assert_way_through(&maze);
}

#[test]
fn no_way_is_kept_where_a_wall_is_in_the_way() {
    let mut maze = corridor(true, false);
    maze.solve();
    assert!(maze.solution_path().is_empty());
    let mut maze = corridor(false, true);
    maze.solve();
    assert!(maze.solution_path().is_empty());
}

#[test]
fn no_way_is_kept_where_there_is_no_entrance() {
    let mut maze = Maze::blank(2, 2).unwrap();
    maze.solve();
    assert!(maze.solution_path().is_empty());
    let mut maze = Maze::blank(2, 2).unwrap();
    maze.open_gates(1, 0);
    maze.solve();
    assert!(maze.solution_path().is_empty());
    assert_eq!(kinds(&maze), picture(&["#####", "#### ", "#####", " ####", "#####"]));
}

#[test]
fn the_search_takes_the_first_free_cell_below_above_right_left() {
    let maze = Maze::from_draws(2, 2, vec![1, 1, 0, 0, 0, 1, 0]).unwrap();
    assert_eq!(maze.any_unvisited_neighbour(Position(0, 0)), None);
    // After the search only the dead end below (3, 1) and the way itself are visited.
    let visited: Vec<(usize, usize)> = (0..5)
        .flat_map(|y| (0..5).map(move |x| (x, y)))
        .filter(|&(x, y)| maze.raw_cell_at(x, y).unwrap().visited)
        .collect();
    assert_eq!(
        visited,
        vec![(1, 1), (2, 1), (3, 1), (4, 1), (1, 2), (3, 2), (0, 3), (1, 3), (3, 3)]
    );
    let mut fresh = corridor(true, true);
    assert_eq!(
        fresh.unvisited_floor_neighbours(Position(3, 1)),
        vec![Position(4, 1), Position(2, 1)]
    );
    assert_eq!(fresh.any_unvisited_neighbour(Position(3, 1)), Some(Position(4, 1)));
    assert_eq!(fresh.any_unvisited_neighbour(Position(0, 0)), Some(Position(0, 1)));
    assert_eq!(fresh.any_unvisited_neighbour(Position(6, 2)), Some(Position(6, 1)));
    assert_eq!(fresh.any_unvisited_neighbour(Position(3, 0)), Some(Position(3, 1)));
    assert_eq!(fresh.any_unvisited_neighbour(Position(2, 2)), Some(Position(2, 1)));
    assert_eq!(fresh.any_unvisited_neighbour(Position(0, 2)), Some(Position(0, 1)));
    assert_eq!(fresh.any_unvisited_neighbour(Position(6, 0)), Some(Position(6, 1)));
    fresh.solve();
    assert_eq!(fresh.unvisited_floor_neighbours(Position(3, 1)), Vec::new());
}

#[test]
fn the_rooms_beside_a_room_come_below_above_right_left() {
    let maze = Maze::blank(3, 3).unwrap();
    assert_eq!(
        maze.unvisited_neighbours(Position(1, 1)),
        vec![Position(1, 2), Position(1, 0), Position(2, 1), Position(0, 1)]
    );
    assert_eq!(
        maze.unvisited_neighbours(Position(0, 0)),
        vec![Position(0, 1), Position(1, 0)]
    );
    assert_eq!(
        maze.unvisited_neighbours(Position(2, 2)),
        vec![Position(2, 1), Position(1, 2)]
    );
    let carved = Maze::with_seed(3, 3, 4).unwrap();
    // The search for the way through has taken the marks of the carving away.
    assert_eq!(Maze::blank(1, 1).unwrap().unvisited_neighbours(Position(0, 0)), Vec::new());
    assert!(carved.unvisited_neighbours(Position(1, 1)).len() <= 4);
}

#[test]
fn the_walls_are_the_runs_of_two_cells_or_more() {
    let maze = Maze::from_draws(2, 1, vec![0, 0, 0, 0, 0]).unwrap();
    // Each column holds two wall cells that stand alone: they give no wall.
    assert_eq!(
        maze.walls(),
        vec![
            Wall(Position(0, 0), Position(4, 0)),
            Wall(Position(0, 2), Position(4, 2)),
        ]
    );
    let maze = Maze::from_draws(2, 2, vec![1, 1, 0, 0, 0, 1, 0]).unwrap();
    assert_eq!(
        maze.walls(),
        vec![
            Wall(Position(0, 0), Position(4, 0)),
            Wall(Position(0, 4), Position(4, 4)),
            Wall(Position(0, 0), Position(0, 2)),
            Wall(Position(2, 2), Position(2, 4)),
            Wall(Position(4, 2), Position(4, 4)),
        ]
    );
}

#[test]
fn no_wall_begins_where_it_ends() {
    for seed in 0..10 {
        let maze = Maze::with_seed(5, 4, seed).unwrap();
        let walls = maze.walls();
        assert!(!walls.is_empty());
        for (i, wall) in walls.iter().enumerate() {
            assert!(!walls[..i].contains(wall));
        }
        for wall in &walls {
            assert_ne!(wall.0, wall.1);
            assert!(wall.orientation().is_some());
            let Wall(a, b) = *wall;
            assert!(a.0 == b.0 || a.1 == b.1);
            assert!(a.0 < b.0 || a.1 < b.1);
            // Every cell of the run is wall, and the run cannot be made longer.
            if a.1 == b.1 {
                for x in a.0..=b.0 {
                    assert!(!floor(&maze, x, a.1));
                }
                assert!(a.0 == 0 || floor(&maze, a.0 - 1, a.1));
                assert!(b.0 == 2 * maze.width() || floor(&maze, b.0 + 1, a.1));
            } else {
                for y in a.1..=b.1 {
                    assert!(!floor(&maze, a.0, y));
                }
                assert!(a.1 == 0 || floor(&maze, a.0, a.1 - 1));
                assert!(b.1 == 2 * maze.height() || floor(&maze, a.0, b.1 + 1));
            }
        }
    }
}

#[test]
fn a_small_maze_is_drawn() {
    let maze = Maze::from_draws(2, 2, vec![1, 1, 0, 0, 0, 1, 0]).unwrap();
    assert_eq!(
        maze.description(),
        "# # # # #\n#        \n#   #   #\n    #   #\n# # # # #\n"
    );
    let maze = Maze::from_draws(1, 1, Vec::new()).unwrap();
    assert_eq!(maze.description(), "# # #\n     \n# # #\n");
    let blank = Maze::blank(20, 1).unwrap();
    let line = "# ".repeat(40) + "#\n";
    assert_eq!(blank.description(), line.repeat(3));
}

#[test]
fn a_large_maze_is_named_with_its_size() {
    assert_eq!(Maze::blank(21, 1).unwrap().description(), "Maze of dimension 21x1");
    assert_eq!(Maze::blank(3, 120).unwrap().description(), "Maze of dimension 3x120");
    assert_eq!(
        Maze::with_seed(100, 21, 1).unwrap().description(),
        "Maze of dimension 100x21"
    );
}

/// A maze of the same kinds, cell by cell, none of whose cells has been visited.
fn unmarked_twin(maze: &Maze) -> Maze {
    let width = maze.width();
    let height = maze.height();
    let mut twin = Maze::blank(width, height).unwrap();
    for cy in 0..height {
        for cx in 0..width {
            if floor(maze, 2 * cx + 1, 2 * cy + 1) {
                twin.collapse_wall_between(Position(cx, cy), Position(cx, cy));
            }
            if cx + 1 < width && floor(maze, 2 * cx + 2, 2 * cy + 1) {
                twin.collapse_wall_between(Position(cx, cy), Position(cx + 1, cy));
            }
            if cy + 1 < height && floor(maze, 2 * cx + 1, 2 * cy + 2) {
                twin.collapse_wall_between(Position(cx, cy), Position(cx, cy + 1));
            }
        }
    }
    let west = (0..height).find(|&row| floor(maze, 0, 2 * row + 1));
    let east = (0..height).find(|&row| floor(maze, 2 * width, 2 * row + 1));
    if let (Some(west), Some(east)) = (west, east) {
        twin.open_gates(west, east);
    }
    assert_eq!(kinds(&twin), kinds(maze));
    for y in 0..=2 * height {
        for x in 0..=2 * width {
            assert!(!twin.raw_cell_at(x, y).unwrap().visited);
        }
    }
    twin
}

#[test]
fn the_marks_of_the_cells_do_not_change_the_way() {
    for seed in 0..8 {
        // Carved, with the marks of the carving on every room, and with walls opened
        // afterwards so that there is more than one way through.
        let mut maze = Maze::blank(5, 4).unwrap();
        let mut draws = Draws::from_generator(StdRng::seed_from_u64(seed));
        maze.initialise_maze(&mut draws);
        maze.collapse_entry_and_exit(&mut draws);
        for cy in 0..3 {
            for cx in 0..4 {
                if (cx + cy + seed as usize) % 3 == 0 {
                    maze.collapse_wall_between(Position(cx, cy), Position(cx + 1, cy));
                    maze.collapse_wall_between(Position(cx, cy), Position(cx, cy + 1));
                }
            }
        }
        assert!(open_inner_walls(&maze) > 5 * 4 - 1);
        assert!(maze.cell_at(Position(0, 0)).unwrap().visited);
        let mut twin = unmarked_twin(&maze);
        maze.solve();
        twin.solve();
        assert!(!maze.solution_path().is_empty());
        assert_eq!(maze.solution_path(), twin.solution_path());
        assert_way_through(&maze);
        // The marks that the search leaves do not change it either.
        let first = maze.solution_path().clone();
        maze.solve();
        assert_eq!(maze.solution_path(), &first);
    }
}

#[test]
fn the_search_goes_down_before_it_goes_right_where_both_are_free() {
    // Two by two rooms with every wall between them open: two ways through.
    let mut maze = Maze::blank(2, 2).unwrap();
    for (x, y) in [(0, 0), (1, 0), (0, 1), (1, 1)] {
        maze.collapse_wall_between(Position(x, y), Position(x, y));
    }
    maze.collapse_wall_between(Position(0, 0), Position(1, 0));
    maze.collapse_wall_between(Position(0, 1), Position(1, 1));
    maze.collapse_wall_between(Position(0, 0), Position(0, 1));
    maze.collapse_wall_between(Position(1, 0), Position(1, 1));
    maze.open_gates(0, 0);
    maze.solve();
    assert_eq!(
        maze.solution_path(),
        &vec![
            Position(0, 1),
            Position(1, 1),
            Position(1, 2),
            Position(1, 3),
            Position(2, 3),
            Position(3, 3),
            Position(3, 2),
            Position(3, 1),
            Position(4, 1),
        ]
    );
}
