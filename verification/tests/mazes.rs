use rand::rngs::StdRng;
use rand::SeedableRng;
use std::collections::{HashMap, HashSet, VecDeque};
use try_mazes::gene::circ::{CircLayerMazeGenerator, CircMaze2dGenerator, CircMazeGenerator};
use try_mazes::gene::hexa::{HexaLayerMazeGenerator, HexaMaze2dGenerator, HexaMazeGenerator};
use try_mazes::gene::rect::{
    BTreeMazeGenerator, DiagonalDirection, RectLayerMazeGenerator, RectMaze2dGenerator,
    RectMazeGenerator, RecursiveDivisionMazeGenerator, SidewinderMazeGenerator,
};
use try_mazes::gene::tri::TriMazeGenerator;
use try_mazes::gene::{
    AldousBroderMazeGenerator, EllerMazeGenerator, GrowingTreeMazeGenerator,
    HuntAndKillMazeGenerator, KruskalMazeGenerator, Maze2dGenerator, MazeEdge, PrimMazeGenerator,
    RecursiveBacktrackerMazeGenerator, Union, WilsonMazeGenerator,
};
use try_mazes::maze::circ::{CircGrid, CircMaze, CircPosition};
use try_mazes::maze::hexa::{HexaDirection, HexaGrid, HexaMaze, HexaPosition};
use try_mazes::maze::rect::{
    Error, RectDirection, RectGrid, RectMask, RectMaze, RectPosition,
};
use try_mazes::maze::tri::{TriDirection, TriGrid, TriMaze, TriPosition};
use try_mazes::maze::{Grid2d, NoMask, Position2d, WithMask};
use try_mazes::pos_set::PosSet;
use try_mazes::random::RandomSource;
use try_mazes::reach::check_connected;

fn source(seed: u64) -> RandomSource {
    RandomSource::from_rng(StdRng::seed_from_u64(seed))
}

fn cells_of<G: Grid2d>(grid: &G) -> Vec<Position2d> {
    let all = grid.all_cells_pos_set();
    (0..all.len()).map(|i| all.get(i)).collect()
}

fn neighbors_of<G: Grid2d>(grid: &G) -> HashMap<Position2d, Vec<Position2d>> {
    let mut map = HashMap::new();
    for pos in cells_of(grid) {
        let mut neighbors = Vec::new();
        grid.append_neighbors(&pos, &mut neighbors);
        map.insert(pos, neighbors);
    }
    map
}

/// The maze is a spanning tree of its cells: one passage fewer than cells,
/// every passage between two neighbours, every cell reached by a flood from
/// the first.
fn assert_perfect(
    cells: &[Position2d],
    neighbors: &HashMap<Position2d, Vec<Position2d>>,
    links: &[(Position2d, Position2d)],
) {
    let mut pairs = HashSet::new();
    for (a, b) in links {
        assert!(neighbors[a].contains(b), "{:?} and {:?} are no neighbours", a, b);
        assert!(neighbors[b].contains(a));
        pairs.insert(if a < b { (*a, *b) } else { (*b, *a) });
    }
    if cells.is_empty() {
        assert!(pairs.is_empty());
        return;
    }
    assert_eq!(pairs.len(), cells.len() - 1);
    let mut reached = HashSet::new();
    let mut queue = VecDeque::new();
    queue.push_back(cells[0]);
    reached.insert(cells[0]);
    while let Some(cur) = queue.pop_front() {
        for (a, b) in &pairs {
            let next = if *a == cur {
                *b
            } else if *b == cur {
                *a
            } else {
                continue;
            };
            if reached.insert(next) {
                queue.push_back(next);
            }
        }
    }
    assert_eq!(reached.len(), cells.len());
}

fn rect_links(maze: &RectMaze, cells: &[Position2d]) -> Vec<(Position2d, Position2d)> {
    let mut links = Vec::new();
    for pos in cells {
        let from = RectPosition::new(pos.0, pos.1);
        for dir in RectDirection::all_dirs() {
            if maze.is_connected_to(&from, dir) {
                let to = from.neighbor(dir).unwrap();
                assert!(maze.is_cell(&to));
                assert!(maze.is_connected_to(&to, dir.reverse()));
                links.push((*pos, Position2d(to.row, to.col)));
            }
        }
    }
    links
}

fn hexa_links(maze: &HexaMaze, cells: &[Position2d]) -> Vec<(Position2d, Position2d)> {
    let mut links = Vec::new();
    for pos in cells {
        let from = HexaPosition::new(pos.0, pos.1);
        for dir in HexaDirection::all_dirs() {
            if maze.is_connected_to(&from, dir) {
                let to = from.neighbor(dir).unwrap();
                assert!(maze.is_cell(&to));
                links.push((*pos, Position2d(to.row, to.col)));
            }
        }
    }
    links
}

fn tri_links(maze: &TriMaze, cells: &[Position2d]) -> Vec<(Position2d, Position2d)> {
    let mut links = Vec::new();
    for pos in cells {
        let from = TriPosition::new(pos.0, pos.1);
        let dirs = if maze.is_angle_up(&from) {
            TriDirection::angle_up_all_dirs()
        } else {
            TriDirection::angle_down_all_dirs()
        };
        for dir in dirs {
            if maze.is_connected_to(&from, dir) {
                let to = from.neighbor(dir).unwrap();
                assert!(maze.is_cell(&to));
                links.push((*pos, Position2d(to.row, to.col)));
            }
        }
    }
    links
}

fn circ_links(maze: &CircMaze, cells: &[Position2d]) -> Vec<(Position2d, Position2d)> {
    let mut links = Vec::new();
    for pos in cells {
        let from = CircPosition::new(pos.0, pos.1);
        let ring_cells_n = maze.ring_cells_n(pos.0).unwrap();
        if maze.is_connect_inward(&from) {
            let inner_cells_n = maze.ring_cells_n(pos.0 - 1).unwrap();
            let inner = pos.1 / (ring_cells_n / inner_cells_n);
            links.push((*pos, Position2d(pos.0 - 1, inner)));
        }
        if maze.is_connect_clockwise(&from) {
            links.push((*pos, Position2d(pos.0, (pos.1 + 1) % ring_cells_n)));
        }
    }
    links
}

fn pocket_free_mask() -> RectMask {
    // . . . .
    // . X X .
    // . . X .
    let mut mask = RectMask::new(4, 3);
    for row in 0..3 {
        for col in 0..4 {
            mask.set_flag(&RectPosition::new(row, col), true);
        }
    }
    mask.set_flag(&RectPosition::new(1, 1), false);
    mask.set_flag(&RectPosition::new(1, 2), false);
    mask.set_flag(&RectPosition::new(2, 2), false);
    mask
}

fn check_rect<T: RectMazeGenerator<NoMask>>(generator: &T, width: usize, height: usize, seed: u64) {
    let grid = RectGrid::<NoMask>::new(width, height);
    let cells = cells_of(&grid);
    let neighbors = neighbors_of(&grid);
    assert_eq!(cells.len(), width * height);
    let maze = generator.generate(grid, &mut source(seed));
    assert_eq!(maze.size(), (width, height));
    assert_perfect(&cells, &neighbors, &rect_links(&maze, &cells));
}

fn check_rect_masked<T: RectMazeGenerator<WithMask>>(generator: &T, seed: u64) {
    let mask = pocket_free_mask();
    let grid = RectGrid::<WithMask>::new(&mask);
    assert!(check_connected(&grid));
    let cells = cells_of(&grid);
    let neighbors = neighbors_of(&grid);
    assert_eq!(cells.len(), 9);
    assert_eq!(grid.cells_n(), 9);
    let maze = generator.generate(grid, &mut source(seed));
    assert!(!maze.is_cell(&RectPosition::new(1, 1)));
    assert_perfect(&cells, &neighbors, &rect_links(&maze, &cells));
}

fn check_hexa<T: HexaMazeGenerator<NoMask>>(generator: &T, width: usize, height: usize, seed: u64) {
    let grid = HexaGrid::<NoMask>::new(width, height);
    let cells = cells_of(&grid);
    let neighbors = neighbors_of(&grid);
    let maze = generator.generate(grid, &mut source(seed));
    assert_eq!(maze.size(), (width, height));
    assert_perfect(&cells, &neighbors, &hexa_links(&maze, &cells));
}

fn check_hexa_masked<T: HexaMazeGenerator<WithMask>>(generator: &T, seed: u64) {
    let mask = pocket_free_mask();
    let grid = HexaGrid::<WithMask>::new(&mask);
    assert!(check_connected(&grid));
    let cells = cells_of(&grid);
    let neighbors = neighbors_of(&grid);
    let maze = generator.generate(grid, &mut source(seed));
    assert_perfect(&cells, &neighbors, &hexa_links(&maze, &cells));
}

fn check_tri<T: TriMazeGenerator>(generator: &T, width: usize, height: usize, seed: u64) {
    let grid = TriGrid::new(width, height);
    assert!(check_connected(&grid));
    let cells = cells_of(&grid);
    let neighbors = neighbors_of(&grid);
    let maze = generator.generate(grid, &mut source(seed));
    assert_eq!(maze.size(), (width, height));
    assert_perfect(&cells, &neighbors, &tri_links(&maze, &cells));
}

fn check_tri_masked<T: TriMazeGenerator>(generator: &T, seed: u64) {
    let mut mask = RectMask::new(4, 3);
    for row in 0..3 {
        for col in 0..4 {
            mask.set_flag(&RectPosition::new(row, col), true);
        }
    }
    mask.set_flag(&RectPosition::new(2, 3), false);
    let grid = TriGrid::with_mask(&mask);
    assert!(check_connected(&grid));
    let cells = cells_of(&grid);
    let neighbors = neighbors_of(&grid);
    assert_eq!(cells.len(), 11);
    let maze = generator.generate(grid, &mut source(seed));
    assert_perfect(&cells, &neighbors, &tri_links(&maze, &cells));
}

fn check_circ<T: CircMazeGenerator>(generator: &T, rings_n: usize, seed: u64) {
    let grid = CircGrid::new(rings_n);
    let cells = cells_of(&grid);
    let neighbors = neighbors_of(&grid);
    assert_eq!(cells.len(), grid.cells_n());
    let maze = generator.generate(grid, &mut source(seed));
    assert_eq!(maze.rings_n(), rings_n);
    assert_perfect(&cells, &neighbors, &circ_links(&maze, &cells));
}

fn check_everywhere<G: Maze2dGenerator + Clone>(generator: G) {
    for seed in 0..4 {
        check_rect(&RectMaze2dGenerator::new(generator.clone()), 6, 5, seed);
        check_rect(&RectMaze2dGenerator::new(generator.clone()), 1, 1, seed);
        check_rect(&RectMaze2dGenerator::new(generator.clone()), 0, 3, seed);
        check_rect_masked(&RectMaze2dGenerator::new(generator.clone()), seed);
        check_hexa(&HexaMaze2dGenerator::new(generator.clone()), 5, 4, seed);
        check_hexa_masked(&HexaMaze2dGenerator::new(generator.clone()), seed);
        check_tri(&generator, 7, 4, seed);
        check_tri_masked(&generator, seed);
        check_circ(&CircMaze2dGenerator::new(generator.clone()), 5, seed);
        check_circ(&CircMaze2dGenerator::new(generator.clone()), 1, seed);
        check_circ(&CircMaze2dGenerator::new(generator.clone()), 0, seed);
    }
}

#[test]
fn aldous_broder_makes_spanning_trees() {
    check_everywhere(AldousBroderMazeGenerator);
}

#[test]
fn wilson_makes_spanning_trees() {
    check_everywhere(WilsonMazeGenerator);
}

#[test]
fn hunt_and_kill_makes_spanning_trees() {
    check_everywhere(HuntAndKillMazeGenerator);
}

#[test]
fn recursive_backtracker_makes_spanning_trees() {
    check_everywhere(RecursiveBacktrackerMazeGenerator);
}

#[test]
fn kruskal_makes_spanning_trees() {
    check_everywhere(KruskalMazeGenerator);
}

#[test]
fn prim_makes_spanning_trees() {
    check_everywhere(PrimMazeGenerator);
}

#[test]
fn growing_tree_makes_spanning_trees() {
    check_everywhere(GrowingTreeMazeGenerator);
}

#[test]
fn eller_makes_spanning_trees() {
    for seed in 0..8 {
        check_rect(&RectLayerMazeGenerator::new(EllerMazeGenerator), 6, 5, seed);
        check_rect(&RectLayerMazeGenerator::new(EllerMazeGenerator), 1, 4, seed);
        check_rect(&RectLayerMazeGenerator::new(EllerMazeGenerator), 4, 1, seed);
        check_rect(&RectLayerMazeGenerator::new(EllerMazeGenerator), 0, 0, seed);
        check_hexa(&HexaLayerMazeGenerator::new(EllerMazeGenerator), 5, 4, seed);
        check_circ(&CircLayerMazeGenerator::new(EllerMazeGenerator), 6, seed);
        check_circ(&CircLayerMazeGenerator::new(EllerMazeGenerator), 1, seed);
    }
}

#[test]
fn binary_tree_makes_spanning_trees() {
    for con_dir in [
        DiagonalDirection::Northeast,
        DiagonalDirection::Southeast,
        DiagonalDirection::Southwest,
        DiagonalDirection::Northwest,
    ] {
        for seed in 0..4 {
            check_rect(&BTreeMazeGenerator::new(con_dir), 6, 5, seed);
            check_rect(&BTreeMazeGenerator::new(con_dir), 1, 5, seed);
            check_rect(&BTreeMazeGenerator::new(con_dir), 0, 5, seed);
        }
    }
}

#[test]
fn sidewinder_makes_spanning_trees() {
    for con_dir in [
        DiagonalDirection::Northeast,
        DiagonalDirection::Southeast,
        DiagonalDirection::Southwest,
        DiagonalDirection::Northwest,
    ] {
        for seed in 0..4 {
            check_rect(&SidewinderMazeGenerator::new(con_dir), 6, 5, seed);
            check_rect(&SidewinderMazeGenerator::new(con_dir), 5, 1, seed);
            check_rect(&SidewinderMazeGenerator::new(con_dir), 1, 5, seed);
            check_rect(&SidewinderMazeGenerator::new(con_dir), 3, 0, seed);
        }
    }
}

#[test]
fn recursive_division_with_thin_rooms_makes_spanning_trees() {
    for seed in 0..8 {
        check_rect(&RecursiveDivisionMazeGenerator::new(1, 1), 6, 5, seed);
        check_rect(&RecursiveDivisionMazeGenerator::new(1, 4), 6, 5, seed);
        check_rect(&RecursiveDivisionMazeGenerator::new(3, 0), 5, 7, seed);
        check_rect(&RecursiveDivisionMazeGenerator::new(1, 1), 0, 0, seed);
    }
}

#[test]
fn binary_tree_northeast_on_five_by_four() {
    for seed in 0..16 {
        let grid = RectGrid::<NoMask>::new(5, 4);
        let maze = BTreeMazeGenerator::new(DiagonalDirection::Northeast)
            .generate(grid, &mut source(seed));
        for row in 0..4 {
            for col in 0..5 {
                let pos = RectPosition::new(row, col);
                let north = maze.is_connected_to(&pos, RectDirection::North);
                let east = maze.is_connected_to(&pos, RectDirection::East);
                match (row == 0, col == 4) {
                    (true, true) => assert!(!north && !east),
                    (true, false) => assert!(east && !north),
                    (false, true) => assert!(north && !east),
                    (false, false) => assert!(north != east),
                }
            }
        }
    }
}

#[test]
fn binary_tree_takes_both_directions() {
    let mut norths = 0;
    let mut easts = 0;
    for seed in 0..16 {
        let grid = RectGrid::<NoMask>::new(5, 4);
        let maze = BTreeMazeGenerator::new(DiagonalDirection::Northeast)
            .generate(grid, &mut source(seed));
        for row in 1..4 {
            for col in 0..4 {
                let pos = RectPosition::new(row, col);
                if maze.is_connected_to(&pos, RectDirection::North) {
                    norths += 1;
                } else {
                    easts += 1;
                }
            }
        }
    }
    assert!(norths > 0);
    assert!(easts > 0);
}

#[test]
fn sidewinder_breaks_out_anywhere_in_a_run() {
    // Where a run of more than one cell is closed, the way out is at
    // times at its first cell, at times at its last and at times between.
    let mut at_start = 0;
    let mut at_end = 0;
    let mut between = 0;
    for seed in 0..200 {
        let grid = RectGrid::<NoMask>::new(8, 2);
        let maze = SidewinderMazeGenerator::new(DiagonalDirection::Northeast)
            .generate(grid, &mut source(seed));
        let mut run_start = 0;
        for col in 0..8 {
            let pos = RectPosition::new(1, col);
            if !maze.is_connected_to(&pos, RectDirection::East) {
                let outs: Vec<usize> = (run_start..=col)
                    .filter(|c| {
                        maze.is_connected_to(&RectPosition::new(1, *c), RectDirection::North)
                    })
                    .collect();
                assert_eq!(outs.len(), 1);
                if col - run_start >= 2 {
                    if outs[0] == run_start {
                        at_start += 1;
                    } else if outs[0] == col {
                        at_end += 1;
                    } else {
                        between += 1;
                    }
                }
                run_start = col + 1;
            }
        }
    }
    assert!(at_start > 0);
    assert!(at_end > 0);
    assert!(between > 0);
}

#[test]
fn recursive_division_one_by_one_on_four_by_four() {
    for seed in 0..16 {
        let grid = RectGrid::<NoMask>::new(4, 4);
        let cells = cells_of(&grid);
        let neighbors = neighbors_of(&grid);
        let maze = RecursiveDivisionMazeGenerator::new(1, 1).generate(grid, &mut source(seed));
        assert_perfect(&cells, &neighbors, &rect_links(&maze, &cells));
        for row in 0..3 {
            for col in 0..3 {
                let pos = RectPosition::new(row, col);
                let right = RectPosition::new(row, col + 1);
                let below = RectPosition::new(row + 1, col);
                let open = maze.is_connected_to(&pos, RectDirection::East)
                    && maze.is_connected_to(&pos, RectDirection::South)
                    && maze.is_connected_to(&right, RectDirection::South)
                    && maze.is_connected_to(&below, RectDirection::East);
                assert!(!open);
            }
        }
    }
}

#[test]
fn recursive_division_with_wide_rooms_joins_every_cell() {
    for seed in 0..8 {
        let grid = RectGrid::<NoMask>::new(6, 6);
        let cells = cells_of(&grid);
        let maze = RecursiveDivisionMazeGenerator::new(2, 2).generate(grid, &mut source(seed));
        let links = rect_links(&maze, &cells);
        let mut reached = HashSet::new();
        let mut queue = VecDeque::new();
        queue.push_back(cells[0]);
        reached.insert(cells[0]);
        while let Some(cur) = queue.pop_front() {
            for (a, b) in &links {
                if *a == cur && reached.insert(*b) {
                    queue.push_back(*b);
                }
            }
        }
        assert_eq!(reached.len(), 36);
    }
}

#[test]
fn room_test_follows_the_limits() {
    let generator = RecursiveDivisionMazeGenerator::new(2, 3);
    assert!(generator.is_room(0..2, 4..7));
    assert!(!generator.is_room(0..3, 4..7));
    assert!(!generator.is_room(0..2, 3..7));
    assert!(generator.is_room(5..6, 0..9));
    assert!(generator.is_room(0..9, 2..3));
    assert!(generator.is_room(3..3, 0..9));
}

#[test]
fn connect_all_opens_every_wall_of_a_room() {
    let mut grid = RectGrid::<NoMask>::new(4, 3);
    RecursiveDivisionMazeGenerator::connect_all(&mut grid, 1..3, 1..4);
    assert!(grid.is_connected_to(&RectPosition::new(1, 1), RectDirection::East));
    assert!(grid.is_connected_to(&RectPosition::new(1, 1), RectDirection::South));
    assert!(grid.is_connected_to(&RectPosition::new(2, 3), RectDirection::North));
    assert!(grid.is_connected_to(&RectPosition::new(2, 3), RectDirection::West));
    assert!(!grid.is_connected_to(&RectPosition::new(1, 1), RectDirection::West));
    assert!(!grid.is_connected_to(&RectPosition::new(1, 1), RectDirection::North));
    assert!(!grid.is_connected_to(&RectPosition::new(0, 0), RectDirection::East));
}

#[test]
fn diagonal_directions_split_in_two() {
    assert_eq!(
        DiagonalDirection::Northeast.hv_dirs(),
        (RectDirection::East, RectDirection::North)
    );
    assert_eq!(
        DiagonalDirection::Southeast.hv_dirs(),
        (RectDirection::East, RectDirection::South)
    );
    assert_eq!(
        DiagonalDirection::Southwest.hv_dirs(),
        (RectDirection::West, RectDirection::South)
    );
    assert_eq!(
        DiagonalDirection::Northwest.hv_dirs(),
        (RectDirection::West, RectDirection::North)
    );
}

#[test]
fn wilson_paths_hold_no_cell_twice() {
    for seed in 0..32 {
        let grid = RectGrid::<NoMask>::new(5, 5);
        let mut unvisited = grid.all_cells_pos_set();
        unvisited.remove(&Position2d(2, 2));
        let mut path = PosSet::new();
        let mut steps_left = 100_000;
        let start = Position2d(0, 0);
        let end = WilsonMazeGenerator::loop_erased_walk(
            &grid,
            &unvisited,
            start,
            &mut source(seed),
            &mut steps_left,
            &mut path,
        );
        assert_eq!(end, Some(Position2d(2, 2)));
        assert!(steps_left < 100_000);
        let cells: Vec<Position2d> = (0..path.len()).map(|i| path.get(i)).collect();
        assert_eq!(cells[0], start);
        let distinct: HashSet<Position2d> = cells.iter().copied().collect();
        assert_eq!(distinct.len(), cells.len());
        assert!(!distinct.contains(&Position2d(2, 2)));
        let mut walk = cells.clone();
        walk.push(Position2d(2, 2));
        for pair in walk.windows(2) {
            let rows = pair[0].0.abs_diff(pair[1].0);
            let cols = pair[0].1.abs_diff(pair[1].1);
            assert_eq!(rows + cols, 1);
        }
    }
}

#[test]
fn wilson_walk_gives_up_when_no_step_is_left() {
    let grid = RectGrid::<NoMask>::new(9, 9);
    let mut unvisited = grid.all_cells_pos_set();
    unvisited.remove(&Position2d(8, 8));
    let mut path = PosSet::new();
    let mut steps_left = 3;
    let end = WilsonMazeGenerator::loop_erased_walk(
        &grid,
        &unvisited,
        Position2d(0, 0),
        &mut source(1),
        &mut steps_left,
        &mut path,
    );
    assert_eq!(end, None);
    assert_eq!(steps_left, 0);
}

#[test]
fn union_counts_sets() {
    let mut union = Union::new();
    assert_eq!(union.sets_n(), 0);
    for i in 0..6 {
        union.add(Position2d(0, i));
    }
    union.add(Position2d(0, 3));
    assert_eq!(union.sets_n(), 6);
    let merges = [
        (0, 1, true),
        (1, 0, false),
        (2, 3, true),
        (3, 1, true),
        (0, 2, false),
        (0, 0, false),
        (4, 9, false),
        (9, 4, false),
        (5, 4, true),
    ];
    let mut merged_n = 0;
    for (a, b, expected) in merges {
        let before = union.sets_n();
        let merged = union.merge(&Position2d(0, a), &Position2d(0, b));
        assert_eq!(merged, expected);
        if merged {
            merged_n += 1;
            assert_eq!(union.sets_n(), before - 1);
        } else {
            assert_eq!(union.sets_n(), before);
        }
    }
    assert_eq!(union.sets_n(), 6 - merged_n);
    assert_eq!(union.sets_n(), 2);
    assert_eq!(union.is_union(&Position2d(0, 0), &Position2d(0, 3)), Some(true));
    assert_eq!(union.is_union(&Position2d(0, 0), &Position2d(0, 5)), Some(false));
    assert_eq!(union.is_union(&Position2d(0, 0), &Position2d(0, 7)), None);
    assert_eq!(union.ele_set_id(&Position2d(0, 7)), None);
    assert_eq!(
        union.ele_set_id(&Position2d(0, 0)),
        union.ele_set_id(&Position2d(0, 2))
    );
    let sets = union.into_sets();
    let expected: Vec<Vec<Position2d>> = vec![
        [0, 1, 2, 3].into_iter().map(|i| Position2d(0, i)).collect(),
        [4, 5].into_iter().map(|i| Position2d(0, i)).collect(),
    ];
    assert_eq!(sets, expected);
}

#[test]
fn union_of_a_set_starts_with_singletons() {
    let grid = RectGrid::<NoMask>::new(3, 2);
    let all = grid.all_cells_pos_set();
    let mut union = Union::from_set(&all);
    assert_eq!(union.sets_n(), 6);
    assert_eq!(union.is_union(&Position2d(0, 0), &Position2d(0, 1)), Some(false));
    assert_eq!(union.is_union(&Position2d(1, 2), &Position2d(1, 2)), Some(true));
}

#[test]
fn merging_every_pair_of_neighbours_leaves_one_set() {
    let grid = HexaGrid::<NoMask>::new(4, 4);
    let all = grid.all_cells_pos_set();
    let mut union = Union::from_set(&all);
    let mut merged_n = 0;
    for (pos, neighbors) in neighbors_of(&grid) {
        for neighbor in neighbors {
            if union.merge(&pos, &neighbor) {
                merged_n += 1;
            }
        }
    }
    assert_eq!(union.sets_n(), 1);
    assert_eq!(merged_n, 15);
}

#[test]
fn maze_edge_puts_the_earlier_position_first() {
    let a = Position2d(1, 5);
    let b = Position2d(2, 0);
    let c = Position2d(1, 6);
    assert_eq!(MazeEdge::new(&a, &b), MazeEdge { low: a, high: b });
    assert_eq!(MazeEdge::new(&b, &a), MazeEdge { low: a, high: b });
    assert_eq!(MazeEdge::new(&c, &a), MazeEdge { low: a, high: c });
    assert_eq!(MazeEdge::new(&a, &a), MazeEdge { low: a, high: a });
    assert!(a.before(b));
    assert!(a.before(c));
    assert!(!b.before(a));
    assert!(!a.before(a));
}

#[test]
fn mask_with_two_regions_is_refused() {
    // . . X .
    // . . X .
    let flags = vec![true, true, false, true, true, true, false, true];
    assert_eq!(
        RectMask::try_from_flags(4, 2, flags).err(),
        Some(Error::IsolatedAreaInRectMask)
    );
}

#[test]
fn mask_with_one_region_is_taken() {
    // . . X .
    // . . . .
    let flags = vec![true, true, false, true, true, true, true, true];
    let mask = RectMask::try_from_flags(4, 2, flags).unwrap();
    assert_eq!(mask.size(), (4, 2));
    assert_eq!(mask.cells_n(), 7);
    assert!(mask.is_cell(&RectPosition::new(0, 3)));
    assert!(!mask.is_cell(&RectPosition::new(0, 2)));
    assert!(!mask.is_cell(&RectPosition::new(2, 0)));
    assert_eq!(mask.check_isolation(), Ok(()));
    let cells = mask.cell_pos_iter();
    assert_eq!(cells.len(), 7);
    assert_eq!(cells[0], RectPosition::new(0, 0));
    assert_eq!(cells[2], RectPosition::new(0, 3));
    assert_eq!(cells[6], RectPosition::new(1, 3));
    let grid = RectGrid::<WithMask>::new(&mask);
    assert_eq!(grid.cells_n(), 7);
    assert_eq!(HexaGrid::<WithMask>::new(&mask).cells_n(), 7);
    assert_eq!(TriGrid::with_mask(&mask).cells_n(), 7);
}

#[test]
fn mask_without_cells_is_taken() {
    let mask = RectMask::try_from_flags(2, 2, vec![false; 4]).unwrap();
    assert_eq!(mask.cells_n(), 0);
    let mask = RectMask::try_from_flags(0, 0, Vec::new()).unwrap();
    assert_eq!(mask.cells_n(), 0);
    assert_eq!(RectMask::new(3, 2).check_isolation(), Ok(()));
}

fn text_rows(text: &[&str]) -> Vec<Vec<char>> {
    text.iter().map(|line| line.chars().collect()).collect()
}

#[test]
fn text_mask_with_a_pocket_is_refused() {
    let rows = text_rows(&[
        "......",
        ".XXXX.",
        ".X..X.",
        ".XXXX.",
        "......",
    ]);
    assert_eq!(
        RectMask::try_from_text(&rows).err(),
        Some(Error::IsolatedAreaInRectMask)
    );
}

#[test]
fn text_mask_reads_both_cases_of_x() {
    let rows = text_rows(&["ab x", "Xcd.", "e  f"]);
    let mask = RectMask::try_from_text(&rows).unwrap();
    assert_eq!(mask.size(), (4, 3));
    assert_eq!(mask.cells_n(), 10);
    assert!(!mask.is_cell(&RectPosition::new(0, 3)));
    assert!(!mask.is_cell(&RectPosition::new(1, 0)));
    assert!(mask.is_cell(&RectPosition::new(0, 2)));
    assert!(mask.is_cell(&RectPosition::new(2, 3)));
}

#[test]
fn text_mask_with_uneven_rows_is_refused() {
    let rows = text_rows(&["....", "...", "...."]);
    assert_eq!(
        RectMask::try_from_text(&rows).err(),
        Some(Error::InconsistentRectMaskRow {
            this_width: 3,
            expectd_width: 4
        })
    );
    let empty: Vec<Vec<char>> = Vec::new();
    assert_eq!(RectMask::try_from_text(&empty).unwrap().size(), (0, 0));
}

#[test]
fn flood_tells_connected_grids_from_others() {
    assert!(check_connected(&RectGrid::<NoMask>::new(4, 3)));
    assert!(check_connected(&RectGrid::<NoMask>::new(0, 3)));
    assert!(check_connected(&HexaGrid::<NoMask>::new(4, 3)));
    assert!(check_connected(&TriGrid::new(4, 3)));
    assert!(check_connected(&TriGrid::new(1, 2)));
    assert!(!check_connected(&TriGrid::new(1, 3)));
    assert!(check_connected(&CircGrid::new(4)));
    let mut mask = RectMask::new(3, 1);
    mask.set_flag(&RectPosition::new(0, 0), true);
    mask.set_flag(&RectPosition::new(0, 2), true);
    assert!(!check_connected(&RectGrid::<WithMask>::new(&mask)));
    assert_eq!(mask.check_isolation(), Err(Error::IsolatedAreaInRectMask));
    // Two cells above each other are neighbours in a rectangular grid, but
    // in a triangular grid only where the upper one points up.
    let mut column = RectMask::new(2, 3);
    column.set_flag(&RectPosition::new(1, 0), true);
    column.set_flag(&RectPosition::new(2, 0), true);
    assert_eq!(column.check_isolation(), Ok(()));
    assert!(check_connected(&RectGrid::<WithMask>::new(&column)));
    assert!(!check_connected(&TriGrid::with_mask(&column)));
}

#[test]
fn mask_flags_outside_the_bounds_are_left_alone() {
    let mut mask = RectMask::new(2, 2);
    mask.set_flag(&RectPosition::new(2, 0), true);
    mask.set_flag(&RectPosition::new(0, 2), true);
    assert_eq!(mask.cells_n(), 0);
    mask.set_flag(&RectPosition::new(1, 1), true);
    assert_eq!(mask.cells_n(), 1);
    assert!(mask.is_cell(&RectPosition::new(1, 1)));
    mask.set_flag(&RectPosition::new(1, 1), false);
    assert_eq!(mask.cells_n(), 0);
    assert_eq!(RectPosition::new(2, 1).flat_ind(3), 7);
}

#[test]
fn kruskal_ends_with_one_set() {
    for seed in 0..8 {
        let mut grid = RectGrid::<NoMask>::new(6, 5);
        let mut sets = KruskalMazeGenerator::join_sets(&mut grid, &mut source(seed));
        assert_eq!(sets.sets_n(), 1);
        assert_eq!(
            sets.is_union(&Position2d(0, 0), &Position2d(4, 5)),
            Some(true)
        );
        assert_eq!(sets.into_sets().len(), 1);
        let cells = cells_of(&grid);
        let maze = RectMaze::NoMask(grid);
        let links = rect_links(&maze, &cells);
        assert_eq!(links.len(), 2 * 29);
    }
    let mut grid = HexaGrid::<WithMask>::new(&pocket_free_mask());
    let sets = KruskalMazeGenerator::join_sets(&mut grid, &mut source(5));
    assert_eq!(sets.sets_n(), 1);
    let mut grid = CircGrid::new(0);
    let sets = KruskalMazeGenerator::join_sets(&mut grid, &mut source(5));
    assert_eq!(sets.sets_n(), 0);
}

#[test]
fn only_opaque_black_pixels_are_no_cells() {
    assert!(!RectMask::is_cell_pixel(0, 0, 0, 0xff));
    assert!(RectMask::is_cell_pixel(0, 0, 0, 0));
    assert!(RectMask::is_cell_pixel(0, 0, 0, 0xfe));
    assert!(RectMask::is_cell_pixel(1, 0, 0, 0xff));
    assert!(RectMask::is_cell_pixel(0, 1, 0, 0xff));
    assert!(RectMask::is_cell_pixel(0, 0, 1, 0xff));
    assert!(RectMask::is_cell_pixel(0xff, 0xff, 0xff, 0xff));
}

#[test]
fn merged_sets_take_the_later_entry() {
    let mut union = Union::new();
    for i in 0..6 {
        union.add(Position2d(0, i));
    }
    for i in 0..6 {
        assert_eq!(union.ele_set_id(&Position2d(0, i)), Some(i));
    }
    assert!(union.merge(&Position2d(0, 1), &Position2d(0, 0)));
    assert_eq!(union.ele_set_id(&Position2d(0, 0)), Some(1));
    assert_eq!(union.ele_set_id(&Position2d(0, 1)), Some(1));
    assert!(union.merge(&Position2d(0, 0), &Position2d(0, 3)));
    assert!(union.merge(&Position2d(0, 4), &Position2d(0, 2)));
    assert_eq!(union.ele_set_id(&Position2d(0, 0)), Some(3));
    assert_eq!(union.ele_set_id(&Position2d(0, 1)), Some(3));
    assert_eq!(union.ele_set_id(&Position2d(0, 3)), Some(3));
    assert_eq!(union.ele_set_id(&Position2d(0, 2)), Some(4));
    assert_eq!(union.ele_set_id(&Position2d(0, 4)), Some(4));
    assert_eq!(union.ele_set_id(&Position2d(0, 5)), Some(5));
    assert_eq!(union.ele_set_id(&Position2d(1, 0)), None);
    assert!(!union.merge(&Position2d(0, 1), &Position2d(0, 3)));
    assert_eq!(union.ele_set_id(&Position2d(0, 1)), Some(3));
    assert_eq!(union.sets_n(), 3);
}

fn split_row_mask() -> RectMask {
    // . X .
    let mut mask = RectMask::new(3, 1);
    mask.set_flag(&RectPosition::new(0, 0), true);
    mask.set_flag(&RectPosition::new(0, 2), true);
    mask
}

fn triangle_column_mask() -> RectMask {
    // X .
    // X .
    let mut mask = RectMask::new(2, 2);
    mask.set_flag(&RectPosition::new(0, 1), true);
    mask.set_flag(&RectPosition::new(1, 1), true);
    mask
}

#[test]
fn grids_refuse_a_mask_that_falls_apart() {
    let mask = split_row_mask();
    assert_eq!(
        try_mazes::maze::GeneralRectGrid::<try_mazes::maze::circ::CircCell>::try_with_mask(&mask)
            .err(),
        Some(Error::IsolatedAreaInRectMask)
    );
    assert_eq!(
        RectGrid::<WithMask>::try_new(&mask).err(),
        Some(Error::IsolatedAreaInRectMask)
    );
    assert_eq!(
        HexaGrid::<WithMask>::try_new(&mask).err(),
        Some(Error::IsolatedAreaInRectMask)
    );
    assert_eq!(
        TriGrid::try_with_mask(&mask).err(),
        Some(Error::IsolatedAreaInRectMask)
    );
}

#[test]
fn triangles_judge_a_mask_by_their_own_neighbourhood() {
    let mask = triangle_column_mask();
    // The two cells are next to each other by rows and columns ...
    assert!(mask.check_isolation().is_ok());
    assert!(RectGrid::<WithMask>::try_new(&mask).is_ok());
    assert!(HexaGrid::<WithMask>::try_new(&mask).is_ok());
    // ... but the upper one points down, so no triangle edge joins them.
    assert_eq!(
        TriGrid::try_with_mask(&mask).err(),
        Some(Error::IsolatedAreaInRectMask)
    );
}

#[test]
fn grids_take_a_mask_in_one_piece() {
    let mask = pocket_free_mask();
    let grid = try_mazes::maze::GeneralRectGrid::<try_mazes::maze::circ::CircCell>::try_with_mask(
        &mask,
    )
    .ok()
    .unwrap();
    assert_eq!(grid.size(), mask.size());
    assert_eq!(grid.cells_n(), mask.cells_n());
    let grid = RectGrid::<WithMask>::try_new(&mask).ok().unwrap();
    assert_eq!(grid.size(), mask.size());
    assert_eq!(grid.cells_n(), 9);
    let grid = HexaGrid::<WithMask>::try_new(&mask).ok().unwrap();
    assert_eq!(grid.cells_n(), 9);
    // Under the triangles' neighbourhood this mask falls apart: its last row
    // hangs on a cell that is masked out.
    assert!(TriGrid::try_with_mask(&mask).is_err());
    let mut mask = RectMask::new(4, 3);
    for row in 0..3 {
        for col in 0..4 {
            mask.set_flag(&RectPosition::new(row, col), true);
        }
    }
    mask.set_flag(&RectPosition::new(2, 3), false);
    let grid = TriGrid::try_with_mask(&mask).ok().unwrap();
    assert_eq!(grid.cells_n(), 11);
    for row in 0..3 {
        for col in 0..4 {
            assert_eq!(
                cells_of(&grid).contains(&Position2d(row, col)),
                mask.is_cell(&RectPosition::new(row, col))
            );
        }
    }
    let maze = WilsonMazeGenerator.generate(grid, &mut source(4));
    assert_eq!(maze.size(), mask.size());
}

fn set_of(cells: &[(usize, usize)]) -> PosSet {
    let mut set = PosSet::new();
    for (row, col) in cells {
        set.insert(Position2d(*row, *col));
    }
    set
}

fn order_of(set: &PosSet) -> Vec<Position2d> {
    (0..set.len()).map(|i| set.get(i)).collect()
}

#[test]
fn walk_step_cuts_the_loop_it_closes() {
    let unvisited = set_of(&[(0, 0), (0, 1), (0, 2), (1, 2), (1, 1), (1, 0)]);
    // Back onto the path: everything from the cell that is met again goes.
    let mut path = set_of(&[(0, 0), (0, 1), (0, 2), (1, 2)]);
    let arrived =
        WilsonMazeGenerator::walk_step(&unvisited, &mut path, Position2d(1, 1), Position2d(0, 1));
    assert!(!arrived);
    assert_eq!(order_of(&path), vec![Position2d(0, 0)]);
    // Onto a cell that is not on the path: the path grows by the current cell.
    let mut path = set_of(&[(0, 0), (0, 1)]);
    let arrived =
        WilsonMazeGenerator::walk_step(&unvisited, &mut path, Position2d(0, 2), Position2d(1, 2));
    assert!(!arrived);
    assert_eq!(
        order_of(&path),
        vec![Position2d(0, 0), Position2d(0, 1), Position2d(0, 2)]
    );
    // Back to the start of the path: nothing is left.
    let mut path = set_of(&[(0, 0), (0, 1)]);
    let arrived =
        WilsonMazeGenerator::walk_step(&unvisited, &mut path, Position2d(1, 1), Position2d(0, 0));
    assert!(!arrived);
    assert_eq!(order_of(&path), Vec::<Position2d>::new());
    // Onto a visited cell: the walk has arrived, the path keeps all its cells.
    let mut path = set_of(&[(0, 0), (0, 1)]);
    let arrived =
        WilsonMazeGenerator::walk_step(&unvisited, &mut path, Position2d(1, 1), Position2d(2, 1));
    assert!(arrived);
    assert_eq!(
        order_of(&path),
        vec![Position2d(0, 0), Position2d(0, 1), Position2d(1, 1)]
    );
}

#[test]
fn wilson_walk_arrives_at_once_among_visited_cells() {
    let grid = RectGrid::<NoMask>::new(3, 3);
    let unvisited = set_of(&[(1, 1)]);
    for seed in 0..10 {
        let mut path = PosSet::new();
        let mut steps_left = 1;
        let end = WilsonMazeGenerator::loop_erased_walk(
            &grid,
            &unvisited,
            Position2d(1, 1),
            &mut source(seed),
            &mut steps_left,
            &mut path,
        );
        let end = end.unwrap();
        assert!([Position2d(0, 1), Position2d(1, 0), Position2d(1, 2), Position2d(2, 1)]
            .contains(&end));
        assert_eq!(order_of(&path), vec![Position2d(1, 1)]);
        assert_eq!(steps_left, 0);
    }
}

/// Whether the passages inside the rows and columns given are those that
/// division leaves: no wall inside a room; else one wall with one gap, and
/// both parts divided.
fn is_divided(
    maze: &RectMaze,
    rows: std::ops::Range<usize>,
    cols: std::ops::Range<usize>,
    max: (usize, usize),
) -> bool {
    let south = |r: usize, c: usize| maze.is_connected_to(&RectPosition::new(r, c), RectDirection::South);
    let east = |r: usize, c: usize| maze.is_connected_to(&RectPosition::new(r, c), RectDirection::East);
    let (rows_n, cols_n) = (rows.len(), cols.len());
    if rows_n <= 1 || cols_n <= 1 || (rows_n <= max.0 && cols_n <= max.1) {
        return rows.clone().all(|r| {
            cols.clone().all(|c| {
                (r + 1 >= rows.end || south(r, c)) && (c + 1 >= cols.end || east(r, c))
            })
        });
    }
    if rows_n > cols_n {
        (rows.start..rows.end - 1).any(|cut| {
            cols.clone().filter(|c| south(cut, *c)).count() == 1
                && is_divided(maze, rows.start..cut + 1, cols.clone(), max)
                && is_divided(maze, cut + 1..rows.end, cols.clone(), max)
        })
    } else {
        (cols.start..cols.end - 1).any(|cut| {
            rows.clone().filter(|r| east(*r, cut)).count() == 1
                && is_divided(maze, rows.clone(), cols.start..cut + 1, max)
                && is_divided(maze, rows.clone(), cut + 1..cols.end, max)
        })
    }
}

#[test]
fn recursive_division_leaves_rooms_and_walls_with_one_gap() {
    for seed in 0..12 {
        for max in [(1, 1), (2, 2), (2, 3), (3, 1), (4, 4)] {
            let grid = RectGrid::<NoMask>::new(7, 6);
            let maze =
                RecursiveDivisionMazeGenerator::new(max.0, max.1).generate(grid, &mut source(seed));
            assert!(is_divided(&maze, 0..6, 0..7, max), "seed {seed}, rooms {max:?}");
        }
    }
    // A grid that is all one room has no wall left inside it.
    let grid = RectGrid::<NoMask>::new(3, 2);
    let maze = RecursiveDivisionMazeGenerator::new(2, 3).generate(grid, &mut source(0));
    for row in 0..2 {
        for col in 0..3 {
            let pos = RectPosition::new(row, col);
            assert_eq!(maze.is_connected_to(&pos, RectDirection::East), col < 2);
            assert_eq!(maze.is_connected_to(&pos, RectDirection::South), row < 1);
        }
    }
}

#[test]
fn binary_tree_cells_lead_one_way_only() {
    for (corner, horz, vert) in [
        (DiagonalDirection::Northeast, RectDirection::East, RectDirection::North),
        (DiagonalDirection::Southeast, RectDirection::East, RectDirection::South),
        (DiagonalDirection::Southwest, RectDirection::West, RectDirection::South),
        (DiagonalDirection::Northwest, RectDirection::West, RectDirection::North),
    ] {
        for seed in 0..6 {
            let grid = RectGrid::<NoMask>::new(6, 5);
            let maze = BTreeMazeGenerator::new(corner).generate(grid, &mut source(seed));
            let mut corners = 0;
            for row in 0..5 {
                for col in 0..6 {
                    let pos = RectPosition::new(row, col);
                    let along = maze.is_connected_to(&pos, horz);
                    let up = maze.is_connected_to(&pos, vert);
                    assert!(!(along && up));
                    if !along && !up {
                        corners += 1;
                    }
                }
            }
            assert_eq!(corners, 1);
        }
    }
}
