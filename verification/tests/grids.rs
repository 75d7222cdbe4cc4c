use rand::rngs::StdRng;
use rand::SeedableRng;
use try_mazes::maze::circ::{CircDirection, CircGrid, CircMaze, CircPosition};
use try_mazes::maze::hexa::{HexaDirection, HexaGrid, HexaMaze, HexaPosition};
use try_mazes::maze::rect::{RectDirection, RectGrid, RectMask, RectMaze, RectPosition};
use try_mazes::maze::tri::{TriDirection, TriGrid, TriMaze, TriPosition};
use try_mazes::maze::{GeneralRectGrid, Grid2d, LayerGrid, NoMask, Position2d, WithMask};
use try_mazes::pos_set::PosSet;
use try_mazes::random::RandomSource;

fn neighbors<G: Grid2d>(grid: &G, row: usize, col: usize) -> Vec<(usize, usize)> {
    let mut list = vec![Position2d(9, 9)];
    grid.append_neighbors(&Position2d(row, col), &mut list);
    assert_eq!(list[0], Position2d(9, 9));
    list[1..].iter().map(|pos| (pos.0, pos.1)).collect()
}

#[test]
fn rect_neighbors_come_north_east_west_south() {
    let grid = RectGrid::<NoMask>::new(3, 3);
    assert_eq!(neighbors(&grid, 1, 1), vec![(0, 1), (1, 2), (1, 0), (2, 1)]);
    assert_eq!(neighbors(&grid, 0, 0), vec![(0, 1), (1, 0)]);
    assert_eq!(neighbors(&grid, 2, 2), vec![(1, 2), (2, 1)]);
    assert_eq!(neighbors(&grid, 3, 0), vec![]);
    assert_eq!(grid.cells_n(), 9);
    assert_eq!(grid.size(), (3, 3));
    assert_eq!(grid.layers_n(), 3);
    assert_eq!(grid.cells_n_at(1), 3);
}

#[test]
fn rect_directions_and_steps() {
    assert_eq!(
        RectDirection::all_dirs(),
        [
            RectDirection::North,
            RectDirection::East,
            RectDirection::West,
            RectDirection::South
        ]
    );
    assert_eq!(RectDirection::North.reverse(), RectDirection::South);
    assert_eq!(RectDirection::South.reverse(), RectDirection::North);
    assert_eq!(RectDirection::East.reverse(), RectDirection::West);
    assert_eq!(RectDirection::West.reverse(), RectDirection::East);
    let pos = RectPosition::new(2, 0);
    assert_eq!(pos.neighbor(RectDirection::North), Some(RectPosition::new(1, 0)));
    assert_eq!(pos.neighbor(RectDirection::South), Some(RectPosition::new(3, 0)));
    assert_eq!(pos.neighbor(RectDirection::East), Some(RectPosition::new(2, 1)));
    assert_eq!(pos.neighbor(RectDirection::West), None);
    assert_eq!(RectPosition::new(0, 4).neighbor(RectDirection::North), None);
    assert_eq!(
        RectPosition::new(usize::MAX, 4).neighbor(RectDirection::South),
        None
    );
    assert_eq!(Position2d::from(pos), Position2d(2, 0));
    assert_eq!(RectPosition::from(Position2d(5, 6)), RectPosition::new(5, 6));
}

#[test]
fn rect_connect_through_the_grid_abstraction() {
    let mut grid = RectGrid::<NoMask>::new(3, 2);
    assert!(Grid2d::connect_to(&mut grid, &Position2d(0, 0), &Position2d(1, 0)));
    assert!(Grid2d::connect_to(&mut grid, &Position2d(0, 0), &Position2d(1, 0)));
    assert!(!Grid2d::connect_to(&mut grid, &Position2d(0, 0), &Position2d(1, 1)));
    assert!(!Grid2d::connect_to(&mut grid, &Position2d(0, 0), &Position2d(0, 0)));
    assert!(!Grid2d::connect_to(&mut grid, &Position2d(1, 2), &Position2d(1, 3)));
    assert!(!Grid2d::connect_to(&mut grid, &Position2d(1, 3), &Position2d(1, 2)));
    assert!(grid.is_connected_to(&RectPosition::new(0, 0), RectDirection::South));
    assert!(grid.is_connected_to(&RectPosition::new(1, 0), RectDirection::North));
    assert!(!grid.is_connected_to(&RectPosition::new(0, 0), RectDirection::East));
    assert!(grid.is_at_border(&RectPosition::new(0, 0), RectDirection::North));
    assert!(!grid.is_at_border(&RectPosition::new(0, 0), RectDirection::South));
    assert!(!grid.is_at_border(&RectPosition::new(5, 0), RectDirection::South));
    assert_eq!(
        grid.neighbor_pos(&RectPosition::new(1, 2), RectDirection::West),
        Some(RectPosition::new(1, 1))
    );
    assert_eq!(
        grid.neighbor_pos(&RectPosition::new(1, 2), RectDirection::East),
        None
    );
    let maze = RectMaze::NoMask(grid);
    assert!(maze.is_cell(&RectPosition::new(1, 2)));
    assert!(!maze.is_cell(&RectPosition::new(2, 0)));
    assert!(maze.is_connected_to(&RectPosition::new(1, 0), RectDirection::North));
    assert!(!maze.is_connected_to(&RectPosition::new(1, 0), RectDirection::East));
}

#[test]
fn masked_rect_grid_skips_what_the_mask_leaves_out() {
    let mut mask = RectMask::new(3, 2);
    for col in 0..3 {
        mask.set_flag(&RectPosition::new(0, col), true);
    }
    mask.set_flag(&RectPosition::new(1, 2), true);
    let mut grid = RectGrid::<WithMask>::new(&mask);
    assert_eq!(grid.cells_n(), 4);
    assert_eq!(neighbors(&grid, 0, 1), vec![(0, 2), (0, 0)]);
    assert_eq!(neighbors(&grid, 1, 1), vec![]);
    assert_eq!(neighbors(&grid, 1, 2), vec![(0, 2)]);
    assert!(!Grid2d::connect_to(&mut grid, &Position2d(0, 1), &Position2d(1, 1)));
    assert!(!grid.connect_to(&RectPosition::new(0, 1), RectDirection::South));
    assert!(grid.connect_to(&RectPosition::new(1, 2), RectDirection::North));
    assert!(grid.is_connected_to(&RectPosition::new(0, 2), RectDirection::South));
    assert!(grid.is_at_border(&RectPosition::new(0, 1), RectDirection::South));
    let all = grid.all_cells_pos_set();
    assert_eq!(all.len(), 4);
    assert!(all.contains(&Position2d(1, 2)));
    assert!(!all.contains(&Position2d(1, 1)));
    let mut rng = RandomSource::from_rng(StdRng::seed_from_u64(3));
    for _ in 0..20 {
        let picked = grid.random_cell_pos(&mut rng).unwrap();
        assert!(all.contains(&picked));
    }
}

#[test]
fn random_cell_of_an_empty_grid_is_none() {
    let mut rng = RandomSource::from_rng(StdRng::seed_from_u64(3));
    assert_eq!(RectGrid::<NoMask>::new(0, 4).random_cell_pos(&mut rng), None);
    assert_eq!(RectGrid::<NoMask>::new(4, 0).random_cell_pos(&mut rng), None);
    assert_eq!(CircGrid::new(0).random_cell_pos(&mut rng), None);
    let mask = RectMask::new(3, 3);
    assert_eq!(TriGrid::with_mask(&mask).random_cell_pos(&mut rng), None);
    let grid = HexaGrid::<NoMask>::new(3, 2);
    for _ in 0..20 {
        let picked = grid.random_cell_pos(&mut rng).unwrap();
        assert!(picked.0 < 2 && picked.1 < 3);
    }
    let grid = CircGrid::new(3);
    for _ in 0..20 {
        let picked = grid.random_cell_pos(&mut rng).unwrap();
        assert!(grid.pos_to_ind(&CircPosition::new(picked.0, picked.1)).is_some());
    }
}

#[test]
fn hexa_neighbors_follow_the_column_offset() {
    let grid = HexaGrid::<NoMask>::new(4, 3);
    // north, north-east, south-east, north-west, south-west, south
    assert_eq!(
        neighbors(&grid, 1, 2),
        vec![(0, 2), (0, 3), (1, 3), (0, 1), (1, 1), (2, 2)]
    );
    assert_eq!(
        neighbors(&grid, 1, 1),
        vec![(0, 1), (1, 2), (2, 2), (1, 0), (2, 0), (2, 1)]
    );
    assert_eq!(neighbors(&grid, 0, 0), vec![(0, 1), (1, 0)]);
    assert_eq!(neighbors(&grid, 2, 3), vec![(1, 3), (2, 2)]);
    assert_eq!(
        HexaDirection::all_dirs(),
        [
            HexaDirection::North,
            HexaDirection::NorthEast,
            HexaDirection::SouthEast,
            HexaDirection::NorthWest,
            HexaDirection::SouthWest,
            HexaDirection::South
        ]
    );
    let even = HexaPosition::new(1, 2);
    assert_eq!(even.neighbor(HexaDirection::NorthEast), Some(HexaPosition::new(0, 3)));
    assert_eq!(even.neighbor(HexaDirection::SouthEast), Some(HexaPosition::new(1, 3)));
    assert_eq!(even.neighbor(HexaDirection::SouthWest), Some(HexaPosition::new(1, 1)));
    assert_eq!(even.neighbor(HexaDirection::NorthWest), Some(HexaPosition::new(0, 1)));
    let odd = HexaPosition::new(1, 1);
    assert_eq!(odd.neighbor(HexaDirection::NorthEast), Some(HexaPosition::new(1, 2)));
    assert_eq!(odd.neighbor(HexaDirection::SouthEast), Some(HexaPosition::new(2, 2)));
    assert_eq!(odd.neighbor(HexaDirection::SouthWest), Some(HexaPosition::new(2, 0)));
    assert_eq!(odd.neighbor(HexaDirection::NorthWest), Some(HexaPosition::new(1, 0)));
    assert_eq!(HexaPosition::new(0, 0).neighbor(HexaDirection::NorthEast), None);
    assert_eq!(HexaPosition::new(0, 0).neighbor(HexaDirection::SouthWest), None);
    assert_eq!(HexaPosition::new(0, 2).neighbor(HexaDirection::NorthWest), None);
    assert_eq!(HexaPosition::new(0, 2).neighbor(HexaDirection::North), None);
    assert_eq!(
        grid.neighbor_pos(&HexaPosition::new(2, 1), HexaDirection::South),
        None
    );
    assert_eq!(
        grid.neighbor_pos(&HexaPosition::new(1, 1), HexaDirection::South),
        Some(HexaPosition::new(2, 1))
    );
    assert_eq!(HexaPosition::from(Position2d(1, 2)), even);
    assert_eq!(Position2d::from(odd), Position2d(1, 1));
}

#[test]
fn hexa_connections_are_seen_from_both_sides() {
    for dir in HexaDirection::all_dirs() {
        let mut grid = HexaGrid::<NoMask>::new(3, 3);
        let from = HexaPosition::new(1, 1);
        let to = from.neighbor(dir).unwrap();
        assert!(grid.connect_to(&Position2d(1, 1), &Position2d(to.row, to.col)));
        assert!(!grid.connect_to(&Position2d(1, 1), &Position2d(1, 1)));
        let maze = HexaMaze::NoMask(grid);
        for other in HexaDirection::all_dirs() {
            assert_eq!(maze.is_connected_to(&from, other), other == dir);
            let back = to.neighbor(other) == Some(from);
            assert_eq!(maze.is_connected_to(&to, other), back);
        }
        assert_eq!(maze.size(), (3, 3));
        assert!(maze.is_cell(&to));
        assert!(!maze.is_cell(&HexaPosition::new(3, 0)));
        assert!(!maze.is_connected_to(&HexaPosition::new(3, 0), dir));
    }
}

#[test]
fn tri_neighbors_depend_on_the_way_a_cell_points() {
    let grid = TriGrid::new(4, 3);
    // up: north-west, north-east, south
    assert_eq!(neighbors(&grid, 1, 1), vec![(1, 0), (1, 2), (2, 1)]);
    // down: south-west, north, south-east
    assert_eq!(neighbors(&grid, 1, 2), vec![(1, 1), (0, 2), (1, 3)]);
    assert_eq!(neighbors(&grid, 0, 0), vec![(0, 1), (1, 0)]);
    assert_eq!(neighbors(&grid, 2, 1), vec![(2, 0), (1, 1), (2, 2)]);
    assert_eq!(neighbors(&grid, 2, 0), vec![(2, 1)]);
    assert_eq!(
        TriDirection::angle_up_all_dirs(),
        [
            TriDirection::Northwest,
            TriDirection::Northeast,
            TriDirection::South
        ]
    );
    assert_eq!(
        TriDirection::angle_down_all_dirs(),
        [
            TriDirection::SouthWest,
            TriDirection::North,
            TriDirection::Southeast
        ]
    );
    let pos = TriPosition::new(1, 1);
    assert_eq!(pos.neighbor(TriDirection::Northwest), Some(TriPosition::new(1, 0)));
    assert_eq!(pos.neighbor(TriDirection::SouthWest), Some(TriPosition::new(1, 0)));
    assert_eq!(pos.neighbor(TriDirection::Northeast), Some(TriPosition::new(1, 2)));
    assert_eq!(pos.neighbor(TriDirection::Southeast), Some(TriPosition::new(1, 2)));
    assert_eq!(pos.neighbor(TriDirection::South), Some(TriPosition::new(2, 1)));
    assert_eq!(pos.neighbor(TriDirection::North), Some(TriPosition::new(0, 1)));
    assert_eq!(TriPosition::new(0, 0).neighbor(TriDirection::North), None);
    assert_eq!(TriPosition::new(0, 0).neighbor(TriDirection::Northwest), None);
    assert_eq!(
        grid.neighbor_pos(&pos, TriDirection::South),
        Some(TriPosition::new(2, 1))
    );
    assert_eq!(grid.neighbor_pos(&pos, TriDirection::North), None);
    assert_eq!(grid.neighbor_pos(&TriPosition::new(2, 0), TriDirection::South), None);
    assert_eq!(TriPosition::from(Position2d(1, 1)), pos);
    assert_eq!(Position2d::from(pos), Position2d(1, 1));
}

#[test]
fn tri_connections_are_seen_from_both_sides() {
    for (row, col) in [(1, 1), (1, 2)] {
        let from = TriPosition::new(row, col);
        let up = (row + col) % 2 == 0;
        let dirs = if up {
            TriDirection::angle_up_all_dirs()
        } else {
            TriDirection::angle_down_all_dirs()
        };
        for dir in dirs {
            let mut grid = TriGrid::new(4, 3);
            let to = from.neighbor(dir).unwrap();
            assert!(grid.connect_to(&Position2d(row, col), &Position2d(to.row, to.col)));
            assert!(!grid.connect_to(&Position2d(row, col), &Position2d(row + 1, col + 1)));
            let maze = TriMaze::new(grid);
            assert_eq!(maze.is_angle_up(&from), up);
            assert_eq!(maze.is_angle_up(&to), !up);
            for other in TriDirection::angle_up_all_dirs()
                .into_iter()
                .chain(TriDirection::angle_down_all_dirs())
            {
                assert_eq!(maze.is_connected_to(&from, other), other == dir);
            }
            let back: Vec<TriDirection> = TriDirection::angle_up_all_dirs()
                .into_iter()
                .chain(TriDirection::angle_down_all_dirs())
                .filter(|other| maze.is_connected_to(&to, *other))
                .collect();
            assert_eq!(back.len(), 1);
            assert_eq!(to.neighbor(back[0]), Some(from));
            assert_eq!(maze.size(), (4, 3));
            assert!(maze.is_cell(&to));
            assert!(!maze.is_cell(&TriPosition::new(3, 0)));
        }
    }
    // Above a cell that points up there is no neighbour.
    let mut grid = TriGrid::new(4, 3);
    assert!(!grid.connect_to(&Position2d(1, 1), &Position2d(0, 1)));
}

#[test]
fn circ_neighbors_come_inward_clockwise_counterclockwise_outward() {
    let grid = CircGrid::new(4);
    assert_eq!(
        neighbors(&grid, 0, 0),
        vec![(1, 0), (1, 1), (1, 2), (1, 3), (1, 4), (1, 5)]
    );
    assert_eq!(neighbors(&grid, 1, 5), vec![(0, 0), (1, 0), (1, 4), (2, 10), (2, 11)]);
    assert_eq!(neighbors(&grid, 3, 0), vec![(2, 0), (3, 1), (3, 23)]);
    assert_eq!(neighbors(&grid, 4, 0), vec![]);
    assert_eq!(grid.cells_n(), 43);
    assert_eq!(grid.layers_n(), 4);
    assert_eq!(grid.cells_n_at(2), 12);
    assert_eq!(grid.cells_n_at(4), 0);
    assert_eq!(
        CircDirection::all_dirs(),
        [
            CircDirection::Inward,
            CircDirection::Clockwise,
            CircDirection::Counterclockwise,
            CircDirection::Outward
        ]
    );
    let all = grid.all_cells_pos_set();
    assert_eq!(all.len(), 43);
    assert_eq!(all.get(0), Position2d(0, 0));
    assert_eq!(all.get(7), Position2d(2, 0));
    assert_eq!(CircPosition::from(Position2d(2, 3)), CircPosition::new(2, 3));
    assert_eq!(Position2d::from(CircPosition::new(2, 3)), Position2d(2, 3));
}

#[test]
fn circ_connections_are_kept_by_the_outer_or_the_earlier_cell() {
    let mut grid = CircGrid::new(4);
    assert!(grid.connect_to(&Position2d(2, 5), &Position2d(1, 2)));
    assert!(grid.connect_to(&Position2d(1, 0), &Position2d(2, 1)));
    assert!(grid.connect_to(&Position2d(2, 11), &Position2d(2, 0)));
    assert!(grid.connect_to(&Position2d(3, 4), &Position2d(3, 3)));
    assert!(grid.connect_to(&Position2d(0, 0), &Position2d(1, 3)));
    assert!(!grid.connect_to(&Position2d(0, 0), &Position2d(2, 3)));
    assert!(!grid.connect_to(&Position2d(2, 5), &Position2d(1, 3)));
    assert!(!grid.connect_to(&Position2d(2, 5), &Position2d(2, 5)));
    assert!(!grid.connect_to(&Position2d(3, 23), &Position2d(4, 0)));
    let maze = CircMaze::new(grid);
    assert_eq!(maze.rings_n(), 4);
    assert_eq!(maze.ring_cells_n(3), Some(24));
    assert_eq!(maze.ring_cells_n(4), None);
    assert!(maze.is_connect_inward(&CircPosition::new(2, 5)));
    assert!(maze.is_connect_inward(&CircPosition::new(2, 1)));
    assert!(maze.is_connect_inward(&CircPosition::new(1, 3)));
    assert!(!maze.is_connect_inward(&CircPosition::new(1, 2)));
    assert!(!maze.is_connect_inward(&CircPosition::new(0, 0)));
    assert!(maze.is_connect_clockwise(&CircPosition::new(2, 11)));
    assert!(maze.is_connect_clockwise(&CircPosition::new(3, 3)));
    assert!(!maze.is_connect_clockwise(&CircPosition::new(3, 4)));
    assert!(!maze.is_connect_clockwise(&CircPosition::new(2, 0)));
    assert!(!maze.is_connect_clockwise(&CircPosition::new(9, 0)));
}

#[test]
fn ring_sizes_further_out() {
    let grid = CircGrid::new(13);
    let sizes: Vec<usize> = (0..13).map(|ring| grid.ring_cells_n(ring).unwrap()).collect();
    assert_eq!(sizes, vec![1, 6, 12, 24, 24, 24, 48, 48, 48, 48, 48, 48, 96]);
}

#[test]
fn layers_of_rectangular_and_hexagonal_grids_are_rows() {
    let rect = RectGrid::<NoMask>::new(3, 2);
    let mut list = Vec::new();
    rect.append_neighbors_lower_layer(&Position2d(0, 1), &mut list);
    rect.append_neighbors_upper_layer(&Position2d(0, 1), &mut list);
    rect.append_neighbors_upper_layer(&Position2d(1, 1), &mut list);
    rect.append_neighbors_lower_layer(&Position2d(1, 1), &mut list);
    assert_eq!(list, vec![Position2d(1, 1), Position2d(0, 1)]);
    assert_eq!(rect.last_neighbor_pos(&Position2d(1, 2)), Some(Position2d(1, 1)));
    assert_eq!(rect.last_neighbor_pos(&Position2d(1, 0)), None);
    assert_eq!(rect.next_neighbor_pos(&Position2d(1, 1)), Some(Position2d(1, 2)));
    assert_eq!(rect.next_neighbor_pos(&Position2d(1, 2)), None);
    let hexa = HexaGrid::<NoMask>::new(3, 2);
    assert_eq!(hexa.layers_n(), 2);
    assert_eq!(hexa.cells_n_at(0), 3);
    let mut list = Vec::new();
    hexa.append_neighbors_lower_layer(&Position2d(0, 1), &mut list);
    hexa.append_neighbors_upper_layer(&Position2d(1, 2), &mut list);
    assert_eq!(list, vec![Position2d(1, 1), Position2d(0, 2)]);
    let circ = CircGrid::new(3);
    let mut list = Vec::new();
    circ.append_neighbors_lower_layer(&Position2d(1, 1), &mut list);
    circ.append_neighbors_upper_layer(&Position2d(2, 7), &mut list);
    circ.append_neighbors_lower_layer(&Position2d(2, 7), &mut list);
    assert_eq!(list, vec![Position2d(2, 2), Position2d(2, 3), Position2d(1, 3)]);
    assert_eq!(circ.next_neighbor_pos(&Position2d(1, 5)), None);
    assert_eq!(circ.next_neighbor_pos(&Position2d(1, 4)), Some(Position2d(1, 5)));
}

#[test]
fn general_grid_knows_its_cells() {
    let mut mask = RectMask::new(2, 2);
    mask.set_flag(&RectPosition::new(1, 0), true);
    let copy = mask.clone();
    assert_eq!(copy, mask);
    let grid = TriGrid::with_mask(&mask);
    assert_eq!(grid.cells_n(), 1);
    let plain = HexaGrid::<NoMask>::new(2, 3);
    assert_eq!(plain.cells_n(), 6);
    let maze = HexaMaze::NoMask(plain);
    assert_eq!(maze.size(), (2, 3));
}

#[test]
fn position_set_keeps_members_once() {
    let mut set = PosSet::new();
    assert!(set.is_empty());
    assert!(set.insert(Position2d(1, 2)));
    assert!(set.insert(Position2d(2, 1)));
    assert!(!set.insert(Position2d(1, 2)));
    assert!(set.insert(Position2d(0, usize::MAX)));
    assert!(set.insert(Position2d(usize::MAX, 0)));
    assert_eq!(set.len(), 4);
    assert_eq!(set.get(0), Position2d(1, 2));
    assert_eq!(set.get(1), Position2d(2, 1));
    assert_eq!(set.index_of(&Position2d(2, 1)), Some(1));
    assert_eq!(set.index_of(&Position2d(1, 1)), None);
    assert!(set.contains(&Position2d(usize::MAX, 0)));
    assert!(!set.contains(&Position2d(usize::MAX, 1)));
    assert!(set.remove(&Position2d(1, 2)));
    assert!(!set.remove(&Position2d(1, 2)));
    assert_eq!(set.len(), 3);
    assert!(!set.contains(&Position2d(1, 2)));
    assert_eq!(set.index_of(&Position2d(usize::MAX, 0)), Some(0));
    assert_eq!(set.get(0), Position2d(usize::MAX, 0));
    set.truncate(1);
    assert_eq!(set.len(), 1);
    assert!(set.contains(&Position2d(usize::MAX, 0)));
    assert!(!set.contains(&Position2d(2, 1)));
    assert!(set.insert(Position2d(2, 1)));
    assert_eq!(set.index_of(&Position2d(2, 1)), Some(1));
    set.clear();
    assert!(set.is_empty());
    assert!(!set.contains(&Position2d(2, 1)));
    assert!(set.insert(Position2d(2, 1)));
}

#[test]
fn general_grid_of_any_cell() {
    let grid = GeneralRectGrid::<try_mazes::maze::circ::CircCell>::new(3, 2);
    assert_eq!(grid.size(), (3, 2));
    assert_eq!(grid.cells_n(), 6);
    assert!(grid.is_cell(&Position2d(1, 2)));
    assert!(!grid.is_cell(&Position2d(2, 0)));
    let mut mask = RectMask::new(3, 2);
    mask.set_flag(&RectPosition::new(0, 1), true);
    let grid = GeneralRectGrid::<try_mazes::maze::circ::CircCell>::with_mask(&mask);
    assert_eq!(grid.cells_n(), 1);
    assert!(grid.is_cell(&Position2d(0, 1)));
    assert!(!grid.is_cell(&Position2d(1, 2)));
}

#[test]
fn ring_count_limit_is_told_apart() {
    assert!(CircGrid::rings_fit(0));
    assert!(CircGrid::rings_fit(7));
    assert!(CircGrid::rings_fit(2000));
    assert!(!CircGrid::rings_fit(usize::MAX));
}

#[test]
fn walls_of_hexagonal_and_triangular_mazes() {
    let mut grid = HexaGrid::<NoMask>::new(2, 2);
    assert!(grid.connect_to(&Position2d(0, 0), &Position2d(1, 0)));
    let maze = HexaMaze::NoMask(grid);
    assert!(!maze.has_wall(&HexaPosition::new(1, 0), HexaDirection::North));
    assert!(maze.has_wall(&HexaPosition::new(0, 0), HexaDirection::North));
    assert!(maze.has_wall(&HexaPosition::new(0, 1), HexaDirection::NorthWest));
    assert!(maze.has_wall(&HexaPosition::new(2, 1), HexaDirection::North));
    assert!(!maze.has_wall(&HexaPosition::new(3, 1), HexaDirection::North));
    let mut grid = TriGrid::new(3, 2);
    assert!(grid.connect_to(&Position2d(0, 0), &Position2d(1, 0)));
    let maze = TriMaze::new(grid);
    assert!(!maze.has_wall(&TriPosition::new(0, 0), TriDirection::South));
    assert!(maze.has_wall(&TriPosition::new(0, 0), TriDirection::Northwest));
    assert!(maze.has_wall(&TriPosition::new(0, 1), TriDirection::SouthWest));
    assert!(maze.has_wall(&TriPosition::new(0, 3), TriDirection::SouthWest));
    assert!(!maze.has_wall(&TriPosition::new(0, 4), TriDirection::SouthWest));
}

#[test]
fn random_position_lies_within_the_rectangle() {
    let mut rng = RandomSource::from_rng(StdRng::seed_from_u64(11));
    let mut rows = [false; 3];
    let mut cols = [false; 5];
    for _ in 0..400 {
        let pos = RectPosition::random(&mut rng, 5, 3);
        assert!(pos.row < 3 && pos.col < 5);
        rows[pos.row] = true;
        cols[pos.col] = true;
    }
    assert!(rows.iter().all(|seen| *seen));
    assert!(cols.iter().all(|seen| *seen));
    assert_eq!(RectPosition::random(&mut rng, 1, 1), RectPosition::new(0, 0));
}
