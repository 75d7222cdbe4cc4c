use try_mazes::maze::circ::{CircCellPosIter, CircDirection, CircGrid, CircPosition};

#[test]
fn test_grid_make_rings() {
    let (rings_end_ind, cells) = CircGrid::make_rings(7);
    assert_eq!(rings_end_ind.as_slice(), &[1, 7, 19, 43, 67, 91, 139]);
    assert_eq!(cells.len(), 139);
}

#[test]
fn test_grid_ring_cells_n() {
    let grid = CircGrid::new(7);
    assert_eq!(grid.ring_cells_n(0), Some(1));
    assert_eq!(grid.ring_cells_n(1), Some(6));
    assert_eq!(grid.ring_cells_n(2), Some(12));
    assert_eq!(grid.ring_cells_n(3), Some(24));
    assert_eq!(grid.ring_cells_n(4), Some(24));
    assert_eq!(grid.ring_cells_n(5), Some(24));
    assert_eq!(grid.ring_cells_n(6), Some(48));
    assert_eq!(grid.ring_cells_n(7), None);
}

#[test]
fn test_grid_pos_to_ind() {
    let grid = CircGrid::new(7);
    assert_eq!(grid.pos_to_ind(&CircPosition::new(0, 0)), Some(0));
    assert_eq!(grid.pos_to_ind(&CircPosition::new(0, 1)), None);
    assert_eq!(grid.pos_to_ind(&CircPosition::new(1, 4)), Some(5));
    assert_eq!(grid.pos_to_ind(&CircPosition::new(2, 4)), Some(11));
    assert_eq!(grid.pos_to_ind(&CircPosition::new(5, 8)), Some(75));
    assert_eq!(grid.pos_to_ind(&CircPosition::new(7, 0)), None);
    assert_eq!(grid.pos_to_ind(&CircPosition::new(7, 4)), None);
}

#[test]
fn test_grid_ind_to_pos() {
    let grid = CircGrid::new(7);
    assert_eq!(grid.ind_to_pos(0), Some(CircPosition::new(0, 0)));
    assert_eq!(grid.ind_to_pos(1), Some(CircPosition::new(1, 0)));
    assert_eq!(grid.ind_to_pos(28), Some(CircPosition::new(3, 9)));
    assert_eq!(grid.ind_to_pos(138), Some(CircPosition::new(6, 47)));
    assert_eq!(grid.ind_to_pos(139), None);
}

fn assert_pos_iter_eq(mut pos_iter: CircCellPosIter, expect_pos: &[(usize, usize)]) {
    let mut pos_ind = 0;
    loop {
        let Some(actual) = pos_iter.next() else {
            break;
        };
        assert!(pos_ind < expect_pos.len());
        assert_eq!(
            actual,
            CircPosition::new(expect_pos[pos_ind].0, expect_pos[pos_ind].1)
        );
        pos_ind += 1;
    }

    assert_eq!(pos_ind, expect_pos.len());
}

#[test]
fn test_grid_neighbor_pos_iter() {
    let grid = CircGrid::new(7);
    let center_cell_pos = CircPosition::new(0, 0);
    assert_pos_iter_eq(
        grid.neighbor_pos_iter(&center_cell_pos, CircDirection::Inward),
        &[],
    );
    assert_pos_iter_eq(
        grid.neighbor_pos_iter(&center_cell_pos, CircDirection::Clockwise),
        &[],
    );
    assert_pos_iter_eq(
        grid.neighbor_pos_iter(&center_cell_pos, CircDirection::Counterclockwise),
        &[],
    );
    assert_pos_iter_eq(
        grid.neighbor_pos_iter(&center_cell_pos, CircDirection::Outward),
        &[(1, 0), (1, 1), (1, 2), (1, 3), (1, 4), (1, 5)],
    );

    let another_cell_pos = CircPosition::new(2, 11);
    assert_pos_iter_eq(
        grid.neighbor_pos_iter(&another_cell_pos, CircDirection::Inward),
        &[(1, 5)],
    );
    assert_pos_iter_eq(
        grid.neighbor_pos_iter(&another_cell_pos, CircDirection::Clockwise),
        &[(2, 0)],
    );
    assert_pos_iter_eq(
        grid.neighbor_pos_iter(&another_cell_pos, CircDirection::Counterclockwise),
        &[(2, 10)],
    );
    assert_pos_iter_eq(
        grid.neighbor_pos_iter(&another_cell_pos, CircDirection::Outward),
        &[(3, 22), (3, 23)],
    );

    let bound_cell_pos = CircPosition::new(6, 8);
    assert_pos_iter_eq(
        grid.neighbor_pos_iter(&bound_cell_pos, CircDirection::Inward),
        &[(5, 4)],
    );
    assert_pos_iter_eq(
        grid.neighbor_pos_iter(&bound_cell_pos, CircDirection::Clockwise),
        &[(6, 9)],
    );
    assert_pos_iter_eq(
        grid.neighbor_pos_iter(&bound_cell_pos, CircDirection::Counterclockwise),
        &[(6, 7)],
    );
    assert_pos_iter_eq(
        grid.neighbor_pos_iter(&bound_cell_pos, CircDirection::Outward),
        &[],
    );

    let not_cell_pos = CircPosition::new(7, 8);
    assert_pos_iter_eq(
        grid.neighbor_pos_iter(&not_cell_pos, CircDirection::Inward),
        &[],
    );
    assert_pos_iter_eq(
        grid.neighbor_pos_iter(&not_cell_pos, CircDirection::Clockwise),
        &[],
    );
    assert_pos_iter_eq(
        grid.neighbor_pos_iter(&not_cell_pos, CircDirection::Counterclockwise),
        &[],
    );
    assert_pos_iter_eq(
        grid.neighbor_pos_iter(&not_cell_pos, CircDirection::Outward),
        &[],
    );
}
