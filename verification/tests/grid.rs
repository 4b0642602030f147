use tabua::board::grid::{CellAdjacency, CellType, Grid, GridBuilder, GridError, GridExt};
use tabua::Board2D;

#[test]
fn builder_fills_every_cell() {
    let grid: Grid<u32> = Grid::builder()
        .with_rows(2)
        .with_columns(4)
        .with_initial_value(7)
        .with_cell_type(CellType::Square)
        .with_cell_adjacency(CellAdjacency::Side)
        .build();

    assert_eq!(grid.row_len(), 2);
    assert_eq!(grid.column_len(), 4);
    for r in 0..2 {
        for c in 0..4 {
            assert_eq!(grid.get(&(r, c)), Some(&7));
        }
    }
    assert_eq!(grid.get(&(2, 0)), None);
    assert_eq!(grid.get(&(0, 4)), None);
}

#[test]
fn builder_defaults_to_nothing_configured() {
    let builder: GridBuilder<u8> = GridBuilder::default();
    let grid = builder
        .with_rows(1)
        .with_columns(1)
        .with_initial_value(3)
        .with_cell_type(CellType::Square)
        .with_cell_adjacency(CellAdjacency::Vertex)
        .build();
    assert_eq!(grid.get(&(0, 0)), Some(&3));
}

#[test]
fn get_agrees_with_rows_and_columns() {
    let grid = Grid::new_square_grid(vec![vec![1u8, 2, 3], vec![4, 5, 6], vec![7, 8, 9]]);

    let rows = grid.rows();
    for r in 0..3 {
        assert_eq!(grid.iter_row(r), &rows[r]);
        for c in 0..3 {
            assert_eq!(grid.get(&(r, c)), Some(&rows[r][c]));
        }
    }

    let mut columns = grid.columns();
    for c in 0..3 {
        let column = columns.next().unwrap();
        for r in 0..3 {
            assert_eq!(grid.get(&(r, c)), Some(column[r]));
        }
    }
    assert!(columns.next().is_none());

    let mut down = grid.iter_column(1);
    assert_eq!(down.next(), Some(&2));
    assert_eq!(down.next(), Some(&5));
    assert_eq!(down.next(), Some(&8));
    assert_eq!(down.next(), None);
}

#[test]
fn get_mut_replaces_one_cell() {
    let mut grid = Grid::new_square_grid(vec![vec![0u8, 0], vec![0, 0]]);
    *grid.get_mut(&(1, 0)).unwrap() = 9;
    assert_eq!(grid.get(&(1, 0)), Some(&9));
    assert_eq!(grid.get(&(0, 0)), Some(&0));
    assert!(grid.get_mut(&(2, 0)).is_none());
}

#[test]
fn side_adjacency_is_the_orthogonal_neighbors() {
    let grid: Grid<u8> = GridBuilder::new_square_grid()
        .with_rows(3)
        .with_columns(3)
        .with_initial_value(0)
        .build();

    assert_eq!(
        grid.adjacencies().unwrap(),
        vec![(-1, 0), (0, -1), (0, 1), (1, 0)]
    );

    let corner: Vec<(usize, usize)> = grid
        .adjacent_cells(&(0, 0))
        .unwrap()
        .into_iter()
        .map(|(p, _)| p)
        .collect();
    assert_eq!(corner, vec![(0, 1), (1, 0)]);

    let edge: Vec<(usize, usize)> = grid
        .adjacent_cells(&(0, 1))
        .unwrap()
        .into_iter()
        .map(|(p, _)| p)
        .collect();
    assert_eq!(edge, vec![(0, 0), (0, 2), (1, 1)]);

    let interior: Vec<(usize, usize)> = grid
        .adjacent_cells(&(1, 1))
        .unwrap()
        .into_iter()
        .map(|(p, _)| p)
        .collect();
    assert_eq!(interior, vec![(0, 1), (1, 0), (1, 2), (2, 1)]);
}

#[test]
fn vertex_adjacency_reaches_eight_neighbors() {
    let grid: Grid<u8> = GridBuilder::new_square_grid()
        .with_cell_adjacency(CellAdjacency::SideAndVertex)
        .with_rows(3)
        .with_columns(3)
        .with_initial_value(0)
        .build();

    assert_eq!(grid.adjacencies().unwrap().len(), 8);
    assert_eq!(grid.adjacent_cells(&(1, 1)).unwrap().len(), 8);
    assert_eq!(grid.adjacent_cells(&(0, 0)).unwrap().len(), 3);
}

#[test]
fn hex_adjacency_is_an_unsupported_configuration() {
    let grid = Grid::new_hex_grid(vec![vec![0u8, 0], vec![0, 0]]);
    assert_eq!(
        grid.adjacencies(),
        Err(GridError::UnsupportedConfiguration)
    );
    assert!(grid.adjacent_cells(&(0, 0)).is_err());
}

#[test]
fn hey_builder_builds_a_hex_grid() {
    let grid: Grid<u8> = GridBuilder::new_hey_grid()
        .with_rows(2)
        .with_columns(2)
        .with_initial_value(0)
        .build();
    assert!(grid.adjacencies().is_err());
}

#[test]
fn bare_board_lookup_and_columns() {
    let mut board: Vec<Vec<u8>> = vec![vec![1, 2], vec![3, 4]];

    assert_eq!(Board2D::get(&board, 0, 1), &2);
    assert_eq!(Board2D::iter_row(&board, 1), &vec![3, 4]);

    *Board2D::get_mut(&mut board, 1, 1) = 9;
    assert_eq!(Board2D::get(&board, 1, 1), &9);

    let mut column = Board2D::iter_column(&board, 0);
    assert_eq!(column.next(), Some(&1));
    assert_eq!(column.next(), Some(&3));
    assert_eq!(column.next(), None);
}

#[test]
fn bare_grid_adjacency_order() {
    let board: Vec<Vec<u8>> = vec![vec![1, 2], vec![3, 4]];
    assert_eq!(
        GridExt::adjacencies(&board).unwrap(),
        vec![(0, -1), (0, 1), (-1, 0), (1, 0)]
    );
    let around: Vec<(usize, usize)> = GridExt::adjacent_cells(&board, &(0, 0))
        .unwrap()
        .into_iter()
        .map(|(p, _)| p)
        .collect();
    assert_eq!(around, vec![(0, 1), (1, 0)]);
}

#[test]
fn empty_grid_has_no_rows_or_columns() {
    let grid: Grid<u8> = GridBuilder::new_square_grid()
        .with_rows(0)
        .with_columns(5)
        .with_initial_value(0)
        .build();
    assert_eq!(grid.row_len(), 0);
    assert_eq!(grid.column_len(), 0);
    assert_eq!(grid.get(&(0, 0)), None);
}

#[test]
fn ragged_bare_board_lookups_stay_per_row() {
    let board: Vec<Vec<u8>> = vec![vec![1, 2, 3], vec![4]];
    assert_eq!(GridExt::row_len(&board), 2);
    assert_eq!(GridExt::column_len(&board), 3);
    assert_eq!(GridExt::get(&board, &(0, 2)), Some(&3));
    assert_eq!(GridExt::get(&board, &(1, 1)), None);

    let mut column = GridExt::iter_column(&board, 1);
    assert_eq!(column.next(), Some(&2));
    assert_eq!(column.next(), None);
    assert_eq!(column.next(), None);
}

#[test]
fn position_add_rejects_negative_targets() {
    assert_eq!(tabua::board::grid::position_add((0, 0), (-1, 0)), None);
    assert_eq!(tabua::board::grid::position_add((0, 0), (0, -1)), None);
    assert_eq!(tabua::board::grid::position_add((2, 3), (-1, 2)), Some((1, 5)));
    assert_eq!(tabua::board::grid::position_add((2, 3), (1, -3)), Some((3, 0)));
}
