use tabua::board::grid::{CellAdjacency, Grid, GridBuilder};
use tabua::pathfinder::dfs::BreadthFirstSearch;

#[test]
fn dfs_adjacent_goal() {
    let grid = Grid::new_square_grid(vec![vec![(), (), ()], vec![(), (), ()], vec![(), (), ()]]);

    let root = (0, 0);
    let goal = (0, 1);

    assert!(grid.dfs(&root, &goal).is_some())
}

#[test]
fn dfs_line_goal() {
    let grid = Grid::new_square_grid(vec![vec![(), (), ()], vec![(), (), ()], vec![(), (), ()]]);

    let root = (0, 0);
    let goal = (0, 2);

    assert!(grid.dfs(&root, &goal).is_some())
}

#[test]
fn dfs_diagonal_goal() {
    let grid = Grid::new_square_grid(vec![vec![(), (), ()], vec![(), (), ()], vec![(), (), ()]]);

    let root = (0, 0);
    let goal = (2, 2);

    assert_eq!(
        grid.dfs(&root, &goal),
        Some(vec![root, (1, 0), (2, 0), (2, 1), goal])
    )
}

#[test]
fn dfs_diagonal_goal_2() {
    let grid = GridBuilder::new_square_grid()
        .with_cell_adjacency(CellAdjacency::SideAndVertex)
        .with_rows(3)
        .with_columns(3)
        .with_initial_value(())
        .build();

    let root = (0, 0);
    let goal = (2, 2);

    assert_eq!(grid.dfs(&root, &goal), Some(vec![root, (1, 1), goal]))
}

#[test]
fn dfs_l_goal() {
    let grid = GridBuilder::new_square_grid()
        .with_rows(3)
        .with_columns(3)
        .with_initial_value(())
        .build();

    let root = (0, 0);
    let goal = (1, 2);

    assert!(grid.dfs(&root, &goal).is_some())
}

#[test]
fn dfs_l_goal_2() {
    let grid = GridBuilder::new_square_grid()
        .with_cell_adjacency(CellAdjacency::SideAndVertex)
        .with_rows(3)
        .with_columns(3)
        .with_initial_value(())
        .build();

    let root = (0, 0);
    let goal = (1, 2);

    assert!(grid.dfs(&root, &goal).is_some())
}

#[test]
fn dfs_root_is_goal() {
    let grid = GridBuilder::new_square_grid()
        .with_rows(2)
        .with_columns(2)
        .with_initial_value(0u8)
        .build();

    assert_eq!(grid.dfs(&(0, 1), &(0, 1)), Some(vec![(0, 1)]));
}

#[test]
fn dfs_out_of_bounds_root() {
    let grid = GridBuilder::new_square_grid()
        .with_rows(2)
        .with_columns(2)
        .with_initial_value(0u8)
        .build();

    assert_eq!(grid.dfs(&(7, 0), &(0, 0)), None);
}

#[test]
fn dfs_every_pair_connected() {
    let grid = GridBuilder::new_square_grid()
        .with_rows(3)
        .with_columns(4)
        .with_initial_value(0u8)
        .build();

    for r1 in 0..3 {
        for c1 in 0..4 {
            for r2 in 0..3 {
                for c2 in 0..4 {
                    let path = grid.dfs(&(r1, c1), &(r2, c2)).unwrap();
                    assert_eq!(path[0], (r1, c1));
                    assert_eq!(*path.last().unwrap(), (r2, c2));
                    for w in path.windows(2) {
                        let dr = w[0].0.abs_diff(w[1].0);
                        let dc = w[0].1.abs_diff(w[1].1);
                        assert_eq!(dr + dc, 1);
                    }
                }
            }
        }
    }
}
