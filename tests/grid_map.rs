use maze_core::grid::{Direction, GridMap, Pos, Wall, WallOrientation};

fn p(x: i32, y: i32) -> Pos {
    Pos { x, y }
}

#[test]
fn cell_index_round_trip() {
    let g = GridMap::new(4, 3);
    assert_eq!(g.get_cell_count(), 12);
    for i in 0..12 {
        let pos = g.index_to_cell_pos(i).unwrap();
        assert_eq!(pos, p(i % 4, i / 4));
        assert_eq!(g.cell_pos_to_index(pos), Some(i));
    }
    assert_eq!(g.index_to_cell_pos(12), None);
    assert_eq!(g.index_to_cell_pos(-1), None);
    assert_eq!(g.cell_pos_to_index(p(4, 0)), None);
    assert_eq!(g.cell_pos_to_index(p(-1, 0)), None);
    assert_eq!(g.cell_pos_to_index(p(3, 2)), Some(11));
    assert!(g.is_cell_index_in_bounds(11));
    assert!(!g.is_cell_index_in_bounds(12));
    assert!(g.is_cell_pos_in_bounds(p(0, 2)));
    assert!(!g.is_cell_pos_in_bounds(p(0, 3)));
}

#[test]
fn point_index_round_trip() {
    let g = GridMap::new(4, 3);
    assert_eq!(g.get_point_count(), 20);
    assert_eq!(g.index_to_point_pos(19), Some(p(4, 3)));
    assert_eq!(g.index_to_point_pos(20), None);
    assert_eq!(g.point_pos_to_index(p(4, 3)), Some(19));
    assert_eq!(g.point_pos_to_index(p(5, 0)), None);
    assert!(g.is_point_pos_in_bounds(p(4, 3)));
    assert!(!g.is_point_pos_in_bounds(p(4, 4)));
    assert!(g.is_point_index_in_bounds(19));
    assert!(!g.is_point_index_in_bounds(20));
}

#[test]
fn counts_are_closed_form() {
    let g = GridMap::new(4, 3);
    assert_eq!(g.get_wall_count(), 4 * 4 + 5 * 3);
    assert_eq!(g.iter_walls(WallOrientation::Horizontal).len(), 16);
    assert_eq!(g.iter_walls(WallOrientation::Vertical).len(), 15);
    assert!(g.is_wall_index_in_bounds(15, WallOrientation::Horizontal));
    assert!(!g.is_wall_index_in_bounds(16, WallOrientation::Horizontal));
    assert!(g.is_wall_index_in_bounds(14, WallOrientation::Vertical));
    assert!(!g.is_wall_index_in_bounds(15, WallOrientation::Vertical));
}

#[test]
fn iteration_is_row_major() {
    let g = GridMap::new(3, 2);
    let cells = g.iter_cells();
    assert_eq!(cells, vec![p(0, 0), p(1, 0), p(2, 0), p(0, 1), p(1, 1), p(2, 1)]);
    let points = g.iter_points();
    assert_eq!(points.len(), 12);
    assert_eq!(points[0], p(0, 0));
    assert_eq!(points[4], p(0, 1));
    assert_eq!(points[11], p(3, 2));
    let horizontal = g.iter_walls(WallOrientation::Horizontal);
    assert_eq!(horizontal[0], Wall { from: p(0, 0), to: p(1, 0) });
    assert_eq!(horizontal[8], Wall { from: p(2, 2), to: p(3, 2) });
    let vertical = g.iter_walls(WallOrientation::Vertical);
    assert_eq!(vertical[0], Wall { from: p(0, 0), to: p(0, 1) });
    assert_eq!(vertical[7], Wall { from: p(3, 1), to: p(3, 2) });
}

#[test]
fn wall_index_round_trip() {
    let g = GridMap::new(3, 2);
    for o in [WallOrientation::Horizontal, WallOrientation::Vertical] {
        for (i, w) in g.iter_walls(o).into_iter().enumerate() {
            assert_eq!(g.wall_pos_to_index(w), Some(i as i32));
            assert_eq!(g.index_to_wall_pos(i as i32, o), Some(w));
            assert!(g.is_wall_pos_in_bounds(w));
        }
    }
    assert_eq!(g.index_to_wall_pos(9, WallOrientation::Horizontal), None);
    assert_eq!(g.index_to_wall_pos(8, WallOrientation::Vertical), None);
    assert!(!g.is_wall_pos_in_bounds(Wall { from: p(3, 2), to: p(4, 2) }));
}

#[test]
fn walls_of_a_cell() {
    let g = GridMap::new(3, 2);
    let c = p(1, 0);
    assert_eq!(g.wall_from_cell_pos(c, Direction::North), Some(Wall { from: p(1, 1), to: p(2, 1) }));
    assert_eq!(g.wall_from_cell_pos(c, Direction::South), Some(Wall { from: p(1, 0), to: p(2, 0) }));
    assert_eq!(g.wall_from_cell_pos(c, Direction::East), Some(Wall { from: p(2, 0), to: p(2, 1) }));
    assert_eq!(g.wall_from_cell_pos(c, Direction::West), Some(Wall { from: p(1, 0), to: p(1, 1) }));
    assert_eq!(g.wall_from_cell_pos(p(3, 0), Direction::North), None);
    // The outer edge exists as a wall but is no inner wall.
    assert!(g.wall_from_cell_pos(c, Direction::South).is_some());
    assert_eq!(g.inner_wall_from_cell_pos(c, Direction::South), None);
    assert_eq!(g.inner_wall_from_cell_pos(c, Direction::North), g.wall_from_cell_pos(c, Direction::North));
    // A wall seen from both of its cells is the same wall.
    assert_eq!(
        g.inner_wall_from_cell_pos(p(0, 0), Direction::East),
        g.inner_wall_from_cell_pos(p(1, 0), Direction::West)
    );
    assert_eq!(g.wall_from_cell_index(4, Direction::North), g.wall_from_cell_pos(p(1, 1), Direction::North));
    assert_eq!(g.wall_from_cell_index(6, Direction::North), None);
}

#[test]
fn neighbours_stop_at_the_boundary() {
    let g = GridMap::new(3, 2);
    assert_eq!(g.neighbour_from_cell_pos(p(0, 0), Direction::North), Some(p(0, 1)));
    assert_eq!(g.neighbour_from_cell_pos(p(0, 0), Direction::East), Some(p(1, 0)));
    assert_eq!(g.neighbour_from_cell_pos(p(0, 0), Direction::South), None);
    assert_eq!(g.neighbour_from_cell_pos(p(0, 0), Direction::West), None);
    assert_eq!(g.neighbour_from_cell_pos(p(2, 1), Direction::North), None);
    assert_eq!(g.neighbour_from_cell_pos(p(2, 1), Direction::East), None);
    assert_eq!(g.neighbour_from_cell_pos(p(i32::MAX, 0), Direction::East), None);
    assert_eq!(g.neighbour_from_cell_index(0, Direction::North), Some(3));
    assert_eq!(g.neighbour_from_cell_index(2, Direction::East), None);
    assert_eq!(g.neighbour_from_cell_index(6, Direction::West), None);
    assert_eq!(g.get_north_east_cell_pos(), p(2, 1));
}

#[test]
fn empty_grid_has_no_cells() {
    let g = GridMap::new(0, 5);
    assert_eq!(g.get_cell_count(), 0);
    assert!(g.iter_cells().is_empty());
    assert_eq!(g.index_to_cell_pos(0), None);
    assert_eq!(g.columns(), 0);
    assert_eq!(g.rows_count(), 5);
}
