use maze_core::builders::{
    aldous_broder_step, wilson_walk_step, Walk,
    carve, carve_aldous_broder_into_grid_map, carve_binary_tree_into_grid_map,
    carve_sidewinder_into_grid_map, carve_wilson_into_grid_map, get_maze_builder_name,
    MazeBuilderType,
};
use maze_core::labels::get_cell_text;
use maze_core::grid::{Direction, GridMap, Pos, Wall};
use maze_core::removed::RemovedWalls;
use maze_core::solver::{dijkstra, get_most_distant, get_path, get_traversable_neighbours, solve};

const BUILDERS: [MazeBuilderType; 4] = [
    MazeBuilderType::BinaryTree,
    MazeBuilderType::Sidewinder,
    MazeBuilderType::AldousBroder,
    MazeBuilderType::Wilson,
];

const DIRECTIONS: [Direction; 4] = [Direction::North, Direction::East, Direction::South, Direction::West];

fn p(x: i32, y: i32) -> Pos {
    Pos { x, y }
}

fn passable_neighbours(g: &GridMap, walls: &RemovedWalls, c: Pos) -> Vec<Pos> {
    let mut out = Vec::new();
    for d in DIRECTIONS {
        if let (Some(n), Some(w)) = (g.neighbour_from_cell_pos(c, d), g.inner_wall_from_cell_pos(c, d)) {
            if walls.contains(&w) {
                out.push(n);
            }
        }
    }
    out
}

/// Connected with one passage fewer than cells, and no outer wall carved.
fn assert_spanning_tree(g: &GridMap, walls: &RemovedWalls) {
    let n = g.get_cell_count() as usize;
    assert_eq!(walls.len(), n - 1);
    let distances = dijkstra(p(0, 0), g, walls);
    for c in g.iter_cells() {
        assert!(distances.get(c).is_some(), "cell {:?} is not reached", c);
    }
    for w in walls.to_vec() {
        let inner = g.iter_cells().into_iter().any(|c| {
            DIRECTIONS.iter().any(|d| g.inner_wall_from_cell_pos(c, *d) == Some(w))
        });
        assert!(inner, "wall {:?} is not between two cells", w);
    }
}

fn check_all_sizes(builder: MazeBuilderType) {
    let sizes = [1, 2, 3, 7, 16, 50];
    for &c in &sizes {
        for &r in &sizes {
            let g = GridMap::new(c, r);
            let walls = carve(builder, &g, 7 + (c * 100 + r) as u64);
            assert_spanning_tree(&g, &walls);
        }
    }
}

#[test]
fn binary_tree_is_a_spanning_tree() {
    check_all_sizes(MazeBuilderType::BinaryTree);
}

#[test]
fn sidewinder_is_a_spanning_tree() {
    check_all_sizes(MazeBuilderType::Sidewinder);
}

#[test]
fn aldous_broder_is_a_spanning_tree() {
    check_all_sizes(MazeBuilderType::AldousBroder);
}

#[test]
fn wilson_is_a_spanning_tree() {
    check_all_sizes(MazeBuilderType::Wilson);
}

#[test]
fn generation_is_deterministic() {
    let g = GridMap::new(9, 6);
    for b in BUILDERS {
        for seed in [0u64, 1, 42, u64::MAX] {
            let a = carve(b, &g, seed);
            let c = carve(b, &g, seed);
            assert_eq!(a.to_vec(), c.to_vec());
            let sa = solve(&g, &a);
            let sc = solve(&g, &c);
            assert_eq!(sa.start, sc.start);
            assert_eq!(sa.end, sc.end);
            assert_eq!(sa.path, sc.path);
            assert_eq!(sa.farthest_distance, sc.farthest_distance);
            for cell in g.iter_cells() {
                assert_eq!(sa.distances.get(cell), sc.distances.get(cell));
            }
        }
    }
}

#[test]
fn seeds_change_the_maze() {
    let g = GridMap::new(10, 10);
    for b in BUILDERS {
        let a = carve(b, &g, 1);
        let c = carve(b, &g, 2);
        assert_ne!(a.to_vec(), c.to_vec());
    }
}

#[test]
fn one_cell_grid() {
    let g = GridMap::new(1, 1);
    for b in BUILDERS {
        let walls = carve(b, &g, 3);
        assert_eq!(walls.len(), 0);
        let distances = dijkstra(p(0, 0), &g, &walls);
        assert_eq!(distances.get(p(0, 0)), Some(0));
        assert_eq!(get_most_distant(&distances), (p(0, 0), 0));
        let path = get_path(p(0, 0), p(0, 0), &distances, &g, &walls);
        assert_eq!(path, vec![p(0, 0)]);
    }
    assert_eq!(carve_binary_tree_into_grid_map(&g, 0).len(), 0);
    assert_eq!(carve_sidewinder_into_grid_map(&g, 0).len(), 0);
    assert_eq!(carve_aldous_broder_into_grid_map(&g, 0).len(), 0);
    assert_eq!(carve_wilson_into_grid_map(&g, 0).len(), 0);
}

#[test]
fn grids_without_cells_carve_nothing() {
    for g in [GridMap::new(0, 0), GridMap::new(0, 4), GridMap::new(4, 0)] {
        for b in BUILDERS {
            assert_eq!(carve(b, &g, 11).len(), 0);
        }
    }
}

#[test]
fn two_by_one_binary_tree() {
    let g = GridMap::new(2, 1);
    for seed in 0..8u64 {
        let walls = carve_binary_tree_into_grid_map(&g, seed);
        assert_eq!(walls.to_vec(), vec![Wall { from: p(1, 0), to: p(1, 1) }]);
        assert_eq!(Some(walls.to_vec()[0]), g.inner_wall_from_cell_pos(p(0, 0), Direction::East));
        let distances = dijkstra(p(0, 0), &g, &walls);
        assert_eq!(distances.get(p(0, 0)), Some(0));
        assert_eq!(distances.get(p(1, 0)), Some(1));
        assert_eq!(distances.get(p(2, 0)), None);
        assert_eq!(get_most_distant(&distances), (p(1, 0), 1));
        let path = get_path(p(0, 0), p(1, 0), &distances, &g, &walls);
        assert_eq!(path, vec![p(1, 0), p(0, 0)]);
    }
}

#[test]
fn two_by_one_solution() {
    let g = GridMap::new(2, 1);
    let walls = carve_binary_tree_into_grid_map(&g, 5);
    let s = solve(&g, &walls);
    assert_eq!(s.end, p(0, 0));
    assert_eq!(s.start, p(1, 0));
    assert_eq!(s.farthest_distance, 1);
    assert_eq!(s.path, vec![p(0, 0), p(1, 0)]);
    assert_eq!(s.path_distance(p(0, 0)), Some(0));
    assert_eq!(s.path_distance(p(1, 0)), Some(1));
    assert_eq!(s.path_distance(p(2, 0)), None);
}

#[test]
fn distances_step_down_to_the_source() {
    let g = GridMap::new(12, 9);
    for b in BUILDERS {
        let walls = carve(b, &g, 99);
        let source = p(5, 4);
        let distances = dijkstra(source, &g, &walls);
        assert_eq!(distances.get(source), Some(0));
        for c in g.iter_cells() {
            let d = distances.get(c).unwrap();
            let ns = passable_neighbours(&g, &walls, c);
            for n in &ns {
                let dn = distances.get(*n).unwrap();
                assert!((dn - d).abs() == 1);
            }
            if d > 0 {
                assert!(ns.iter().any(|n| distances.get(*n) == Some(d - 1)));
            } else {
                assert_eq!(c, source);
            }
        }
    }
}

#[test]
fn unreachable_cells_have_no_distance() {
    let g = GridMap::new(3, 1);
    let mut walls = RemovedWalls::new();
    walls.insert(g.inner_wall_from_cell_pos(p(0, 0), Direction::East).unwrap());
    let distances = dijkstra(p(0, 0), &g, &walls);
    assert_eq!(distances.get(p(0, 0)), Some(0));
    assert_eq!(distances.get(p(1, 0)), Some(1));
    assert_eq!(distances.get(p(2, 0)), None);
    assert_eq!(get_most_distant(&distances), (p(1, 0), 1));
}

#[test]
fn farthest_cell_is_the_maximum() {
    let g = GridMap::new(15, 15);
    for b in BUILDERS {
        let walls = carve(b, &g, 2024);
        let distances = dijkstra(p(0, 0), &g, &walls);
        let (cell, d) = get_most_distant(&distances);
        let max = g.iter_cells().into_iter().map(|c| distances.get(c).unwrap()).max().unwrap();
        assert_eq!(d, max);
        assert_eq!(distances.get(cell), Some(d));
        let first = g.iter_cells().into_iter().find(|c| distances.get(*c) == Some(max)).unwrap();
        assert_eq!(cell, first);
    }
}

#[test]
fn path_walks_passages_from_end_to_start() {
    let g = GridMap::new(20, 13);
    for b in BUILDERS {
        let walls = carve(b, &g, 31337);
        let s = solve(&g, &walls);
        let d_end = s.distances.get(s.end).unwrap();
        assert_eq!(s.path.len() as i32, d_end + 1);
        assert_eq!(s.path[0], s.end);
        assert_eq!(*s.path.last().unwrap(), s.start);
        for (i, c) in s.path.iter().enumerate() {
            assert_eq!(s.distances.get(*c), Some(d_end - i as i32));
            assert_eq!(s.path_distance(*c), Some(i as i32));
        }
        for pair in s.path.windows(2) {
            assert!(passable_neighbours(&g, &walls, pair[0]).contains(&pair[1]));
        }
        let max = g.iter_cells().into_iter().map(|c| s.distances.get(c).unwrap()).max().unwrap();
        assert_eq!(s.farthest_distance, max);
        // On a tree the second sweep ends on a diameter: the path is as long as the farthest distance.
        assert_eq!(d_end, s.farthest_distance);
    }
}

#[test]
fn binary_tree_opens_north_or_east() {
    let g = GridMap::new(8, 5);
    let walls = carve_binary_tree_into_grid_map(&g, 17);
    for c in g.iter_cells() {
        let north = g.inner_wall_from_cell_pos(c, Direction::North).map_or(false, |w| walls.contains(&w));
        let east = g.inner_wall_from_cell_pos(c, Direction::East).map_or(false, |w| walls.contains(&w));
        if c == p(7, 4) {
            assert!(!north && !east);
        } else {
            assert!(north ^ east);
        }
    }
}

#[test]
fn sidewinder_top_row_is_one_corridor() {
    let g = GridMap::new(6, 4);
    let walls = carve_sidewinder_into_grid_map(&g, 8);
    for x in 0..5 {
        let w = g.inner_wall_from_cell_pos(p(x, 3), Direction::East).unwrap();
        assert!(walls.contains(&w));
    }
}

#[test]
fn removed_walls_set_semantics() {
    let mut walls = RemovedWalls::new();
    let w = Wall { from: p(1, 0), to: p(1, 1) };
    assert!(!walls.contains(&w));
    walls.insert(w);
    walls.insert(w);
    assert!(walls.contains(&w));
    assert_eq!(walls.len(), 1);
    assert_eq!(walls.to_vec(), vec![w]);
}

#[test]
fn cell_labels() {
    assert_eq!(get_cell_text(true, false, Some(&4), false), "GO");
    assert_eq!(get_cell_text(false, true, Some(&4), false), "END");
    assert_eq!(get_cell_text(false, false, Some(&4), false), "");
    assert_eq!(get_cell_text(true, false, Some(&4), true), "4");
    assert_eq!(get_cell_text(false, false, Some(&1234), true), "1234");
    assert_eq!(get_cell_text(false, false, Some(&0), true), "0");
    assert_eq!(get_cell_text(false, false, Some(&-42), true), "-42");
    assert_eq!(get_cell_text(true, true, None, true), "");
}

#[test]
fn builder_names() {
    assert_eq!(get_maze_builder_name(MazeBuilderType::BinaryTree), "Binary Tree");
    assert_eq!(get_maze_builder_name(MazeBuilderType::Sidewinder), "Sidewinder");
    assert_eq!(get_maze_builder_name(MazeBuilderType::AldousBroder), "Aldous Broder");
    assert_eq!(get_maze_builder_name(MazeBuilderType::Wilson), "Wilson");
}

#[test]
fn traversable_neighbours_follow_carved_walls() {
    let g = GridMap::new(3, 3);
    let mut walls = RemovedWalls::new();
    let centre = p(1, 1);
    walls.insert(g.inner_wall_from_cell_pos(centre, Direction::West).unwrap());
    walls.insert(g.inner_wall_from_cell_pos(centre, Direction::North).unwrap());
    walls.insert(g.inner_wall_from_cell_pos(p(0, 0), Direction::East).unwrap());
    assert_eq!(get_traversable_neighbours(centre, &g, &walls), vec![p(1, 2), p(0, 1)]);
    assert_eq!(get_traversable_neighbours(p(0, 1), &g, &walls), vec![p(1, 1)]);
    assert_eq!(get_traversable_neighbours(p(1, 0), &g, &walls), vec![p(0, 0)]);
    assert_eq!(get_traversable_neighbours(p(2, 2), &g, &walls), Vec::<Pos>::new());
    assert_eq!(get_traversable_neighbours(p(5, 5), &g, &walls), Vec::<Pos>::new());
}

#[test]
fn aldous_broder_step_carves_only_into_new_cells() {
    let g = GridMap::new(2, 2);
    let mut walk = Walk::new(&g, p(0, 0));
    assert_eq!(walk.removed_walls.len(), 0);
    // Neighbours of (0, 0) in order: North (0, 1), East (1, 0).
    aldous_broder_step(&g, &mut walk, 1);
    assert_eq!(walk.current, p(1, 0));
    assert_eq!(walk.removed_walls.to_vec(), vec![g.inner_wall_from_cell_pos(p(0, 0), Direction::East).unwrap()]);
    assert_eq!(walk.visited, vec![true, true, false, false]);
    assert_eq!(walk.visited_count, 2);
    // Neighbours of (1, 0): North (1, 1), West (0, 0); going back carves nothing.
    aldous_broder_step(&g, &mut walk, 1);
    assert_eq!(walk.current, p(0, 0));
    assert_eq!(walk.removed_walls.len(), 1);
    aldous_broder_step(&g, &mut walk, 0);
    assert_eq!(walk.current, p(0, 1));
    assert_eq!(walk.removed_walls.len(), 2);
    assert!(walk.removed_walls.contains(&g.inner_wall_from_cell_pos(p(0, 0), Direction::North).unwrap()));
    assert_eq!(walk.visited_count, 3);
}

#[test]
fn wilson_walk_step_erases_loops_and_meets_the_tree() {
    let g = GridMap::new(3, 1);
    let visited = vec![true, false, false];
    let mut cells = vec![p(2, 0)];
    let mut walls = Vec::new();
    // (2, 0) has only a western neighbour.
    assert_eq!(wilson_walk_step(&g, &visited, &mut cells, &mut walls, 0), None);
    let w21 = g.inner_wall_from_cell_pos(p(2, 0), Direction::West).unwrap();
    assert_eq!(cells, vec![p(2, 0), p(1, 0)]);
    assert_eq!(walls, vec![w21]);
    // From (1, 0): East (2, 0) closes a loop, which is erased.
    assert_eq!(wilson_walk_step(&g, &visited, &mut cells, &mut walls, 0), None);
    assert_eq!(cells, vec![p(2, 0)]);
    assert!(walls.is_empty());
    assert_eq!(wilson_walk_step(&g, &visited, &mut cells, &mut walls, 0), None);
    // From (1, 0): West (0, 0) is in the tree.
    let w10 = g.inner_wall_from_cell_pos(p(1, 0), Direction::West).unwrap();
    assert_eq!(wilson_walk_step(&g, &visited, &mut cells, &mut walls, 1), Some((w10, p(0, 0))));
    assert_eq!(cells, vec![p(2, 0), p(1, 0)]);
    assert_eq!(walls, vec![w21]);
}

#[test]
fn random_walk_mazes_carve_on_two_cells() {
    for seed in 0..20u64 {
        let g = GridMap::new(2, 1);
        assert_eq!(carve_aldous_broder_into_grid_map(&g, seed).len(), 1);
        assert_eq!(carve_wilson_into_grid_map(&g, seed).len(), 1);
    }
}

#[test]
fn sidewinder_runs_have_one_north_passage() {
    for seed in 0..10u64 {
        let g = GridMap::new(9, 7);
        let walls = carve_sidewinder_into_grid_map(&g, seed);
        let open = |c: Pos, d: Direction| g.inner_wall_from_cell_pos(c, d).map_or(false, |w| walls.contains(&w));
        for y in 0..6 {
            let mut norths = 0;
            for x in 0..9 {
                if open(p(x, y), Direction::North) {
                    norths += 1;
                }
                if !open(p(x, y), Direction::East) {
                    assert_eq!(norths, 1, "run ending at ({x}, {y})");
                    norths = 0;
                }
            }
        }
    }
}
