use vstd::prelude::*;
use vstd::string::StringExecFns;
use crate::grid::{
    dir_at, lemma_wall_sides, pos, step, wall_at, wall_side_a, wall_side_b, Direction, GridMap,
    Pos, Wall,
};
use crate::random::{below, coin_flip, seeded};
use crate::removed::RemovedWalls;
use crate::solver::{lemma_passable_symmetric, passable};

verus! {

/// The four carving strategies.
#[derive(Clone, Copy, Debug, PartialEq, Eq, Hash, Structural)]
pub enum MazeBuilderType {
    BinaryTree,
    Sidewinder,
    AldousBroder,
    Wilson,
}

pub open spec fn builder_name(t: MazeBuilderType) -> Seq<char> {
    match t {
        MazeBuilderType::BinaryTree => seq!['B', 'i', 'n', 'a', 'r', 'y', ' ', 'T', 'r', 'e', 'e'],
        MazeBuilderType::Sidewinder => seq!['S', 'i', 'd', 'e', 'w', 'i', 'n', 'd', 'e', 'r'],
        MazeBuilderType::AldousBroder => seq![
            'A',
            'l',
            'd',
            'o',
            'u',
            's',
            ' ',
            'B',
            'r',
            'o',
            'd',
            'e',
            'r',
        ],
        MazeBuilderType::Wilson => seq!['W', 'i', 'l', 's', 'o', 'n'],
    }
}

/// The name a strategy is shown under.
pub fn get_maze_builder_name(maze_builder_type: MazeBuilderType) -> (r: String)
    ensures
        r@ == builder_name(maze_builder_type),
{
    proof {
        reveal_strlit("Binary Tree");
        reveal_strlit("Sidewinder");
        reveal_strlit("Aldous Broder");
        reveal_strlit("Wilson");
    }
    match maze_builder_type {
        MazeBuilderType::BinaryTree => String::from_str("Binary Tree"),
        MazeBuilderType::Sidewinder => String::from_str("Sidewinder"),
        MazeBuilderType::AldousBroder => String::from_str("Aldous Broder"),
        MazeBuilderType::Wilson => String::from_str("Wilson"),
    }
}

/// The cell below or left of a north or east wall: the cell whose north or
/// east side it is.
pub open spec fn owner(w: Wall) -> Pos {
    pos(w.to.x - 1, w.to.y - 1)
}

/// The cell with neither a northern nor an eastern neighbour.
pub open spec fn far_corner(g: GridMap) -> Pos {
    pos(g.cols() - 1, g.rows() - 1)
}

/// Every carved wall stands between two cells of the grid.
pub open spec fn all_inner(g: GridMap, s: Set<Wall>) -> bool {
    forall|w: Wall| #[trigger] s.contains(w) ==> g.is_inner_wall(w)
}

/// `w` is the north or east side of its owner, with a cell beyond it.
pub open spec fn is_north_or_east_passage(g: GridMap, w: Wall) -> bool {
    g.in_cells(owner(w)) && ((w == wall_at(owner(w), Direction::North) && g.neighbour(
        owner(w),
        Direction::North,
    ).is_some()) || (w == wall_at(owner(w), Direction::East) && g.neighbour(
        owner(w),
        Direction::East,
    ).is_some()))
}

/// The cell carves towards its northern or its eastern neighbour.
pub open spec fn opens_north_or_east(g: GridMap, s: Set<Wall>, p: Pos) -> bool {
    (g.neighbour(p, Direction::North).is_some() && s.contains(wall_at(p, Direction::North))) || (
    g.neighbour(p, Direction::East).is_some() && s.contains(wall_at(p, Direction::East)))
}

proof fn lemma_owner(g: GridMap, p: Pos, d: Direction)
    requires
        g.wf(),
        g.in_cells(p),
        d == Direction::North || d == Direction::East,
        g.neighbour(p, d).is_some(),
    ensures
        owner(wall_at(p, d)) == p,
        is_north_or_east_passage(g, wall_at(p, d)),
        g.is_inner_wall(wall_at(p, d)),
{
    g.lemma_counts_fit();
    assert(g.inner_wall(p, d) == Some(wall_at(p, d)));
}

/// Fixes which of the two carving directions a coin flip names.
fn get_direction_from_coinflip(coinflip: bool) -> (r: Direction)
    ensures
        r == (if coinflip {
            Direction::North
        } else {
            Direction::East
        }),
{
    if coinflip {
        Direction::North
    } else {
        Direction::East
    }
}

/// Position of the corner cell is the last row-major index.
proof fn lemma_far_corner_index(g: GridMap, p: Pos, i: int)
    requires
        g.wf(),
        g.cols() > 0,
        g.in_cells(p),
        g.cell_index_of(p) == i,
    ensures
        (p == far_corner(g)) == (i == g.cell_count_spec() - 1),
{
    g.lemma_cell_bijection();
    g.lemma_counts_fit();
    let c = g.cols();
    let r = g.rows();
    assert((r - 1) * c + (c - 1) == c * r - 1) by (nonlinear_arith);
    let q = far_corner(g);
    assert(g.in_cells(q));
    if i == g.cell_count_spec() - 1 {
        assert(g.cell_index_of(q) == i);
        assert(g.cell_at(i) == p);
        assert(g.cell_at(i) == q);
    }
}

/// Binary Tree: every cell, in row-major order, carves towards its northern or
/// its eastern neighbour as a coin decides, and towards the other one where the
/// chosen neighbour is missing; the far corner carves nothing.
pub fn carve_binary_tree_into_grid_map(grid_map: &GridMap, rng_seed: u64) -> (r: RemovedWalls)
    requires
        grid_map.wf(),
    ensures
        r.wf(),
        all_inner(*grid_map, r@),
        forall|w: Wall| #[trigger] r@.contains(w) ==> is_north_or_east_passage(*grid_map, w),
        forall|p: Pos|
            #[trigger] grid_map.in_cells(p) && p != far_corner(*grid_map) ==> opens_north_or_east(
                *grid_map,
                r@,
                p,
            ),
        grid_map.cell_count_spec() > 0 ==> r@.len() == grid_map.cell_count_spec() - 1,
        grid_map.cell_count_spec() == 0 ==> r@.len() == 0,
        all_reach(*grid_map, r@, far_corner(*grid_map)),
{
    let mut rng = seeded(rng_seed);
    let mut removed_walls = RemovedWalls::new();
    let count = grid_map.get_cell_count();
    let ghost g = *grid_map;
    proof {
        g.lemma_counts_fit();
        if g.cols() > 0 {
            g.lemma_cell_bijection();
        }
    }
    let mut i: i32 = 0;
    while i < count
        invariant
            g == *grid_map,
            g.wf(),
            count == g.cell_count_spec(),
            0 <= i <= count,
            count > 0 ==> g.cols() > 0,
            removed_walls.wf(),
            removed_walls@.finite(),
            removed_walls@.len() == (if i == count && count > 0 {
                i - 1
            } else {
                i as int
            }),
            forall|w: Wall| #[trigger]
                removed_walls@.contains(w) ==> is_north_or_east_passage(g, w)
                    && g.cell_index_of(owner(w)) < i,
            forall|j: int|
                0 <= j < i && #[trigger] g.cell_at(j) != far_corner(g) ==> opens_north_or_east(
                    g,
                    removed_walls@,
                    g.cell_at(j),
                ),
        decreases count - i,
    {
        let cell_pos = grid_map.index_to_cell_pos(i).unwrap();
        let coinflip = coin_flip(&mut rng);
        let mut direction = get_direction_from_coinflip(coinflip);
        let mut wall = grid_map.inner_wall_from_cell_pos(cell_pos, direction);
        if wall.is_none() {
            direction = get_direction_from_coinflip(!coinflip);
            wall = grid_map.inner_wall_from_cell_pos(cell_pos, direction);
        }
        proof {
            g.lemma_counts_fit();
            lemma_far_corner_index(g, cell_pos, i as int);
        }
        let ghost before = removed_walls@;
        if let Some(w) = wall {
            proof {
                lemma_owner(g, cell_pos, direction);
                assert(!before.contains(w));
                assert(direction == Direction::North || direction == Direction::East);
                assert(g.neighbour(cell_pos, direction).is_some());
                assert(far_corner(g).x == g.cols() - 1 && far_corner(g).y == g.rows() - 1);
                assert(cell_pos != far_corner(g));
                assert(before.insert(w).len() == before.len() + 1);
            }
            removed_walls.insert(w);
        } else {
            assert(cell_pos == far_corner(g));
        }
        assert forall|j: int|
            0 <= j < i + 1 && #[trigger] g.cell_at(j) != far_corner(g) implies opens_north_or_east(
            g,
            removed_walls@,
            g.cell_at(j),
        ) by {
            if j < i {
                assert(opens_north_or_east(g, before, g.cell_at(j)));
            }
        }
        i = i + 1;
    }
    proof {
        assert forall|w: Wall| #[trigger] removed_walls@.contains(w) implies g.is_inner_wall(w) by {
            lemma_owner(
                g,
                owner(w),
                if w == wall_at(owner(w), Direction::North) {
                    Direction::North
                } else {
                    Direction::East
                },
            );
        }
        assert forall|p: Pos|
            #[trigger] g.in_cells(p) && p != far_corner(g) implies opens_north_or_east(
            g,
            removed_walls@,
            p,
        ) by {
            assert(g.cell_at(g.cell_index_of(p)) == p);
        }
        assert forall|p: Pos| #[trigger] g.in_cells(p) implies reaches(
            g,
            removed_walls@,
            p,
            far_corner(g),
        ) by {
            lemma_reaches_far_corner(g, removed_walls@, p);
        }
    }
    removed_walls
}

/// A walk leads from `p` to some cell of the row above.
pub open spec fn climbs(g: GridMap, s: Set<Wall>, p: Pos) -> bool {
    exists|q: Pos| #[trigger] reaches(g, s, p, q) && g.in_cells(q) && q.y == p.y + 1
}

/// Every swept cell below the top row that has left the run climbs.
spec fn climbed_before(g: GridMap, s: Set<Wall>, run: Seq<Pos>, i: int) -> bool {
    forall|j: int|
        0 <= j < i && #[trigger] g.cell_at(j).y < g.rows() - 1 && !run.contains(g.cell_at(j))
            ==> climbs(g, s, g.cell_at(j))
}

/// The cells of the run reach one another.
spec fn run_linked(g: GridMap, s: Set<Wall>, run: Seq<Pos>) -> bool {
    forall|k: int, k2: int|
        0 <= k < run.len() && 0 <= k2 < run.len() ==> #[trigger] reaches(g, s, run[k], run[k2])
}

proof fn lemma_reaches_step(g: GridMap, s: Set<Wall>, a: Pos, b: Pos)
    requires
        passable(g, s, a, b),
    ensures
        reaches(g, s, a, b),
{
    assert(is_walk(g, s, seq![b]));
    lemma_reaches_prepend(g, s, a, b, b);
}

proof fn lemma_reaches_trans(g: GridMap, s: Set<Wall>, p: Pos, q: Pos, r: Pos)
    requires
        reaches(g, s, p, q),
        reaches(g, s, q, r),
    ensures
        reaches(g, s, p, r),
{
    let path = choose|path: Seq<Pos>| #[trigger] is_walk(g, s, path) && path[0] == p && path.last() == q;
    lemma_reaches_trans_walk(g, s, path, r);
}

proof fn lemma_reaches_trans_walk(g: GridMap, s: Set<Wall>, path: Seq<Pos>, r: Pos)
    requires
        is_walk(g, s, path),
        reaches(g, s, path.last(), r),
    ensures
        reaches(g, s, path[0], r),
    decreases path.len(),
{
    if path.len() > 1 {
        let rest = path.subrange(1, path.len() as int);
        assert forall|i: int| 0 <= i < rest.len() - 1 implies #[trigger] passable(
            g,
            s,
            rest[i],
            rest[i + 1],
        ) by {
            let j = i + 1;
            assert(passable(g, s, path[j], path[j + 1]));
        }
        assert(is_walk(g, s, rest));
        lemma_reaches_trans_walk(g, s, rest, r);
        let z = 0int;
        assert(passable(g, s, path[z], path[z + 1]));
        lemma_reaches_prepend(g, s, path[0], path[1], r);
    }
}

proof fn lemma_sidewinder_grows(g: GridMap, s: Set<Wall>, t: Set<Wall>, run: Seq<Pos>, i: int)
    requires
        s.subset_of(t),
        climbed_before(g, s, run, i),
        run_linked(g, s, run),
    ensures
        climbed_before(g, t, run, i),
        run_linked(g, t, run),
{
    assert forall|j: int|
        0 <= j < i && #[trigger] g.cell_at(j).y < g.rows() - 1 && !run.contains(g.cell_at(j))
            implies climbs(g, t, g.cell_at(j)) by {
        let c = g.cell_at(j);
        let q = choose|q: Pos| #[trigger] reaches(g, s, c, q) && g.in_cells(q) && q.y == c.y + 1;
        lemma_reaches_grows(g, s, t, c, q);
    }
    assert forall|k: int, k2: int| 0 <= k < run.len() && 0 <= k2 < run.len() implies #[trigger] reaches(
        g,
        t,
        run[k],
        run[k2],
    ) by {
        lemma_reaches_grows(g, s, t, run[k], run[k2]);
    }
}

proof fn lemma_run_push(g: GridMap, s: Set<Wall>, run: Seq<Pos>, p: Pos)
    requires
        g.wf(),
        run_linked(g, s, run),
        run.len() > 0 ==> passable(g, s, run.last(), p),
    ensures
        run_linked(g, s, run.push(p)),
{
    let r2 = run.push(p);
    assert(is_walk(g, s, seq![p]));
    assert(reaches(g, s, p, p));
    if run.len() > 0 {
        let last = run.last();
        lemma_reaches_step(g, s, last, p);
        lemma_passable_symmetric(g, s, last, p);
        lemma_reaches_step(g, s, p, last);
        assert forall|k: int, k2: int| 0 <= k < r2.len() && 0 <= k2 < r2.len() implies #[trigger] reaches(
            g,
            s,
            r2[k],
            r2[k2],
        ) by {
            let n = run.len() as int;
            if k < n && k2 < n {
                assert(reaches(g, s, run[k], run[k2]));
            } else if k < n && k2 == n {
                assert(reaches(g, s, run[k], run[n - 1]));
                lemma_reaches_trans(g, s, run[k], last, p);
            } else if k == n && k2 < n {
                assert(reaches(g, s, run[n - 1], run[k2]));
                lemma_reaches_trans(g, s, p, last, run[k2]);
            }
        }
    } else {
        assert forall|k: int, k2: int| 0 <= k < r2.len() && 0 <= k2 < r2.len() implies #[trigger] reaches(
            g,
            s,
            r2[k],
            r2[k2],
        ) by {
            assert(r2[k] == p && r2[k2] == p);
        }
    }
}

/// In row `y`, the east walls of the cells from column `xa` up to, not
/// including, column `xb` are all carved.
pub open spec fn east_joined(s: Set<Wall>, y: int, xa: int, xb: int) -> bool {
    forall|x: int| xa <= x < xb ==> #[trigger] s.contains(wall_at(pos(x, y), Direction::East))
}

/// Below the top row, no two cells joined by carved east walls both have a
/// north passage.
pub open spec fn one_north_per_run(g: GridMap, s: Set<Wall>) -> bool {
    forall|y: int, xa: int, xb: int|
        0 <= y < g.rows() - 1 && 0 <= xa < xb < g.cols() && #[trigger] east_joined(s, y, xa, xb)
            && s.contains(wall_at(pos(xa, y), Direction::North)) ==> !s.contains(
            wall_at(pos(xb, y), Direction::North),
        )
}

proof fn lemma_one_north_after_east(g: GridMap, s: Set<Wall>, p: Pos, i: int)
    requires
        g.wf(),
        g.in_cells(p),
        g.cell_index_of(p) == i,
        one_north_per_run(g, s),
        forall|w: Wall| #[trigger] s.contains(w) ==> is_north_or_east_passage(g, w) && g.cell_index_of(owner(w)) < i,
    ensures
        one_north_per_run(g, s.insert(wall_at(p, Direction::East))),
{
    g.lemma_counts_fit();
    let s2 = s.insert(wall_at(p, Direction::East));
    assert forall|y: int, xa: int, xb: int|
        0 <= y < g.rows() - 1 && 0 <= xa < xb < g.cols() && #[trigger] east_joined(s2, y, xa, xb)
            && s2.contains(wall_at(pos(xa, y), Direction::North)) implies !s2.contains(
        wall_at(pos(xb, y), Direction::North),
    ) by {
        let nb = wall_at(pos(xb, y), Direction::North);
        if y == p.y && xa <= p.x < xb {
            if s.contains(nb) {
                assert(owner(nb) == pos(xb, y));
                assert(g.cell_index_of(pos(xb, y)) > i);
            }
        } else {
            assert forall|x: int| xa <= x < xb implies #[trigger] s.contains(
                wall_at(pos(x, y), Direction::East),
            ) by {
                assert(s2.contains(wall_at(pos(x, y), Direction::East)));
                assert(wall_at(pos(x, y), Direction::East) != wall_at(p, Direction::East));
            }
            assert(east_joined(s, y, xa, xb));
        }
    }
}

proof fn lemma_one_north_after_north(g: GridMap, s: Set<Wall>, q: Pos, p: Pos, rs: int)
    requires
        g.wf(),
        g.in_cells(p),
        q.y == p.y,
        0 <= rs <= q.x <= p.x,
        rs == 0 || !s.contains(wall_at(pos(rs - 1, p.y as int), Direction::East)),
        !s.contains(wall_at(p, Direction::East)),
        forall|x: int| rs <= x <= p.x ==> !#[trigger] s.contains(wall_at(pos(x, p.y as int), Direction::North)),
        one_north_per_run(g, s),
    ensures
        one_north_per_run(g, s.insert(wall_at(q, Direction::North))),
{
    g.lemma_counts_fit();
    let y0 = p.y as int;
    let s2 = s.insert(wall_at(q, Direction::North));
    assert(q == pos(q.x as int, y0));
    assert(p == pos(p.x as int, y0));
    assert forall|y: int, xa: int, xb: int|
        0 <= y < g.rows() - 1 && 0 <= xa < xb < g.cols() && #[trigger] east_joined(s2, y, xa, xb)
            && s2.contains(wall_at(pos(xa, y), Direction::North)) implies !s2.contains(
        wall_at(pos(xb, y), Direction::North),
    ) by {
        assert forall|x: int| xa <= x < xb implies #[trigger] s.contains(
            wall_at(pos(x, y), Direction::East),
        ) by {
            assert(s2.contains(wall_at(pos(x, y), Direction::East)));
        }
        assert(east_joined(s, y, xa, xb));
        let na = wall_at(pos(xa, y), Direction::North);
        let nb = wall_at(pos(xb, y), Direction::North);
        let nq = wall_at(q, Direction::North);
        if na == nq {
            assert(xa == q.x && y == y0);
            if xb > p.x {
                assert(s.contains(wall_at(pos(p.x as int, y0), Direction::East)));
            }
            assert(!s.contains(nb));
        } else if nb == nq {
            assert(xb == q.x && y == y0);
            if xa < rs {
                assert(s.contains(wall_at(pos(rs - 1, y0), Direction::East)));
            }
            assert(!s.contains(na));
        }
    }
}

/// After the cell with index `i` closes its run without an east passage, the
/// next cell starts its row or has no east passage on its west.
proof fn lemma_next_run_start(g: GridMap, s: Set<Wall>, p: Pos, i: int)
    requires
        g.wf(),
        g.in_cells(p),
        g.cell_index_of(p) == i,
        i + 1 < g.cell_count_spec(),
        !s.contains(wall_at(p, Direction::East)),
    ensures
        g.cell_at(i + 1).x > 0 ==> !s.contains(
            wall_at(pos(g.cell_at(i + 1).x - 1, g.cell_at(i + 1).y as int), Direction::East),
        ),
{
    g.lemma_counts_fit();
    g.lemma_cell_bijection();
    let c = g.cell_at(i + 1);
    let cols = g.cols();
    assert(g.in_cells(c) && g.cell_index_of(c) == i + 1);
    if p.x < cols - 1 {
        let q = pos(p.x + 1, p.y as int);
        assert(g.in_cells(q) && g.cell_index_of(q) == i + 1);
        assert(g.cell_at(g.cell_index_of(q)) == q);
        assert(c == q);
        assert(pos(c.x - 1, c.y as int) == p);
    } else {
        let cy = c.y as int;
        let cx = c.x as int;
        let y = p.y as int;
        assert(cy * cols + cx == y * cols + cols);
        assert(cx == 0) by (nonlinear_arith)
            requires
                cy * cols + cx == y * cols + cols,
                0 <= cx < cols,
                cols > 0,
        ;
    }
}

/// Below the top row, every run ending before the cell with index `i` (a
/// stretch of cells joined by carved east walls, with no carved east wall on
/// either side) has a north passage.
pub open spec fn runs_open_north_before(g: GridMap, s: Set<Wall>, i: int) -> bool {
    forall|y: int, xa: int, xb: int|
        0 <= y < g.rows() - 1 && 0 <= xa <= xb < g.cols() && y * g.cols() + xb < i
            && #[trigger] east_joined(s, y, xa, xb) && (xa == 0 || !s.contains(
            wall_at(pos(xa - 1, y), Direction::East),
        )) && !s.contains(wall_at(pos(xb, y), Direction::East)) ==> exists|x: int|
            xa <= x <= xb && #[trigger] s.contains(wall_at(pos(x, y), Direction::North))
}

proof fn lemma_runs_after_east(g: GridMap, s: Set<Wall>, p: Pos, i: int)
    requires
        g.wf(),
        g.in_cells(p),
        g.cell_index_of(p) == i,
        runs_open_north_before(g, s, i),
    ensures
        runs_open_north_before(g, s.insert(wall_at(p, Direction::East)), i + 1),
{
    g.lemma_counts_fit();
    let s2 = s.insert(wall_at(p, Direction::East));
    assert forall|y: int, xa: int, xb: int|
        0 <= y < g.rows() - 1 && 0 <= xa <= xb < g.cols() && y * g.cols() + xb < i + 1
            && #[trigger] east_joined(s2, y, xa, xb) && (xa == 0 || !s2.contains(
            wall_at(pos(xa - 1, y), Direction::East),
        )) && !s2.contains(wall_at(pos(xb, y), Direction::East)) implies exists|x: int|
        xa <= x <= xb && #[trigger] s2.contains(wall_at(pos(x, y), Direction::North)) by {
        assert(p == pos(p.x as int, p.y as int));
        assert(pos(xb, y) != p);
        if y == p.y {
            assert(xb < p.x);
        } else if y < p.y {
            assert(y * g.cols() + g.cols() <= p.y * g.cols()) by (nonlinear_arith)
                requires
                    y < p.y,
                    g.cols() >= 0,
            ;
        } else {
            assert(p.y * g.cols() + g.cols() <= y * g.cols()) by (nonlinear_arith)
                requires
                    p.y < y,
                    g.cols() >= 0,
            ;
        }
        assert(y == p.y ==> xb < p.x);
        assert forall|x: int| xa <= x < xb implies #[trigger] s.contains(
            wall_at(pos(x, y), Direction::East),
        ) by {
            assert(s2.contains(wall_at(pos(x, y), Direction::East)));
            assert(pos(x, y) != p);
        }
        assert(east_joined(s, y, xa, xb));
        let x = choose|x: int| xa <= x <= xb && #[trigger] s.contains(wall_at(pos(x, y), Direction::North));
        assert(s2.contains(wall_at(pos(x, y), Direction::North)));
    }
}

proof fn lemma_runs_after_north(g: GridMap, s: Set<Wall>, q: Pos, p: Pos, rs: int, i: int)
    requires
        g.wf(),
        g.in_cells(p),
        g.cell_index_of(p) == i,
        q.y == p.y,
        0 <= rs <= q.x <= p.x,
        rs == 0 || !s.contains(wall_at(pos(rs - 1, p.y as int), Direction::East)),
        east_joined(s, p.y as int, rs, p.x as int),
        runs_open_north_before(g, s, i),
    ensures
        runs_open_north_before(g, s.insert(wall_at(q, Direction::North)), i + 1),
{
    g.lemma_counts_fit();
    let s2 = s.insert(wall_at(q, Direction::North));
    let y0 = p.y as int;
    assert(q == pos(q.x as int, y0));
    assert forall|y: int, xa: int, xb: int|
        0 <= y < g.rows() - 1 && 0 <= xa <= xb < g.cols() && y * g.cols() + xb < i + 1
            && #[trigger] east_joined(s2, y, xa, xb) && (xa == 0 || !s2.contains(
            wall_at(pos(xa - 1, y), Direction::East),
        )) && !s2.contains(wall_at(pos(xb, y), Direction::East)) implies exists|x: int|
        xa <= x <= xb && #[trigger] s2.contains(wall_at(pos(x, y), Direction::North)) by {
        assert forall|x: int| xa <= x < xb implies #[trigger] s.contains(
            wall_at(pos(x, y), Direction::East),
        ) by {
            assert(s2.contains(wall_at(pos(x, y), Direction::East)));
        }
        assert(east_joined(s, y, xa, xb));
        if y * g.cols() + xb == i {
            assert(y == y0 && xb == p.x) by {
                if y < y0 {
                    assert(y * g.cols() + g.cols() <= y0 * g.cols()) by (nonlinear_arith)
                        requires
                            y < y0,
                            g.cols() >= 0,
                    ;
                } else if y > y0 {
                    assert(y0 * g.cols() + g.cols() <= y * g.cols()) by (nonlinear_arith)
                        requires
                            y0 < y,
                            g.cols() >= 0,
                    ;
                }
            }
            if xa < rs {
                assert(s.contains(wall_at(pos(rs - 1, y0), Direction::East)));
            } else if xa > rs {
                assert(s.contains(wall_at(pos(xa - 1, y0), Direction::East)));
            }
            assert(s2.contains(wall_at(pos(q.x as int, y0), Direction::North)));
        } else {
            let x = choose|x: int| xa <= x <= xb && #[trigger] s.contains(wall_at(pos(x, y), Direction::North));
            assert(s2.contains(wall_at(pos(x, y), Direction::North)));
        }
    }
}

proof fn lemma_runs_top(g: GridMap, s: Set<Wall>, p: Pos, i: int)
    requires
        g.wf(),
        g.in_cells(p),
        g.cell_index_of(p) == i,
        p.y == g.rows() - 1,
        runs_open_north_before(g, s, i),
    ensures
        runs_open_north_before(g, s, i + 1),
{
    assert forall|y: int, xa: int, xb: int|
        0 <= y < g.rows() - 1 && 0 <= xa <= xb < g.cols() && y * g.cols() + xb < i + 1
            && #[trigger] east_joined(s, y, xa, xb) && (xa == 0 || !s.contains(
            wall_at(pos(xa - 1, y), Direction::East),
        )) && !s.contains(wall_at(pos(xb, y), Direction::East)) implies exists|x: int|
        xa <= x <= xb && #[trigger] s.contains(wall_at(pos(x, y), Direction::North)) by {
        assert(y * g.cols() + g.cols() <= p.y * g.cols()) by (nonlinear_arith)
            requires
                y < p.y,
                g.cols() >= 0,
        ;
    }
}

/// Where the top row is one corridor and every cell below climbs to the row
/// above, every cell reaches the far corner.
proof fn lemma_sidewinder_reaches(g: GridMap, s: Set<Wall>, p: Pos)
    requires
        g.wf(),
        forall|c: Pos|
            #[trigger] g.in_cells(c) && c.y == g.rows() - 1 && c.x < g.cols() - 1 ==> s.contains(
                wall_at(c, Direction::East),
            ),
        forall|c: Pos| #[trigger] g.in_cells(c) && c.y < g.rows() - 1 ==> climbs(g, s, c),
        g.in_cells(p),
    ensures
        reaches(g, s, p, far_corner(g)),
    decreases g.rows() - 1 - p.y, g.cols() - 1 - p.x,
{
    g.lemma_counts_fit();
    if p.y < g.rows() - 1 {
        assert(climbs(g, s, p));
        let q = choose|q: Pos| #[trigger] reaches(g, s, p, q) && g.in_cells(q) && q.y == p.y + 1;
        lemma_sidewinder_reaches(g, s, q);
        lemma_reaches_trans(g, s, p, q, far_corner(g));
    } else if p.x < g.cols() - 1 {
        let q = step(p, Direction::East);
        assert(s.contains(wall_at(p, Direction::East)));
        assert(g.neighbour(p, Direction::East) == Some(q));
        assert(passable(g, s, p, q));
        lemma_sidewinder_reaches(g, s, q);
        lemma_reaches_prepend(g, s, p, q, far_corner(g));
    } else {
        assert(p == far_corner(g));
        assert(is_walk(g, s, seq![p]));
    }
}

#[verifier::rlimit(80)]
/// Sidewinder: cells are swept in row-major order and gathered into a run.
/// A coin decides between carving east, which extends the run, and closing the
/// run by carving north from one of its cells chosen at random; where the
/// chosen neighbour is missing the other direction is taken.
pub fn carve_sidewinder_into_grid_map(grid_map: &GridMap, rng_seed: u64) -> (r: RemovedWalls)
    requires
        grid_map.wf(),
    ensures
        r.wf(),
        all_inner(*grid_map, r@),
        forall|w: Wall| #[trigger] r@.contains(w) ==> is_north_or_east_passage(*grid_map, w),
        grid_map.cell_count_spec() > 0 ==> r@.len() == grid_map.cell_count_spec() - 1,
        grid_map.cell_count_spec() == 0 ==> r@.len() == 0,
        all_reach(*grid_map, r@, far_corner(*grid_map)),
        forall|c: Pos|
            #[trigger] grid_map.in_cells(c) && c.y == grid_map.rows() - 1 && c.x < grid_map.cols()
                - 1 ==> r@.contains(wall_at(c, Direction::East)),
        one_north_per_run(*grid_map, r@),
        runs_open_north_before(*grid_map, r@, grid_map.cell_count_spec()),
{
    let mut rng = seeded(rng_seed);
    let mut removed_walls = RemovedWalls::new();
    let mut run: Vec<Pos> = Vec::new();
    let count = grid_map.get_cell_count();
    let ghost g = *grid_map;
    proof {
        g.lemma_counts_fit();
        if g.cols() > 0 {
            g.lemma_cell_bijection();
        }
    }
    let mut i: i32 = 0;
    let ghost mut rs: int = 0;
    while i < count
        invariant
            g == *grid_map,
            g.wf(),
            count == g.cell_count_spec(),
            0 <= i <= count,
            count > 0 ==> g.cols() > 0,
            removed_walls.wf(),
            removed_walls@.finite(),
            removed_walls@.len() == (if i == count && count > 0 {
                i - 1
            } else {
                i as int
            }),
            forall|w: Wall| #[trigger]
                removed_walls@.contains(w) ==> is_north_or_east_passage(g, w)
                    && g.cell_index_of(owner(w)) < i,
            forall|k: int|
                0 <= k < run@.len() ==> g.in_cells(#[trigger] run@[k]) && !removed_walls@.contains(
                    wall_at(run@[k], Direction::North),
                ) && g.cell_index_of(run@[k]) < i && (i < count ==> run@[k].y == g.cell_at(
                    i as int,
                ).y) && (i == count ==> run@[k].y == g.rows() - 1),
            forall|j: int|
                0 <= j < i && #[trigger] g.cell_at(j).y == g.rows() - 1 && g.cell_at(j).x < g.cols()
                    - 1 ==> removed_walls@.contains(wall_at(g.cell_at(j), Direction::East)),
            climbed_before(g, removed_walls@, run@, i as int),
            run_linked(g, removed_walls@, run@),
            run@.len() > 0 && i < count ==> g.cell_at(i as int) == step(run@.last(), Direction::East)
                && passable(g, removed_walls@, run@.last(), g.cell_at(i as int)),
            one_north_per_run(g, removed_walls@),
            runs_open_north_before(g, removed_walls@, i as int),
            i < count && run@.len() > 0 ==> east_joined(
                removed_walls@,
                g.cell_at(i as int).y as int,
                rs,
                g.cell_at(i as int).x as int,
            ),
            0 <= rs,
            i < count && run@.len() > 0 ==> rs + run@.len() == g.cell_at(i as int).x && (forall|
                k: int,
            |
                0 <= k < run@.len() ==> #[trigger] run@[k] == pos(rs + k, g.cell_at(i as int).y as int)),
            i < count && run@.len() > 0 ==> (rs == 0 || !removed_walls@.contains(
                wall_at(pos(rs - 1, g.cell_at(i as int).y as int), Direction::East),
            )),
            i < count && run@.len() == 0 && g.cell_at(i as int).x > 0 ==> !removed_walls@.contains(
                wall_at(pos(g.cell_at(i as int).x - 1, g.cell_at(i as int).y as int), Direction::East),
            ),
        decreases count - i,
    {
        let cell_pos = grid_map.index_to_cell_pos(i).unwrap();
        let ghost run_before = run@;
        let ghost s0 = removed_walls@;
        proof {
            if run@.len() == 0 {
                rs = cell_pos.x as int;
            }
            assert(cell_pos == pos(cell_pos.x as int, cell_pos.y as int));
            assert(!s0.contains(wall_at(cell_pos, Direction::East))) by {
                if s0.contains(wall_at(cell_pos, Direction::East)) {
                    assert(owner(wall_at(cell_pos, Direction::East)) == cell_pos);
                }
            }
            g.lemma_counts_fit();
            lemma_far_corner_index(g, cell_pos, i as int);
            assert(owner(wall_at(cell_pos, Direction::North)) == cell_pos);
            lemma_run_push(g, s0, run_before, cell_pos);
            assert forall|j: int|
                0 <= j < i + 1 && #[trigger] g.cell_at(j).y < g.rows() - 1 && !run_before.push(
                    cell_pos,
                ).contains(g.cell_at(j)) implies climbs(g, s0, g.cell_at(j)) by {
                if j < i {
                    if run_before.contains(g.cell_at(j)) {
                        let k = choose|k: int|
                            0 <= k < run_before.len() && run_before[k] == g.cell_at(j);
                        assert(run_before.push(cell_pos)[k] == g.cell_at(j));
                    }
                } else {
                    assert(run_before.push(cell_pos)[run_before.len() as int] == cell_pos);
                }
            }
        }
        run.push(cell_pos);
        let coinflip = coin_flip(&mut rng);
        let mut direction = get_direction_from_coinflip(coinflip);
        if grid_map.neighbour_from_cell_pos(cell_pos, direction).is_none() {
            direction = get_direction_from_coinflip(!coinflip);
        }
        let ghost before = removed_walls@;
        if direction == Direction::East {
            if grid_map.neighbour_from_cell_pos(cell_pos, direction).is_some() {
                proof {
                    let q = step(cell_pos, Direction::East);
                    assert(g.in_cells(q));
                    assert(g.cell_index_of(q) == i + 1);
                    if i + 1 < count {
                        g.lemma_cell_bijection();
                        assert(g.cell_at(i + 1) == q);
                    }
                }
                if let Some(w) = grid_map.wall_from_cell_pos(cell_pos, direction) {
                    proof {
                        lemma_owner(g, cell_pos, direction);
                        assert(!before.contains(w));
                        assert(before.insert(w).len() == before.len() + 1);
                        lemma_one_north_after_east(g, before, cell_pos, i as int);
                        lemma_runs_after_east(g, before, cell_pos, i as int);
                    }
                    removed_walls.insert(w);
                    proof {
                        let y0 = cell_pos.y as int;
                        assert forall|x: int| rs <= x < cell_pos.x + 1 implies #[trigger] removed_walls@.contains(
                            wall_at(pos(x, y0), Direction::East),
                        ) by {
                            if x < cell_pos.x {
                                assert(before.contains(wall_at(pos(x, y0), Direction::East)));
                            } else {
                                assert(pos(x, y0) == cell_pos);
                            }
                        }
                        assert(east_joined(removed_walls@, y0, rs, cell_pos.x + 1));
                    }
                    proof {
                        lemma_sidewinder_grows(g, before, removed_walls@, run@, i + 1);
                        assert(g.neighbour(cell_pos, Direction::East) == Some(
                            step(cell_pos, Direction::East),
                        ));
                        assert(removed_walls@.contains(wall_at(cell_pos, Direction::East)));
                        assert(passable(g, removed_walls@, cell_pos, step(cell_pos, Direction::East)));
                    }
                }
            } else {
                assert(cell_pos == far_corner(g));
                proof {
                    lemma_runs_top(g, before, cell_pos, i as int);
                }
            }
            assert forall|k: int| 0 <= k < run@.len() implies !removed_walls@.contains(
                wall_at(#[trigger] run@[k], Direction::North),
            ) by {
                if k < run@.len() - 1 {
                    assert(!before.contains(wall_at(run@[k], Direction::North)));
                }
            }
        } else {
            let run_index = below(&mut rng, run.len());
            let run_cell = run[run_index];
            assert(run_cell.y == cell_pos.y);
            if grid_map.neighbour_from_cell_pos(run_cell, direction).is_some() {
                if let Some(w) = grid_map.wall_from_cell_pos(run_cell, direction) {
                    proof {
                        lemma_owner(g, run_cell, direction);
                        assert(!before.contains(w));
                        assert(before.insert(w).len() == before.len() + 1);
                        let y0 = cell_pos.y as int;
                        assert(run@.last() == cell_pos);
                        assert(run@[run_index as int] == pos(rs + run_index, y0));
                        assert(run@[run@.len() - 1] == pos(rs + run@.len() - 1, y0));
                        assert forall|x: int| rs <= x <= cell_pos.x implies !#[trigger] before.contains(
                            wall_at(pos(x, cell_pos.y as int), Direction::North),
                        ) by {
                            let k = x - rs;
                            assert(run@[k] == pos(x, y0));
                        }
                        lemma_one_north_after_north(g, before, run_cell, cell_pos, rs);
                        lemma_runs_after_north(g, before, run_cell, cell_pos, rs, i as int);
                    }
                    removed_walls.insert(w);
                    proof {
                        let s1 = removed_walls@;
                        lemma_sidewinder_grows(g, before, s1, run@, i + 1);
                        let up = step(run_cell, Direction::North);
                        assert(g.neighbour(run_cell, Direction::North) == Some(up));
                        assert(g.in_cells(run_cell));
                        assert(s1.contains(wall_at(run_cell, Direction::North)));
                        assert(passable(g, s1, run_cell, up));
                        lemma_reaches_step(g, s1, run_cell, up);
                        assert forall|k: int| 0 <= k < run@.len() implies climbs(
                            g,
                            s1,
                            #[trigger] run@[k],
                        ) by {
                            assert(reaches(g, s1, run@[k], run@[run_index as int]));
                            lemma_reaches_trans(g, s1, run@[k], run_cell, up);
                        }
                        assert forall|j: int|
                            0 <= j < i + 1 && #[trigger] g.cell_at(j).y < g.rows() - 1
                                implies climbs(g, s1, g.cell_at(j)) by {
                            if run@.contains(g.cell_at(j)) {
                                let k = choose|k: int| 0 <= k < run@.len() && run@[k] == g.cell_at(j);
                                assert(climbs(g, s1, run@[k]));
                            }
                        }
                    }
                }
            } else {
                assert(cell_pos == far_corner(g));
                proof {
                    lemma_runs_top(g, before, cell_pos, i as int);
                }
            }
            run.clear();
            proof {
                if i + 1 < count {
                    assert(!removed_walls@.contains(wall_at(cell_pos, Direction::East))) by {
                        assert(!s0.contains(wall_at(cell_pos, Direction::East)));
                        assert(wall_at(cell_pos, Direction::East) != wall_at(run_cell, Direction::North));
                    }
                    lemma_next_run_start(g, removed_walls@, cell_pos, i as int);
                }
            }
        }
        proof {
            assert forall|j: int|
                0 <= j < i + 1 && #[trigger] g.cell_at(j).y == g.rows() - 1 && g.cell_at(j).x
                    < g.cols() - 1 implies removed_walls@.contains(wall_at(g.cell_at(j), Direction::East)) by {
                if j < i {
                    assert(s0.contains(wall_at(g.cell_at(j), Direction::East)));
                }
            }
        }
        i = i + 1;
    }
    proof {
        assert forall|w: Wall| #[trigger] removed_walls@.contains(w) implies g.is_inner_wall(w) by {
            lemma_owner(
                g,
                owner(w),
                if w == wall_at(owner(w), Direction::North) {
                    Direction::North
                } else {
                    Direction::East
                },
            );
        }
        if count > 0 {
            g.lemma_cell_bijection();
            let s1 = removed_walls@;
            assert forall|c: Pos|
                #[trigger] g.in_cells(c) && c.y == g.rows() - 1 && c.x < g.cols() - 1 implies s1.contains(
                wall_at(c, Direction::East),
            ) by {
                assert(g.cell_at(g.cell_index_of(c)) == c);
            }
            assert forall|c: Pos| #[trigger] g.in_cells(c) && c.y < g.rows() - 1 implies climbs(
                g,
                s1,
                c,
            ) by {
                let j = g.cell_index_of(c);
                assert(g.cell_at(j) == c);
                if run@.contains(c) {
                    let k = choose|k: int| 0 <= k < run@.len() && run@[k] == c;
                }
            }
            assert forall|p: Pos| #[trigger] g.in_cells(p) implies reaches(g, s1, p, far_corner(g)) by {
                lemma_sidewinder_reaches(g, s1, p);
            }
        }
    }
    removed_walls
}

/// Number of `true` entries.
pub open spec fn count_true(s: Seq<bool>) -> nat
    decreases s.len(),
{
    if s.len() == 0 {
        0
    } else {
        count_true(s.drop_last()) + if s.last() {
            1nat
        } else {
            0nat
        }
    }
}

pub proof fn lemma_count_true_bound(s: Seq<bool>)
    ensures
        count_true(s) <= s.len(),
    decreases s.len(),
{
    if s.len() > 0 {
        lemma_count_true_bound(s.drop_last());
    }
}

pub proof fn lemma_count_true_set(s: Seq<bool>, i: int)
    requires
        0 <= i < s.len(),
        !s[i],
    ensures
        count_true(s.update(i, true)) == count_true(s) + 1,
    decreases s.len(),
{
    let t = s.update(i, true);
    if i == s.len() - 1 {
        assert(t.drop_last() =~= s.drop_last());
    } else {
        assert(t.drop_last() =~= s.drop_last().update(i, true));
        lemma_count_true_set(s.drop_last(), i);
    }
}

/// `w` is the wall crossed when stepping from cell `a` to its neighbour `b`.
pub open spec fn links(g: GridMap, a: Pos, w: Wall, b: Pos) -> bool {
    exists|d: Direction| #[trigger] g.neighbour(a, d) == Some(b) && g.inner_wall(a, d) == Some(w)
}

proof fn lemma_links_sides(g: GridMap, a: Pos, w: Wall, b: Pos)
    requires
        g.wf(),
        links(g, a, w, b),
    ensures
        g.in_cells(a),
        g.in_cells(b),
        g.is_inner_wall(w),
        (wall_side_a(w) == a && wall_side_b(w) == b) || (wall_side_a(w) == b && wall_side_b(w)
            == a),
{
    g.lemma_counts_fit();
    let d = choose|d: Direction| #[trigger]
        g.neighbour(a, d) == Some(b) && g.inner_wall(a, d) == Some(w);
    lemma_wall_sides(a, d);
}

/// `path` goes from cell to cell through carved passages.
pub open spec fn is_walk(g: GridMap, s: Set<Wall>, path: Seq<Pos>) -> bool {
    path.len() >= 1 && forall|i: int|
        0 <= i < path.len() - 1 ==> #[trigger] passable(g, s, path[i], path[i + 1])
}

/// Some walk through carved passages leads from `p` to `q`.
pub open spec fn reaches(g: GridMap, s: Set<Wall>, p: Pos, q: Pos) -> bool {
    exists|path: Seq<Pos>| #[trigger] is_walk(g, s, path) && path[0] == p && path.last() == q
}

/// Carving more walls keeps every walk.
proof fn lemma_reaches_grows(g: GridMap, s: Set<Wall>, t: Set<Wall>, p: Pos, q: Pos)
    requires
        s.subset_of(t),
        reaches(g, s, p, q),
    ensures
        reaches(g, t, p, q),
{
    let path = choose|path: Seq<Pos>| #[trigger] is_walk(g, s, path) && path[0] == p && path.last() == q;
    assert forall|i: int| 0 <= i < path.len() - 1 implies #[trigger] passable(g, t, path[i], path[i + 1]) by {
        assert(passable(g, s, path[i], path[i + 1]));
        let d = choose|d: Direction|
            #![trigger g.neighbour(path[i], d), s.contains(wall_at(path[i], d))]
            g.in_cells(path[i]) && g.neighbour(path[i], d) == Some(path[i + 1]) && s.contains(
                wall_at(path[i], d),
            );
        assert(t.contains(wall_at(path[i], d)));
    }
    assert(is_walk(g, t, path));
}

/// A passage from `a` to a cell that reaches `q` lets `a` reach `q`.
proof fn lemma_reaches_prepend(g: GridMap, s: Set<Wall>, a: Pos, b: Pos, q: Pos)
    requires
        passable(g, s, a, b),
        reaches(g, s, b, q),
    ensures
        reaches(g, s, a, q),
{
    let path = choose|path: Seq<Pos>| #[trigger] is_walk(g, s, path) && path[0] == b && path.last() == q;
    let longer = seq![a] + path;
    assert forall|i: int| 0 <= i < longer.len() - 1 implies #[trigger] passable(
        g,
        s,
        longer[i],
        longer[i + 1],
    ) by {
        if i > 0 {
            let j = i - 1;
            assert(longer[i] == path[j] && longer[i + 1] == path[j + 1]);
            assert(passable(g, s, path[j], path[j + 1]));
        }
    }
    assert(is_walk(g, s, longer));
}

/// Where every cell but the far corner has a passage north or east, every
/// cell reaches the far corner.
proof fn lemma_reaches_far_corner(g: GridMap, s: Set<Wall>, p: Pos)
    requires
        g.wf(),
        forall|c: Pos|
            #[trigger] g.in_cells(c) && c != far_corner(g) ==> opens_north_or_east(g, s, c),
        g.in_cells(p),
    ensures
        reaches(g, s, p, far_corner(g)),
    decreases (g.cols() - 1 - p.x) + (g.rows() - 1 - p.y),
{
    g.lemma_counts_fit();
    if p == far_corner(g) {
        assert(is_walk(g, s, seq![p]));
    } else {
        assert(opens_north_or_east(g, s, p));
        let d = if g.neighbour(p, Direction::North).is_some() && s.contains(
            wall_at(p, Direction::North),
        ) {
            Direction::North
        } else {
            Direction::East
        };
        let q = step(p, d);
        assert(passable(g, s, p, q));
        lemma_reaches_far_corner(g, s, q);
        lemma_reaches_prepend(g, s, p, q, far_corner(g));
    }
}

/// Every cell of the grid reaches `root`: the passages connect the grid.
pub open spec fn all_reach(g: GridMap, s: Set<Wall>, root: Pos) -> bool {
    forall|p: Pos| #[trigger] g.in_cells(p) ==> reaches(g, s, p, root)
}

proof fn lemma_count_true_full(s: Seq<bool>)
    requires
        count_true(s) == s.len(),
    ensures
        forall|i: int| 0 <= i < s.len() ==> #[trigger] s[i],
    decreases s.len(),
{
    if s.len() > 0 {
        lemma_count_true_bound(s.drop_last());
        lemma_count_true_full(s.drop_last());
        assert forall|i: int| 0 <= i < s.len() implies #[trigger] s[i] by {
            if i < s.len() - 1 {
                assert(s[i] == s.drop_last()[i]);
            }
        }
    }
}

/// The carved walls form a tree over the visited cells: every wall joins two
/// visited cells, there is one wall fewer than visited cells, and every visited
/// cell reaches `root`.
pub open spec fn forest(g: GridMap, s: Set<Wall>, visited: Seq<bool>, root: Pos) -> bool {
    &&& g.wf()
    &&& g.in_cells(root)
    &&& forall|p: Pos|
        g.in_cells(p) && #[trigger] visited[g.cell_index_of(p)] ==> reaches(g, s, p, root)
    &&& g.cols() > 0
    &&& visited.len() == g.cell_count_spec()
    &&& s.finite()
    &&& s.len() + 1 == count_true(visited)
    &&& forall|w: Wall| #[trigger]
        s.contains(w) ==> g.is_inner_wall(w) && g.in_cells(wall_side_a(w)) && g.in_cells(
            wall_side_b(w),
        ) && visited[g.cell_index_of(wall_side_a(w))] && visited[g.cell_index_of(
            wall_side_b(w),
        )]
}

/// The neighbour of `p` in direction `d` with the wall crossed to reach it,
/// if that neighbour is on the grid.
pub open spec fn open_in(g: GridMap, p: Pos, d: Direction) -> Seq<(Pos, Wall)> {
    if g.inner_wall(p, d).is_some() {
        seq![(step(p, d), wall_at(p, d))]
    } else {
        Seq::empty()
    }
}

/// The neighbours of `p` in the first `k` directions of North, East, South, West.
pub open spec fn open_upto(g: GridMap, p: Pos, k: int) -> Seq<(Pos, Wall)>
    decreases k,
{
    if k <= 0 {
        Seq::empty()
    } else {
        open_upto(g, p, k - 1) + open_in(g, p, dir_at(k - 1))
    }
}

/// Every in-grid neighbour of `p` with the wall crossed to reach it, in the
/// order North, East, South, West.
pub open spec fn open_list(g: GridMap, p: Pos) -> Seq<(Pos, Wall)> {
    open_upto(g, p, 4)
}

proof fn lemma_open_list_links(g: GridMap, p: Pos)
    requires
        g.wf(),
        g.in_cells(p),
    ensures
        forall|k: int|
            0 <= k < open_list(g, p).len() ==> links(g, p, (#[trigger] open_list(g, p)[k]).1, open_list(g, p)[k].0),
        g.cell_count_spec() >= 2 ==> open_list(g, p).len() >= 1,
{
    g.lemma_counts_fit();
    let l = open_list(g, p);
    assert(l == open_in(g, p, Direction::North) + open_in(g, p, Direction::East) + open_in(
        g,
        p,
        Direction::South,
    ) + open_in(g, p, Direction::West)) by {
        let n = open_in(g, p, Direction::North);
        let e = open_in(g, p, Direction::East);
        let so = open_in(g, p, Direction::South);
        let w = open_in(g, p, Direction::West);
        assert(open_upto(g, p, 0) =~= Seq::<(Pos, Wall)>::empty());
        assert(open_upto(g, p, 1) =~= n);
        assert(open_upto(g, p, 2) =~= n + e);
        assert(open_upto(g, p, 3) =~= n + e + so);
        assert(open_upto(g, p, 4) =~= n + e + so + w);
    }
    assert forall|k: int| 0 <= k < l.len() implies links(g, p, (#[trigger] l[k]).1, l[k].0) by {
        let ds = seq![Direction::North, Direction::East, Direction::South, Direction::West];
        assert(exists|d: Direction| l[k] == (step(p, d), wall_at(p, d)) && g.inner_wall(p, d).is_some()) by {
            let a = open_in(g, p, Direction::North);
            let b = open_in(g, p, Direction::East);
            let c = open_in(g, p, Direction::South);
            if k < a.len() {
                assert(l[k] == a[k]);
            } else if k < a.len() + b.len() {
                assert(l[k] == b[k - a.len()]);
            } else if k < a.len() + b.len() + c.len() {
                assert(l[k] == c[k - a.len() - b.len()]);
            } else {
                assert(l[k] == open_in(g, p, Direction::West)[k - a.len() - b.len() - c.len()]);
            }
        }
        let d = choose|d: Direction| l[k] == (step(p, d), wall_at(p, d)) && g.inner_wall(p, d).is_some();
        assert(g.neighbour(p, d) == Some(l[k].0) && g.inner_wall(p, d) == Some(l[k].1));
    }
    if g.cell_count_spec() >= 2 {
        let c = g.cols();
        let r = g.rows();
        assert(c >= 2 || r >= 2) by (nonlinear_arith)
            requires
                c * r >= 2,
                c >= 0,
                r >= 0,
        ;
        if c >= 2 {
            assert(g.inner_wall(p, Direction::East).is_some() || g.inner_wall(p, Direction::West).is_some());
        } else {
            assert(g.inner_wall(p, Direction::North).is_some() || g.inner_wall(p, Direction::South).is_some());
        }
    }
}

/// Every in-grid neighbour of `cell_pos`, with the wall crossed to reach it,
/// in the order North, East, South, West.
fn open_neighbours(grid_map: &GridMap, cell_pos: Pos) -> (r: Vec<(Pos, Wall)>)
    requires
        grid_map.wf(),
        grid_map.in_cells(cell_pos),
    ensures
        r@ == open_list(*grid_map, cell_pos),
        forall|k: int| 0 <= k < r@.len() ==> links(*grid_map, cell_pos, (#[trigger] r@[k]).1, r@[k].0),
{
    let mut out: Vec<(Pos, Wall)> = Vec::new();
    let dirs = [Direction::North, Direction::East, Direction::South, Direction::West];
    let mut k: usize = 0;
    while k < 4
        invariant
            grid_map.wf(),
            grid_map.in_cells(cell_pos),
            dirs@ == seq![Direction::North, Direction::East, Direction::South, Direction::West],
            0 <= k <= 4,
            out@ == open_upto(*grid_map, cell_pos, k as int),
        decreases 4 - k,
    {
        let d = dirs[k];
        assert(d == dir_at(k as int));
        let n = grid_map.neighbour_from_cell_pos(cell_pos, d);
        let w = grid_map.inner_wall_from_cell_pos(cell_pos, d);
        let ghost before = out@;
        if let (Some(n), Some(w)) = (n, w) {
            out.push((n, w));
            assert(out@ =~= before + open_in(*grid_map, cell_pos, d));
        } else {
            assert(out@ =~= before + open_in(*grid_map, cell_pos, d));
        }
        k = k + 1;
    }
    proof {
        lemma_open_list_links(*grid_map, cell_pos);
    }
    out
}

/// Carves `w`, which joins the unvisited cell `a` to the visited cell `b`, and
/// marks `a` visited.
fn attach(
    grid_map: &GridMap,
    removed_walls: &mut RemovedWalls,
    visited: &mut Vec<bool>,
    a: Pos,
    w: Wall,
    b: Pos,
    Ghost(root): Ghost<Pos>,
)
    requires
        old(removed_walls).wf(),
        forest(*grid_map, old(removed_walls)@, old(visited)@, root),
        links(*grid_map, a, w, b) || links(*grid_map, b, w, a),
        !old(visited)@[grid_map.cell_index_of(a)],
        old(visited)@[grid_map.cell_index_of(b)],
    ensures
        final(removed_walls).wf(),
        forest(*grid_map, final(removed_walls)@, final(visited)@, root),
        final(removed_walls)@ == old(removed_walls)@.insert(w),
        final(visited)@ == old(visited)@.update(grid_map.cell_index_of(a), true),
{
    let ghost g = *grid_map;
    proof {
        g.lemma_cell_bijection();
        if links(g, a, w, b) {
            lemma_links_sides(g, a, w, b);
        } else {
            lemma_links_sides(g, b, w, a);
        }
        assert(!old(removed_walls)@.contains(w));
        lemma_count_true_set(old(visited)@, g.cell_index_of(a));
    }
    let ia = grid_map.cell_pos_to_index(a).unwrap();
    removed_walls.insert(w);
    visited.set(ia as usize, true);
    proof {
        assert forall|x: Wall| #[trigger] removed_walls@.contains(x) implies g.is_inner_wall(x)
            && g.in_cells(wall_side_a(x)) && g.in_cells(wall_side_b(x))
            && visited@[g.cell_index_of(wall_side_a(x))] && visited@[g.cell_index_of(
            wall_side_b(x),
        )] by {
            if x != w {
                assert(old(removed_walls)@.contains(x));
            }
        }
        let s0 = old(removed_walls)@;
        let s1 = removed_walls@;
        assert(s0.subset_of(s1));
        assert(passable(g, s1, a, b)) by {
            if links(g, a, w, b) {
                let d = choose|d: Direction| #[trigger]
                    g.neighbour(a, d) == Some(b) && g.inner_wall(a, d) == Some(w);
                assert(s1.contains(wall_at(a, d)));
            } else {
                let d = choose|d: Direction| #[trigger]
                    g.neighbour(b, d) == Some(a) && g.inner_wall(b, d) == Some(w);
                assert(s1.contains(wall_at(b, d)));
                assert(passable(g, s1, b, a));
                lemma_passable_symmetric(g, s1, b, a);
            }
        }
        assert forall|p: Pos|
            g.in_cells(p) && #[trigger] visited@[g.cell_index_of(p)] implies reaches(g, s1, p, root) by {
            if p == a {
                lemma_reaches_grows(g, s0, s1, b, root);
                lemma_reaches_prepend(g, s1, a, b, root);
            } else {
                assert(g.cell_at(g.cell_index_of(p)) == p);
                assert(old(visited)@[g.cell_index_of(p)]);
                lemma_reaches_grows(g, s0, s1, p, root);
            }
        }
    }
}

/// A fresh visited-marks table holding only `start`, with nothing carved.
fn start_forest(grid_map: &GridMap, start: Pos) -> (r: (RemovedWalls, Vec<bool>))
    requires
        grid_map.wf(),
        grid_map.in_cells(start),
    ensures
        r.0.wf(),
        r.0@ == Set::<Wall>::empty(),
        forest(*grid_map, r.0@, r.1@, start),
        r.1@[grid_map.cell_index_of(start)],
{
    let ghost g = *grid_map;
    proof {
        g.lemma_counts_fit();
        assert(g.cols() > 0);
        g.lemma_cell_bijection();
    }
    let count = grid_map.get_cell_count();
    let mut visited: Vec<bool> = Vec::new();
    let mut i: i32 = 0;
    while i < count
        invariant
            0 <= i <= count,
            visited@.len() == i,
            forall|j: int| 0 <= j < i ==> !(#[trigger] visited@[j]),
        decreases count - i,
    {
        visited.push(false);
        i = i + 1;
    }
    proof {
        assert(count_true(visited@) == 0) by {
            lemma_count_true_zero(visited@);
        }
        lemma_count_true_set(visited@, g.cell_index_of(start));
    }
    let is = grid_map.cell_pos_to_index(start).unwrap();
    visited.set(is as usize, true);
    let removed_walls = RemovedWalls::new();
    proof {
        assert(is_walk(g, removed_walls@, seq![start]));
        assert forall|p: Pos|
            g.in_cells(p) && #[trigger] visited@[g.cell_index_of(p)] implies reaches(
            g,
            removed_walls@,
            p,
            start,
        ) by {
            assert(g.cell_at(g.cell_index_of(p)) == p);
            assert(p == start);
            assert(is_walk(g, removed_walls@, seq![start]));
        }
    }
    (removed_walls, visited)
}

pub proof fn lemma_count_true_zero(s: Seq<bool>)
    requires
        forall|j: int| 0 <= j < s.len() ==> !(#[trigger] s[j]),
    ensures
        count_true(s) == 0,
    decreases s.len(),
{
    if s.len() > 0 {
        lemma_count_true_zero(s.drop_last());
    }
}

/// A random walk that grows a tree: the walls carved so far, the cells
/// entered so far, and the cell the walk stands on.
pub struct Walk {
    pub removed_walls: RemovedWalls,
    pub visited: Vec<bool>,
    pub current: Pos,
    pub visited_count: i32,
    /// The cell the walk started from.
    pub root: Ghost<Pos>,
}

impl Walk {
    /// The carved walls form a tree over the entered cells that holds the
    /// start; the walk stands on an entered cell; until a wall is carved the
    /// walk stands on its start, the only cell entered.
    pub open spec fn wf(&self, g: GridMap) -> bool {
        &&& self.removed_walls.wf()
        &&& forest(g, self.removed_walls@, self.visited@, self.root@)
        &&& self.visited_count == count_true(self.visited@)
        &&& g.in_cells(self.current)
        &&& self.visited@[g.cell_index_of(self.current)]
        &&& self.removed_walls@.len() == 0 ==> self.current == self.root@ && forall|p: Pos|
            g.in_cells(p) && #[trigger] self.visited@[g.cell_index_of(p)] ==> p == self.root@
    }

    /// A walk standing on `start`, the only cell entered, with nothing carved.
    pub fn new(grid_map: &GridMap, start: Pos) -> (r: Walk)
        requires
            grid_map.wf(),
            grid_map.in_cells(start),
        ensures
            r.wf(*grid_map),
            r.current == start,
            r.root@ == start,
            r.removed_walls@ == Set::<Wall>::empty(),
    {
        let (removed_walls, visited) = start_forest(grid_map, start);
        let ghost g = *grid_map;
        proof {
            g.lemma_counts_fit();
            g.lemma_cell_bijection();
            assert forall|p: Pos| g.in_cells(p) && #[trigger] visited@[g.cell_index_of(p)] implies p
                == start by {
                if p != start {
                    assert(g.cell_at(g.cell_index_of(p)) == p);
                    assert(g.cell_at(g.cell_index_of(start)) == start);
                    assert(count_true(visited@) == 1);
                    lemma_two_true(visited@, g.cell_index_of(p), g.cell_index_of(start));
                }
            }
        }
        Walk { removed_walls, visited, current: start, visited_count: 1, root: Ghost(start) }
    }
}

proof fn lemma_two_true(s: Seq<bool>, i: int, j: int)
    requires
        0 <= i < s.len(),
        0 <= j < s.len(),
        i != j,
        s[i],
        s[j],
    ensures
        count_true(s) >= 2,
    decreases s.len(),
{
    let n = s.len() - 1;
    if i == n || j == n {
        let k = if i == n {
            j
        } else {
            i
        };
        assert(s.drop_last()[k]);
        lemma_count_true_set(s.drop_last().update(k, false), k);
        assert(s.drop_last().update(k, false).update(k, true) =~= s.drop_last());
    } else {
        assert(s.drop_last()[i] && s.drop_last()[j]);
        lemma_two_true(s.drop_last(), i, j);
    }
}

/// One step of an Aldous-Broder walk with the draw `k`: the walk moves to the
/// `k`-th in-grid neighbour of its cell (North, East, South, West order), and
/// carves the wall crossed exactly when that neighbour had not been entered.
pub fn aldous_broder_step(grid_map: &GridMap, walk: &mut Walk, k: usize)
    requires
        old(walk).wf(*grid_map),
        k < open_list(*grid_map, old(walk).current).len(),
    ensures
        final(walk).wf(*grid_map),
        final(walk).root@ == old(walk).root@,
        final(walk).current == open_list(*grid_map, old(walk).current)[k as int].0,
        final(walk).removed_walls@ == (if old(walk).visited@[grid_map.cell_index_of(
            final(walk).current,
        )] {
            old(walk).removed_walls@
        } else {
            old(walk).removed_walls@.insert(open_list(*grid_map, old(walk).current)[k as int].1)
        }),
        final(walk).visited@ == old(walk).visited@.update(
            grid_map.cell_index_of(final(walk).current),
            true,
        ),
        final(walk).removed_walls@.len() >= 1,
{
    let ghost g = *grid_map;
    let ghost root = walk.root@;
    let current = walk.current;
    let neighbours = open_neighbours(grid_map, current);
    let (neighbour_cell, neighbour_wall) = neighbours[k];
    proof {
        lemma_links_sides(g, current, neighbour_wall, neighbour_cell);
        g.lemma_counts_fit();
        g.lemma_cell_bijection();
        lemma_count_true_bound(walk.visited@);
        assert(neighbour_cell != current) by {
            let d = choose|d: Direction| #[trigger]
                g.neighbour(current, d) == Some(neighbour_cell) && g.inner_wall(current, d) == Some(
                    neighbour_wall,
                );
        }
    }
    let ni = grid_map.cell_pos_to_index(neighbour_cell).unwrap();
    if !walk.visited[ni as usize] {
        attach(
            grid_map,
            &mut walk.removed_walls,
            &mut walk.visited,
            neighbour_cell,
            neighbour_wall,
            current,
            Ghost(root),
        );
        proof {
            lemma_count_true_bound(walk.visited@);
        }
        walk.visited_count = walk.visited_count + 1;
    } else {
        proof {
            assert(walk.removed_walls@.len() >= 1);
            assert(walk.visited@.update(ni as int, true) =~= walk.visited@);
        }
    }
    walk.current = neighbour_cell;
}

/// Aldous-Broder: a random walk from a random cell, carving each wall through
/// which it first enters a cell, until every cell has been entered. The walk is
/// cut off after `u64::MAX` steps.
pub fn carve_aldous_broder_into_grid_map(grid_map: &GridMap, rng_seed: u64) -> (r: RemovedWalls)
    requires
        grid_map.wf(),
    ensures
        r.wf(),
        all_inner(*grid_map, r@),
        grid_map.cell_count_spec() > 0 ==> r@.len() < grid_map.cell_count_spec(),
        grid_map.cell_count_spec() <= 1 ==> r@.len() == 0,
        grid_map.cell_count_spec() >= 2 ==> r@.len() >= 1,
        grid_map.cell_count_spec() > 0 ==> exists|visited: Seq<bool>, root: Pos| #[trigger]
            forest(*grid_map, r@, visited, root),
        grid_map.cell_count_spec() > 0 && r@.len() == grid_map.cell_count_spec() - 1 ==> exists|
            root: Pos,
        | #[trigger] all_reach(*grid_map, r@, root),
{
    let count = grid_map.get_cell_count();
    if count == 0 {
        return RemovedWalls::new();
    }
    let ghost g = *grid_map;
    proof {
        g.lemma_counts_fit();
        assert(g.cols() > 0) by (nonlinear_arith)
            requires
                g.cols() * g.rows() > 0,
                g.cols() >= 0,
                g.rows() >= 0,
        ;
        g.lemma_cell_bijection();
    }
    let mut rng = seeded(rng_seed);
    let random_start = below(&mut rng, count as usize);
    let start = grid_map.index_to_cell_pos(random_start as i32).unwrap();
    let mut walk = Walk::new(grid_map, start);
    let mut budget: u64 = u64::MAX;
    while walk.visited_count < count && budget > 0
        invariant
            g == *grid_map,
            count == g.cell_count_spec(),
            walk.wf(g),
            count >= 2 && budget < u64::MAX ==> walk.removed_walls@.len() >= 1,
        decreases budget,
    {
        budget = budget - 1;
        proof {
            lemma_open_list_links(g, walk.current);
        }
        let neighbours = open_neighbours(grid_map, walk.current);
        let k = below(&mut rng, neighbours.len());
        aldous_broder_step(grid_map, &mut walk, k);
    }
    let removed_walls = walk.removed_walls;
    let ghost visited = walk.visited@;
    let ghost root = walk.root@;
    proof {
        lemma_count_true_bound(visited);
        assert(forest(g, removed_walls@, visited, root));
        if removed_walls@.len() == count - 1 {
            lemma_count_true_full(visited);
            assert forall|p: Pos| #[trigger] g.in_cells(p) implies reaches(
                g,
                removed_walls@,
                p,
                root,
            ) by {
                g.lemma_cell_bijection();
                assert(visited[g.cell_index_of(p)]);
            }
            assert(all_reach(g, removed_walls@, root));
        }
    }
    removed_walls
}

/// Where `p` stands in `cells`, if anywhere.
fn position_of(cells: &Vec<Pos>, p: Pos) -> (r: Option<usize>)
    ensures
        r.is_some() ==> r.unwrap() < cells@.len() && cells@[r.unwrap() as int] == p,
        r.is_none() ==> !cells@.contains(p),
{
    let mut j: usize = 0;
    while j < cells.len()
        invariant
            0 <= j <= cells@.len(),
            forall|m: int| 0 <= m < j ==> cells@[m] != p,
        decreases cells@.len() - j,
    {
        if cells[j] == p {
            return Some(j);
        }
        j = j + 1;
    }
    None
}

/// A cell not yet visited, chosen uniformly among all such cells.
fn get_random_unvisited_cell(grid_map: &GridMap, visited: &Vec<bool>, rng: &mut fastrand::Rng) -> (r:
    Option<Pos>)
    requires
        grid_map.wf(),
        grid_map.cols() > 0,
        visited@.len() == grid_map.cell_count_spec(),
    ensures
        r.is_some() ==> grid_map.in_cells(r.unwrap()) && !visited@[grid_map.cell_index_of(
            r.unwrap(),
        )],
        r.is_none() ==> forall|i: int| 0 <= i < visited@.len() ==> #[trigger] visited@[i],
{
    let count = grid_map.get_cell_count();
    let mut candidates: Vec<Pos> = Vec::new();
    let mut i: i32 = 0;
    while i < count
        invariant
            grid_map.wf(),
            count == grid_map.cell_count_spec(),
            visited@.len() == count,
            0 <= i <= count,
            forall|k: int|
                0 <= k < candidates@.len() ==> grid_map.in_cells(#[trigger] candidates@[k])
                    && !visited@[grid_map.cell_index_of(candidates@[k])],
            candidates@.len() == 0 ==> forall|j: int| 0 <= j < i ==> #[trigger] visited@[j],
        decreases count - i,
    {
        if !visited[i as usize] {
            let p = grid_map.index_to_cell_pos(i).unwrap();
            candidates.push(p);
        }
        i = i + 1;
    }
    if candidates.len() == 0 {
        return None;
    }
    let k = below(rng, candidates.len());
    Some(candidates[k])
}

/// A loop-free walk of unvisited cells: `walls[i]` is crossed from
/// `cells[i]` to `cells[i + 1]`.
pub open spec fn run_ok(g: GridMap, visited: Seq<bool>, cells: Seq<Pos>, walls: Seq<Wall>) -> bool {
    &&& cells.len() >= 1
    &&& walls.len() + 1 == cells.len()
    &&& cells.no_duplicates()
    &&& forall|k: int|
        0 <= k < cells.len() ==> g.in_cells(#[trigger] cells[k]) && !visited[g.cell_index_of(cells[k])]
    &&& forall|k: int| 0 <= k < walls.len() ==> links(g, cells[k], #[trigger] walls[k], cells[k + 1])
}

/// One step of a loop-erased walk with the draw `k`: the walk tries the
/// `k`-th in-grid neighbour `n` (North, East, South, West order) of its last
/// cell. Where `n` is on the walk already, the loop back to it is erased; where
/// `n` is visited, the walk has met the tree: it stays as it is and the wall
/// crossed and `n` are returned; otherwise the walk moves on to `n`.
pub fn wilson_walk_step(
    grid_map: &GridMap,
    visited: &Vec<bool>,
    cells: &mut Vec<Pos>,
    walls: &mut Vec<Wall>,
    k: usize,
) -> (r: Option<(Wall, Pos)>)
    requires
        grid_map.wf(),
        visited@.len() == grid_map.cell_count_spec(),
        run_ok(*grid_map, visited@, old(cells)@, old(walls)@),
        k < open_list(*grid_map, old(cells)@.last()).len(),
    ensures
        old(cells)@.contains(open_list(*grid_map, old(cells)@.last())[k as int].0) ==> r.is_none()
            && exists|j: int|
            0 <= j < old(cells)@.len() && old(cells)@[j] == open_list(
                *grid_map,
                old(cells)@.last(),
            )[k as int].0 && final(cells)@ == old(cells)@.subrange(0, j + 1) && final(walls)@
                == old(walls)@.subrange(0, j),
        !old(cells)@.contains(open_list(*grid_map, old(cells)@.last())[k as int].0) && visited@[
            grid_map.cell_index_of(open_list(*grid_map, old(cells)@.last())[k as int].0)
        ] ==> r == Some(
            (
                open_list(*grid_map, old(cells)@.last())[k as int].1,
                open_list(*grid_map, old(cells)@.last())[k as int].0,
            ),
        ) && final(cells)@ == old(cells)@ && final(walls)@ == old(walls)@,
        !old(cells)@.contains(open_list(*grid_map, old(cells)@.last())[k as int].0) && !visited@[
            grid_map.cell_index_of(open_list(*grid_map, old(cells)@.last())[k as int].0)
        ] ==> r.is_none() && final(cells)@ == old(cells)@.push(
            open_list(*grid_map, old(cells)@.last())[k as int].0,
        ) && final(walls)@ == old(walls)@.push(open_list(*grid_map, old(cells)@.last())[k as int].1),
        r.is_none() ==> run_ok(*grid_map, visited@, final(cells)@, final(walls)@),
        r.is_some() ==> links(*grid_map, final(cells)@.last(), r.unwrap().0, r.unwrap().1)
            && grid_map.in_cells(r.unwrap().1) && visited@[grid_map.cell_index_of(r.unwrap().1)],
{
    let ghost g = *grid_map;
    let current_pos = cells[cells.len() - 1];
    let neighbours = open_neighbours(grid_map, current_pos);
    let (neighbour_cell, neighbour_wall) = neighbours[k];
    proof {
        lemma_links_sides(g, current_pos, neighbour_wall, neighbour_cell);
        g.lemma_cell_bijection();
    }
    let ghost old_cells = cells@;
    let ghost old_walls = walls@;
    let found = position_of(&cells, neighbour_cell);
    if let Some(j) = found {
        cells.truncate(j + 1);
        walls.truncate(j);
        proof {
            assert(cells@ =~= old_cells.subrange(0, j + 1));
            assert(walls@ =~= old_walls.subrange(0, j as int));
            assert forall|a: int, b: int| 0 <= a < b < cells@.len() implies cells@[a] != cells@[b] by {
                assert(cells@[a] == old_cells[a] && cells@[b] == old_cells[b]);
            }
            assert forall|m: int| 0 <= m < walls@.len() implies links(
                g,
                cells@[m],
                #[trigger] walls@[m],
                cells@[m + 1],
            ) by {
                assert(walls@[m] == old_walls[m]);
            }
        }
        None
    } else {
        let ni = grid_map.cell_pos_to_index(neighbour_cell).unwrap();
        if visited[ni as usize] {
            return Some((neighbour_wall, neighbour_cell));
        }
        cells.push(neighbour_cell);
        walls.push(neighbour_wall);
        proof {
            assert forall|a: int, b: int| 0 <= a < b < cells@.len() implies cells@[a] != cells@[b] by {
                if b == cells@.len() - 1 {
                    assert(cells@[a] == old_cells[a]);
                    assert(old_cells.contains(old_cells[a]));
                }
            }
            assert forall|m: int| 0 <= m < walls@.len() implies links(
                g,
                cells@[m],
                #[trigger] walls@[m],
                cells@[m + 1],
            ) by {
                if m < walls@.len() - 1 {
                    assert(walls@[m] == old_walls[m]);
                    assert(cells@[m] == old_cells[m] && cells@[m + 1] == old_cells[m + 1]);
                }
            }
        }
        None
    }
}

/// Wilson: starting from a tree holding only the origin cell, a loop-erased
/// random walk runs from a random unvisited cell until it meets the tree, and
/// is then added to it; this repeats until the tree holds every cell. The walks
/// are cut off after `u64::MAX` steps in all.
pub fn carve_wilson_into_grid_map(grid_map: &GridMap, rng_seed: u64) -> (r: RemovedWalls)
    requires
        grid_map.wf(),
    ensures
        r.wf(),
        all_inner(*grid_map, r@),
        grid_map.cell_count_spec() > 0 ==> r@.len() < grid_map.cell_count_spec(),
        grid_map.cell_count_spec() <= 1 ==> r@.len() == 0,
        grid_map.cell_count_spec() > 0 ==> exists|visited: Seq<bool>, root: Pos| #[trigger]
            forest(*grid_map, r@, visited, root),
        grid_map.cell_count_spec() > 0 && r@.len() == grid_map.cell_count_spec() - 1 ==> exists|
            root: Pos,
        | #[trigger] all_reach(*grid_map, r@, root),
{
    let count = grid_map.get_cell_count();
    if count == 0 {
        return RemovedWalls::new();
    }
    let ghost g = *grid_map;
    proof {
        g.lemma_counts_fit();
        assert(g.cols() > 0 && g.rows() > 0) by (nonlinear_arith)
            requires
                g.cols() * g.rows() > 0,
                g.cols() >= 0,
                g.rows() >= 0,
        ;
        g.lemma_cell_bijection();
    }
    let mut rng = seeded(rng_seed);
    let origin = Pos { x: 0, y: 0 };
    let ghost root = origin;
    let (mut removed_walls, mut visited) = start_forest(grid_map, origin);
    let mut visited_count: i32 = 1;
    let mut budget: u64 = u64::MAX;
    while visited_count < count && budget > 0
        invariant
            g == *grid_map,
            count == g.cell_count_spec(),
            removed_walls.wf(),
            forest(g, removed_walls@, visited@, root),
            visited_count == count_true(visited@),
        decreases budget,
    {
        budget = budget - 1;
        let ghost outer_budget = budget;
        let start = match get_random_unvisited_cell(grid_map, &visited, &mut rng) {
            Some(p) => p,
            None => break,
        };
        let mut cells: Vec<Pos> = vec![start];
        let mut walls: Vec<Wall> = Vec::new();
        let mut joined: Option<(Wall, Pos)> = None;
        proof {
            lemma_count_true_bound(visited@);
            assert(cells@.no_duplicates());
        }
        while budget > 0
            invariant_except_break
                joined.is_none(),
            invariant
                g == *grid_map,
                budget <= outer_budget,
                count == g.cell_count_spec(),
                count >= 2,
                visited@.len() == count,
                forest(g, removed_walls@, visited@, root),
                run_ok(g, visited@, cells@, walls@),
                joined.is_some() ==> links(g, cells@.last(), joined.unwrap().0, joined.unwrap().1)
                    && visited@[g.cell_index_of(joined.unwrap().1)],
            decreases budget,
        {
            budget = budget - 1;
            let current_pos = cells[cells.len() - 1];
            proof {
                lemma_open_list_links(g, current_pos);
            }
            let neighbours = open_neighbours(grid_map, current_pos);
            let k = below(&mut rng, neighbours.len());
            let met = wilson_walk_step(grid_map, &visited, &mut cells, &mut walls, k);
            if let Some(m) = met {
                joined = Some(m);
                break;
            }
        }
        if let Some((last_wall, anchor)) = joined {
            let mut i: usize = cells.len();
            while i > 0
                invariant
                    g == *grid_map,
                    budget <= outer_budget,
                    count == g.cell_count_spec(),
                    forest(g, removed_walls@, visited@, root),
                    visited_count == count_true(visited@),
                    removed_walls.wf(),
                    0 <= i <= cells@.len(),
                    walls@.len() + 1 == cells@.len(),
                    cells@.no_duplicates(),
                    forall|k: int| 0 <= k < cells@.len() ==> g.in_cells(#[trigger] cells@[k]),
                    forall|k: int|
                        0 <= k < i ==> !visited@[g.cell_index_of(#[trigger] cells@[k])],
                    forall|k: int|
                        0 <= k < walls@.len() ==> links(g, cells@[k], #[trigger] walls@[k], cells@[k + 1]),
                    links(g, cells@.last(), last_wall, anchor),
                    i == cells@.len() ==> visited@[g.cell_index_of(anchor)],
                    i < cells@.len() ==> visited@[g.cell_index_of(cells@[i as int])],
                decreases i,
            {
                i = i - 1;
                let a = cells[i];
                let (w, b) = if i + 1 == cells.len() {
                    (last_wall, anchor)
                } else {
                    (walls[i], cells[i + 1])
                };
                let ghost before = visited@;
                attach(grid_map, &mut removed_walls, &mut visited, a, w, b, Ghost(root));
                proof {
                    g.lemma_counts_fit();
                    g.lemma_cell_bijection();
                    lemma_count_true_set(before, g.cell_index_of(a));
                    lemma_count_true_bound(visited@);
                    assert forall|k: int| 0 <= k < i implies !visited@[g.cell_index_of(
                        #[trigger] cells@[k],
                    )] by {
                        assert(cells@[k] != cells@[i as int]);
                        assert(g.cell_at(g.cell_index_of(cells@[k])) == cells@[k]);
                        assert(g.cell_at(g.cell_index_of(cells@[i as int])) == cells@[i as int]);
                    }
                }
                visited_count = visited_count + 1;
            }
        }
    }
    proof {
        lemma_count_true_bound(visited@);
        if removed_walls@.len() == count - 1 {
            lemma_count_true_full(visited@);
            assert forall|p: Pos| #[trigger] g.in_cells(p) implies reaches(
                g,
                removed_walls@,
                p,
                root,
            ) by {
                g.lemma_cell_bijection();
                assert(visited@[g.cell_index_of(p)]);
            }
            assert(all_reach(g, removed_walls@, root));
        }
    }
    removed_walls
}

/// Carves a maze with the chosen strategy.
pub fn carve(builder: MazeBuilderType, grid_map: &GridMap, rng_seed: u64) -> (r: RemovedWalls)
    requires
        grid_map.wf(),
    ensures
        r.wf(),
        all_inner(*grid_map, r@),
        grid_map.cell_count_spec() > 0 ==> r@.len() < grid_map.cell_count_spec(),
        grid_map.cell_count_spec() <= 1 ==> r@.len() == 0,
        (builder == MazeBuilderType::BinaryTree || builder == MazeBuilderType::Sidewinder)
            ==> grid_map.cell_count_spec() > 0 ==> r@.len() == grid_map.cell_count_spec() - 1,
        grid_map.cell_count_spec() > 0 && r@.len() == grid_map.cell_count_spec() - 1 ==> exists|
            root: Pos,
        | #[trigger] all_reach(*grid_map, r@, root),
        (builder == MazeBuilderType::AldousBroder || builder == MazeBuilderType::Wilson)
            ==> grid_map.cell_count_spec() > 0 ==> exists|visited: Seq<bool>, root: Pos| #[trigger]
            forest(*grid_map, r@, visited, root),
        builder == MazeBuilderType::AldousBroder ==> grid_map.cell_count_spec() >= 2 ==> r@.len()
            >= 1,
{
    match builder {
        MazeBuilderType::BinaryTree => {
            let r = carve_binary_tree_into_grid_map(grid_map, rng_seed);
            assert(all_reach(*grid_map, r@, far_corner(*grid_map)));
            r
        },
        MazeBuilderType::Sidewinder => {
            let r = carve_sidewinder_into_grid_map(grid_map, rng_seed);
            assert(all_reach(*grid_map, r@, far_corner(*grid_map)));
            r
        },
        MazeBuilderType::AldousBroder => carve_aldous_broder_into_grid_map(grid_map, rng_seed),
        MazeBuilderType::Wilson => carve_wilson_into_grid_map(grid_map, rng_seed),
    }
}

} // verus!
