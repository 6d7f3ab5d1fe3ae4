use vstd::prelude::*;
use crate::builders::{count_true, far_corner, lemma_count_true_bound, lemma_count_true_set};
use crate::grid::{dir_at, lemma_wall_symmetric, opposite, step, wall_at, Direction, GridMap, Pos, Wall};
use crate::removed::RemovedWalls;

verus! {

/// Cells `a` and `b` are neighbours and the wall between them is carved.
pub open spec fn passable(g: GridMap, s: Set<Wall>, a: Pos, b: Pos) -> bool {
    exists|d: Direction|
        #![trigger g.neighbour(a, d), s.contains(wall_at(a, d))]
        g.in_cells(a) && g.neighbour(a, d) == Some(b) && s.contains(wall_at(a, d))
}

/// `m` holds the length of a shortest passage walk from `source` to each cell
/// that `source` reaches, and no other cell: the source is at 0 and is the only
/// cell there, every other cell has a passable neighbour one step closer, and
/// no passage leads from a cell to one more than a step further.
pub open spec fn is_distance_map(g: GridMap, s: Set<Wall>, source: Pos, m: Map<Pos, int>) -> bool {
    &&& m.contains_key(source)
    &&& m[source] == 0
    &&& forall|p: Pos|
        #[trigger] m.contains_key(p) ==> g.in_cells(p) && 0 <= m[p] && (m[p] == 0 ==> p == source)
    &&& forall|p: Pos|
        #[trigger] m.contains_key(p) && m[p] > 0 ==> exists|q: Pos|
            #![trigger m.contains_key(q)]
            passable(g, s, p, q) && m.contains_key(q) && m[q] == m[p] - 1
    &&& forall|p: Pos, q: Pos|
        #[trigger] m.contains_key(p) && #[trigger] passable(g, s, p, q) ==> m.contains_key(q)
            && m[q] <= m[p] + 1
}

/// Hop counts from one cell; a cell that the source cannot reach has none.
pub struct DijkstraMap {
    grid: GridMap,
    dist: Vec<Option<i32>>,
}

pub open spec fn known(s: Seq<Option<i32>>) -> Seq<bool> {
    s.map_values(|o: Option<i32>| o.is_some())
}

impl View for DijkstraMap {
    type V = Map<Pos, int>;

    closed spec fn view(&self) -> Map<Pos, int> {
        Map::new(
            |p: Pos| self.grid.in_cells(p) && self.dist@[self.grid.cell_index_of(p)].is_some(),
            |p: Pos| self.dist@[self.grid.cell_index_of(p)].unwrap() as int,
        )
    }
}

impl DijkstraMap {
    pub closed spec fn wf(&self) -> bool {
        self.grid.wf() && self.grid.cols() > 0 && self.dist@.len() == self.grid.cell_count_spec()
    }

    pub closed spec fn grid_spec(&self) -> GridMap {
        self.grid
    }

    /// Every key of the map is a cell of its grid.
    pub proof fn lemma_keys_in_grid(&self)
        requires
            self.wf(),
        ensures
            forall|p: Pos| #[trigger] self@.contains_key(p) ==> self.grid_spec().in_cells(p),
    {
    }

    /// Hop count of `cell_pos`, if the source reaches it.
    pub fn get(&self, cell_pos: Pos) -> (r: Option<i32>)
        requires
            self.wf(),
        ensures
            r.is_some() == self@.contains_key(cell_pos),
            r.is_some() ==> r.unwrap() == self@[cell_pos],
    {
        proof {
            self.grid.lemma_cell_bijection();
        }
        match self.grid.cell_pos_to_index(cell_pos) {
            Some(i) => self.dist[i as usize],
            None => None,
        }
    }
}

/// Every direction, in the order neighbours are tried.
fn all_directions() -> (r: [Direction; 4])
    ensures
        r@ == seq![Direction::North, Direction::East, Direction::South, Direction::West],
{
    [Direction::North, Direction::East, Direction::South, Direction::West]
}

/// Entry of the table for cell `p`.
spec fn at(g: GridMap, t: Seq<Option<i32>>, p: Pos) -> Option<i32> {
    t[g.cell_index_of(p)]
}

/// Recorded hop counts lie in `[0, bound]`; only the source is at 0, and every
/// other recorded cell has a passable neighbour recorded one lower.
spec fn table_ok(g: GridMap, s: Set<Wall>, source: Pos, t: Seq<Option<i32>>, bound: int) -> bool {
    &&& g.wf()
    &&& g.cols() > 0
    &&& t.len() == g.cell_count_spec()
    &&& g.in_cells(source)
    &&& at(g, t, source) == Some(0i32)
    &&& forall|p: Pos|
        g.in_cells(p) && #[trigger] at(g, t, p).is_some() ==> 0 <= at(g, t, p).unwrap() <= bound
            && (at(g, t, p).unwrap() == 0 ==> p == source)
    &&& forall|p: Pos|
        g.in_cells(p) && #[trigger] at(g, t, p).is_some() && at(g, t, p).unwrap() > 0
            ==> exists|q: Pos|
            #![trigger at(g, t, q)]
            passable(g, s, p, q) && at(g, t, q) == Some((at(g, t, p).unwrap() - 1) as i32)
}

/// Every passage out of a cell recorded below `lim` leads to a cell recorded
/// at most one higher.
spec fn closed_below(g: GridMap, s: Set<Wall>, t: Seq<Option<i32>>, lim: int) -> bool {
    forall|p: Pos, q: Pos|
        g.in_cells(p) && #[trigger] at(g, t, p).is_some() && at(g, t, p).unwrap() < lim
            && #[trigger] passable(g, s, p, q) ==> at(g, t, q).is_some() && at(g, t, q).unwrap()
            <= at(g, t, p).unwrap() + 1
}

/// `cells` holds exactly the cells recorded at `lvl`.
spec fn layer(g: GridMap, t: Seq<Option<i32>>, cells: Seq<Pos>, lvl: int) -> bool {
    &&& forall|k: int|
        0 <= k < cells.len() ==> g.in_cells(#[trigger] cells[k]) && at(g, t, cells[k]) == Some(
            lvl as i32,
        )
    &&& forall|p: Pos| g.in_cells(p) && #[trigger] at(g, t, p) == Some(lvl as i32) ==> cells.contains(p)
}

/// Entries once recorded stay as they were.
spec fn kept(a: Seq<Option<i32>>, b: Seq<Option<i32>>) -> bool {
    a.len() == b.len() && forall|i: int| 0 <= i < a.len() && #[trigger] a[i].is_some() ==> b[i] == a[i]
}

proof fn lemma_passable_cells(g: GridMap, s: Set<Wall>, p: Pos, q: Pos)
    requires
        g.wf(),
        passable(g, s, p, q),
    ensures
        g.in_cells(p),
        g.in_cells(q),
{
    g.lemma_counts_fit();
    let d = choose|d: Direction|
        #![trigger g.neighbour(p, d), s.contains(wall_at(p, d))]
        g.in_cells(p) && g.neighbour(p, d) == Some(q) && s.contains(wall_at(p, d));
}

proof fn lemma_passable_back(g: GridMap, s: Set<Wall>, f: Pos, d: Direction)
    requires
        g.wf(),
        g.in_cells(f),
        g.neighbour(f, d).is_some(),
        s.contains(wall_at(f, d)),
    ensures
        passable(g, s, f, step(f, d)),
        passable(g, s, step(f, d), f),
        g.in_cells(step(f, d)),
{
    g.lemma_counts_fit();
    lemma_wall_symmetric(f, d);
    let n = step(f, d);
    assert(g.neighbour(n, opposite(d)) == Some(f));
    assert(s.contains(wall_at(n, opposite(d))));
}

/// Records, one above `f`'s own, every passable neighbour of `f` not yet
/// recorded, and adds them to `next`.
fn expand(
    grid_map: &GridMap,
    removed: &RemovedWalls,
    dist: &mut Vec<Option<i32>>,
    next: &mut Vec<Pos>,
    recorded: &mut i32,
    f: Pos,
    level: i32,
    Ghost(source): Ghost<Pos>,
)
    requires
        removed.wf(),
        table_ok(*grid_map, removed@, source, old(dist)@, level + 1),
        0 <= level < grid_map.cell_count_spec(),
        grid_map.in_cells(f),
        at(*grid_map, old(dist)@, f) == Some(level),
        layer(*grid_map, old(dist)@, old(next)@, level + 1),
        *old(recorded) == count_true(known(old(dist)@)),
    ensures
        table_ok(*grid_map, removed@, source, final(dist)@, level + 1),
        kept(old(dist)@, final(dist)@),
        forall|i: int|
            0 <= i < old(dist)@.len() && old(dist)@[i].is_none() && #[trigger] final(dist)@[i].is_some()
                ==> final(dist)@[i] == Some((level + 1) as i32),
        layer(*grid_map, final(dist)@, final(next)@, level + 1),
        *final(recorded) == count_true(known(final(dist)@)),
        *final(recorded) - *old(recorded) == final(next)@.len() - old(next)@.len(),
        forall|q: Pos|
            #[trigger] passable(*grid_map, removed@, f, q) ==> at(*grid_map, final(dist)@, q).is_some()
                && at(*grid_map, final(dist)@, q).unwrap() <= level + 1,
{
    let ghost g = *grid_map;
    let ghost s = removed@;
    let dirs = all_directions();
    let mut k: usize = 0;
    proof {
        g.lemma_cell_bijection();
        g.lemma_counts_fit();
    }
    while k < 4
        invariant
            g == *grid_map,
            s == removed@,
            removed.wf(),
            dirs@ == seq![Direction::North, Direction::East, Direction::South, Direction::West],
            0 <= k <= 4,
            table_ok(g, s, source, dist@, level + 1),
            kept(old(dist)@, dist@),
            forall|i: int|
                0 <= i < old(dist)@.len() && old(dist)@[i].is_none() && #[trigger] dist@[i].is_some()
                    ==> dist@[i] == Some((level + 1) as i32),
            0 <= level < g.cell_count_spec(),
            g.in_cells(f),
            at(g, dist@, f) == Some(level),
            layer(g, dist@, next@, level + 1),
            *recorded == count_true(known(dist@)),
            *recorded - *old(recorded) == next@.len() - old(next)@.len(),
            forall|j: int|
                0 <= j < k ==> #[trigger] g.neighbour(f, dirs@[j]).is_some() && s.contains(
                    wall_at(f, dirs@[j]),
                ) ==> at(g, dist@, step(f, dirs@[j])).is_some() && at(
                    g,
                    dist@,
                    step(f, dirs@[j]),
                ).unwrap() <= level + 1,
        decreases 4 - k,
    {
        let d = dirs[k];
        let ghost before = dist@;
        let ghost next_before = next@;
        if let Some(n) = grid_map.neighbour_from_cell_pos(f, d) {
            let w = grid_map.inner_wall_from_cell_pos(f, d).unwrap();
            if removed.contains(&w) {
                proof {
                    g.lemma_cell_bijection();
                    lemma_passable_back(g, s, f, d);
                }
                let ni = grid_map.cell_pos_to_index(n).unwrap();
                if dist[ni as usize].is_none() {
                    proof {
                        g.lemma_counts_fit();
                        lemma_count_true_set(known(before), ni as int);
                        assert(known(before).update(ni as int, true) =~= known(
                            before.update(ni as int, Some((level + 1) as i32)),
                        ));
                        lemma_count_true_bound(known(before.update(ni as int, Some((level + 1) as i32))));
                    }
                    dist.set(ni as usize, Some(level + 1));
                    next.push(n);
                    *recorded = *recorded + 1;
                    proof {
                        assert(dist@ == before.update(ni as int, Some((level + 1) as i32)));
                        assert(at(g, dist@, n) == Some((level + 1) as i32));
                        assert forall|p: Pos|
                            g.in_cells(p) && #[trigger] at(g, dist@, p).is_some() implies 0 <= at(
                                g,
                                dist@,
                                p,
                            ).unwrap() <= level + 1 && (at(g, dist@, p).unwrap() == 0 ==> p
                                == source) by {
                            if p != n {
                                assert(g.cell_at(g.cell_index_of(p)) == p);
                                assert(at(g, before, p) == at(g, dist@, p));
                            }
                        }
                        assert(at(g, dist@, source) == Some(0i32)) by {
                            assert(g.cell_at(g.cell_index_of(source)) == source);
                        }
                        assert forall|p: Pos|
                            g.in_cells(p) && #[trigger] at(g, dist@, p).is_some() && at(
                                g,
                                dist@,
                                p,
                            ).unwrap() > 0 implies exists|q: Pos|
                            #![trigger at(g, dist@, q)]
                            passable(g, s, p, q) && at(g, dist@, q) == Some(
                                (at(g, dist@, p).unwrap() - 1) as i32,
                            ) by {
                            if p == n {
                                assert(passable(g, s, n, f) && at(g, dist@, f) == Some(level));
                            } else {
                                assert(g.cell_at(g.cell_index_of(p)) == p);
                                assert(at(g, before, p) == at(g, dist@, p));
                                let q = choose|q: Pos|
                                    #![trigger at(g, before, q)]
                                    passable(g, s, p, q) && at(g, before, q) == Some(
                                        (at(g, before, p).unwrap() - 1) as i32,
                                    );
                                lemma_passable_cells(g, s, p, q);
                                assert(g.cell_at(g.cell_index_of(q)) == q);
                                assert(at(g, dist@, q) == at(g, before, q));
                            }
                        }
                        assert forall|p: Pos|
                            g.in_cells(p) && #[trigger] at(g, dist@, p) == Some(
                                (level + 1) as i32,
                            ) implies next@.contains(p) by {
                            if p == n {
                                assert(next@[next@.len() - 1] == n);
                            } else {
                                assert(g.cell_at(g.cell_index_of(p)) == p);
                                assert(at(g, before, p) == at(g, dist@, p));
                                assert(next_before.contains(p));
                                let m = choose|m: int|
                                    0 <= m < next_before.len() && next_before[m] == p;
                                assert(next@[m] == p);
                            }
                        }
                    }
                }
            }
        }
        k = k + 1;
    }
    proof {
        assert forall|q: Pos| #[trigger] passable(g, s, f, q) implies at(g, dist@, q).is_some() && at(
            g,
            dist@,
            q,
        ).unwrap() <= level + 1 by {
            let d = choose|d: Direction|
                #![trigger g.neighbour(f, d), s.contains(wall_at(f, d))]
                g.in_cells(f) && g.neighbour(f, d) == Some(q) && s.contains(wall_at(f, d));
            let j: int = match d {
                Direction::North => 0,
                Direction::East => 1,
                Direction::South => 2,
                Direction::West => 3,
            };
            assert(dirs@[j] == d);
            assert(g.neighbour(f, dirs@[j]).is_some());
        }
    }
}

proof fn lemma_distance_map_of_table(g: GridMap, s: Set<Wall>, source: Pos, m: DijkstraMap)
    requires
        m.grid == g,
        table_ok(g, s, source, m.dist@, i32::MAX as int),
        closed_below(g, s, m.dist@, i32::MAX as int + 1),
    ensures
        m.wf(),
        is_distance_map(g, s, source, m@),
{
    g.lemma_cell_bijection();
    let t = m.dist@;
    assert(m@.contains_key(source));
    assert forall|p: Pos| #[trigger] m@.contains_key(p) implies g.in_cells(p) && 0 <= m@[p] && (
    m@[p] == 0 ==> p == source) by {
        assert(at(g, t, p).is_some());
    }
    assert forall|p: Pos| #[trigger] m@.contains_key(p) && m@[p] > 0 implies exists|q: Pos|
        #![trigger m@.contains_key(q)]
        passable(g, s, p, q) && m@.contains_key(q) && m@[q] == m@[p] - 1 by {
        let q = choose|q: Pos|
            #![trigger at(g, t, q)]
            passable(g, s, p, q) && at(g, t, q) == Some((at(g, t, p).unwrap() - 1) as i32);
        lemma_passable_cells(g, s, p, q);
        assert(m@.contains_key(q));
    }
    assert forall|p: Pos, q: Pos|
        #[trigger] m@.contains_key(p) && #[trigger] passable(g, s, p, q) implies m@.contains_key(q)
        && m@[q] <= m@[p] + 1 by {
        lemma_passable_cells(g, s, p, q);
        assert(at(g, t, p).is_some());
    }
}

/// Breadth-first hop counts from `from` over the carved passages: level 0 is
/// `from` alone, and each next level holds the not yet recorded cells reached
/// through one passage from the level before.
pub fn dijkstra(from: Pos, grid_map: &GridMap, removed_walls: &RemovedWalls) -> (r: DijkstraMap)
    requires
        grid_map.wf(),
        grid_map.in_cells(from),
        removed_walls.wf(),
    ensures
        r.wf(),
        r.grid_spec() == *grid_map,
        is_distance_map(*grid_map, removed_walls@, from, r@),
{
    let ghost g = *grid_map;
    let ghost s = removed_walls@;
    proof {
        g.lemma_counts_fit();
        assert(g.cols() > 0);
        g.lemma_cell_bijection();
    }
    let count = grid_map.get_cell_count();
    let mut dist: Vec<Option<i32>> = Vec::new();
    let mut i: i32 = 0;
    while i < count
        invariant
            0 <= i <= count,
            dist@.len() == i,
            forall|j: int| 0 <= j < i ==> (#[trigger] dist@[j]).is_none(),
        decreases count - i,
    {
        dist.push(None);
        i = i + 1;
    }
    let si = grid_map.cell_pos_to_index(from).unwrap();
    let ghost empty = dist@;
    proof {
        assert(known(empty) =~= Seq::new(empty.len(), |j: int| false));
        crate::builders::lemma_count_true_zero(known(empty));
        lemma_count_true_set(known(empty), si as int);
        assert(known(empty).update(si as int, true) =~= known(empty.update(si as int, Some(0i32))));
    }
    dist.set(si as usize, Some(0));
    let mut recorded: i32 = 1;
    let mut frontier: Vec<Pos> = vec![from];
    let mut level: i32 = 0;
    proof {
        assert forall|p: Pos| g.in_cells(p) && #[trigger] at(g, dist@, p).is_some() implies p == from
            && at(g, dist@, p) == Some(0i32) by {
            assert(g.cell_at(g.cell_index_of(p)) == p);
        }
        assert forall|p: Pos| g.in_cells(p) && #[trigger] at(g, dist@, p) == Some(0i32) implies frontier@.contains(
            p,
        ) by {
            assert(frontier@[0] == from);
        }
    }
    while frontier.len() > 0
        invariant
            g == *grid_map,
            s == removed_walls@,
            removed_walls.wf(),
            count == g.cell_count_spec(),
            0 <= level,
            table_ok(g, s, from, dist@, level as int),
            closed_below(g, s, dist@, level as int),
            layer(g, dist@, frontier@, level as int),
            recorded == count_true(known(dist@)),
            recorded <= count,
            frontier@.len() > 0 ==> level < recorded,
        decreases count - recorded + if frontier@.len() > 0 {
            1int
        } else {
            0int
        },
    {
        let mut next: Vec<Pos> = Vec::new();
        let ghost rec0 = recorded;
        let ghost dist0 = dist@;
        let mut fi: usize = 0;
        proof {
            assert forall|p: Pos|
                g.in_cells(p) && #[trigger] at(g, dist@, p) == Some((level + 1) as i32) implies next@.contains(
                p,
            ) by {
                assert(at(g, dist@, p).is_some());
            }
        }
        while fi < frontier.len()
            invariant
                g == *grid_map,
                s == removed_walls@,
                removed_walls.wf(),
                count == g.cell_count_spec(),
                0 <= level < rec0,
                rec0 <= count,
                0 <= fi <= frontier@.len(),
                table_ok(g, s, from, dist@, level + 1),
                kept(dist0, dist@),
                forall|i: int|
                    0 <= i < dist0.len() && dist0[i].is_none() && #[trigger] dist@[i].is_some()
                        ==> dist@[i] == Some((level + 1) as i32),
                closed_below(g, s, dist0, level as int),
                layer(g, dist0, frontier@, level as int),
                layer(g, dist@, next@, level + 1),
                recorded == count_true(known(dist@)),
                recorded - rec0 == next@.len(),
                forall|k: int, q: Pos|
                    0 <= k < fi && #[trigger] passable(g, s, frontier@[k], q) ==> at(
                        g,
                        dist@,
                        q,
                    ).is_some() && at(g, dist@, q).unwrap() <= level + 1,
            decreases frontier@.len() - fi,
        {
            let f = frontier[fi];
            proof {
                g.lemma_cell_bijection();
                assert(g.in_cells(f) && at(g, dist0, f) == Some(level));
                assert(0 <= g.cell_index_of(f) < dist0.len());
                assert(dist0[g.cell_index_of(f)].is_some());
                assert(at(g, dist@, f) == at(g, dist0, f));
            }
            let ghost before = dist@;
            expand(grid_map, removed_walls, &mut dist, &mut next, &mut recorded, f, level, Ghost(from));
            proof {
                assert forall|k: int, q: Pos|
                    0 <= k < fi + 1 && #[trigger] passable(g, s, frontier@[k], q) implies at(
                    g,
                    dist@,
                    q,
                ).is_some() && at(g, dist@, q).unwrap() <= level + 1 by {
                    if k < fi {
                        lemma_passable_cells(g, s, frontier@[k], q);
                        assert(g.cell_at(g.cell_index_of(q)) == q);
                        assert(at(g, before, q).is_some());
                    }
                }
                lemma_count_true_bound(known(dist@));
            }
            fi = fi + 1;
        }
        proof {
            g.lemma_cell_bijection();
            assert forall|p: Pos, q: Pos|
                g.in_cells(p) && #[trigger] at(g, dist@, p).is_some() && at(g, dist@, p).unwrap()
                    < level + 1 && #[trigger] passable(g, s, p, q) implies at(
                g,
                dist@,
                q,
            ).is_some() && at(g, dist@, q).unwrap() <= at(g, dist@, p).unwrap() + 1 by {
                lemma_passable_cells(g, s, p, q);
                assert(g.cell_at(g.cell_index_of(q)) == q);
                if at(g, dist0, p).is_some() {
                    if at(g, dist0, p).unwrap() < level {
                        assert(at(g, dist0, q).is_some());
                    } else {
                        assert(frontier@.contains(p));
                        let k = choose|k: int| 0 <= k < frontier@.len() && frontier@[k] == p;
                        assert(passable(g, s, frontier@[k], q));
                    }
                }
            }
            lemma_count_true_bound(known(dist@));
        }
        frontier = next;
        level = level + 1;
    }
    proof {
        assert forall|p: Pos| g.in_cells(p) && #[trigger] at(g, dist@, p).is_some() implies at(
            g,
            dist@,
            p,
        ).unwrap() < level by {
            if at(g, dist@, p).unwrap() == level {
                assert(frontier@.contains(p));
            }
        }
        assert(closed_below(g, s, dist@, i32::MAX as int + 1));
    }
    let r = DijkstraMap { grid: *grid_map, dist };
    proof {
        lemma_distance_map_of_table(g, s, from, r);
    }
    r
}

/// Passages can be walked both ways.
pub proof fn lemma_passable_symmetric(g: GridMap, s: Set<Wall>, a: Pos, b: Pos)
    requires
        g.wf(),
        passable(g, s, a, b),
    ensures
        passable(g, s, b, a),
{
    let d = choose|d: Direction|
        #![trigger g.neighbour(a, d), s.contains(wall_at(a, d))]
        g.in_cells(a) && g.neighbour(a, d) == Some(b) && s.contains(wall_at(a, d));
    lemma_passable_back(g, s, a, d);
}

/// `c` holds the greatest value of `m`, and every cell of lower row-major
/// index holds less.
pub open spec fn is_farthest(g: GridMap, m: Map<Pos, int>, c: Pos) -> bool {
    &&& m.contains_key(c)
    &&& forall|p: Pos| #[trigger] m.contains_key(p) ==> m[p] <= m[c]
    &&& forall|p: Pos|
        #[trigger] m.contains_key(p) && g.cell_index_of(p) < g.cell_index_of(c) ==> m[p] < m[c]
}

proof fn lemma_distance_map_below(
    g: GridMap,
    s: Set<Wall>,
    source: Pos,
    m1: Map<Pos, int>,
    m2: Map<Pos, int>,
    p: Pos,
)
    requires
        g.wf(),
        is_distance_map(g, s, source, m1),
        is_distance_map(g, s, source, m2),
        m2.contains_key(p),
    ensures
        m1.contains_key(p),
        m1[p] <= m2[p],
    decreases m2[p],
{
    if m2[p] > 0 {
        let q = choose|q: Pos|
            #![trigger m2.contains_key(q)]
            passable(g, s, p, q) && m2.contains_key(q) && m2[q] == m2[p] - 1;
        lemma_distance_map_below(g, s, source, m1, m2, q);
        lemma_passable_symmetric(g, s, p, q);
        assert(m1.contains_key(q) && passable(g, s, q, p));
    }
}

/// The hop counts from a source are determined by the maze: two maps that
/// both are distance maps from `source` are equal, and so is the farthest
/// cell each names.
pub proof fn lemma_sweep_unique(
    g: GridMap,
    s: Set<Wall>,
    source: Pos,
    m1: Map<Pos, int>,
    m2: Map<Pos, int>,
    c1: Pos,
    c2: Pos,
)
    requires
        g.wf(),
        is_distance_map(g, s, source, m1),
        is_distance_map(g, s, source, m2),
        is_farthest(g, m1, c1),
        is_farthest(g, m2, c2),
    ensures
        m1 == m2,
        c1 == c2,
{
    assert forall|p: Pos| #[trigger] m2.contains_key(p) implies m1.contains_key(p) && m1[p] == m2[p] by {
        lemma_distance_map_below(g, s, source, m1, m2, p);
        lemma_distance_map_below(g, s, source, m2, m1, p);
    }
    assert forall|p: Pos| #[trigger] m1.contains_key(p) implies m2.contains_key(p) by {
        lemma_distance_map_below(g, s, source, m2, m1, p);
    }
    assert(m1 =~= m2);
    lemma_farthest_unique(g, m1, c1, c2);
}

/// In a map whose keys are cells, one cell is the farthest: the tie-break by
/// row-major index leaves no choice, whatever order the map was filled in.
pub proof fn lemma_farthest_unique(g: GridMap, m: Map<Pos, int>, c1: Pos, c2: Pos)
    requires
        g.wf(),
        forall|p: Pos| #[trigger] m.contains_key(p) ==> g.in_cells(p),
        is_farthest(g, m, c1),
        is_farthest(g, m, c2),
    ensures
        c1 == c2,
{
    assert(g.in_cells(c1) && g.in_cells(c2));
    g.lemma_counts_fit();
    g.lemma_cell_bijection();
    if g.cell_index_of(c1) < g.cell_index_of(c2) {
        assert(m[c1] < m[c2]);
    } else if g.cell_index_of(c2) < g.cell_index_of(c1) {
        assert(m[c2] < m[c1]);
    } else {
        assert(g.cell_at(g.cell_index_of(c1)) == c1);
        assert(g.cell_at(g.cell_index_of(c2)) == c2);
    }
}

/// `q` is the first traversable neighbour of `p`, in North, East, South, West
/// order, whose hop count in `m` is below `d`.
pub open spec fn first_closer(g: GridMap, s: Set<Wall>, m: Map<Pos, int>, p: Pos, d: int, q: Pos) -> bool {
    exists|i: int|
        0 <= i < traversable_upto(g, s, p, 4).len() && #[trigger] traversable_upto(g, s, p, 4)[i] == q
            && m.contains_key(q) && m[q] < d && forall|j: int|
            0 <= j < i ==> !(m.contains_key(traversable_upto(g, s, p, 4)[j]) && m[traversable_upto(
                g,
                s,
                p,
                4,
            )[j]] < d)
}

/// The first closer neighbour is one cell.
pub proof fn lemma_first_closer_unique(
    g: GridMap,
    s: Set<Wall>,
    m: Map<Pos, int>,
    p: Pos,
    d: int,
    q1: Pos,
    q2: Pos,
)
    requires
        first_closer(g, s, m, p, d, q1),
        first_closer(g, s, m, p, d, q2),
    ensures
        q1 == q2,
{
    let l = traversable_upto(g, s, p, 4);
    let i1 = choose|i: int|
        0 <= i < l.len() && #[trigger] l[i] == q1 && m.contains_key(q1) && m[q1] < d && forall|j: int|
            0 <= j < i ==> !(m.contains_key(l[j]) && m[l[j]] < d);
    let i2 = choose|i: int|
        0 <= i < l.len() && #[trigger] l[i] == q2 && m.contains_key(q2) && m[q2] < d && forall|j: int|
            0 <= j < i ==> !(m.contains_key(l[j]) && m[l[j]] < d);
    if i1 < i2 {
        assert(m.contains_key(l[i1]) && m[l[i1]] < d);
    } else if i2 < i1 {
        assert(m.contains_key(l[i2]) && m[l[i2]] < d);
    }
}

/// The cell of greatest hop count, the one of lowest row-major index among
/// several; `(0, 0)` at distance 0 for an empty map.
pub fn get_most_distant(distance_map: &DijkstraMap) -> (r: (Pos, i32))
    requires
        distance_map.wf(),
    ensures
        (forall|p: Pos| !#[trigger] distance_map@.contains_key(p)) ==> r == (Pos { x: 0, y: 0 }, 0i32),
        (exists|p: Pos| #[trigger] distance_map@.contains_key(p)) ==> is_farthest(
            distance_map.grid_spec(),
            distance_map@,
            r.0,
        ),
        (exists|p: Pos| #[trigger] distance_map@.contains_key(p)) ==> {
            &&& distance_map@.contains_key(r.0)
            &&& distance_map@[r.0] == r.1
            &&& forall|p: Pos| #[trigger]
                distance_map@.contains_key(p) ==> distance_map@[p] <= r.1
            &&& forall|p: Pos|
                #[trigger] distance_map@.contains_key(p) && distance_map.grid_spec().cell_index_of(p)
                    < distance_map.grid_spec().cell_index_of(r.0) ==> distance_map@[p] < r.1
        },
{
    let g = &distance_map.grid;
    proof {
        g.lemma_cell_bijection();
        g.lemma_counts_fit();
    }
    let count = g.get_cell_count();
    let mut best: Option<(Pos, i32)> = None;
    let mut i: i32 = 0;
    while i < count
        invariant
            *g == distance_map.grid,
            distance_map.wf(),
            count == g.cell_count_spec(),
            0 <= i <= count,
            best.is_none() ==> forall|j: int| 0 <= j < i ==> (#[trigger] distance_map.dist@[j]).is_none(),
            best.is_some() ==> {
                let (bp, bv) = best.unwrap();
                &&& distance_map@.contains_key(bp)
                &&& distance_map@[bp] == bv
                &&& g.cell_index_of(bp) < i
                &&& forall|j: int|
                    0 <= j < i && (#[trigger] distance_map.dist@[j]).is_some() ==> distance_map.dist@[j].unwrap() <= bv
                &&& forall|j: int|
                    0 <= j < g.cell_index_of(bp) && (#[trigger] distance_map.dist@[j]).is_some()
                        ==> distance_map.dist@[j].unwrap() < bv
            },
        decreases count - i,
    {
        if let Some(v) = distance_map.dist[i as usize] {
            let p = g.index_to_cell_pos(i).unwrap();
            let better = match best {
                None => true,
                Some((_, bv)) => v > bv,
            };
            if better {
                best = Some((p, v));
            }
        }
        i = i + 1;
    }
    match best {
        Some(b) => {
            proof {
                assert forall|p: Pos| #[trigger] distance_map@.contains_key(p) implies distance_map@[p]
                    <= b.1 by {
                    assert(distance_map.dist@[g.cell_index_of(p)].is_some());
                }
            }
            b
        },
        None => {
            proof {
                assert forall|p: Pos| !#[trigger] distance_map@.contains_key(p) by {
                    if distance_map@.contains_key(p) {
                        assert(distance_map.dist@[g.cell_index_of(p)].is_some());
                    }
                }
            }
            (Pos { x: 0, y: 0 }, 0)
        },
    }
}

/// The neighbour of `p` in direction `d`, if it is on the grid and the wall
/// between them is carved.
pub open spec fn traversable_in(g: GridMap, s: Set<Wall>, p: Pos, d: Direction) -> Seq<Pos> {
    if g.inner_wall(p, d).is_some() && s.contains(wall_at(p, d)) {
        seq![step(p, d)]
    } else {
        Seq::empty()
    }
}

/// The traversable neighbours of `p` in the first `k` of North, East, South, West.
pub open spec fn traversable_upto(g: GridMap, s: Set<Wall>, p: Pos, k: int) -> Seq<Pos>
    decreases k,
{
    if k <= 0 {
        Seq::empty()
    } else {
        traversable_upto(g, s, p, k - 1) + traversable_in(g, s, p, dir_at(k - 1))
    }
}

/// The neighbours of `from` that a carved passage leads to, in the order
/// North, East, South, West.
pub fn get_traversable_neighbours(from: Pos, grid_map: &GridMap, removed_walls: &RemovedWalls) -> (r:
    Vec<Pos>)
    requires
        grid_map.wf(),
        removed_walls.wf(),
    ensures
        r@ == traversable_upto(*grid_map, removed_walls@, from, 4),
        forall|k: int| 0 <= k < r@.len() ==> passable(*grid_map, removed_walls@, from, #[trigger] r@[k]),
        forall|q: Pos| #[trigger] passable(*grid_map, removed_walls@, from, q) ==> r@.contains(q),
{
    let ghost g = *grid_map;
    let ghost s = removed_walls@;
    let dirs = all_directions();
    let mut out: Vec<Pos> = Vec::new();
    let mut k: usize = 0;
    while k < 4
        invariant
            g == *grid_map,
            s == removed_walls@,
            grid_map.wf(),
            removed_walls.wf(),
            dirs@ == seq![Direction::North, Direction::East, Direction::South, Direction::West],
            0 <= k <= 4,
            out@ == traversable_upto(g, s, from, k as int),
            forall|j: int| 0 <= j < out@.len() ==> passable(g, s, from, #[trigger] out@[j]),
            forall|j: int|
                0 <= j < k && g.in_cells(from) && #[trigger] g.neighbour(from, dirs@[j]).is_some()
                    && s.contains(wall_at(from, dirs@[j])) ==> out@.contains(step(from, dirs@[j])),
        decreases 4 - k,
    {
        let d = dirs[k];
        assert(d == dir_at(k as int));
        let ghost before0 = out@;
        if let Some(n) = grid_map.neighbour_from_cell_pos(from, d) {
            if let Some(w) = grid_map.inner_wall_from_cell_pos(from, d) {
                if removed_walls.contains(&w) {
                    let ghost before = out@;
                    out.push(n);
                    proof {
                        assert(passable(g, s, from, n));
                        assert forall|j: int|
                            0 <= j < k + 1 && g.in_cells(from) && #[trigger] g.neighbour(
                                from,
                                dirs@[j],
                            ).is_some() && s.contains(wall_at(from, dirs@[j])) implies out@.contains(
                            step(from, dirs@[j]),
                        ) by {
                            if j < k {
                                let m = choose|m: int|
                                    0 <= m < before.len() && before[m] == step(from, dirs@[j]);
                                assert(out@[m] == before[m]);
                            } else {
                                assert(out@[before.len() as int] == n);
                            }
                        }
                    }
                }
            }
        }
        assert(out@ =~= before0 + traversable_in(g, s, from, d));
        k = k + 1;
    }
    proof {
        assert forall|q: Pos| #[trigger] passable(g, s, from, q) implies out@.contains(q) by {
            let d = choose|d: Direction|
                #![trigger g.neighbour(from, d), s.contains(wall_at(from, d))]
                g.in_cells(from) && g.neighbour(from, d) == Some(q) && s.contains(wall_at(from, d));
            let j: int = match d {
                Direction::North => 0,
                Direction::East => 1,
                Direction::South => 2,
                Direction::West => 3,
            };
            assert(dirs@[j] == d);
            assert(g.neighbour(from, dirs@[j]).is_some());
        }
    }
    out
}

/// The first traversable neighbour of `current` whose hop count is below
/// `current_distance`.
fn closer_neighbour(
    current: Pos,
    current_distance: i32,
    distances: &DijkstraMap,
    grid_map: &GridMap,
    removed_walls: &RemovedWalls,
) -> (r: Option<Pos>)
    requires
        grid_map.wf(),
        removed_walls.wf(),
        distances.wf(),
        distances.grid_spec() == *grid_map,
    ensures
        r.is_some() ==> passable(*grid_map, removed_walls@, current, r.unwrap())
            && distances@.contains_key(r.unwrap()) && distances@[r.unwrap()] < current_distance
            && first_closer(
            *grid_map,
            removed_walls@,
            distances@,
            current,
            current_distance as int,
            r.unwrap(),
        ),
        r.is_none() ==> forall|q: Pos|
            #[trigger] passable(*grid_map, removed_walls@, current, q) && distances@.contains_key(q)
                ==> distances@[q] >= current_distance,
{
    let neighbours = get_traversable_neighbours(current, grid_map, removed_walls);
    let mut k: usize = 0;
    while k < neighbours.len()
        invariant
            distances.wf(),
            0 <= k <= neighbours@.len(),
            neighbours@ == traversable_upto(*grid_map, removed_walls@, current, 4),
            forall|j: int|
                0 <= j < neighbours@.len() ==> passable(
                    *grid_map,
                    removed_walls@,
                    current,
                    #[trigger] neighbours@[j],
                ),
            forall|j: int|
                0 <= j < k && distances@.contains_key(#[trigger] neighbours@[j]) ==> distances@[neighbours@[j]]
                    >= current_distance,
        decreases neighbours@.len() - k,
    {
        if let Some(nd) = distances.get(neighbours[k]) {
            if nd < current_distance {
                proof {
                    let l = traversable_upto(*grid_map, removed_walls@, current, 4);
                    assert(l == neighbours@);
                    assert(l[k as int] == neighbours@[k as int]);
                }
                return Some(neighbours[k]);
            }
        }
        k = k + 1;
    }
    proof {
        assert forall|q: Pos|
            #[trigger] passable(*grid_map, removed_walls@, current, q) && distances@.contains_key(q)
                implies distances@[q] >= current_distance by {
            let j = choose|j: int| 0 <= j < neighbours@.len() && neighbours@[j] == q;
            assert(distances@.contains_key(neighbours@[j]));
        }
    }
    None
}

/// `path` starts at `to`, its `i`-th cell is `i` below `to` in `m`, and each
/// step goes to the first closer traversable neighbour.
#[verifier::opaque]
spec fn path_ok(g: GridMap, s: Set<Wall>, m: Map<Pos, int>, to: Pos, path: Seq<Pos>) -> bool {
    &&& path.len() >= 1
    &&& path[0] == to
    &&& forall|i: int|
        0 <= i < path.len() ==> m.contains_key(#[trigger] path[i]) && m[path[i]] == m[to] - i
    &&& forall|i: int| 0 <= i < path.len() - 1 ==> passable(g, s, #[trigger] path[i], path[i + 1])
    &&& forall|i: int|
        0 <= i < path.len() - 1 ==> first_closer(g, s, m, #[trigger] path[i], m[path[i]], path[i + 1])
}

proof fn lemma_path_push(g: GridMap, s: Set<Wall>, m: Map<Pos, int>, to: Pos, path: Seq<Pos>, n: Pos)
    requires
        path_ok(g, s, m, to, path),
        passable(g, s, path.last(), n),
        m.contains_key(n),
        m[n] == m[path.last()] - 1,
        first_closer(g, s, m, path.last(), m[path.last()], n),
    ensures
        path_ok(g, s, m, to, path.push(n)),
        path.push(n).last() == n,
{
    reveal(path_ok);
    let p2 = path.push(n);
    assert(p2[0] == to);
    assert(m[path.last()] == m[to] - (path.len() - 1));
    assert forall|i: int| 0 <= i < p2.len() implies m.contains_key(#[trigger] p2[i]) && m[p2[i]] == m[to] - i by {
        if i < path.len() {
            assert(p2[i] == path[i]);
        }
    }
    assert forall|i: int| 0 <= i < p2.len() - 1 implies passable(g, s, #[trigger] p2[i], p2[i + 1]) by {
        if i < path.len() - 1 {
            assert(p2[i] == path[i] && p2[i + 1] == path[i + 1]);
        }
    }
    assert forall|i: int| 0 <= i < p2.len() - 1 implies first_closer(
        g,
        s,
        m,
        #[trigger] p2[i],
        m[p2[i]],
        p2[i + 1],
    ) by {
        if i < path.len() - 1 {
            assert(p2[i] == path[i] && p2[i + 1] == path[i + 1]);
        }
    }
}

#[verifier::rlimit(40)]
/// The walk from `to` back to `from`, each step to a passable neighbour with a
/// lower hop count; `r[i]` is the cell `i` steps from `to`.
pub fn get_path(
    from: Pos,
    to: Pos,
    distances: &DijkstraMap,
    grid_map: &GridMap,
    removed_walls: &RemovedWalls,
) -> (r: Vec<Pos>)
    requires
        grid_map.wf(),
        removed_walls.wf(),
        distances.wf(),
        distances.grid_spec() == *grid_map,
        is_distance_map(*grid_map, removed_walls@, from, distances@),
        distances@.contains_key(to),
    ensures
        r@.len() == distances@[to] + 1,
        r@[0] == to,
        r@.last() == from,
        forall|i: int|
            0 <= i < r@.len() ==> distances@.contains_key(#[trigger] r@[i]) && distances@[r@[i]]
                == distances@[to] - i,
        forall|i: int|
            0 <= i < r@.len() - 1 ==> passable(*grid_map, removed_walls@, #[trigger] r@[i], r@[i + 1]),
        forall|i: int|
            0 <= i < r@.len() - 1 ==> first_closer(
                *grid_map,
                removed_walls@,
                distances@,
                #[trigger] r@[i],
                distances@[r@[i]],
                r@[i + 1],
            ),
{
    let ghost g = *grid_map;
    let ghost s = removed_walls@;
    let ghost m = distances@;
    let mut current = to;
    let mut current_distance = distances.get(to).unwrap();
    let mut path: Vec<Pos> = vec![to];
    proof {
        reveal(path_ok);
    }
    while current != from
        invariant
            g == *grid_map,
            s == removed_walls@,
            m == distances@,
            grid_map.wf(),
            removed_walls.wf(),
            distances.wf(),
            distances.grid_spec() == *grid_map,
            is_distance_map(g, s, from, m),
            m.contains_key(to),
            m.contains_key(current),
            m[current] == current_distance,
            path@.len() == m[to] - current_distance + 1,
            path@.last() == current,
            path_ok(g, s, m, to, path@),
        decreases current_distance,
    {
        proof {
            assert(m[current] > 0);
        }
        let next = closer_neighbour(current, current_distance, distances, grid_map, removed_walls);
        match next {
            Some(n) => {
                proof {
                    lemma_passable_symmetric(g, s, current, n);
                    assert(m[current] <= m[n] + 1);
                }
                let ghost old_path = path@;
                proof {
                    lemma_path_push(g, s, m, to, old_path, n);
                }
                path.push(n);
                current = n;
                current_distance = current_distance - 1;
            },
            None => {
                proof {
                    let q = choose|q: Pos|
                        #![trigger m.contains_key(q)]
                        passable(g, s, current, q) && m.contains_key(q) && m[q] == m[current] - 1;
                    assert(false);
                }
            },
        }
    }
    proof {
        reveal(path_ok);
    }
    path
}

/// Where `a` reaches `b`, `b` reaches `a`: following the map from `a` down
/// from any cell that `b` reaches leads to `a` through cells that `b` reaches.
pub proof fn lemma_source_reached(
    g: GridMap,
    s: Set<Wall>,
    a: Pos,
    ma: Map<Pos, int>,
    b: Pos,
    mb: Map<Pos, int>,
    y: Pos,
)
    requires
        g.wf(),
        is_distance_map(g, s, a, ma),
        is_distance_map(g, s, b, mb),
        ma.contains_key(y),
        mb.contains_key(y),
    ensures
        mb.contains_key(a),
    decreases ma[y],
{
    if ma[y] > 0 {
        let z = choose|z: Pos|
            #![trigger ma.contains_key(z)]
            passable(g, s, y, z) && ma.contains_key(z) && ma[z] == ma[y] - 1;
        assert(mb.contains_key(z));
        lemma_source_reached(g, s, a, ma, b, mb, z);
    }
}

/// A maze's two most distant cells, found by two sweeps, and the walk between them.
pub struct Solution {
    pub start: Pos,
    pub end: Pos,
    /// `path[i]` is the cell `i` steps from `end` on the way to `start`.
    pub path: Vec<Pos>,
    /// Hop counts from `start`.
    pub distances: DijkstraMap,
    /// The greatest hop count in `distances`.
    pub farthest_distance: i32,
}

impl Solution {
    /// Steps from `end` to `cell_pos` along the path, if the path passes it.
    pub fn path_distance(&self, cell_pos: Pos) -> (r: Option<i32>)
        requires
            self.path@.len() <= i32::MAX,
        ensures
            r.is_some() == self.path@.contains(cell_pos),
            r.is_some() ==> 0 <= r.unwrap() < self.path@.len() && self.path@[r.unwrap() as int]
                == cell_pos,
    {
        let mut i: usize = 0;
        while i < self.path.len()
            invariant
                0 <= i <= self.path@.len(),
                self.path@.len() <= i32::MAX,
                forall|j: int| 0 <= j < i ==> self.path@[j] != cell_pos,
            decreases self.path@.len() - i,
        {
            if self.path[i] == cell_pos {
                return Some(i as i32);
            }
            i = i + 1;
        }
        None
    }
}

/// What characterises the solution of a maze: `end` is the farthest cell from
/// the north-east corner, `start` the farthest from `end`, `m` holds the hop
/// counts from `start`, and `path` goes from `end` to `start` by first closer
/// neighbours.
pub open spec fn is_solution(
    g: GridMap,
    s: Set<Wall>,
    start: Pos,
    end: Pos,
    m: Map<Pos, int>,
    path: Seq<Pos>,
) -> bool {
    &&& exists|mc: Map<Pos, int>| #[trigger]
        is_distance_map(g, s, far_corner(g), mc) && is_farthest(g, mc, end)
    &&& exists|me: Map<Pos, int>| #[trigger] is_distance_map(g, s, end, me) && is_farthest(g, me, start)
    &&& is_distance_map(g, s, start, m)
    &&& m.contains_key(end)
    &&& path.len() == m[end] + 1
    &&& path[0] == end
    &&& forall|i: int|
        0 <= i < path.len() - 1 ==> first_closer(g, s, m, #[trigger] path[i], m[path[i]], path[i + 1])
}

/// A maze has one solution: two solutions of the same grid and carved walls
/// agree on their end, start, hop counts and path.
pub proof fn lemma_solution_unique(
    g: GridMap,
    s: Set<Wall>,
    start1: Pos,
    end1: Pos,
    m1: Map<Pos, int>,
    path1: Seq<Pos>,
    start2: Pos,
    end2: Pos,
    m2: Map<Pos, int>,
    path2: Seq<Pos>,
)
    requires
        g.wf(),
        is_solution(g, s, start1, end1, m1, path1),
        is_solution(g, s, start2, end2, m2, path2),
    ensures
        end1 == end2,
        start1 == start2,
        m1 == m2,
        path1 == path2,
{
    let mc1 = choose|mc: Map<Pos, int>| #[trigger]
        is_distance_map(g, s, far_corner(g), mc) && is_farthest(g, mc, end1);
    let mc2 = choose|mc: Map<Pos, int>| #[trigger]
        is_distance_map(g, s, far_corner(g), mc) && is_farthest(g, mc, end2);
    lemma_sweep_unique(g, s, far_corner(g), mc1, mc2, end1, end2);
    let me1 = choose|me: Map<Pos, int>| #[trigger]
        is_distance_map(g, s, end1, me) && is_farthest(g, me, start1);
    let me2 = choose|me: Map<Pos, int>| #[trigger]
        is_distance_map(g, s, end2, me) && is_farthest(g, me, start2);
    lemma_sweep_unique(g, s, end1, me1, me2, start1, start2);
    assert forall|p: Pos| #[trigger] m2.contains_key(p) implies m1.contains_key(p) && m1[p] == m2[p] by {
        lemma_distance_map_below(g, s, start1, m1, m2, p);
        lemma_distance_map_below(g, s, start1, m2, m1, p);
    }
    assert forall|p: Pos| #[trigger] m1.contains_key(p) implies m2.contains_key(p) by {
        lemma_distance_map_below(g, s, start1, m2, m1, p);
    }
    assert(m1 =~= m2);
    lemma_paths_agree(g, s, m1, path1, path2, (path1.len() - 1) as nat);
    assert(path1 =~= path2);
}

proof fn lemma_paths_agree(g: GridMap, s: Set<Wall>, m: Map<Pos, int>, p1: Seq<Pos>, p2: Seq<Pos>, n: nat)
    requires
        p1.len() == p2.len(),
        n < p1.len(),
        p1[0] == p2[0],
        forall|i: int|
            0 <= i < p1.len() - 1 ==> first_closer(g, s, m, #[trigger] p1[i], m[p1[i]], p1[i + 1]),
        forall|i: int|
            0 <= i < p2.len() - 1 ==> first_closer(g, s, m, #[trigger] p2[i], m[p2[i]], p2[i + 1]),
    ensures
        forall|i: int| 0 <= i <= n ==> p1[i] == p2[i],
    decreases n,
{
    if n > 0 {
        lemma_paths_agree(g, s, m, p1, p2, (n - 1) as nat);
        let k = n - 1;
        assert(p1[k] == p2[k]);
        assert(first_closer(g, s, m, p1[k], m[p1[k]], p1[k + 1]));
        assert(first_closer(g, s, m, p2[k], m[p2[k]], p2[k + 1]));
        lemma_first_closer_unique(g, s, m, p1[k], m[p1[k]], p1[k + 1], p2[k + 1]);
    }
}

/// Two sweeps from the north-east cell find a most distant pair: the cell
/// farthest from it is `end`, the cell farthest from `end` is `start`; the
/// solution holds the hop counts from `start` and the walk from `end` to `start`.
pub fn solve(grid_map: &GridMap, removed_walls: &RemovedWalls) -> (r: Solution)
    requires
        grid_map.wf(),
        grid_map.cell_count_spec() > 0,
        removed_walls.wf(),
    ensures
        r.distances.wf(),
        r.distances.grid_spec() == *grid_map,
        is_distance_map(*grid_map, removed_walls@, r.start, r.distances@),
        r.distances@.contains_key(r.end),
        r.distances@.contains_key(r.start),
        r.path@.len() == r.distances@[r.end] + 1,
        r.path@[0] == r.end,
        r.path@.last() == r.start,
        forall|i: int|
            0 <= i < r.path@.len() ==> r.distances@.contains_key(#[trigger] r.path@[i])
                && r.distances@[r.path@[i]] == r.distances@[r.end] - i,
        forall|i: int|
            0 <= i < r.path@.len() - 1 ==> passable(
                *grid_map,
                removed_walls@,
                #[trigger] r.path@[i],
                r.path@[i + 1],
            ),
        forall|p: Pos| #[trigger] r.distances@.contains_key(p) ==> r.distances@[p] <= r.farthest_distance,
        exists|p: Pos| #[trigger] r.distances@.contains_key(p) && r.distances@[p] == r.farthest_distance,
        forall|i: int|
            0 <= i < r.path@.len() - 1 ==> first_closer(
                *grid_map,
                removed_walls@,
                r.distances@,
                #[trigger] r.path@[i],
                r.distances@[r.path@[i]],
                r.path@[i + 1],
            ),
        exists|m: Map<Pos, int>| #[trigger]
            is_distance_map(*grid_map, removed_walls@, far_corner(*grid_map), m) && is_farthest(
                *grid_map,
                m,
                r.end,
            ),
        exists|m: Map<Pos, int>| #[trigger]
            is_distance_map(*grid_map, removed_walls@, r.end, m) && is_farthest(
                *grid_map,
                m,
                r.start,
            ),
        is_solution(*grid_map, removed_walls@, r.start, r.end, r.distances@, r.path@),
{
    let corner = grid_map.get_north_east_cell_pos();
    let distances = dijkstra(corner, grid_map, removed_walls);
    let (end, _) = get_most_distant(&distances);
    let ghost from_corner = distances@;
    proof {
        assert(from_corner.contains_key(corner));
        assert(is_farthest(*grid_map, from_corner, end));
        assert(is_distance_map(*grid_map, removed_walls@, far_corner(*grid_map), from_corner));
    }
    let distances = dijkstra(end, grid_map, removed_walls);
    let (start, _) = get_most_distant(&distances);
    let ghost from_end = distances@;
    proof {
        assert(from_end.contains_key(end));
        assert(from_end.contains_key(start));
        assert(is_distance_map(*grid_map, removed_walls@, end, from_end));
        assert(is_farthest(*grid_map, from_end, start));
    }
    let distances = dijkstra(start, grid_map, removed_walls);
    proof {
        lemma_source_reached(*grid_map, removed_walls@, end, from_end, start, distances@, start);
    }
    let (_, farthest_distance) = get_most_distant(&distances);
    let path = get_path(start, end, &distances, grid_map, removed_walls);
    proof {
        assert(distances@.contains_key(start));
    }
    Solution { start, end, path, distances, farthest_distance }
}

} // verus!
