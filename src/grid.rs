use vstd::prelude::*;
use vstd::arithmetic::div_mod::{
    lemma_fundamental_div_mod, lemma_fundamental_div_mod_converse, lemma_mod_pos_bound,
};

verus! {

/// A coordinate on the cell grid or on the lattice of cell corners.
#[derive(Clone, Copy, Debug, PartialEq, Eq, Hash, Structural)]
pub struct Pos {
    pub x: i32,
    pub y: i32,
}

/// The four cardinal directions. North points towards growing `y`,
/// East towards growing `x`.
#[derive(Clone, Copy, Debug, PartialEq, Eq, Hash, Structural)]
pub enum Direction {
    North,
    East,
    South,
    West,
}

#[derive(Clone, Copy, Debug, PartialEq, Eq, Hash, Structural)]
pub enum WallOrientation {
    Horizontal,
    Vertical,
}

/// An edge of the corner lattice, kept with `from` before `to`.
#[derive(Clone, Copy, Debug, PartialEq, Eq, Hash, Structural)]
pub struct Wall {
    pub from: Pos,
    pub to: Pos,
}

pub open spec fn dx(d: Direction) -> int {
    match d {
        Direction::East => 1,
        Direction::West => -1,
        _ => 0,
    }
}

pub open spec fn dy(d: Direction) -> int {
    match d {
        Direction::North => 1,
        Direction::South => -1,
        _ => 0,
    }
}

/// The directions in the order neighbours are listed: North, East, South, West.
pub open spec fn dir_at(i: int) -> Direction {
    if i == 0 {
        Direction::North
    } else if i == 1 {
        Direction::East
    } else if i == 2 {
        Direction::South
    } else {
        Direction::West
    }
}

pub open spec fn opposite(d: Direction) -> Direction {
    match d {
        Direction::North => Direction::South,
        Direction::East => Direction::West,
        Direction::South => Direction::North,
        Direction::West => Direction::East,
    }
}

pub open spec fn pos(x: int, y: int) -> Pos {
    Pos { x: x as i32, y: y as i32 }
}

/// The position one step from `p` in direction `d`.
pub open spec fn step(p: Pos, d: Direction) -> Pos {
    pos(p.x + dx(d), p.y + dy(d))
}

/// Whether `p` lies in the rectangle `[0, c) x [0, r)`.
pub open spec fn in_rect(p: Pos, c: int, r: int) -> bool {
    0 <= p.x < c && 0 <= p.y < r
}

/// Row-major index of `p` in a rectangle `c` wide, where it lies inside.
pub open spec fn rect_index(p: Pos, c: int, r: int) -> Option<int> {
    if in_rect(p, c, r) {
        Some(p.y * c + p.x)
    } else {
        None
    }
}

/// Position of a row-major index in a rectangle `c` wide.
pub open spec fn rect_pos_of(i: int, c: int) -> Pos {
    pos(i % c, i / c)
}

/// Position of a row-major index, where the index lies inside the rectangle.
pub open spec fn rect_pos(i: int, c: int, r: int) -> Option<Pos> {
    if 0 <= i < c * r {
        Some(rect_pos_of(i, c))
    } else {
        None
    }
}

/// The edge of cell `p` that faces direction `d`.
pub open spec fn wall_at(p: Pos, d: Direction) -> Wall {
    match d {
        Direction::North => Wall { from: pos(p.x as int, p.y + 1), to: pos(p.x + 1, p.y + 1) },
        Direction::South => Wall { from: p, to: pos(p.x + 1, p.y as int) },
        Direction::East => Wall { from: pos(p.x + 1, p.y as int), to: pos(p.x + 1, p.y + 1) },
        Direction::West => Wall { from: p, to: pos(p.x as int, p.y + 1) },
    }
}

/// A wall is vertical when both ends share their `x`.
pub open spec fn is_vertical(w: Wall) -> bool {
    w.from.x == w.to.x
}

/// The cell below a horizontal wall, or left of a vertical one.
pub open spec fn wall_side_a(w: Wall) -> Pos {
    if is_vertical(w) {
        pos(w.from.x - 1, w.from.y as int)
    } else {
        pos(w.from.x as int, w.from.y - 1)
    }
}

/// The cell above a horizontal wall, or right of a vertical one.
pub open spec fn wall_side_b(w: Wall) -> Pos {
    w.from
}

/// One side of a cell, seen from the other side, is the same wall.
pub proof fn lemma_wall_symmetric(p: Pos, d: Direction)
    requires
        i32::MIN < p.x < i32::MAX,
        i32::MIN < p.y < i32::MAX,
    ensures
        wall_at(step(p, d), opposite(d)) == wall_at(p, d),
{
}

/// A wall names the two cells it stands between.
pub proof fn lemma_wall_sides(p: Pos, d: Direction)
    requires
        0 <= p.x < i32::MAX - 1,
        0 <= p.y < i32::MAX - 1,
        0 <= p.x + dx(d),
        0 <= p.y + dy(d),
    ensures
        (wall_side_a(wall_at(p, d)) == p && wall_side_b(wall_at(p, d)) == step(p, d)) || (
        wall_side_a(wall_at(p, d)) == step(p, d) && wall_side_b(wall_at(p, d)) == p),
{
}

proof fn lemma_rect_pos(i: int, c: int, r: int)
    requires
        0 <= i < c * r,
        0 <= c,
        0 <= r,
        c <= i32::MAX,
        r <= i32::MAX,
    ensures
        in_rect(rect_pos_of(i, c), c, r),
        rect_index(rect_pos_of(i, c), c, r) == Some(i),
{
    assert(c > 0) by (nonlinear_arith)
        requires
            0 <= i < c * r,
            0 <= c,
    ;
    lemma_fundamental_div_mod(i, c);
    lemma_mod_pos_bound(i, c);
    assert(i / c < r) by (nonlinear_arith)
        requires
            0 <= i < c * r,
            0 < c,
            i == c * (i / c) + (i % c),
            0 <= i % c < c,
    ;
    assert(0 <= i / c) by (nonlinear_arith)
        requires
            0 <= i,
            0 < c,
    ;
    let p = rect_pos_of(i, c);
    assert(p.x == i % c && p.y == i / c);
    assert((i / c) * c == c * (i / c)) by (nonlinear_arith);
}

proof fn lemma_rect_index(p: Pos, c: int, r: int)
    requires
        in_rect(p, c, r),
    ensures
        0 <= p.y * c + p.x < c * r,
        rect_pos_of(p.y * c + p.x, c) == p,
{
    assert(0 <= p.y * c + p.x < c * r) by (nonlinear_arith)
        requires
            0 <= p.x < c,
            0 <= p.y < r,
    ;
    lemma_fundamental_div_mod_converse(p.y * c + p.x, c, p.y as int, p.x as int);
}

/// Row-major addressing is a bijection between the rectangle and `[0, c*r)`.
pub proof fn lemma_rect_bijection(c: int, r: int)
    requires
        0 < c <= i32::MAX,
        0 <= r <= i32::MAX,
    ensures
        forall|i: int|
            0 <= i < c * r ==> #[trigger] in_rect(rect_pos_of(i, c), c, r) && rect_index(
                rect_pos_of(i, c),
                c,
                r,
            ) == Some(i),
        forall|p: Pos|
            #[trigger] in_rect(p, c, r) ==> 0 <= p.y * c + p.x < c * r && rect_pos_of(
                p.y * c + p.x,
                c,
            ) == p,
{
    assert forall|i: int| 0 <= i < c * r implies #[trigger] in_rect(rect_pos_of(i, c), c, r)
        && rect_index(rect_pos_of(i, c), c, r) == Some(i) by {
        lemma_rect_pos(i, c, r);
    }
    assert forall|p: Pos| #[trigger] in_rect(p, c, r) implies 0 <= p.y * c + p.x < c * r
        && rect_pos_of(p.y * c + p.x, c) == p by {
        lemma_rect_index(p, c, r);
    }
}

fn pos_to_index(p: Pos, c: i32, r: i32) -> (res: Option<i32>)
    requires
        0 <= c,
        0 <= r,
        c * r <= i32::MAX,
    ensures
        res.is_some() == rect_index(p, c as int, r as int).is_some(),
        res.is_some() ==> res.unwrap() == rect_index(p, c as int, r as int).unwrap() && 0
            <= res.unwrap() < c * r,
{
    if 0 <= p.x && p.x < c && 0 <= p.y && p.y < r {
        proof {
            lemma_rect_index(p, c as int, r as int);
        }
        Some(p.y * c + p.x)
    } else {
        None
    }
}

fn index_to_pos(i: i32, c: i32, r: i32) -> (res: Option<Pos>)
    requires
        0 <= c,
        0 <= r,
        c * r <= i32::MAX,
    ensures
        res == rect_pos(i as int, c as int, r as int),
        res.is_some() ==> in_rect(res.unwrap(), c as int, r as int),
{
    if 0 <= i && i < c * r {
        proof {
            lemma_rect_pos(i as int, c as int, r as int);
        }
        Some(Pos { x: i % c, y: i / c })
    } else {
        None
    }
}

/// A `columns` x `rows` rectangle of cells, with its corner lattice and walls.
#[derive(Clone, Copy, Debug)]
pub struct GridMap {
    columns: i32,
    rows: i32,
}

impl GridMap {
    pub closed spec fn cols(&self) -> int {
        self.columns as int
    }

    pub closed spec fn rows(&self) -> int {
        self.rows as int
    }

    /// Both dimensions are non-negative and every count of the grid fits in an `i32`.
    pub open spec fn wf(&self) -> bool {
        0 <= self.cols() && 0 <= self.rows() && (self.cols() + 1) * (self.rows() + 1)
            <= i32::MAX
    }

    pub open spec fn cell_count_spec(&self) -> int {
        self.cols() * self.rows()
    }

    pub open spec fn point_count_spec(&self) -> int {
        (self.cols() + 1) * (self.rows() + 1)
    }

    /// Number of walls of one orientation.
    pub open spec fn wall_count_spec(&self, o: WallOrientation) -> int {
        match o {
            WallOrientation::Horizontal => self.cols() * (self.rows() + 1),
            WallOrientation::Vertical => (self.cols() + 1) * self.rows(),
        }
    }

    pub open spec fn in_cells(&self, p: Pos) -> bool {
        in_rect(p, self.cols(), self.rows())
    }

    pub open spec fn in_points(&self, p: Pos) -> bool {
        in_rect(p, self.cols() + 1, self.rows() + 1)
    }

    pub open spec fn cell_index_of(&self, p: Pos) -> int {
        p.y * self.cols() + p.x
    }

    /// The cell with row-major index `i`.
    pub open spec fn cell_at(&self, i: int) -> Pos {
        rect_pos_of(i, self.cols())
    }

    /// The cell one step away in direction `d`, where it lies on the grid.
    pub open spec fn neighbour(&self, p: Pos, d: Direction) -> Option<Pos> {
        if 0 <= p.x + dx(d) < self.cols() && 0 <= p.y + dy(d) < self.rows() {
            Some(step(p, d))
        } else {
            None
        }
    }

    /// The wall between cell `p` and its neighbour in direction `d`, where both exist.
    pub open spec fn inner_wall(&self, p: Pos, d: Direction) -> Option<Wall> {
        if self.in_cells(p) && self.neighbour(p, d).is_some() {
            Some(wall_at(p, d))
        } else {
            None
        }
    }

    /// A wall that stands between two cells of the grid.
    pub open spec fn is_inner_wall(&self, w: Wall) -> bool {
        exists|p: Pos, d: Direction| #[trigger] self.inner_wall(p, d) == Some(w)
    }

    pub open spec fn wall_index_spec(&self, w: Wall) -> Option<int> {
        if is_vertical(w) {
            rect_index(w.from, self.cols() + 1, self.rows())
        } else {
            rect_index(w.from, self.cols(), self.rows() + 1)
        }
    }

    pub open spec fn wall_of_index(&self, i: int, o: WallOrientation) -> Option<Wall> {
        match o {
            WallOrientation::Horizontal => match rect_pos(i, self.cols(), self.rows() + 1) {
                Some(f) => Some(Wall { from: f, to: pos(f.x + 1, f.y as int) }),
                None => None,
            },
            WallOrientation::Vertical => match rect_pos(i, self.cols() + 1, self.rows()) {
                Some(f) => Some(Wall { from: f, to: pos(f.x as int, f.y + 1) }),
                None => None,
            },
        }
    }

    /// Every count of a well-formed grid fits in an `i32`.
    pub proof fn lemma_counts_fit(&self)
        requires
            self.wf(),
        ensures
            0 <= self.cell_count_spec() <= self.wall_count_spec(WallOrientation::Horizontal)
                <= self.point_count_spec() <= i32::MAX,
            0 <= self.cell_count_spec() <= self.wall_count_spec(WallOrientation::Vertical)
                <= self.point_count_spec(),
            self.cols() < i32::MAX,
            self.rows() < i32::MAX,
    {
        let c = self.cols();
        let r = self.rows();
        assert(0 <= c * r <= c * (r + 1) <= (c + 1) * (r + 1)) by (nonlinear_arith)
            requires
                0 <= c,
                0 <= r,
        ;
        assert(c * r <= (c + 1) * r <= (c + 1) * (r + 1)) by (nonlinear_arith)
            requires
                0 <= c,
                0 <= r,
        ;
        assert(c + 1 <= (c + 1) * (r + 1) && r + 1 <= (c + 1) * (r + 1)) by (nonlinear_arith)
            requires
                0 <= c,
                0 <= r,
        ;
    }

    /// Row-major cell addressing is a bijection between the grid's cells and
    /// `[0, cell_count)`.
    pub proof fn lemma_cell_bijection(&self)
        requires
            self.wf(),
            self.cols() > 0,
        ensures
            forall|i: int|
                0 <= i < self.cell_count_spec() ==> #[trigger] self.in_cells(self.cell_at(i))
                    && self.cell_index_of(self.cell_at(i)) == i,
            forall|p: Pos|
                #[trigger] self.in_cells(p) ==> 0 <= self.cell_index_of(p)
                    < self.cell_count_spec() && self.cell_at(self.cell_index_of(p)) == p,
    {
        self.lemma_counts_fit();
        lemma_rect_bijection(self.cols(), self.rows());
        assert forall|i: int| 0 <= i < self.cell_count_spec() implies #[trigger] self.in_cells(
            self.cell_at(i),
        ) && self.cell_index_of(self.cell_at(i)) == i by {
            assert(in_rect(rect_pos_of(i, self.cols()), self.cols(), self.rows()));
        }
    }

    /// A grid of `columns` x `rows` cells.
    pub fn new(columns: i32, rows: i32) -> (r: GridMap)
        requires
            0 <= columns,
            0 <= rows,
            (columns + 1) * (rows + 1) <= i32::MAX,
        ensures
            r.wf(),
            r.cols() == columns,
            r.rows() == rows,
    {
        GridMap { columns, rows }
    }

    pub fn is_cell_pos_in_bounds(&self, cell_pos: Pos) -> (r: bool)
        ensures
            r == self.in_cells(cell_pos),
    {
        0 <= cell_pos.x && cell_pos.x < self.columns && 0 <= cell_pos.y && cell_pos.y < self.rows
    }

    pub fn is_cell_index_in_bounds(&self, index: i32) -> (r: bool)
        requires
            self.wf(),
        ensures
            r == (0 <= index < self.cell_count_spec()),
    {
        proof {
            self.lemma_counts_fit();
        }
        0 <= index && index < self.columns * self.rows
    }

    pub fn cell_pos_to_index(&self, cell_pos: Pos) -> (r: Option<i32>)
        requires
            self.wf(),
        ensures
            r.is_some() == self.in_cells(cell_pos),
            r.is_some() ==> r.unwrap() == self.cell_index_of(cell_pos) && 0 <= r.unwrap()
                < self.cell_count_spec(),
    {
        proof {
            self.lemma_counts_fit();
        }
        pos_to_index(cell_pos, self.columns, self.rows)
    }

    pub fn index_to_cell_pos(&self, index: i32) -> (r: Option<Pos>)
        requires
            self.wf(),
        ensures
            r == rect_pos(index as int, self.cols(), self.rows()),
            r.is_some() == (0 <= index < self.cell_count_spec()),
            r.is_some() ==> r.unwrap() == self.cell_at(index as int) && self.in_cells(r.unwrap())
                && self.cell_index_of(r.unwrap()) == index,
    {
        proof {
            self.lemma_counts_fit();
            if 0 <= index < self.cell_count_spec() {
                lemma_rect_pos(index as int, self.cols(), self.rows());
            }
        }
        index_to_pos(index, self.columns, self.rows)
    }

    pub fn is_point_pos_in_bounds(&self, point_pos: Pos) -> (r: bool)
        requires
            self.wf(),
        ensures
            r == self.in_points(point_pos),
    {
        0 <= point_pos.x && point_pos.x <= self.columns && 0 <= point_pos.y && point_pos.y
            <= self.rows
    }

    pub fn is_point_index_in_bounds(&self, index: i32) -> (r: bool)
        requires
            self.wf(),
        ensures
            r == (0 <= index < self.point_count_spec()),
    {
        proof {
            self.lemma_counts_fit();
        }
        0 <= index && index < (self.columns + 1) * (self.rows + 1)
    }

    pub fn point_pos_to_index(&self, point_pos: Pos) -> (r: Option<i32>)
        requires
            self.wf(),
        ensures
            r.is_some() == self.in_points(point_pos),
            r.is_some() ==> r.unwrap() == rect_index(
                point_pos,
                self.cols() + 1,
                self.rows() + 1,
            ).unwrap(),
    {
        proof {
            self.lemma_counts_fit();
        }
        pos_to_index(point_pos, self.columns + 1, self.rows + 1)
    }

    pub fn index_to_point_pos(&self, index: i32) -> (r: Option<Pos>)
        requires
            self.wf(),
        ensures
            r == rect_pos(index as int, self.cols() + 1, self.rows() + 1),
    {
        proof {
            self.lemma_counts_fit();
        }
        index_to_pos(index, self.columns + 1, self.rows + 1)
    }

    /// The cell next to `cell_pos` in direction `direction`, if it is on the grid.
    pub fn neighbour_from_cell_pos(&self, cell_pos: Pos, direction: Direction) -> (r: Option<Pos>)
        ensures
            r == self.neighbour(cell_pos, direction),
    {
        let (ox, oy): (i64, i64) = match direction {
            Direction::North => (0, 1),
            Direction::East => (1, 0),
            Direction::South => (0, -1),
            Direction::West => (-1, 0),
        };
        let nx: i64 = cell_pos.x as i64 + ox;
        let ny: i64 = cell_pos.y as i64 + oy;
        if 0 <= nx && nx < self.columns as i64 && 0 <= ny && ny < self.rows as i64 {
            Some(Pos { x: nx as i32, y: ny as i32 })
        } else {
            None
        }
    }

    /// Index of the neighbour, in direction `direction`, of the cell with index `index`.
    pub fn neighbour_from_cell_index(&self, index: i32, direction: Direction) -> (r: Option<i32>)
        requires
            self.wf(),
        ensures
            r.is_some() == (0 <= index < self.cell_count_spec() && self.neighbour(
                self.cell_at(index as int),
                direction,
            ).is_some()),
            r.is_some() ==> r.unwrap() == self.cell_index_of(
                step(self.cell_at(index as int), direction),
            ),
    {
        match self.index_to_cell_pos(index) {
            Some(cell_pos) => match self.neighbour_from_cell_pos(cell_pos, direction) {
                Some(n) => self.cell_pos_to_index(n),
                None => None,
            },
            None => None,
        }
    }

    /// The edge of a cell of the grid facing `direction`, whether or not a cell lies beyond it.
    pub fn wall_from_cell_pos(&self, cell_pos: Pos, direction: Direction) -> (r: Option<Wall>)
        requires
            self.wf(),
        ensures
            r == (if self.in_cells(cell_pos) {
                Some(wall_at(cell_pos, direction))
            } else {
                None
            }),
    {
        if !self.is_cell_pos_in_bounds(cell_pos) {
            return None;
        }
        let x = cell_pos.x;
        let y = cell_pos.y;
        let w = match direction {
            Direction::North => Wall { from: Pos { x, y: y + 1 }, to: Pos { x: x + 1, y: y + 1 } },
            Direction::South => Wall { from: cell_pos, to: Pos { x: x + 1, y } },
            Direction::East => Wall { from: Pos { x: x + 1, y }, to: Pos { x: x + 1, y: y + 1 } },
            Direction::West => Wall { from: cell_pos, to: Pos { x, y: y + 1 } },
        };
        Some(w)
    }

    /// The wall between a cell and its neighbour in `direction`, present only where both
    /// cells are on the grid.
    pub fn inner_wall_from_cell_pos(&self, cell_pos: Pos, direction: Direction) -> (r: Option<
        Wall,
    >)
        requires
            self.wf(),
        ensures
            r == self.inner_wall(cell_pos, direction),
    {
        if self.neighbour_from_cell_pos(cell_pos, direction).is_none() {
            return None;
        }
        self.wall_from_cell_pos(cell_pos, direction)
    }

    pub fn wall_from_cell_index(&self, index: i32, direction: Direction) -> (r: Option<Wall>)
        requires
            self.wf(),
        ensures
            r == (if 0 <= index < self.cell_count_spec() {
                Some(wall_at(self.cell_at(index as int), direction))
            } else {
                None
            }),
    {
        match self.index_to_cell_pos(index) {
            Some(cell_pos) => self.wall_from_cell_pos(cell_pos, direction),
            None => None,
        }
    }

    /// Whether both ends of `wall` lie on the corner lattice.
    pub fn is_wall_pos_in_bounds(&self, wall: Wall) -> (r: bool)
        requires
            self.wf(),
        ensures
            r == (self.in_points(wall.from) && self.in_points(wall.to)),
    {
        self.is_point_pos_in_bounds(wall.from) && self.is_point_pos_in_bounds(wall.to)
    }

    pub fn is_wall_index_in_bounds(&self, index: i32, orientation: WallOrientation) -> (r: bool)
        requires
            self.wf(),
        ensures
            r == (0 <= index < self.wall_count_spec(orientation)),
    {
        proof {
            self.lemma_counts_fit();
        }
        match orientation {
            WallOrientation::Horizontal => 0 <= index && index < self.columns * (self.rows + 1),
            WallOrientation::Vertical => 0 <= index && index < (self.columns + 1) * self.rows,
        }
    }

    /// Index of a wall among the walls of its orientation.
    pub fn wall_pos_to_index(&self, wall: Wall) -> (r: Option<i32>)
        requires
            self.wf(),
        ensures
            r.is_some() == self.wall_index_spec(wall).is_some(),
            r.is_some() ==> r.unwrap() == self.wall_index_spec(wall).unwrap(),
    {
        proof {
            self.lemma_counts_fit();
        }
        if wall.from.x == wall.to.x {
            pos_to_index(wall.from, self.columns + 1, self.rows)
        } else {
            pos_to_index(wall.from, self.columns, self.rows + 1)
        }
    }

    pub fn index_to_wall_pos(&self, index: i32, orientation: WallOrientation) -> (r: Option<Wall>)
        requires
            self.wf(),
        ensures
            r == self.wall_of_index(index as int, orientation),
    {
        proof {
            self.lemma_counts_fit();
        }
        match orientation {
            WallOrientation::Horizontal => match index_to_pos(index, self.columns, self.rows + 1) {
                Some(from) => Some(Wall { from, to: Pos { x: from.x + 1, y: from.y } }),
                None => None,
            },
            WallOrientation::Vertical => match index_to_pos(index, self.columns + 1, self.rows) {
                Some(from) => Some(Wall { from, to: Pos { x: from.x, y: from.y + 1 } }),
                None => None,
            },
        }
    }

    pub fn get_cell_count(&self) -> (r: i32)
        requires
            self.wf(),
        ensures
            r == self.cell_count_spec(),
    {
        proof {
            self.lemma_counts_fit();
        }
        self.columns * self.rows
    }

    pub fn get_point_count(&self) -> (r: i32)
        requires
            self.wf(),
        ensures
            r == self.point_count_spec(),
    {
        proof {
            self.lemma_counts_fit();
        }
        (self.columns + 1) * (self.rows + 1)
    }

    /// Number of walls of both orientations.
    pub fn get_wall_count(&self) -> (r: i64)
        requires
            self.wf(),
        ensures
            r == self.wall_count_spec(WallOrientation::Horizontal) + self.wall_count_spec(
                WallOrientation::Vertical,
            ),
    {
        proof {
            self.lemma_counts_fit();
        }
        (self.columns * (self.rows + 1)) as i64 + ((self.columns + 1) * self.rows) as i64
    }

    /// Every cell, in row-major order.
    pub fn iter_cells(&self) -> (r: Vec<Pos>)
        requires
            self.wf(),
        ensures
            r@.len() == self.cell_count_spec(),
            forall|i: int|
                0 <= i < r@.len() ==> #[trigger] r@[i] == self.cell_at(i) && self.in_cells(r@[i])
                    && self.cell_index_of(r@[i]) == i,
    {
        let count = self.get_cell_count();
        let mut out: Vec<Pos> = Vec::new();
        let mut i: i32 = 0;
        while i < count
            invariant
                self.wf(),
                count == self.cell_count_spec(),
                0 <= i <= count,
                out@.len() == i,
                forall|j: int|
                    0 <= j < i ==> #[trigger] out@[j] == self.cell_at(j) && self.in_cells(out@[j])
                        && self.cell_index_of(out@[j]) == j,
            decreases count - i,
        {
            let p = self.index_to_cell_pos(i).unwrap();
            out.push(p);
            i = i + 1;
        }
        out
    }

    /// Every corner point, in row-major order.
    pub fn iter_points(&self) -> (r: Vec<Pos>)
        requires
            self.wf(),
        ensures
            r@.len() == self.point_count_spec(),
            forall|i: int|
                0 <= i < r@.len() ==> #[trigger] r@[i] == rect_pos_of(i, self.cols() + 1),
    {
        let count = self.get_point_count();
        let mut out: Vec<Pos> = Vec::new();
        let mut i: i32 = 0;
        while i < count
            invariant
                self.wf(),
                count == self.point_count_spec(),
                0 <= i <= count,
                out@.len() == i,
                forall|j: int| 0 <= j < i ==> #[trigger] out@[j] == rect_pos_of(j, self.cols() + 1),
            decreases count - i,
        {
            let p = self.index_to_point_pos(i).unwrap();
            out.push(p);
            i = i + 1;
        }
        out
    }

    /// Every wall of one orientation, in row-major order of their `from` ends.
    pub fn iter_walls(&self, orientation: WallOrientation) -> (r: Vec<Wall>)
        requires
            self.wf(),
        ensures
            r@.len() == self.wall_count_spec(orientation),
            forall|i: int|
                0 <= i < r@.len() ==> Some(#[trigger] r@[i]) == self.wall_of_index(i, orientation),
    {
        proof {
            self.lemma_counts_fit();
        }
        let count: i32 = match orientation {
            WallOrientation::Horizontal => self.columns * (self.rows + 1),
            WallOrientation::Vertical => (self.columns + 1) * self.rows,
        };
        let mut out: Vec<Wall> = Vec::new();
        let mut i: i32 = 0;
        while i < count
            invariant
                self.wf(),
                count == self.wall_count_spec(orientation),
                0 <= i <= count,
                out@.len() == i,
                forall|j: int|
                    0 <= j < i ==> Some(#[trigger] out@[j]) == self.wall_of_index(j, orientation),
            decreases count - i,
        {
            let w = self.index_to_wall_pos(i, orientation).unwrap();
            out.push(w);
            i = i + 1;
        }
        out
    }

    /// The cell in the last column of the last row.
    pub fn get_north_east_cell_pos(&self) -> (r: Pos)
        requires
            self.wf(),
            self.cell_count_spec() > 0,
        ensures
            self.in_cells(r),
            r == pos(self.cols() - 1, self.rows() - 1),
    {
        proof {
            self.lemma_counts_fit();
            assert(self.cols() > 0 && self.rows() > 0) by (nonlinear_arith)
                requires
                    self.cols() * self.rows() > 0,
                    self.cols() >= 0,
                    self.rows() >= 0,
            ;
        }
        Pos { x: self.columns - 1, y: self.rows - 1 }
    }

    pub fn columns(&self) -> (r: i32)
        ensures
            r == self.cols(),
    {
        self.columns
    }

    pub fn rows_count(&self) -> (r: i32)
        ensures
            r == self.rows(),
    {
        self.rows
    }
}

} // verus!
