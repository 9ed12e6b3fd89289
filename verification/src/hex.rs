//! Coordinates on the hexagonal grid, and the shapes built from them.

use vstd::prelude::*;

verus! {

/// The largest absolute value that a coordinate component may take for the
/// grid arithmetic (distances, pixel math) to stay exact in `i32` and `f32`.
pub const COORD_LIMIT: i32 = 4194304;

/// The largest radius used for rings and disks.
pub const RADIUS_LIMIT: i32 = 1048576;

/// A cell of the hexagonal grid, in axial coordinates (`z == -x - y`).
#[derive(Debug, Clone, Copy, PartialEq, Eq, Hash, Structural)]
pub struct Coord {
    pub x: i32,
    pub y: i32,
}

/// A coordinate whose grid arithmetic stays exact.
pub open spec fn coord_ok(c: Coord) -> bool {
    -COORD_LIMIT <= c.x <= COORD_LIMIT && -COORD_LIMIT <= c.y <= COORD_LIMIT
}

pub open spec fn abs_int(v: int) -> int {
    if v < 0 { -v } else { v }
}

/// Hex distance: half the sum of the absolute differences of the three cube
/// components.
pub open spec fn hex_distance(a: Coord, b: Coord) -> int {
    let dx = a.x - b.x;
    let dy = a.y - b.y;
    (abs_int(dx) + abs_int(dy) + abs_int(dx + dy)) / 2
}

impl Coord {
    pub fn new(x: i32, y: i32) -> (c: Coord)
        ensures
            c.x == x,
            c.y == y,
    {
        Coord { x, y }
    }

    /// The hex distance from `self` to `other`.
    pub fn distance(&self, other: Coord) -> (d: i32)
        requires
            coord_ok(*self),
            coord_ok(other),
        ensures
            d == hex_distance(*self, other),
    {
        hex2d_distance(*self, other)
    }
}

/// `hex2d::Coordinate::distance`: the crate computes
/// `(|dx| + |dy| + |dz|) / 2` in the coordinate type; the contract restates that
/// formula, for coordinates small enough that no step overflows `i32`.
#[verifier::external_body]
fn hex2d_distance(a: Coord, b: Coord) -> (d: i32)
    requires
        coord_ok(a),
        coord_ok(b),
    ensures
        d == hex_distance(a, b),
{
    hex2d::Coordinate::new(a.x, a.y).distance(hex2d::Coordinate::new(b.x, b.y))
}

/// The six directions of the grid, named after the two cube components a step
/// changes (the first grows, the second shrinks).
#[derive(Debug, Clone, Copy, PartialEq, Eq, Hash, Structural)]
pub enum Direction {
    YZ,
    XZ,
    XY,
    ZY,
    ZX,
    YX,
}

/// The step a direction makes, as an `(x, y)` offset.
pub open spec fn dir_offset(d: Direction) -> (int, int) {
    match d {
        Direction::YZ => (0, 1),
        Direction::XZ => (1, 0),
        Direction::XY => (1, -1),
        Direction::ZY => (0, -1),
        Direction::ZX => (-1, 0),
        Direction::YX => (-1, 1),
    }
}

/// `c` moved one step in direction `d`.
pub open spec fn step(c: Coord, d: Direction) -> Coord {
    Coord { x: (c.x + dir_offset(d).0) as i32, y: (c.y + dir_offset(d).1) as i32 }
}

/// `c` moved `n` steps in direction `d`.
pub open spec fn steps(c: Coord, d: Direction, n: int) -> Coord {
    Coord { x: (c.x + n * dir_offset(d).0) as i32, y: (c.y + n * dir_offset(d).1) as i32 }
}

impl Direction {
    /// The position of a direction in the grid crate's order YZ, XZ, XY, ZY,
    /// ZX, YX.
    pub open spec fn ord(self) -> int {
        match self {
            Direction::YZ => 0,
            Direction::XZ => 1,
            Direction::XY => 2,
            Direction::ZY => 3,
            Direction::ZX => 4,
            Direction::YX => 5,
        }
    }

    pub fn index(self) -> (i: i32)
        ensures
            i == self.ord(),
    {
        match self {
            Direction::YZ => 0,
            Direction::XZ => 1,
            Direction::XY => 2,
            Direction::ZY => 3,
            Direction::ZX => 4,
            Direction::YX => 5,
        }
    }

    pub fn from_index(i: i32) -> (d: Direction)
        requires
            0 <= i < 6,
        ensures
            d.ord() == i,
    {
        if i == 0 {
            Direction::YZ
        } else if i == 1 {
            Direction::XZ
        } else if i == 2 {
            Direction::XY
        } else if i == 3 {
            Direction::ZY
        } else if i == 4 {
            Direction::ZX
        } else {
            Direction::YX
        }
    }

    /// All six directions, in the order the grid crate lists them.
    pub fn all() -> (v: Vec<Direction>)
        ensures
            v@ == seq![
                Direction::YZ,
                Direction::XZ,
                Direction::XY,
                Direction::ZY,
                Direction::ZX,
                Direction::YX,
            ],
    {
        let ixs = hex2d_all_direction_indices();
        let mut v: Vec<Direction> = Vec::new();
        let mut i: usize = 0;
        while i < ixs.len()
            invariant
                ixs@ == seq![0i32, 1, 2, 3, 4, 5],
                i <= ixs.len(),
                v@.len() == i,
                forall|j: int| 0 <= j < i ==> (#[trigger] v@[j]).ord() == j,
            decreases ixs.len() - i,
        {
            v.push(Direction::from_index(ixs[i]));
            i += 1;
        }
        proof {
            assert(v@[0] == Direction::YZ);
            assert(v@[1] == Direction::XZ);
            assert(v@[2] == Direction::XY);
            assert(v@[3] == Direction::ZY);
            assert(v@[4] == Direction::ZX);
            assert(v@[5] == Direction::YX);
            assert(v@ =~= seq![
                Direction::YZ,
                Direction::XZ,
                Direction::XY,
                Direction::ZY,
                Direction::ZX,
                Direction::YX,
            ]);
        }
        v
    }
}

/// `hex2d::Direction::all` mapped through `Direction::to_int`: the crate's
/// static array lists YZ, XZ, XY, ZY, ZX, YX, whose numbers are 0 to 5.
#[verifier::external_body]
fn hex2d_all_direction_indices() -> (v: Vec<i32>)
    ensures
        v@ == seq![0i32, 1, 2, 3, 4, 5],
{
    hex2d::Direction::all().iter().map(|d| d.to_int::<i32>()).collect()
}

impl Coord {
    /// This coordinate moved one step in direction `d`.
    pub fn step(&self, d: Direction) -> (c: Coord)
        requires
            coord_ok(*self),
        ensures
            c == step(*self, d),
    {
        hex2d_add_dir(*self, d)
    }

    /// Every cell within distance `r` of this one, each once.
    pub fn range(&self, r: i32) -> (v: Vec<Coord>)
        requires
            coord_ok(*self),
            0 <= r <= RADIUS_LIMIT,
        ensures
            v@.no_duplicates(),
            forall|c: Coord| v@.contains(c) <==> hex_distance(*self, c) <= r,
    {
        hex2d_range(*self, r)
    }

    /// Every cell at distance exactly `r > 0` from this one, each once, walked
    /// clockwise from the cell `r` steps away in direction `start`.
    pub fn ring(&self, r: i32, start: Direction) -> (v: Vec<Coord>)
        requires
            coord_ok(*self),
            0 < r <= RADIUS_LIMIT,
        ensures
            v@.len() == 6 * r,
            v@.no_duplicates(),
            forall|c: Coord| v@.contains(c) <==> hex_distance(*self, c) == r,
    {
        hex2d_ring_cw(*self, r, start)
    }

    /// The straight line of cells from this one to `dest`, both ends included.
    pub fn line_to(&self, dest: Coord) -> (v: Vec<Coord>)
        requires
            coord_ok(*self),
            coord_ok(dest),
        ensures
            v@ == hex_line(*self, dest),
            v@.len() == hex_distance(*self, dest) + 1,
            v@[0] == *self,
            v@.last() == dest,
    {
        hex2d_line(*self, dest)
    }
}

/// `hex2d::Coordinate + Direction::from_int(d.index())`: `from_int` maps
/// 0..5 to YZ, XZ, XY, ZY, ZX, YX, and the crate adds the direction's unit offset
/// (YZ (0,1), XZ (1,0), XY (1,-1), ZY (0,-1), ZX (-1,0), YX (-1,1)) to the
/// coordinate.
#[verifier::external_body]
fn hex2d_add_dir(c: Coord, d: Direction) -> (out: Coord)
    requires
        coord_ok(c),
    ensures
        out == step(c, d),
{
    let h = hex2d::Coordinate::new(c.x, c.y) + hex2d::Direction::from_int(d.index());
    Coord { x: h.x, y: h.y }
}

/// `hex2d::Coordinate::range_iter`: walks `x` from `-r` to `r` and, for each,
/// `y` over the cells of the disk, so each cell within distance `r` comes out
/// exactly once.
#[verifier::external_body]
fn hex2d_range(c: Coord, r: i32) -> (v: Vec<Coord>)
    requires
        coord_ok(c),
        0 <= r <= RADIUS_LIMIT,
    ensures
        v@.no_duplicates(),
        forall|d: Coord| v@.contains(d) <==> hex_distance(c, d) <= r,
{
    hex2d::Coordinate::new(c.x, c.y).range_iter(r).map(|h| Coord { x: h.x, y: h.y }).collect()
}

/// `hex2d::Coordinate::ring_iter` with `Spin::CW(Direction::from_int(start.index()))`: for `r > 0` it walks
/// six sides of `r` steps each around the center, so it yields the `6 r`
/// cells at distance `r`, each once.
#[verifier::external_body]
fn hex2d_ring_cw(c: Coord, r: i32, start: Direction) -> (v: Vec<Coord>)
    requires
        coord_ok(c),
        0 < r <= RADIUS_LIMIT,
    ensures
        v@.len() == 6 * r,
        v@.no_duplicates(),
        forall|d: Coord| v@.contains(d) <==> hex_distance(c, d) == r,
{
    let spin = hex2d::Spin::CW(hex2d::Direction::from_int(start.index()));
    hex2d::Coordinate::new(c.x, c.y).ring_iter(r, spin).map(|h| Coord { x: h.x, y: h.y }).collect()
}

/// The cells `hex2d::Coordinate::line_to_iter` yields from `a` to `b`: it
/// interpolates in `f32` and rounds each point to the nearest cell.
pub uninterp spec fn hex_line(a: Coord, b: Coord) -> Seq<Coord>;

/// `hex2d::Coordinate::line_to_iter`: yields `distance + 1` cells; the first
/// and last interpolation points are `a` and `b` themselves, exact in `f32` for
/// coordinates this small, so the line starts at `a` and ends at `b`.
#[verifier::external_body]
fn hex2d_line(a: Coord, b: Coord) -> (v: Vec<Coord>)
    requires
        coord_ok(a),
        coord_ok(b),
    ensures
        v@ == hex_line(a, b),
        v@.len() == hex_distance(a, b) + 1,
        v@[0] == a,
        v@.last() == b,
{
    let ha = hex2d::Coordinate::new(a.x, a.y);
    ha.line_to_iter(hex2d::Coordinate::new(b.x, b.y)).map(|h| Coord { x: h.x, y: h.y }).collect()
}

/// Whether `c` is one of the cells of `v`.
pub fn contains_coord(v: &Vec<Coord>, c: Coord) -> (b: bool)
    ensures
        b <==> v@.contains(c),
{
    let mut i: usize = 0;
    while i < v.len()
        invariant
            i <= v.len(),
            forall|j: int| 0 <= j < i ==> v@[j] != c,
        decreases v.len() - i,
    {
        if v[i] == c {
            return true;
        }
        i += 1;
    }
    false
}

} // verus!
