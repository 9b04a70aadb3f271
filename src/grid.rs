use vstd::prelude::*;
use vstd::arithmetic::div_mod::{lemma_fundamental_div_mod, lemma_fundamental_div_mod_converse};
use crate::position::{Direction, Position, offset_of};

verus! {

/// Largest supported width or height of a grid.
pub const MAX_SIDE: usize = 4096;

/// Wraps a coordinate into `[0, n)`.
pub open spec fn wrap(v: int, n: int) -> int {
    v % n
}

/// Distance along one wrapping axis of length `n` between two coordinates
/// of `[0, n)`: the shorter of the direct and the wrapped-around delta.
pub open spec fn axis_dist(a: int, b: int, n: int) -> int {
    let d = if a >= b { a - b } else { b - a };
    if d <= n - d { d } else { n - d }
}

/// A toroidal grid of cells holding a resource amount, stored row by row.
pub struct Grid {
    pub width: usize,
    pub height: usize,
    pub halite: Vec<u32>,
}

impl Grid {
    pub open spec fn wf(&self) -> bool {
        &&& 1 <= self.width <= MAX_SIDE
        &&& 1 <= self.height <= MAX_SIDE
        &&& self.halite@.len() == self.width * self.height
    }

    /// Number of cells.
    pub open spec fn size(&self) -> int {
        self.width * self.height
    }

    pub open spec fn index_of(&self, x: int, y: int) -> int {
        y * self.width + x
    }

    pub open spec fn x_of(&self, i: int) -> int {
        i % (self.width as int)
    }

    pub open spec fn y_of(&self, i: int) -> int {
        i / (self.width as int)
    }

    /// The position of cell `i`.
    pub open spec fn pos_of(&self, i: int) -> Position {
        Position { x: self.x_of(i) as i32, y: self.y_of(i) as i32 }
    }

    /// Whether a position already lies inside the grid's bounds.
    pub open spec fn inside(&self, p: Position) -> bool {
        0 <= p.x < self.width && 0 <= p.y < self.height
    }

    /// The position `p` wrapped into the grid's bounds.
    pub open spec fn norm(&self, p: Position) -> Position {
        Position {
            x: wrap(p.x as int, self.width as int) as i32,
            y: wrap(p.y as int, self.height as int) as i32,
        }
    }

    /// The cell index of a position, after wrapping.
    pub open spec fn cell_of(&self, p: Position) -> int {
        self.index_of(self.norm(p).x as int, self.norm(p).y as int)
    }

    pub open spec fn res(&self, i: int) -> int {
        self.halite@[i] as int
    }

    /// Resource at a position, after wrapping.
    pub open spec fn res_at(&self, p: Position) -> int {
        self.res(self.cell_of(p))
    }

    pub open spec fn east_x(&self, x: int) -> int {
        if x + 1 == self.width { 0 } else { x + 1 }
    }

    pub open spec fn west_x(&self, x: int) -> int {
        if x == 0 { self.width - 1 } else { x - 1 }
    }

    pub open spec fn south_y(&self, y: int) -> int {
        if y + 1 == self.height { 0 } else { y + 1 }
    }

    pub open spec fn north_y(&self, y: int) -> int {
        if y == 0 { self.height - 1 } else { y - 1 }
    }

    /// Neighbour `k` of cell `i`: 0 north, 1 south, 2 east, 3 west.
    pub open spec fn step(&self, i: int, k: int) -> int {
        let x = self.x_of(i);
        let y = self.y_of(i);
        if k == 0 {
            self.index_of(x, self.north_y(y))
        } else if k == 1 {
            self.index_of(x, self.south_y(y))
        } else if k == 2 {
            self.index_of(self.east_x(x), y)
        } else {
            self.index_of(self.west_x(x), y)
        }
    }

    /// Whether `j` is one of the four neighbours of `i`.
    pub open spec fn adjacent(&self, i: int, j: int) -> bool {
        j == self.step(i, 0) || j == self.step(i, 1) || j == self.step(i, 2) || j == self.step(
            i,
            3,
        )
    }

    /// Toroidal Manhattan distance between two positions, after wrapping.
    pub open spec fn torus_dist(&self, a: Position, b: Position) -> int {
        axis_dist(self.norm(a).x as int, self.norm(b).x as int, self.width as int) + axis_dist(
            self.norm(a).y as int,
            self.norm(b).y as int,
            self.height as int,
        )
    }

    /// Wraps `p` into `[0, width) x [0, height)`.
    pub fn normalize(&self, p: Position) -> (r: Position)
        requires
            self.wf(),
        ensures
            r == self.norm(p),
            self.inside(r),
    {
        Position { x: wrap_coord(p.x, self.width), y: wrap_coord(p.y, self.height) }
    }

    /// Toroidal Manhattan distance between `a` and `b`.
    pub fn calculate_distance(&self, a: Position, b: Position) -> (r: u32)
        requires
            self.wf(),
        ensures
            r == self.torus_dist(a, b),
            r <= self.width + self.height,
    {
        let na = self.normalize(a);
        let nb = self.normalize(b);
        let dx = axis_distance(na.x as u32, nb.x as u32, self.width as u32);
        let dy = axis_distance(na.y as u32, nb.y as u32, self.height as u32);
        dx + dy
    }

    /// The cell index of a position inside the grid.
    pub fn index(&self, p: Position) -> (r: usize)
        requires
            self.wf(),
            self.inside(p),
        ensures
            r == self.index_of(p.x as int, p.y as int),
            r < self.size(),
            self.x_of(r as int) == p.x,
            self.y_of(r as int) == p.y,
    {
        proof {
            lemma_index(self.width as int, self.height as int, p.x as int, p.y as int);
        }
        p.y as usize * self.width + p.x as usize
    }

    /// The position of cell `i`.
    pub fn position_of(&self, i: usize) -> (r: Position)
        requires
            self.wf(),
            i < self.size(),
        ensures
            r == self.pos_of(i as int),
            self.inside(r),
            self.index_of(r.x as int, r.y as int) == i,
    {
        proof {
            lemma_cell(self.width as int, self.height as int, i as int);
        }
        Position { x: (i % self.width) as i32, y: (i / self.width) as i32 }
    }

    /// Resource amount at `p`, after wrapping.
    pub fn resource_at(&self, p: Position) -> (r: u32)
        requires
            self.wf(),
        ensures
            r == self.res_at(p),
    {
        let n = self.normalize(p);
        let i = self.index(n);
        self.halite[i]
    }

    /// Index of neighbour `k` of cell `i` (0 north, 1 south, 2 east, 3 west).
    pub fn neighbor_index(&self, i: usize, k: usize) -> (r: usize)
        requires
            self.wf(),
            i < self.size(),
            k < 4,
        ensures
            r == self.step(i as int, k as int),
            r < self.size(),
    {
        proof {
            lemma_cell(self.width as int, self.height as int, i as int);
        }
        let x = i % self.width;
        let y = i / self.width;
        let (nx, ny): (usize, usize) = if k == 0 {
            (x, if y == 0 { self.height - 1 } else { y - 1 })
        } else if k == 1 {
            (x, if y + 1 == self.height { 0 } else { y + 1 })
        } else if k == 2 {
            (if x + 1 == self.width { 0 } else { x + 1 }, y)
        } else {
            (if x == 0 { self.width - 1 } else { x - 1 }, y)
        };
        self.index(Position { x: nx as i32, y: ny as i32 })
    }

    /// The four cardinal neighbours of `p`, wrapped, in the order North,
    /// South, East, West.
    pub fn neighbors(&self, p: Position) -> (r: Vec<Position>)
        requires
            self.wf(),
            p.offsettable(),
        ensures
            r@.len() == 4,
            r@[0] == self.norm(Position { x: p.x, y: (p.y - 1) as i32 }),
            r@[1] == self.norm(Position { x: p.x, y: (p.y + 1) as i32 }),
            r@[2] == self.norm(Position { x: (p.x + 1) as i32, y: p.y }),
            r@[3] == self.norm(Position { x: (p.x - 1) as i32, y: p.y }),
    {
        let around = p.get_surrounding_cardinals();
        let mut r: Vec<Position> = Vec::new();
        let mut j: usize = 0;
        while j < 4
            invariant
                self.wf(),
                around@.len() == 4,
                0 <= j <= 4,
                r@.len() == j,
                forall|t: int| 0 <= t < j ==> r@[t] == self.norm(#[trigger] around@[t]),
            decreases 4 - j,
        {
            r.push(self.normalize(around[j]));
            j = j + 1;
        }
        r
    }
}

/// Wraps `v` into `[0, n)`.
pub fn wrap_coord(v: i32, n: usize) -> (r: i32)
    requires
        1 <= n <= MAX_SIDE,
    ensures
        r == wrap(v as int, n as int),
        0 <= r < n,
{
    let m = n as i64;
    let v64 = v as i64;
    if v64 >= 0 {
        let r = v64 % m;
        proof {
            vstd::arithmetic::div_mod::lemma_mod_bound(v64 as int, m as int);
        }
        r as i32
    } else {
        let q = (-v64) / m;
        let rem = (-v64) % m;
        proof {
            lemma_fundamental_div_mod(-v64 as int, m as int);
        }
        if rem == 0 {
            proof {
                assert(v64 == (-q) * m + 0) by (nonlinear_arith)
                    requires -v64 == m * q + rem, rem == 0;
                lemma_fundamental_div_mod_converse(v64 as int, m as int, -q as int, 0);
            }
            0
        } else {
            proof {
                vstd::arithmetic::div_mod::lemma_mod_bound(-v64 as int, m as int);
                assert(v64 == (-q - 1) * m + (m - rem)) by (nonlinear_arith)
                    requires -v64 == m * q + rem;
                lemma_fundamental_div_mod_converse(
                    v64 as int,
                    m as int,
                    -q - 1 as int,
                    (m - rem) as int,
                );
            }
            (m - rem) as i32
        }
    }
}

/// Distance along one wrapping axis of length `n`.
fn axis_distance(a: u32, b: u32, n: u32) -> (r: u32)
    requires
        a < n,
        b < n,
    ensures
        r == axis_dist(a as int, b as int, n as int),
        r <= n / 2,
{
    let d = if a >= b { a - b } else { b - a };
    if d <= n - d { d } else { n - d }
}

pub proof fn lemma_index(w: int, h: int, x: int, y: int)
    requires
        1 <= w <= MAX_SIDE,
        h <= MAX_SIDE,
        0 <= x < w,
        0 <= y < h,
    ensures
        0 <= y * w + x < w * h,
        y * w <= y * w + x < 16777216,
        (y * w + x) % w == x,
        (y * w + x) / w == y,
{
    assert(0 <= y * w + x < w * h) by (nonlinear_arith)
        requires w >= 1, 0 <= x < w, 0 <= y < h;
    assert(w * h <= 16777216) by (nonlinear_arith)
        requires 1 <= w <= 4096, 0 <= h <= 4096;
    lemma_fundamental_div_mod_converse(y * w + x, w, y, x);
}

pub proof fn lemma_cell(w: int, h: int, i: int)
    requires
        w >= 1,
        0 <= i < w * h,
    ensures
        0 <= i % w < w,
        0 <= i / w < h,
        (i / w) * w + i % w == i,
{
    lemma_fundamental_div_mod(i, w);
    assert((i / w) * w == w * (i / w)) by (nonlinear_arith);
    assert(0 <= i % w < w) by {
        vstd::arithmetic::div_mod::lemma_mod_bound(i, w);
    }
    assert(0 <= i / w < h) by (nonlinear_arith)
        requires w >= 1, 0 <= i < w * h, i == w * (i / w) + i % w, 0 <= i % w < w;
}

/// Wrapping is idempotent and always lands inside the grid.
pub proof fn lemma_normalize_idempotent(g: &Grid, p: Position)
    requires
        g.wf(),
    ensures
        g.inside(g.norm(p)),
        g.norm(g.norm(p)) == g.norm(p),
{
    let w = g.width as int;
    let h = g.height as int;
    vstd::arithmetic::div_mod::lemma_mod_bound(p.x as int, w);
    vstd::arithmetic::div_mod::lemma_mod_bound(p.y as int, h);
    let q = g.norm(p);
    vstd::arithmetic::div_mod::lemma_small_mod(q.x as nat, w as nat);
    vstd::arithmetic::div_mod::lemma_small_mod(q.y as nat, h as nat);
}

/// Distance from a position to itself is zero, and distance is symmetric.
pub proof fn lemma_distance_laws(g: &Grid, a: Position, b: Position)
    requires
        g.wf(),
    ensures
        g.torus_dist(a, a) == 0,
        g.torus_dist(a, b) == g.torus_dist(b, a),
{
}

} // verus!
