use vstd::prelude::*;
use crate::position::{Direction, Position, offset_of};
use crate::grid::{MAX_SIDE, wrap, wrap_coord, lemma_index};

verus! {

/// Per-turn reservations of grid cells: each cell is held by at most one
/// agent, the one that will stand there once this turn's moves resolve.
pub struct Navi {
    pub width: usize,
    pub height: usize,
    pub occupied: Vec<Option<u64>>,
}

/// The moves that bring `s` closer to `d` on a torus of `w` by `h`, both
/// positions already wrapped: first along x, then along y. On a tie between
/// the direct and the wrapped-around way, East and South are taken.
pub open spec fn toward(s: Position, d: Position, w: int, h: int) -> Seq<Direction> {
    let dx = if s.x >= d.x { s.x - d.x } else { d.x - s.x };
    let dy = if s.y >= d.y { s.y - d.y } else { d.y - s.y };
    let mx: Seq<Direction> = if s.x < d.x {
        seq![if dx > w - dx { Direction::West } else { Direction::East }]
    } else if s.x > d.x {
        seq![if dx < w - dx { Direction::West } else { Direction::East }]
    } else {
        seq![]
    };
    let my: Seq<Direction> = if s.y < d.y {
        seq![if dy > h - dy { Direction::North } else { Direction::South }]
    } else if s.y > d.y {
        seq![if dy < h - dy { Direction::North } else { Direction::South }]
    } else {
        seq![]
    };
    mx + my
}

/// `p` wrapped onto a torus of `w` by `h`.
pub open spec fn norm_at(w: int, h: int, p: Position) -> Position {
    Position { x: wrap(p.x as int, w) as i32, y: wrap(p.y as int, h) as i32 }
}

/// Cell index (row by row) of `p` on a torus of `w` by `h`, after wrapping.
pub open spec fn cell_at(w: int, h: int, p: Position) -> int {
    norm_at(w, h, p).y * w + norm_at(w, h, p).x
}

/// The cell reached from `p` by one move in direction `d`.
pub open spec fn landing_at(w: int, h: int, p: Position, d: Direction) -> int {
    cell_at(w, h, Position { x: (p.x + offset_of(d).0) as i32, y: (p.y + offset_of(d).1) as i32 })
}

/// The move chosen for an agent at `p` heading for `d`, given who holds each
/// cell: the first distance-reducing move whose landing cell is free, else
/// `Still`.
pub open spec fn pick(w: int, h: int, occ: Seq<Option<u64>>, p: Position, d: Position) -> Direction {
    let m = toward(norm_at(w, h, p), norm_at(w, h, d), w, h);
    if m.len() > 0 && occ[landing_at(w, h, p, m[0])] is None {
        m[0]
    } else if m.len() > 1 && occ[landing_at(w, h, p, m[1])] is None {
        m[1]
    } else {
        Direction::Still
    }
}

impl Navi {
    pub open spec fn wf(&self) -> bool {
        &&& 1 <= self.width <= MAX_SIDE
        &&& 1 <= self.height <= MAX_SIDE
        &&& self.occupied@.len() == self.width * self.height
    }

    /// Who holds each cell, by cell index (row by row).
    pub open spec fn view(&self) -> Seq<Option<u64>> {
        self.occupied@
    }

    pub open spec fn norm(&self, p: Position) -> Position {
        norm_at(self.width as int, self.height as int, p)
    }

    /// Cell index of a position, after wrapping.
    pub open spec fn cell(&self, p: Position) -> int {
        cell_at(self.width as int, self.height as int, p)
    }

    /// The cell reached from `p` by one move in direction `d`.
    pub open spec fn landing(&self, p: Position, d: Direction) -> int {
        landing_at(self.width as int, self.height as int, p, d)
    }

    pub open spec fn free(&self, c: int) -> bool {
        self@[c] is None
    }

    /// The move chosen for an agent at `p` heading for `d`.
    pub open spec fn choice(&self, p: Position, d: Position) -> Direction {
        pick(self.width as int, self.height as int, self@, p, d)
    }

    /// No cell is reserved.
    pub fn new(width: usize, height: usize) -> (r: Navi)
        requires
            1 <= width <= MAX_SIDE,
            1 <= height <= MAX_SIDE,
        ensures
            r.wf(),
            r.width == width,
            r.height == height,
            forall|c: int| 0 <= c < r@.len() ==> #[trigger] r@[c] is None,
    {
        let mut occupied: Vec<Option<u64>> = Vec::new();
        assert(width * height <= 16777216) by (nonlinear_arith)
            requires 1 <= width <= 4096, 1 <= height <= 4096;
        let n = width * height;
        let mut i: usize = 0;
        while i < n
            invariant
                i <= n,
                occupied@.len() == i,
                forall|c: int| 0 <= c < i ==> #[trigger] occupied@[c] is None,
            decreases n - i,
        {
            occupied.push(None);
            i = i + 1;
        }
        Navi { width, height, occupied }
    }

    /// Clears every reservation, as at the start of a turn.
    pub fn update_frame(&mut self)
        requires
            old(self).wf(),
        ensures
            final(self).wf(),
            final(self).width == old(self).width,
            final(self).height == old(self).height,
            forall|c: int| 0 <= c < final(self)@.len() ==> #[trigger] final(self)@[c] is None,
    {
        let n = self.occupied.len();
        let mut i: usize = 0;
        while i < n
            invariant
                self.wf(),
                self.width == old(self).width,
                self.height == old(self).height,
                n == self.occupied@.len(),
                i <= n,
                forall|c: int| 0 <= c < i ==> #[trigger] self.occupied@[c] is None,
            decreases n - i,
        {
            self.occupied.set(i, None);
            i = i + 1;
        }
    }

    fn cell_index(&self, p: Position) -> (r: usize)
        requires
            self.wf(),
        ensures
            r == self.cell(p),
            r < self@.len(),
    {
        let x = wrap_coord(p.x, self.width);
        let y = wrap_coord(p.y, self.height);
        proof {
            lemma_index(self.width as int, self.height as int, x as int, y as int);
        }
        y as usize * self.width + x as usize
    }

    /// Whether no agent holds the cell at `p` this turn.
    pub fn is_safe(&self, p: Position) -> (r: bool)
        requires
            self.wf(),
        ensures
            r == self.free(self.cell(p)),
    {
        let i = self.cell_index(p);
        self.occupied[i].is_none()
    }

    /// Reserves the cell at `p` for agent `id`.
    pub fn mark_unsafe(&mut self, p: Position, id: u64)
        requires
            old(self).wf(),
        ensures
            final(self).wf(),
            final(self).width == old(self).width,
            final(self).height == old(self).height,
            final(self)@ == old(self)@.update(old(self).cell(p), Some(id)),
    {
        let i = self.cell_index(p);
        self.occupied.set(i, Some(id));
    }

    /// The distance-reducing moves from `s` toward `d`.
    pub fn get_unsafe_moves(&self, s: Position, d: Position) -> (r: Vec<Direction>)
        requires
            self.wf(),
        ensures
            r@ == toward(self.norm(s), self.norm(d), self.width as int, self.height as int),
    {
        let ns = Position { x: wrap_coord(s.x, self.width), y: wrap_coord(s.y, self.height) };
        let nd = Position { x: wrap_coord(d.x, self.width), y: wrap_coord(d.y, self.height) };
        let w = self.width as i32;
        let h = self.height as i32;
        let dx = if ns.x >= nd.x { ns.x - nd.x } else { nd.x - ns.x };
        let dy = if ns.y >= nd.y { ns.y - nd.y } else { nd.y - ns.y };
        let mut r: Vec<Direction> = Vec::new();
        if ns.x < nd.x {
            r.push(if dx > w - dx { Direction::West } else { Direction::East });
        } else if ns.x > nd.x {
            r.push(if dx < w - dx { Direction::West } else { Direction::East });
        }
        if ns.y < nd.y {
            r.push(if dy > h - dy { Direction::North } else { Direction::South });
        } else if ns.y > nd.y {
            r.push(if dy < h - dy { Direction::North } else { Direction::South });
        }
        proof {
            let mx: Seq<Direction> = if ns.x < nd.x {
                seq![if dx > w - dx { Direction::West } else { Direction::East }]
            } else if ns.x > nd.x {
                seq![if dx < w - dx { Direction::West } else { Direction::East }]
            } else {
                seq![]
            };
            let my: Seq<Direction> = if ns.y < nd.y {
                seq![if dy > h - dy { Direction::North } else { Direction::South }]
            } else if ns.y > nd.y {
                seq![if dy < h - dy { Direction::North } else { Direction::South }]
            } else {
                seq![]
            };
            assert(r@ =~= mx + my);
        }
        r
    }

    /// One step for agent `id` at `p` toward `d`: the first distance-reducing
    /// move whose landing cell is free, else `Still`. The cell the agent ends
    /// on is reserved for it; no other reservation changes.
    pub fn naive_navigate(&mut self, id: u64, p: Position, d: Position) -> (r: Direction)
        requires
            old(self).wf(),
            p.offsettable(),
        ensures
            final(self).wf(),
            final(self).width == old(self).width,
            final(self).height == old(self).height,
            r == old(self).choice(p, d),
            final(self)@ == old(self)@.update(old(self).landing(p, r), Some(id)),
    {
        let moves = self.get_unsafe_moves(p, d);
        let mut j: usize = 0;
        while j < moves.len()
            invariant
                self.wf(),
                self == old(self),
                p.offsettable(),
                moves@ == toward(self.norm(p), self.norm(d), self.width as int, self.height as int),
                moves@.len() <= 2,
                j <= moves@.len(),
                forall|t: int| 0 <= t < j ==> !self.free(self.landing(p, #[trigger] moves@[t])),
            decreases moves@.len() - j,
        {
            let m = moves[j];
            let target = p.directional_offset(m);
            if self.is_safe(target) {
                self.mark_unsafe(target, id);
                return m;
            }
            j = j + 1;
        }
        self.mark_unsafe(p, id);
        proof {
            assert(p == Position { x: (p.x + 0) as i32, y: (p.y + 0) as i32 });
        }
        Direction::Still
    }
}

/// Within a turn, an agent never moves onto a cell that another agent holds:
/// a move other than `Still` lands on a free cell, so the reservations made
/// earlier in the turn all survive it.
pub proof fn lemma_no_shared_cell(n: Navi, p: Position, d: Position, c: int)
    requires
        n.wf(),
        0 <= c < n@.len(),
        n@[c] is Some,
    ensures
        n.choice(p, d) != Direction::Still ==> n.landing(p, n.choice(p, d)) != c,
{
}

} // verus!
