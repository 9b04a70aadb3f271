use vstd::prelude::*;

verus! {

/// One of the four cardinal single-step moves, or staying in place.
#[derive(Clone, Copy, PartialEq, Eq, Structural, Debug)]
pub enum Direction {
    North,
    South,
    East,
    West,
    Still,
}

/// The (dx, dy) offset of a direction; `Still` is the zero offset.
pub open spec fn offset_of(d: Direction) -> (int, int) {
    match d {
        Direction::North => (0, -1),
        Direction::South => (0, 1),
        Direction::East => (1, 0),
        Direction::West => (-1, 0),
        Direction::Still => (0, 0),
    }
}

/// A grid coordinate. Ordering is lexicographic, `x` first, then `y`.
#[derive(Clone, Copy, PartialEq, Eq, Structural, PartialOrd, Ord, Debug)]
pub struct Position {
    pub x: i32,
    pub y: i32,
}

impl Position {
    /// A position whose neighbours can be formed without leaving `i32`.
    pub open spec fn offsettable(&self) -> bool {
        i32::MIN < self.x < i32::MAX && i32::MIN < self.y < i32::MAX
    }

    /// The position one step away in direction `d` (not wrapped).
    pub fn directional_offset(&self, d: Direction) -> (r: Position)
        requires
            self.offsettable(),
        ensures
            r.x == self.x + offset_of(d).0,
            r.y == self.y + offset_of(d).1,
    {
        let (dx, dy): (i32, i32) = match d {
            Direction::North => (0, -1),
            Direction::South => (0, 1),
            Direction::East => (1, 0),
            Direction::West => (-1, 0),
            Direction::Still => (0, 0),
        };
        Position { x: self.x + dx, y: self.y + dy }
    }

    /// The four cardinal neighbours, in the order North, South, East, West
    /// (not wrapped).
    pub fn get_surrounding_cardinals(&self) -> (r: Vec<Position>)
        requires
            self.offsettable(),
        ensures
            r@ == seq![
                Position { x: self.x, y: (self.y - 1) as i32 },
                Position { x: self.x, y: (self.y + 1) as i32 },
                Position { x: (self.x + 1) as i32, y: self.y },
                Position { x: (self.x - 1) as i32, y: self.y },
            ],
    {
        let mut r: Vec<Position> = Vec::new();
        r.push(self.directional_offset(Direction::North));
        r.push(self.directional_offset(Direction::South));
        r.push(self.directional_offset(Direction::East));
        r.push(self.directional_offset(Direction::West));
        r
    }
}

} // verus!
