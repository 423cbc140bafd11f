//! The four straight directions.

use vstd::prelude::*;

use crate::Point;

verus! {

/// A straight direction on the grid.
#[derive(Clone, Copy, Debug, PartialEq, Eq, Structural)]
pub enum Dir {
    UP,
    RIGHT,
    DOWN,
    LEFT,
}

impl Dir {
    /// The number of the direction.
    pub open spec fn number(self) -> int {
        match self {
            Dir::UP => 0,
            Dir::RIGHT => 1,
            Dir::DOWN => 2,
            Dir::LEFT => 3,
        }
    }

    /// The direction of a number.
    pub open spec fn numbered(i: int) -> Dir {
        if i == 0 {
            Dir::UP
        } else if i == 1 {
            Dir::RIGHT
        } else if i == 2 {
            Dir::DOWN
        } else {
            Dir::LEFT
        }
    }

    /// The opposite direction.
    pub open spec fn back(self) -> Dir {
        match self {
            Dir::UP => Dir::DOWN,
            Dir::RIGHT => Dir::LEFT,
            Dir::DOWN => Dir::UP,
            Dir::LEFT => Dir::RIGHT,
        }
    }

    /// The direction after this one, clockwise.
    pub open spec fn turned(self) -> Dir {
        match self {
            Dir::UP => Dir::RIGHT,
            Dir::RIGHT => Dir::DOWN,
            Dir::DOWN => Dir::LEFT,
            Dir::LEFT => Dir::UP,
        }
    }

    /// All directions, in the order of their numbers.
    pub fn all() -> (all: [Dir; 4])
        ensures
            forall|i: int| 0 <= i < 4 ==> (#[trigger] all@[i]).number() == i,
            forall|i: int| 0 <= i < 4 ==> #[trigger] all@[i] == Dir::numbered(i),
    {
        [Dir::UP, Dir::RIGHT, Dir::DOWN, Dir::LEFT]
    }

    /// The number of the direction.
    pub fn num(self) -> (num: usize)
        ensures
            num == self.number(),
    {
        match self {
            Dir::UP => 0,
            Dir::RIGHT => 1,
            Dir::DOWN => 2,
            Dir::LEFT => 3,
        }
    }

    /// The opposite direction.
    pub fn opposite(self) -> (dir: Dir)
        ensures
            dir == self.back(),
    {
        match self {
            Dir::UP => Dir::DOWN,
            Dir::RIGHT => Dir::LEFT,
            Dir::DOWN => Dir::UP,
            Dir::LEFT => Dir::RIGHT,
        }
    }

    /// The direction after this one, clockwise.
    pub fn clockwise(self) -> (dir: Dir)
        ensures
            dir == self.turned(),
    {
        match self {
            Dir::UP => Dir::RIGHT,
            Dir::RIGHT => Dir::DOWN,
            Dir::DOWN => Dir::LEFT,
            Dir::LEFT => Dir::UP,
        }
    }
}

/// The tile `dist` tiles away in the given direction, if it lies in the rectangle that
/// starts at `base` and has the given width and height.
pub open spec fn jumped(
    p: Point,
    dir: Dir,
    dist: usize,
    base: Point,
    size: (usize, usize),
) -> Option<Point> {
    match dir {
        Dir::UP => if p.1 >= base.1 + dist {
            Some((p.0, (p.1 - dist) as usize))
        } else {
            None
        },
        Dir::RIGHT => if p.0 + dist < base.0 + size.0 {
            Some(((p.0 + dist) as usize, p.1))
        } else {
            None
        },
        Dir::DOWN => if p.1 + dist < base.1 + size.1 {
            Some((p.0, (p.1 + dist) as usize))
        } else {
            None
        },
        Dir::LEFT => if p.0 >= base.0 + dist {
            Some(((p.0 - dist) as usize, p.1))
        } else {
            None
        },
    }
}

/// The tile `dist` tiles away in the given direction, if it lies in the rectangle that
/// starts at `base` and has the given width and height.
pub fn jump_in_dir(p: Point, dir: Dir, dist: usize, base: Point, size: (usize, usize)) -> (tile:
    Option<Point>)
    requires
        base.0 <= p.0 < base.0 + size.0,
        base.1 <= p.1 < base.1 + size.1,
        base.0 + size.0 <= usize::MAX,
        base.1 + size.1 <= usize::MAX,
    ensures
        tile == jumped(p, dir, dist, base, size),
{
    match dir {
        Dir::UP => if p.1 - base.1 >= dist {
            Some((p.0, p.1 - dist))
        } else {
            None
        },
        Dir::RIGHT => if dist < base.0 + size.0 - p.0 {
            Some((p.0 + dist, p.1))
        } else {
            None
        },
        Dir::DOWN => if dist < base.1 + size.1 - p.1 {
            Some((p.0, p.1 + dist))
        } else {
            None
        },
        Dir::LEFT => if p.0 - base.0 >= dist {
            Some((p.0 - dist, p.1))
        } else {
            None
        },
    }
}

/// The tile next to `p` in the given direction, if there is one.
pub open spec fn next_tile(p: Point, dir: Dir, size: (usize, usize)) -> Option<Point> {
    jumped(p, dir, 1, (0, 0), size)
}

} // verus!
