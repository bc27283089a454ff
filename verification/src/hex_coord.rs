//! Axial coordinates for the hexagonal grid a game board sits on.

use vstd::prelude::*;

verus! {

/// An axial hex-grid coordinate: column `q` and row `r`.
#[derive(Clone, Copy, PartialEq, Eq, Structural, Hash, Debug)]
pub struct HexCoord {
    pub q: i16,
    pub r: i16,
}

/// The coordinate offset of one of the six hex directions,
/// counter-clockwise starting at the positive-`q` side.
pub open spec fn spec_direction(n: int) -> (int, int) {
    if n == 0 {
        (1, 0)
    } else if n == 1 {
        (1, -1)
    } else if n == 2 {
        (0, -1)
    } else if n == 3 {
        (-1, 0)
    } else if n == 4 {
        (-1, 1)
    } else {
        (0, 1)
    }
}

impl HexCoord {
    /// Both coordinates stay clear of the type's edges, so that every
    /// neighbor exists.
    pub open spec fn in_bounds(self) -> bool {
        &&& i16::MIN < self.q < i16::MAX
        &&& i16::MIN < self.r < i16::MAX
    }

    pub fn new(q: i16, r: i16) -> (c: Self)
        ensures
            c.q == q,
            c.r == r,
    {
        HexCoord { q, r }
    }

    /// The six adjacent coordinates, one per direction.
    pub fn neighbors(&self) -> (r: [HexCoord; 6])
        requires
            self.in_bounds(),
        ensures
            forall|n: int|
                0 <= n < 6 ==> (#[trigger] r@[n]).q == self.q + spec_direction(n).0 && r@[n].r
                    == self.r + spec_direction(n).1,
    {
        let r = [
            self.neighbor(0),
            self.neighbor(1),
            self.neighbor(2),
            self.neighbor(3),
            self.neighbor(4),
            self.neighbor(5),
        ];
        proof {
            assert(r@[0] == r[0] && r@[1] == r[1] && r@[2] == r[2] && r@[3] == r[3] && r@[4]
                == r[4] && r@[5] == r[5]);
        }
        r
    }

    /// The adjacent coordinate in direction `n`; directions repeat past
    /// six.
    pub fn neighbor(&self, n: usize) -> (c: HexCoord)
        requires
            self.in_bounds(),
        ensures
            c.q == self.q + spec_direction((n % 6) as int).0,
            c.r == self.r + spec_direction((n % 6) as int).1,
    {
        let d = n % 6;
        let (dq, dr): (i16, i16) = if d == 0 {
            (1, 0)
        } else if d == 1 {
            (1, -1)
        } else if d == 2 {
            (0, -1)
        } else if d == 3 {
            (-1, 0)
        } else if d == 4 {
            (-1, 1)
        } else {
            (0, 1)
        };
        HexCoord { q: self.q + dq, r: self.r + dr }
    }
}

} // verus!
