//! Machine orientation: a quarter-turn about Y and an optional mirror, applied
//! to canonical port offsets.

use vstd::prelude::*;
use crate::routing::Cell;

verus! {

/// Quarter-turn about the Y axis.
#[derive(Clone, Copy, Debug, PartialEq, Eq, Structural)]
pub enum Rotation {
    North,
    East,
    South,
    West,
}

/// Whether the X axis is flipped before rotating.
#[derive(Clone, Copy, Debug, PartialEq, Eq, Structural)]
pub enum Mirror {
    Normal,
    Mirrored,
}

/// How a machine is placed.
#[derive(Clone, Copy, Debug, PartialEq, Eq, Structural)]
pub struct Orientation {
    pub rotation: Rotation,
    pub mirror: Mirror,
}

/// Offsets that can be negated without overflow.
pub open spec fn negatable(c: Cell) -> bool {
    c.x > i32::MIN && c.y > i32::MIN && c.z > i32::MIN
}

/// The world-space offset of canonical offset `d`: mirror X, then rotate.
pub open spec fn transformed(o: Orientation, d: Cell) -> Cell {
    let dx: int = if o.mirror == Mirror::Mirrored { -d.x } else { d.x as int };
    let dz: int = d.z as int;
    let (rx, rz) = match o.rotation {
        Rotation::North => (dx, dz),
        Rotation::East => (dz, -dx),
        Rotation::South => (-dx, -dz),
        Rotation::West => (-dz, dx),
    };
    Cell { x: rx as i32, y: d.y, z: rz as i32 }
}

impl Orientation {
    /// All eight orientations: the four rotations unmirrored, then mirrored.
    pub fn all() -> (r: [Orientation; 8])
        ensures
            forall|i: int, j: int| 0 <= i < j < 8 ==> r@[i] != r@[j],
            forall|o: Orientation| #[trigger] r@.contains(o),
            r@[0] == (Orientation { rotation: Rotation::North, mirror: Mirror::Normal }),
    {
        let r = [
            Orientation { rotation: Rotation::North, mirror: Mirror::Normal },
            Orientation { rotation: Rotation::East, mirror: Mirror::Normal },
            Orientation { rotation: Rotation::South, mirror: Mirror::Normal },
            Orientation { rotation: Rotation::West, mirror: Mirror::Normal },
            Orientation { rotation: Rotation::North, mirror: Mirror::Mirrored },
            Orientation { rotation: Rotation::East, mirror: Mirror::Mirrored },
            Orientation { rotation: Rotation::South, mirror: Mirror::Mirrored },
            Orientation { rotation: Rotation::West, mirror: Mirror::Mirrored },
        ];
        proof {
            assert forall|o: Orientation| #[trigger] r@.contains(o) by {
                let k: int = (match o.rotation {
                    Rotation::North => 0int,
                    Rotation::East => 1int,
                    Rotation::South => 2int,
                    Rotation::West => 3int,
                }) + if o.mirror == Mirror::Mirrored { 4int } else { 0int };
                assert(r@[k] == o);
            }
        }
        r
    }

    /// Rotates a canonical offset into world space, applying mirror then rotation.
    pub fn transform(&self, delta: Cell) -> (r: Cell)
        requires
            negatable(delta),
        ensures
            r == transformed(*self, delta),
    {
        let dx = if self.mirror == Mirror::Mirrored { -delta.x } else { delta.x };
        let dy = delta.y;
        let dz = delta.z;
        let (rx, rz) = match self.rotation {
            Rotation::North => (dx, dz),
            Rotation::East => (dz, -dx),
            Rotation::South => (-dx, -dz),
            Rotation::West => (-dz, dx),
        };
        Cell { x: rx, y: dy, z: rz }
    }
}

/// An orientation never moves an offset vertically and keeps its horizontal
/// distance: the Y coordinate is unchanged and the X/Z coordinates are those of
/// the input, permuted and possibly negated.
pub proof fn lemma_transform_keeps_height_and_length(o: Orientation, d: Cell)
    requires
        negatable(d),
    ensures
        transformed(o, d).y == d.y,
        crate::routing::absi(transformed(o, d).x as int) + crate::routing::absi(transformed(o, d).z as int)
            == crate::routing::absi(d.x as int) + crate::routing::absi(d.z as int),
        transformed(o, d) == d <== o == (Orientation { rotation: Rotation::North, mirror: Mirror::Normal }),
{
}

/// Distinct offsets stay distinct under any orientation.
pub proof fn lemma_transform_injective(o: Orientation, a: Cell, b: Cell)
    requires
        negatable(a),
        negatable(b),
        transformed(o, a) == transformed(o, b),
    ensures
        a == b,
{
}

} // verus!
