//! Axis-aligned directions and quarter-turn rotations on the block grid.

use vstd::prelude::*;

verus! {

/// Clockwise rotation by a multiple of 90 degrees.
#[derive(PartialEq, Eq, Structural, Clone, Copy, Debug, Hash)]
pub enum GridAngle {
    Zero,
    Ninety,
    OneEighty,
    TwoSeventy,
}

/// Number of quarter turns of an angle, in `0..4`.
pub open spec fn quarter_turns(a: GridAngle) -> int {
    match a {
        GridAngle::Zero => 0,
        GridAngle::Ninety => 1,
        GridAngle::OneEighty => 2,
        GridAngle::TwoSeventy => 3,
    }
}

/// The angle of `q` quarter turns, taken modulo a full turn.
pub open spec fn angle_of_turns(q: int) -> GridAngle {
    let r = q % 4;
    if r == 0 {
        GridAngle::Zero
    } else if r == 1 {
        GridAngle::Ninety
    } else if r == 2 {
        GridAngle::OneEighty
    } else {
        GridAngle::TwoSeventy
    }
}

impl GridAngle {
    pub open spec fn spec_degrees(self) -> int {
        90 * quarter_turns(self)
    }

    /// The angle in degrees: 0, 90, 180 or 270.
    pub fn degrees(self) -> (r: u16)
        ensures
            r == self.spec_degrees(),
    {
        match self {
            GridAngle::Zero => 0,
            GridAngle::Ninety => 90,
            GridAngle::OneEighty => 180,
            GridAngle::TwoSeventy => 270,
        }
    }

    /// The angle as two bits: its number of quarter turns.
    pub fn into_bits(self) -> (r: u16)
        ensures
            r == quarter_turns(self),
    {
        match self {
            GridAngle::Zero => 0,
            GridAngle::Ninety => 1,
            GridAngle::OneEighty => 2,
            GridAngle::TwoSeventy => 3,
        }
    }

    /// The angle of `value` quarter turns; any value from 3 up gives 270 degrees.
    pub fn from_bits(value: u16) -> (r: Self)
        ensures
            value < 3 ==> quarter_turns(r) == value,
            value >= 3 ==> r == GridAngle::TwoSeventy,
    {
        match value {
            0 => GridAngle::Zero,
            1 => GridAngle::Ninety,
            2 => GridAngle::OneEighty,
            _ => GridAngle::TwoSeventy,
        }
    }

    /// The opposite rotation.
    pub fn neg(self) -> (r: Self)
        ensures
            r == angle_of_turns(4 - quarter_turns(self)),
    {
        match self {
            GridAngle::Zero => GridAngle::Zero,
            GridAngle::Ninety => GridAngle::TwoSeventy,
            GridAngle::OneEighty => GridAngle::OneEighty,
            GridAngle::TwoSeventy => GridAngle::Ninety,
        }
    }

    /// The composition of both rotations.
    pub fn add(self, rhs: Self) -> (r: Self)
        ensures
            r == angle_of_turns(quarter_turns(self) + quarter_turns(rhs)),
            r.spec_degrees() == (self.spec_degrees() + rhs.spec_degrees()) % 360,
    {
        match (self, rhs) {
            (GridAngle::Zero, rhs) => rhs,
            (lhs, GridAngle::Zero) => lhs,
            (GridAngle::Ninety, GridAngle::Ninety)
            | (GridAngle::TwoSeventy, GridAngle::TwoSeventy) => GridAngle::OneEighty,
            (GridAngle::Ninety, GridAngle::OneEighty)
            | (GridAngle::OneEighty, GridAngle::Ninety) => GridAngle::TwoSeventy,
            (GridAngle::Ninety, GridAngle::TwoSeventy)
            | (GridAngle::OneEighty, GridAngle::OneEighty)
            | (GridAngle::TwoSeventy, GridAngle::Ninety) => GridAngle::Zero,
            (GridAngle::OneEighty, GridAngle::TwoSeventy)
            | (GridAngle::TwoSeventy, GridAngle::OneEighty) => GridAngle::Ninety,
        }
    }

    /// `self` followed by the opposite of `rhs`.
    pub fn sub(self, rhs: Self) -> (r: Self)
        ensures
            r == angle_of_turns(quarter_turns(self) - quarter_turns(rhs) + 4),
            r.spec_degrees() == (self.spec_degrees() - rhs.spec_degrees()) % 360,
    {
        self.add(rhs.neg())
    }
}

impl Default for GridAngle {
    fn default() -> (r: Self)
        ensures
            r == GridAngle::Zero,
    {
        GridAngle::Zero
    }
}

/// Adding angles adds their degrees modulo a full turn, and subtracting
/// subtracts them (the result taken in `0..360`).
pub proof fn lemma_grid_angle_arithmetic(a: GridAngle, b: GridAngle)
    ensures
        angle_of_turns(quarter_turns(a) + quarter_turns(b)).spec_degrees() == (a.spec_degrees()
            + b.spec_degrees()) % 360,
        angle_of_turns(quarter_turns(a) - quarter_turns(b) + 4).spec_degrees() == (a.spec_degrees()
            - b.spec_degrees()) % 360,
        angle_of_turns(quarter_turns(a) + quarter_turns(angle_of_turns(4 - quarter_turns(a)))) == GridAngle::Zero,
{
}

#[derive(PartialEq, Eq, Structural, Clone, Copy, Debug, Hash)]
pub enum Axis {
    X,
    Y,
    Z,
}

impl Axis {
    /// The direction along the axis, towards positive coordinates.
    pub fn pos(self) -> (r: CardinalDirection)
        ensures
            r == (CardinalDirection { sign: Sign::Positive, axis: self }),
    {
        CardinalDirection { sign: Sign::Positive, axis: self }
    }

    /// The direction along the axis, towards negative coordinates.
    pub fn neg(self) -> (r: CardinalDirection)
        ensures
            r == (CardinalDirection { sign: Sign::Negative, axis: self }),
    {
        self.pos().opposit()
    }

    /// The unit vector of the axis.
    pub fn as_usizevec3(self) -> (r: (usize, usize, usize))
        ensures
            r == (match self {
                Axis::X => (1usize, 0usize, 0usize),
                Axis::Y => (0usize, 1usize, 0usize),
                Axis::Z => (0usize, 0usize, 1usize),
            }),
    {
        match self {
            Axis::X => (1, 0, 0),
            Axis::Y => (0, 1, 0),
            Axis::Z => (0, 0, 1),
        }
    }

    /// The unit vector of the axis, signed.
    pub fn as_isizevec3(self) -> (r: (isize, isize, isize))
        ensures
            r.0 == axis_vec(self).0 && r.1 == axis_vec(self).1 && r.2 == axis_vec(self).2,
    {
        match self {
            Axis::X => (1, 0, 0),
            Axis::Y => (0, 1, 0),
            Axis::Z => (0, 0, 1),
        }
    }
}

pub open spec fn axis_vec(a: Axis) -> (int, int, int) {
    match a {
        Axis::X => (1, 0, 0),
        Axis::Y => (0, 1, 0),
        Axis::Z => (0, 0, 1),
    }
}

#[derive(PartialEq, Eq, Structural, Clone, Copy, Debug, Hash)]
pub enum Sign {
    Positive,
    Negative,
}

impl Sign {
    pub open spec fn spec_value(self) -> int {
        match self {
            Sign::Positive => 1,
            Sign::Negative => -1,
        }
    }

    pub fn as_i8(self) -> (r: i8)
        ensures
            r == self.spec_value(),
    {
        match self {
            Sign::Positive => 1,
            Sign::Negative => -1,
        }
    }

    pub fn as_isize(self) -> (r: isize)
        ensures
            r == self.spec_value(),
    {
        self.as_i8() as isize
    }

    pub fn is_positive(self) -> (r: bool)
        ensures
            r == (self == Sign::Positive),
    {
        matches!(self, Sign::Positive)
    }

    pub fn is_negative(self) -> (r: bool)
        ensures
            r == (self == Sign::Negative),
    {
        matches!(self, Sign::Negative)
    }

    pub fn neg(self) -> (r: Self)
        ensures
            r.spec_value() == -self.spec_value(),
    {
        match self {
            Sign::Positive => Sign::Negative,
            Sign::Negative => Sign::Positive,
        }
    }
}

/// One of the six axis-aligned directions.
#[derive(PartialEq, Eq, Structural, Clone, Copy, Debug, Hash)]
pub struct CardinalDirection {
    pub sign: Sign,
    pub axis: Axis,
}

/// The integer vector of a direction.
pub open spec fn dir_vec(d: CardinalDirection) -> (int, int, int) {
    let v = axis_vec(d.axis);
    match d.sign {
        Sign::Positive => v,
        Sign::Negative => (-v.0, -v.1, -v.2),
    }
}

/// A quarter turn of the vector `v` about `axis`, in the positive sense of
/// the right-hand rule (X: y to z, Y: z to x, Z: x to y).
pub open spec fn rot90(axis: Axis, v: (int, int, int)) -> (int, int, int) {
    match axis {
        Axis::X => (v.0, -v.2, v.1),
        Axis::Y => (v.2, v.1, -v.0),
        Axis::Z => (-v.1, v.0, v.2),
    }
}

/// `n` quarter turns of `v` about `axis`.
pub open spec fn rot_n(axis: Axis, v: (int, int, int), n: nat) -> (int, int, int)
    decreases n,
{
    if n == 0 {
        v
    } else {
        rot90(axis, rot_n(axis, v, (n - 1) as nat))
    }
}

/// The direction whose vector is `v`, when `v` is a signed unit vector.
pub open spec fn dir_of_vec(v: (int, int, int)) -> CardinalDirection {
    if v.0 != 0 {
        CardinalDirection { sign: if v.0 > 0 { Sign::Positive } else { Sign::Negative }, axis: Axis::X }
    } else if v.1 != 0 {
        CardinalDirection { sign: if v.1 > 0 { Sign::Positive } else { Sign::Negative }, axis: Axis::Y }
    } else {
        CardinalDirection { sign: if v.2 > 0 { Sign::Positive } else { Sign::Negative }, axis: Axis::Z }
    }
}

/// The `i`-th direction of [`CardinalDirection::values`].
pub open spec fn direction_at(i: int) -> CardinalDirection {
    CardinalDirection {
        sign: if i % 2 == 0 { Sign::Positive } else { Sign::Negative },
        axis: if i / 2 == 0 { Axis::X } else if i / 2 == 1 { Axis::Y } else { Axis::Z },
    }
}

impl CardinalDirection {
    /// All six directions: +x, -x, +y, -y, +z, -z.
    pub fn values() -> (r: [CardinalDirection; 6])
        ensures
            forall|i: int| 0 <= i < 6 ==> #[trigger] r@[i] == direction_at(i),
    {
        [
            CardinalDirection { sign: Sign::Positive, axis: Axis::X },
            CardinalDirection { sign: Sign::Negative, axis: Axis::X },
            CardinalDirection { sign: Sign::Positive, axis: Axis::Y },
            CardinalDirection { sign: Sign::Negative, axis: Axis::Y },
            CardinalDirection { sign: Sign::Positive, axis: Axis::Z },
            CardinalDirection { sign: Sign::Negative, axis: Axis::Z },
        ]
    }

    /// The position of the direction in [`CardinalDirection::values`].
    pub fn into_usize(self) -> (r: usize)
        ensures
            r < 6,
            direction_at(r as int) == self,
    {
        let a: usize = match self.axis {
            Axis::X => 0,
            Axis::Y => 1,
            Axis::Z => 2,
        };
        let s: usize = match self.sign {
            Sign::Positive => 0,
            Sign::Negative => 1,
        };
        2 * a + s
    }

    pub fn opposit(self) -> (r: Self)
        ensures
            r.axis == self.axis,
            r.sign != self.sign,
            dir_vec(r) == (-dir_vec(self).0, -dir_vec(self).1, -dir_vec(self).2),
    {
        CardinalDirection { sign: self.sign.neg(), axis: self.axis }
    }

    /// A quarter turn about `rotate_axis`.
    pub fn rotate_90_degrees_cw(self, rotate_axis: Axis) -> (r: Self)
        ensures
            dir_vec(r) == rot90(rotate_axis, dir_vec(self)),
    {
        let p = Sign::Positive;
        let n = Sign::Negative;
        match (self.axis, rotate_axis) {
            (Axis::X, Axis::X) | (Axis::Y, Axis::Y) | (Axis::Z, Axis::Z) => self,
            (Axis::X, Axis::Y) => CardinalDirection { sign: self.sign.neg(), axis: Axis::Z },
            (Axis::X, Axis::Z) => CardinalDirection { sign: self.sign, axis: Axis::Y },
            (Axis::Y, Axis::X) => CardinalDirection { sign: self.sign, axis: Axis::Z },
            (Axis::Y, Axis::Z) => CardinalDirection { sign: self.sign.neg(), axis: Axis::X },
            (Axis::Z, Axis::X) => CardinalDirection { sign: self.sign.neg(), axis: Axis::Y },
            (Axis::Z, Axis::Y) => CardinalDirection { sign: self.sign, axis: Axis::X },
        }
    }

    /// Three quarter turns about `axis`, the inverse of a quarter turn.
    pub fn rotate_90_degrees_ccw(self, axis: Axis) -> (r: Self)
        ensures
            dir_vec(r) == rot_n(axis, dir_vec(self), 3),
            r.rotate_spec(axis, 1) == self,
    {
        let r = self.rotate_90_degrees_cw(axis).rotate_90_degrees_cw(axis).rotate_90_degrees_cw(axis);
        proof {
            reveal_with_fuel(rot_n, 4);
            lemma_dir_vec_injective(r.rotate_spec(axis, 1), self);
        }
        r
    }

    /// The direction after `n` quarter turns about `axis`.
    pub open spec fn rotate_spec(self, axis: Axis, n: nat) -> Self {
        dir_of_vec(rot_n(axis, dir_vec(self), n))
    }

    /// The direction rotated by `angle` about `axis`.
    pub fn rotate(self, axis: Axis, angle: GridAngle) -> (r: Self)
        ensures
            dir_vec(r) == rot_n(axis, dir_vec(self), quarter_turns(angle) as nat),
    {
        proof {
            reveal_with_fuel(rot_n, 4);
        }
        match angle {
            GridAngle::Zero => self,
            GridAngle::OneEighty => {
                if self.axis == axis {
                    self
                } else {
                    self.opposit()
                }
            },
            GridAngle::Ninety => self.rotate_90_degrees_cw(axis),
            GridAngle::TwoSeventy => self.rotate_90_degrees_ccw(axis),
        }
    }

    /// The signed unit vector of the direction.
    pub fn as_isizevec3(self) -> (r: (isize, isize, isize))
        ensures
            r.0 == dir_vec(self).0 && r.1 == dir_vec(self).1 && r.2 == dir_vec(self).2,
    {
        let v = self.axis.as_isizevec3();
        let s = self.sign.as_isize();
        (v.0 * s, v.1 * s, v.2 * s)
    }
}

/// Two directions with the same vector are the same direction.
pub proof fn lemma_dir_vec_injective(a: CardinalDirection, b: CardinalDirection)
    requires
        dir_vec(a) == dir_vec(b),
    ensures
        a == b,
{
}

/// A direction is the direction of its own vector, and a quarter turn keeps
/// a direction a direction.
pub proof fn lemma_dir_of_vec(d: CardinalDirection, axis: Axis)
    ensures
        dir_of_vec(dir_vec(d)) == d,
        dir_vec(dir_of_vec(rot90(axis, dir_vec(d)))) == rot90(axis, dir_vec(d)),
{
}

/// Quarter turns about an axis: a direction along the axis is left as it
/// is, two turns send any other direction to its opposite, four turns are
/// the identity, and a clockwise turn is undone by a counter-clockwise one.
pub proof fn lemma_rotation_laws(d: CardinalDirection, axis: Axis)
    ensures
        d.axis == axis ==> rot90(axis, dir_vec(d)) == dir_vec(d),
        d.axis != axis ==> rot_n(axis, dir_vec(d), 2) == dir_vec(d.opposit_spec()),
        rot_n(axis, dir_vec(d), 4) == dir_vec(d),
        rot_n(axis, rot_n(axis, dir_vec(d), 3), 1) == dir_vec(d),
        rot_n(axis, rot_n(axis, dir_vec(d), 1), 3) == dir_vec(d),
{
    reveal_with_fuel(rot_n, 5);
}

impl CardinalDirection {
    pub open spec fn opposit_spec(self) -> Self {
        CardinalDirection {
            sign: match self.sign {
                Sign::Positive => Sign::Negative,
                Sign::Negative => Sign::Positive,
            },
            axis: self.axis,
        }
    }
}

/// How a block model is rotated, about each axis in turn.
#[derive(PartialEq, Eq, Structural, Clone, Copy, Debug, Hash)]
pub struct ModelRotation {
    pub x: GridAngle,
    pub y: GridAngle,
    pub z: GridAngle,
}

/// The face direction after rotating about X, then Y, then Z, and the
/// rotation of the face's texture: the sum of the angles of the rotations
/// whose axis the face was along when they were applied.
pub open spec fn rotate_with_uv_spec(rot: ModelRotation, d: CardinalDirection) -> (
    CardinalDirection,
    GridAngle,
) {
    let d1 = d.rotate_spec(Axis::X, quarter_turns(rot.x) as nat);
    let d2 = d1.rotate_spec(Axis::Y, quarter_turns(rot.y) as nat);
    let d3 = d2.rotate_spec(Axis::Z, quarter_turns(rot.z) as nat);
    let ux = if d.axis == Axis::X { quarter_turns(rot.x) } else { 0 };
    let uy = if d1.axis == Axis::Y { quarter_turns(rot.y) } else { 0 };
    let uz = if d2.axis == Axis::Z { quarter_turns(rot.z) } else { 0 };
    (d3, angle_of_turns(ux + uy + uz))
}

/// Rotating keeps a direction's vector a unit vector, so the spec-level
/// rotation is the direction with the rotated vector.
proof fn lemma_rotate_spec(d: CardinalDirection, axis: Axis, n: nat)
    requires
        n < 4,
    ensures
        dir_vec(d.rotate_spec(axis, n)) == rot_n(axis, dir_vec(d), n),
{
    reveal_with_fuel(rot_n, 4);
}

/// Rotating a face by a model rotation turns its vector about X, then Y,
/// then Z, by the rotation's angles; its texture turns by the sum, modulo a
/// full turn, of the angles of the steps whose axis the face's vector lies
/// along at the moment that step is applied (the y angle counts when the
/// vector after the x turn lies along Y, the z angle when the vector after
/// the x and y turns lies along Z).
pub proof fn lemma_rotate_with_uv_law(rot: ModelRotation, d: CardinalDirection)
    ensures
        ({
            let v0 = dir_vec(d);
            let v1 = rot_n(Axis::X, v0, quarter_turns(rot.x) as nat);
            let v2 = rot_n(Axis::Y, v1, quarter_turns(rot.y) as nat);
            let v3 = rot_n(Axis::Z, v2, quarter_turns(rot.z) as nat);
            let tx = if v0.0 != 0 { quarter_turns(rot.x) } else { 0 };
            let ty = if v1.1 != 0 { quarter_turns(rot.y) } else { 0 };
            let tz = if v2.2 != 0 { quarter_turns(rot.z) } else { 0 };
            &&& dir_vec(rotate_with_uv_spec(rot, d).0) == v3
            &&& quarter_turns(rotate_with_uv_spec(rot, d).1) == (tx + ty + tz) % 4
        }),
{
    let d1 = d.rotate_spec(Axis::X, quarter_turns(rot.x) as nat);
    let d2 = d1.rotate_spec(Axis::Y, quarter_turns(rot.y) as nat);
    lemma_rotate_spec(d, Axis::X, quarter_turns(rot.x) as nat);
    lemma_rotate_spec(d1, Axis::Y, quarter_turns(rot.y) as nat);
    lemma_rotate_spec(d2, Axis::Z, quarter_turns(rot.z) as nat);
}

impl ModelRotation {
    pub fn zero() -> (r: Self)
        ensures
            r == (ModelRotation { x: GridAngle::Zero, y: GridAngle::Zero, z: GridAngle::Zero }),
    {
        ModelRotation { x: GridAngle::Zero, y: GridAngle::Zero, z: GridAngle::Zero }
    }

    /// The direction of a face after the rotation, with the rotation its
    /// texture takes.
    pub fn rotate_with_uv(self, direction: CardinalDirection) -> (r: (CardinalDirection, GridAngle))
        ensures
            r == rotate_with_uv_spec(self, direction),
    {
        let ghost d0 = direction;
        let mut direction = direction;
        let mut uv_rotation = GridAngle::Zero;
        if direction.axis == Axis::X {
            uv_rotation = uv_rotation.add(self.x);
        }
        direction = direction.rotate(Axis::X, self.x);
        proof {
            lemma_rotate_spec(d0, Axis::X, quarter_turns(self.x) as nat);
            lemma_dir_vec_injective(direction, d0.rotate_spec(Axis::X, quarter_turns(self.x) as nat));
        }
        let ghost d1 = direction;
        if direction.axis == Axis::Y {
            uv_rotation = uv_rotation.add(self.y);
        }
        direction = direction.rotate(Axis::Y, self.y);
        proof {
            lemma_rotate_spec(d1, Axis::Y, quarter_turns(self.y) as nat);
            lemma_dir_vec_injective(direction, d1.rotate_spec(Axis::Y, quarter_turns(self.y) as nat));
        }
        let ghost d2 = direction;
        if direction.axis == Axis::Z {
            uv_rotation = uv_rotation.add(self.z);
        }
        direction = direction.rotate(Axis::Z, self.z);
        proof {
            lemma_rotate_spec(d2, Axis::Z, quarter_turns(self.z) as nat);
            lemma_dir_vec_injective(direction, d2.rotate_spec(Axis::Z, quarter_turns(self.z) as nat));
        }
        (direction, uv_rotation)
    }
}

impl Default for ModelRotation {
    fn default() -> (r: Self)
        ensures
            r == (ModelRotation { x: GridAngle::Zero, y: GridAngle::Zero, z: GridAngle::Zero }),
    {
        ModelRotation::zero()
    }
}

} // verus!
