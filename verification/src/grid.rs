//! Cell coordinates and the four cardinal directions.

use vstd::prelude::*;

verus! {

/// A cell coordinate. `.0` is the column (x) and `.1` the row (y); `(0, 0)` is
/// the top-left cell. The components are signed so that a step off the grid
/// can be formed and then rejected.
#[derive(Debug, Clone, Copy, PartialEq, Eq, Structural)]
pub struct Vec2i(pub i32, pub i32);

/// A direction in space with integer components: `.0` points along the
/// columns, `.1` upwards and `.2` along the rows. A camera's forward vector is
/// handed over in this form, scaled by any positive factor.
#[derive(Debug, Clone, Copy, PartialEq, Eq, Structural)]
pub struct Vec3i(pub i32, pub i32, pub i32);

/// Number of cardinal directions.
pub const DIRECTION_COUNT: usize = 4;

/// The step that direction `index` takes on the grid, as `(dx, dy)`:
/// up, right, down, left for `0, 1, 2, 3`.
pub open spec fn direction_delta(index: int) -> (int, int) {
    if index == 0 {
        (0, -1)
    } else if index == 1 {
        (1, 0)
    } else if index == 2 {
        (0, 1)
    } else {
        (-1, 0)
    }
}

/// Direction `base` turned clockwise by `delta` quarter turns.
pub open spec fn rotated(base: int, delta: int) -> int {
    (base + delta) % 4
}

/// Dot product of direction `index`, laid flat into space, with `forward`.
pub open spec fn direction_dot(index: int, forward: Vec3i) -> int {
    if index == 0 {
        -forward.2
    } else if index == 1 {
        forward.0 as int
    } else if index == 2 {
        forward.2 as int
    } else {
        -forward.0
    }
}

/// Direction `index` laid flat into space: rows run along the third axis, the
/// second axis is up.
pub open spec fn flat_direction(index: int) -> Vec3i {
    if index == 0 {
        Vec3i(0, 0, -1i32)
    } else if index == 1 {
        Vec3i(1, 0, 0)
    } else if index == 2 {
        Vec3i(0, 0, 1)
    } else {
        Vec3i(-1i32, 0, 0)
    }
}

/// `index` is the first direction whose dot product with `forward` is the
/// largest of the four.
pub open spec fn is_closest(forward: Vec3i, index: int) -> bool {
    &&& 0 <= index < 4
    &&& forall|j: int| 0 <= j < 4 ==> direction_dot(j, forward) <= direction_dot(index, forward)
    &&& forall|j: int| 0 <= j < index ==> direction_dot(j, forward) < direction_dot(index, forward)
}

/// The index of the direction closest to `forward`, spelled out by
/// comparisons of the four dot products.
pub open spec fn closest_direction(forward: Vec3i) -> int {
    let up = -forward.2;
    let right = forward.0 as int;
    let down = forward.2 as int;
    let left = -forward.0;
    if up >= right && up >= down && up >= left {
        0
    } else if right >= down && right >= left {
        1
    } else if down >= left {
        2
    } else {
        3
    }
}

/// `closest_direction` names the one direction that `is_closest` accepts.
pub proof fn lemma_closest_direction(forward: Vec3i, index: int)
    ensures
        is_closest(forward, index) <==> index == closest_direction(forward),
{
    if is_closest(forward, index) {
        assert(direction_dot(0, forward) <= direction_dot(index, forward));
        assert(direction_dot(1, forward) <= direction_dot(index, forward));
        assert(direction_dot(2, forward) <= direction_dot(index, forward));
        assert(direction_dot(3, forward) <= direction_dot(index, forward));
    }
}

impl View for Vec2i {
    type V = (int, int);

    open spec fn view(&self) -> (int, int) {
        (self.0 as int, self.1 as int)
    }
}

impl Vec2i {
    /// The cell at column `position.0`, row `position.1`. Components beyond
    /// `i32::MAX` wrap around as a cast does.
    pub fn new(position: (usize, usize)) -> (cell: Vec2i)
        ensures
            cell.0 == position.0 as i32,
            cell.1 == position.1 as i32,
            position.0 <= i32::MAX ==> cell.0 == position.0,
            position.1 <= i32::MAX ==> cell.1 == position.1,
    {
        Vec2i(
            #[verifier::truncate]
            (position.0 as i32),
            #[verifier::truncate]
            (position.1 as i32),
        )
    }

    /// Whether one step in direction `direction_index` stays within `i32`.
    pub open spec fn can_step(self, direction_index: int) -> bool {
        &&& i32::MIN <= self.0 + direction_delta(direction_index).0 <= i32::MAX
        &&& i32::MIN <= self.1 + direction_delta(direction_index).1 <= i32::MAX
    }

    /// The neighbouring cell one step in direction `direction_index`.
    pub fn get_next(&self, direction_index: usize) -> (next: Vec2i)
        requires
            direction_index < 4,
            self.can_step(direction_index as int),
        ensures
            next@.0 == self@.0 + direction_delta(direction_index as int).0,
            next@.1 == self@.1 + direction_delta(direction_index as int).1,
    {
        *self + Directions::get_2d(direction_index)
    }

    /// The coordinate as a pair of indices, or `None` if a component is
    /// negative.
    pub fn to_usize(self) -> (indices: Option<(usize, usize)>)
        ensures
            (self.0 >= 0 && self.1 >= 0) ==> indices == Some((self.0 as usize, self.1 as usize)),
            (self.0 < 0 || self.1 < 0) ==> indices.is_none(),
    {
        if self.0 >= 0 && self.1 >= 0 {
            Some((self.0 as usize, self.1 as usize))
        } else {
            None
        }
    }
}

impl core::ops::Add<Vec2i> for Vec2i {
    type Output = Vec2i;

    /// Component-wise sum.
    fn add(self, rhs: Vec2i) -> (sum: Vec2i) {
        Vec2i(self.0 + rhs.0, self.1 + rhs.1)
    }
}

impl vstd::std_specs::ops::AddSpecImpl<Vec2i> for Vec2i {
    open spec fn obeys_add_spec() -> bool {
        true
    }

    open spec fn add_req(self, rhs: Vec2i) -> bool {
        &&& i32::MIN <= self.0 + rhs.0 <= i32::MAX
        &&& i32::MIN <= self.1 + rhs.1 <= i32::MAX
    }

    open spec fn add_spec(self, rhs: Vec2i) -> Vec2i {
        Vec2i((self.0 + rhs.0) as i32, (self.1 + rhs.1) as i32)
    }
}

/// The four cardinal directions in their fixed cyclic order: up `(0, -1)`,
/// right `(1, 0)`, down `(0, 1)`, left `(-1, 0)`.
pub struct Directions;

impl Directions {
    /// The grid step of direction `direction_index`.
    pub fn get_2d(direction_index: usize) -> (delta: Vec2i)
        requires
            direction_index < 4,
        ensures
            delta@ == direction_delta(direction_index as int),
    {
        if direction_index == 0 {
            Vec2i(0, -1)
        } else if direction_index == 1 {
            Vec2i(1, 0)
        } else if direction_index == 2 {
            Vec2i(0, 1)
        } else {
            Vec2i(-1, 0)
        }
    }

    /// Direction `direction_index` laid flat into space: rows run along the
    /// third axis, the second axis is up.
    pub fn get_3d(direction_index: usize) -> (flat: Vec3i)
        requires
            direction_index < 4,
        ensures
            flat == flat_direction(direction_index as int),
    {
        let dir = Self::get_2d(direction_index);
        Vec3i(dir.0, 0, dir.1)
    }

    /// The direction that `camera_forward` points along most closely: the
    /// first of the four with the largest dot product.
    pub fn get_closest(camera_forward: Vec3i) -> (index: usize)
        ensures
            is_closest(camera_forward, index as int),
            index == closest_direction(camera_forward),
            index < 4,
    {
        let mut base_index: usize = 0;
        let mut base_dot: i64 = i64::MIN;
        let mut index: usize = 0;
        while index < DIRECTION_COUNT
            invariant
                0 <= index <= 4,
                0 <= base_index < 4,
                index == 0 ==> base_dot == i64::MIN && base_index == 0,
                index > 0 ==> base_index < index && base_dot == direction_dot(
                    base_index as int,
                    camera_forward,
                ),
                forall|j: int| 0 <= j < index ==> direction_dot(j, camera_forward) <= base_dot,
                forall|j: int|
                    0 <= j < base_index ==> direction_dot(j, camera_forward) < base_dot,
            decreases 4 - index,
        {
            let dir = Self::get_3d(index);
            let dot: i64 = Self::dot(dir, camera_forward);
            assert(dot == direction_dot(index as int, camera_forward)) by {
                if index == 0 {
                    assert(dir == Vec3i(0, 0, -1i32));
                } else if index == 1 {
                    assert(dir == Vec3i(1, 0, 0));
                } else if index == 2 {
                    assert(dir == Vec3i(0, 0, 1));
                } else {
                    assert(dir == Vec3i(-1i32, 0, 0));
                }
            }
            if dot > base_dot {
                base_dot = dot;
                base_index = index;
            }
            index += 1;
        }
        proof {
            lemma_closest_direction(camera_forward, base_index as int);
        }
        base_index
    }

    /// Dot product of a flat unit direction with `forward`.
    fn dot(dir: Vec3i, forward: Vec3i) -> (product: i64)
        requires
            -1 <= dir.0 <= 1,
            dir.1 == 0,
            -1 <= dir.2 <= 1,
        ensures
            product == dir.0 * forward.0 + dir.2 * forward.2,
    {
        assert(-0x8000_0000 <= dir.0 * forward.0 <= 0x8000_0000) by (nonlinear_arith)
            requires
                -1 <= dir.0 <= 1,
                -0x8000_0000 <= forward.0 < 0x8000_0000,
        ;
        assert(-0x8000_0000 <= dir.2 * forward.2 <= 0x8000_0000) by (nonlinear_arith)
            requires
                -1 <= dir.2 <= 1,
                -0x8000_0000 <= forward.2 < 0x8000_0000,
        ;
        let along_x: i64 = (dir.0 as i64) * (forward.0 as i64);
        let along_z: i64 = (dir.2 as i64) * (forward.2 as i64);
        along_x + along_z
    }

    /// Direction `base` turned clockwise by `delta` quarter turns.
    pub fn rotate(base: usize, delta: usize) -> (turned: usize)
        requires
            base + delta <= usize::MAX,
        ensures
            turned == rotated(base as int, delta as int),
            turned < 4,
    {
        (base + delta) % 4
    }
}

/// For each of the four directions, the flat vector of that direction is
/// closest to the direction itself.
pub proof fn lemma_closest_inverts_get_3d(index: int)
    requires
        0 <= index < 4,
    ensures
        is_closest(flat_direction(index), index),
{
}

/// Turning a direction by 0, 1, 2 and 3 quarter turns visits each of the four
/// directions exactly once.
pub proof fn lemma_rotation_visits_each_once(base: int, target: int)
    requires
        0 <= base < 4,
        0 <= target < 4,
    ensures
        exists|k: int| 0 <= k < 4 && rotated(base, k) == target,
        forall|k1: int, k2: int|
            0 <= k1 < 4 && 0 <= k2 < 4 && rotated(base, k1) == target && rotated(base, k2)
                == target ==> k1 == k2,
{
    let k = (target - base + 4) % 4;
    assert(0 <= k < 4 && rotated(base, k) == target);
}

} // verus!
