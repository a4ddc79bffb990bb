//! Coordinates and the arithmetic that groups them into 2x2x2 cubes.
use vstd::prelude::*;

verus! {

/// A point of the grid: `(x, y, z)`.
pub type Coord = (i32, i32, i32);

/// The even number at or just below `x`.
pub open spec fn spec_floor_even(x: i32) -> i32 {
    (x - x % 2) as i32
}

/// The leader of the cube that holds `c`: each component floored to an even number.
pub open spec fn spec_leader(c: Coord) -> Coord {
    (spec_floor_even(c.0), spec_floor_even(c.1), spec_floor_even(c.2))
}

/// Whether `c` is the all-even corner of its cube.
pub open spec fn is_leader(c: Coord) -> bool {
    c.0 % 2 == 0 && c.1 % 2 == 0 && c.2 % 2 == 0
}

/// Where `c` sits inside its cube: `c - leader(c)`, each component 0 or 1.
pub open spec fn spec_offset(c: Coord) -> Coord {
    ((c.0 % 2) as i32, (c.1 % 2) as i32, (c.2 % 2) as i32)
}

/// Whether two coordinates lie in the same cube.
pub open spec fn same_cube(a: Coord, b: Coord) -> bool {
    spec_leader(a) == spec_leader(b)
}

/// Whether every component of `d` is 0 or 1.
pub open spec fn is_offset(d: Coord) -> bool {
    (d.0 == 0 || d.0 == 1) && (d.1 == 0 || d.1 == 1) && (d.2 == 0 || d.2 == 1)
}

/// Componentwise sum, as mathematical integers.
pub open spec fn spec_sum(a: Coord, b: Coord) -> (int, int, int) {
    (a.0 + b.0, a.1 + b.1, a.2 + b.2)
}

/// Whether the componentwise sum of `a` and `b` is again a coordinate.
pub open spec fn sum_fits(a: Coord, b: Coord) -> bool {
    &&& i32::MIN <= a.0 + b.0 <= i32::MAX
    &&& i32::MIN <= a.1 + b.1 <= i32::MAX
    &&& i32::MIN <= a.2 + b.2 <= i32::MAX
}

/// Rounds `x` down to an even number.
fn floor_even(x: i32) -> (r: i32)
    ensures
        r == spec_floor_even(x),
{
    if x % 2 == 0 {
        x
    } else {
        x - 1
    }
}

/// Computes the leader of the cube that holds `coord`.
pub fn leader(coord: Coord) -> (l: Coord)
    ensures
        l == spec_leader(coord),
        is_leader(l),
        same_cube(l, coord),
{
    (floor_even(coord.0), floor_even(coord.1), floor_even(coord.2))
}

/// Computes the position of `coord` inside its cube.
pub fn offset(coord: Coord) -> (d: Coord)
    ensures
        d == spec_offset(coord),
        is_offset(d),
        spec_sum(spec_leader(coord), d) == (coord.0 as int, coord.1 as int, coord.2 as int),
{
    let l = leader(coord);
    (coord.0 - l.0, coord.1 - l.1, coord.2 - l.2)
}

/// Where a cursor on `coord` stands after a step of `increment`: on the
/// sum, or still on `coord` where the sum is no coordinate.
pub open spec fn spec_step_or_stay(coord: Coord, increment: Coord) -> Coord {
    if sum_fits(coord, increment) {
        (
            (coord.0 + increment.0) as i32,
            (coord.1 + increment.1) as i32,
            (coord.2 + increment.2) as i32,
        )
    } else {
        coord
    }
}

/// Tells whether `coord` can be moved by `increment` without leaving the
/// range of the coordinates.
pub fn step_fits(coord: Coord, increment: Coord) -> (fits: bool)
    ensures
        fits == sum_fits(coord, increment),
{
    let x: i64 = coord.0 as i64 + increment.0 as i64;
    let y: i64 = coord.1 as i64 + increment.1 as i64;
    let z: i64 = coord.2 as i64 + increment.2 as i64;
    -0x8000_0000 <= x && x <= 0x7fff_ffff && -0x8000_0000 <= y && y <= 0x7fff_ffff
        && -0x8000_0000 <= z && z <= 0x7fff_ffff
}

/// Moves `coord` by `increment`.
pub fn inc_coord(coord: Coord, increment: Coord) -> (moved: Coord)
    requires
        sum_fits(coord, increment),
    ensures
        spec_sum(coord, increment) == (moved.0 as int, moved.1 as int, moved.2 as int),
{
    (coord.0 + increment.0, coord.1 + increment.1, coord.2 + increment.2)
}

/// The integer under which a cube is filed in the index: the three components,
/// shifted to be non-negative, laid side by side.
pub open spec fn spec_cube_key(l: Coord) -> u128 {
    ((l.0 + 0x8000_0000) * 0x1_0000_0000_0000_0000 + (l.1 + 0x8000_0000) * 0x1_0000_0000 + (l.2
        + 0x8000_0000)) as u128
}

/// Computes the key under which the cube led by `l` is filed.
pub fn cube_key(l: Coord) -> (k: u128)
    ensures
        k == spec_cube_key(l),
{
    let x: u128 = (l.0 as i64 + 0x8000_0000) as u128;
    let y: u128 = (l.1 as i64 + 0x8000_0000) as u128;
    let z: u128 = (l.2 as i64 + 0x8000_0000) as u128;
    x * 0x1_0000_0000_0000_0000 + y * 0x1_0000_0000 + z
}

/// Distinct coordinates are filed under distinct keys.
pub proof fn lemma_cube_key_injective(a: Coord, b: Coord)
    ensures
        spec_cube_key(a) == spec_cube_key(b) <==> a == b,
{
}

} // verus!
