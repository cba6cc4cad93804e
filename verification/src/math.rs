//! Integer vectors, boxes and orthogonal bases.

use crate::grid;
use crate::grid::Cell;
use vstd::prelude::*;

verus! {

/// A vector of three signed 32-bit integers.
#[derive(Clone, Copy, Debug, PartialEq, Eq, Hash, Structural)]
pub struct Vector3i {
    pub x: i32,
    pub y: i32,
    pub z: i32,
}

impl View for Vector3i {
    type V = Cell;

    open spec fn view(&self) -> Cell {
        Cell { x: self.x as int, y: self.y as int, z: self.z as int }
    }
}

impl Vector3i {
    /// The vector that stands for `c`, where its components fit.
    pub open spec fn from_cell(c: Cell) -> Vector3i {
        Vector3i { x: c.x as i32, y: c.y as i32, z: c.z as i32 }
    }

    pub fn new(x: i32, y: i32, z: i32) -> (v: Vector3i)
        ensures
            v == (Vector3i { x, y, z }),
    {
        Vector3i { x, y, z }
    }

    pub fn zero() -> (v: Vector3i)
        ensures
            v@ == Cell::zero(),
    {
        Vector3i { x: 0, y: 0, z: 0 }
    }

    pub fn splat(s: i32) -> (v: Vector3i)
        ensures
            v@ == Cell::splat(s as int),
    {
        Vector3i { x: s, y: s, z: s }
    }

    pub fn plus(self, other: Vector3i) -> (v: Vector3i)
        requires
            self@.plus(other@).fits(),
        ensures
            v@ == self@.plus(other@),
    {
        Vector3i { x: self.x + other.x, y: self.y + other.y, z: self.z + other.z }
    }

    pub fn minus(self, other: Vector3i) -> (v: Vector3i)
        requires
            self@.minus(other@).fits(),
        ensures
            v@ == self@.minus(other@),
    {
        Vector3i { x: self.x - other.x, y: self.y - other.y, z: self.z - other.z }
    }

    /// Componentwise product with a scalar.
    pub fn times(self, k: i32) -> (v: Vector3i)
        requires
            self@.times(k as int).fits(),
        ensures
            v@ == self@.times(k as int),
    {
        Vector3i { x: self.x * k, y: self.y * k, z: self.z * k }
    }

    /// Componentwise floor division by a positive divisor.
    pub fn floor_div(self, divisor: i32) -> (v: Vector3i)
        requires
            divisor > 0,
        ensures
            v@ == self@.over(divisor as int),
    {
        Vector3i {
            x: floor_div(self.x, divisor),
            y: floor_div(self.y, divisor),
            z: floor_div(self.z, divisor),
        }
    }

    /// Componentwise clamp to `[lo, hi]`.
    pub fn clamp(self, lo: Vector3i, hi: Vector3i) -> (v: Vector3i)
        ensures
            v@ == self@.clamp(lo@, hi@),
    {
        Vector3i {
            x: clamp(self.x, lo.x, hi.x),
            y: clamp(self.y, lo.y, hi.y),
            z: clamp(self.z, lo.z, hi.z),
        }
    }

    /// Orders each pair of components so that `a` holds the smaller ones.
    pub fn sort_min_max(a: &mut Vector3i, b: &mut Vector3i)
        ensures
            final(a)@ == old(a)@.min(old(b)@),
            final(b)@ == old(a)@.max(old(b)@),
    {
        let lo = Vector3i {
            x: if a.x <= b.x { a.x } else { b.x },
            y: if a.y <= b.y { a.y } else { b.y },
            z: if a.z <= b.z { a.z } else { b.z },
        };
        let hi = Vector3i {
            x: if a.x <= b.x { b.x } else { a.x },
            y: if a.y <= b.y { b.y } else { a.y },
            z: if a.z <= b.z { b.z } else { a.z },
        };
        *a = lo;
        *b = hi;
    }

    /// Flat index of this cell in a ZXY array of extent `size`.
    pub fn zxy_index(self, size: Vector3i) -> (i: usize)
        requires
            self@.in_grid(size@),
            grid::zxy(size@, self@) <= usize::MAX,
        ensures
            i == grid::zxy(size@, self@),
    {
        proof {
            grid::lemma_zxy_bounds(size@, self@);
        }
        let slab: usize = size.x as usize * self.z as usize;
        let row: usize = self.x as usize + slab;
        proof {
            assert(size.y * row <= grid::zxy(size@, self@));
            assert(0 <= size.y * row) by (nonlinear_arith)
                requires
                    0 <= size.y,
                    0 <= row,
            ;
        }
        self.y as usize + size.y as usize * row
    }

    /// Number of cells of a grid with this extent.
    pub fn volume_u64(self) -> (v: u64)
        requires
            Cell::zero().le(self@),
            grid::volume(self@) <= u64::MAX,
        ensures
            v == grid::volume(self@),
    {
        proof {
            assert(0 <= self.x * self.y <= 0x7fff_ffff * 0x7fff_ffff) by (nonlinear_arith)
                requires
                    0 <= self.x <= 0x7fff_ffff,
                    0 <= self.y <= 0x7fff_ffff,
            ;
        }
        self.x as u64 * self.y as u64 * self.z as u64
    }

    /// One component is 1 or -1 and the others are 0.
    pub open spec fn unit(self) -> bool {
        ||| (self.x == 1 || self.x == -1) && self.y == 0 && self.z == 0
        ||| self.x == 0 && (self.y == 1 || self.y == -1) && self.z == 0
        ||| self.x == 0 && self.y == 0 && (self.z == 1 || self.z == -1)
    }

    pub fn is_unit_vector(self) -> (b: bool)
        ensures
            b == self.unit(),
    {
        (self.x == 1 || self.x == -1) && self.y == 0 && self.z == 0 || self.x == 0 && (self.y == 1
            || self.y == -1) && self.z == 0 || self.x == 0 && self.y == 0 && (self.z == 1 || self.z
            == -1)
    }
}

/// Clamps `v` to `[lo, hi]`; the lower bound is tested first.
pub fn clamp(v: i32, lo: i32, hi: i32) -> (r: i32)
    ensures
        r == grid::clamp_int(v as int, lo as int, hi as int),
{
    if v < lo {
        lo
    } else if v > hi {
        hi
    } else {
        v
    }
}

/// Division rounded towards negative infinity.
pub fn floor_div(v: i32, divisor: i32) -> (q: i32)
    requires
        divisor > 0,
    ensures
        q == v as int / divisor as int,
{
    if v >= 0 {
        v / divisor
    } else {
        let n: i64 = -(v as i64);
        let d: i64 = divisor as i64;
        let q: i64 = (n + d - 1) / d;
        proof {
            assert(-q == v as int / divisor as int && 0 < q <= n) by (nonlinear_arith)
                requires
                    v < 0,
                    divisor > 0,
                    n == -v,
                    d == divisor,
                    q == (n + d - 1) / d as int,
            ;
        }
        (-q) as i32
    }
}

/// A coordinate axis.
#[derive(Clone, Copy, Debug, PartialEq, Eq, Hash, Structural)]
pub enum Axis {
    X,
    Y,
    Z,
}

/// Three mutually orthogonal unit vectors: where the X, Y and Z axes of a
/// volume go when it is rotated or flipped.
#[derive(Clone, Copy, Debug, PartialEq, Eq, Hash, Structural)]
pub struct OrthoBasis {
    pub x: Vector3i,
    pub y: Vector3i,
    pub z: Vector3i,
}

/// `v` carried along a basis component: kept, negated or dropped.
pub open spec fn signed_int(b: int, v: int) -> int {
    if b > 0 {
        v
    } else if b < 0 {
        -v
    } else {
        0
    }
}

impl OrthoBasis {
    /// The vectors are unit vectors along three different axes.
    pub open spec fn wf(self) -> bool {
        &&& self.x.unit()
        &&& self.y.unit()
        &&& self.z.unit()
        &&& (self.x.x != 0) as int + (self.y.x != 0) as int + (self.z.x != 0) as int == 1
        &&& (self.x.y != 0) as int + (self.y.y != 0) as int + (self.z.y != 0) as int == 1
        &&& (self.x.z != 0) as int + (self.y.z != 0) as int + (self.z.z != 0) as int == 1
    }

    /// The image of `c`: `c.x` steps along `self.x`, and so on.
    pub open spec fn image(self, c: Cell) -> Cell {
        Cell {
            x: signed_int(self.x.x as int, c.x) + signed_int(self.y.x as int, c.y) + signed_int(
                self.z.x as int,
                c.z,
            ),
            y: signed_int(self.x.y as int, c.x) + signed_int(self.y.y as int, c.y) + signed_int(
                self.z.y as int,
                c.z,
            ),
            z: signed_int(self.x.z as int, c.x) + signed_int(self.y.z as int, c.y) + signed_int(
                self.z.z as int,
                c.z,
            ),
        }
    }

    /// The cell whose image is `c`.
    pub open spec fn preimage(self, c: Cell) -> Cell {
        Cell {
            x: signed_int(self.x.x as int, c.x) + signed_int(self.x.y as int, c.y) + signed_int(
                self.x.z as int,
                c.z,
            ),
            y: signed_int(self.y.x as int, c.x) + signed_int(self.y.y as int, c.y) + signed_int(
                self.y.z as int,
                c.z,
            ),
            z: signed_int(self.z.x as int, c.x) + signed_int(self.z.y as int, c.y) + signed_int(
                self.z.z as int,
                c.z,
            ),
        }
    }

    /// A quarter turn around `axis`, clockwise when looking along it.
    pub open spec fn turned(v: Vector3i, axis: Axis) -> Vector3i {
        match axis {
            Axis::X => Vector3i { x: v.x, y: (-v.z) as i32, z: v.y },
            Axis::Y => Vector3i { x: v.z, y: v.y, z: (-v.x) as i32 },
            Axis::Z => Vector3i { x: (-v.y) as i32, y: v.x, z: v.z },
        }
    }

    /// The identity after `turns` quarter turns around `axis`.
    pub open spec fn turns_spec(axis: Axis, turns: nat) -> OrthoBasis
        decreases turns,
    {
        if turns == 0 {
            OrthoBasis {
                x: Vector3i { x: 1, y: 0, z: 0 },
                y: Vector3i { x: 0, y: 1, z: 0 },
                z: Vector3i { x: 0, y: 0, z: 1 },
            }
        } else {
            let b = OrthoBasis::turns_spec(axis, (turns - 1) as nat);
            OrthoBasis {
                x: OrthoBasis::turned(b.x, axis),
                y: OrthoBasis::turned(b.y, axis),
                z: OrthoBasis::turned(b.z, axis),
            }
        }
    }

    fn turn(v: Vector3i, axis: Axis) -> (r: Vector3i)
        requires
            v.unit(),
        ensures
            r == OrthoBasis::turned(v, axis),
            r.unit(),
    {
        match axis {
            Axis::X => Vector3i { x: v.x, y: -v.z, z: v.y },
            Axis::Y => Vector3i { x: v.z, y: v.y, z: -v.x },
            Axis::Z => Vector3i { x: -v.y, y: v.x, z: v.z },
        }
    }

    /// The basis of `turns` quarter turns around `axis`.
    pub fn from_axis_turns(axis: Axis, turns: u32) -> (b: OrthoBasis)
        ensures
            b == OrthoBasis::turns_spec(axis, turns as nat),
            b.wf(),
    {
        let mut b = OrthoBasis::default();
        let mut i: u32 = 0;
        while i < turns
            invariant
                i <= turns,
                b == OrthoBasis::turns_spec(axis, i as nat),
                b.wf(),
            decreases turns - i,
        {
            b =
            OrthoBasis {
                x: OrthoBasis::turn(b.x, axis),
                y: OrthoBasis::turn(b.y, axis),
                z: OrthoBasis::turn(b.z, axis),
            };
            i = i + 1;
        }
        b
    }

    /// The image of axis `i`.
    pub fn get_axis(self, i: usize) -> (v: Vector3i)
        requires
            i < 3,
        ensures
            v == (if i == 0 {
                self.x
            } else if i == 1 {
                self.y
            } else {
                self.z
            }),
    {
        if i == 0 {
            self.x
        } else if i == 1 {
            self.y
        } else {
            self.z
        }
    }
}

impl Default for OrthoBasis {
    fn default() -> (b: OrthoBasis)
        ensures
            b == OrthoBasis::turns_spec(Axis::X, 0),
            b == OrthoBasis::turns_spec(Axis::Y, 0),
            b == OrthoBasis::turns_spec(Axis::Z, 0),
            b.wf(),
    {
        OrthoBasis {
            x: Vector3i { x: 1, y: 0, z: 0 },
            y: Vector3i { x: 0, y: 1, z: 0 },
            z: Vector3i { x: 0, y: 0, z: 1 },
        }
    }
}

} // verus!
