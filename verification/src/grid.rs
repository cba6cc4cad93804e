//! The mathematics of flat ZXY arrays: cells, their flat indices, and the
//! effect of writing a box of cells in ZXY order (Z outermost, Y innermost).

use vstd::arithmetic::div_mod::{
    lemma_div_pos_is_pos, lemma_fundamental_div_mod, lemma_fundamental_div_mod_converse,
    lemma_mod_bound,
};
use vstd::prelude::*;

verus! {

/// A cell of an integer grid, or the extent of one.
pub struct Cell {
    pub x: int,
    pub y: int,
    pub z: int,
}

impl Cell {
    pub open spec fn zero() -> Cell {
        Cell { x: 0, y: 0, z: 0 }
    }

    pub open spec fn splat(v: int) -> Cell {
        Cell { x: v, y: v, z: v }
    }

    pub open spec fn plus(self, other: Cell) -> Cell {
        Cell { x: self.x + other.x, y: self.y + other.y, z: self.z + other.z }
    }

    pub open spec fn minus(self, other: Cell) -> Cell {
        Cell { x: self.x - other.x, y: self.y - other.y, z: self.z - other.z }
    }

    pub open spec fn times(self, k: int) -> Cell {
        Cell { x: self.x * k, y: self.y * k, z: self.z * k }
    }

    /// Componentwise floor division.
    pub open spec fn over(self, k: int) -> Cell {
        Cell { x: self.x / k, y: self.y / k, z: self.z / k }
    }

    /// Componentwise minimum.
    pub open spec fn min(self, other: Cell) -> Cell {
        Cell {
            x: min_int(self.x, other.x),
            y: min_int(self.y, other.y),
            z: min_int(self.z, other.z),
        }
    }

    /// Componentwise maximum.
    pub open spec fn max(self, other: Cell) -> Cell {
        Cell {
            x: max_int(self.x, other.x),
            y: max_int(self.y, other.y),
            z: max_int(self.z, other.z),
        }
    }

    /// Componentwise clamp to `[lo, hi]`; the lower bound is tested first.
    pub open spec fn clamp(self, lo: Cell, hi: Cell) -> Cell {
        Cell {
            x: clamp_int(self.x, lo.x, hi.x),
            y: clamp_int(self.y, lo.y, hi.y),
            z: clamp_int(self.z, lo.z, hi.z),
        }
    }

    /// Every component of `self` is at most that of `other`.
    pub open spec fn le(self, other: Cell) -> bool {
        self.x <= other.x && self.y <= other.y && self.z <= other.z
    }

    /// Every component of `self` is below that of `other`.
    pub open spec fn lt(self, other: Cell) -> bool {
        self.x < other.x && self.y < other.y && self.z < other.z
    }

    /// Every component fits a signed 32-bit integer.
    pub open spec fn fits(self) -> bool {
        &&& i32::MIN <= self.x <= i32::MAX
        &&& i32::MIN <= self.y <= i32::MAX
        &&& i32::MIN <= self.z <= i32::MAX
    }

    /// `self` lies in the half-open box `[lo, hi)`.
    pub open spec fn within(self, lo: Cell, hi: Cell) -> bool {
        lo.le(self) && self.lt(hi)
    }

    /// `self` is a cell of a grid with extent `size`.
    pub open spec fn in_grid(self, size: Cell) -> bool {
        self.within(Cell::zero(), size)
    }

    /// Strictly before `other` in ZXY order.
    pub open spec fn before(self, other: Cell) -> bool {
        ||| self.z < other.z
        ||| self.z == other.z && self.x < other.x
        ||| self.z == other.z && self.x == other.x && self.y < other.y
    }
}

pub open spec fn min_int(a: int, b: int) -> int {
    if a <= b { a } else { b }
}

pub open spec fn max_int(a: int, b: int) -> int {
    if a >= b { a } else { b }
}

pub open spec fn clamp_int(v: int, lo: int, hi: int) -> int {
    if v < lo {
        lo
    } else if v > hi {
        hi
    } else {
        v
    }
}

/// Number of cells of a grid with extent `size`.
pub open spec fn volume(size: Cell) -> int {
    size.x * size.y * size.z
}

/// Flat index of cell `c` in a ZXY array of extent `size`.
pub open spec fn zxy(size: Cell, c: Cell) -> int {
    c.y + size.y * (c.x + size.x * c.z)
}

/// The cell that flat index `i` stands for.
pub open spec fn cell_at(size: Cell, i: int) -> Cell {
    Cell { x: (i / size.y) % size.x, y: i % size.y, z: (i / size.y) / size.x }
}

/// The flat index of a cell of the grid lies inside the array.
pub proof fn lemma_zxy_bounds(size: Cell, c: Cell)
    requires
        c.in_grid(size),
    ensures
        0 <= c.x + size.x * c.z <= zxy(size, c) < volume(size),
        0 <= size.x * c.z,
{
    let t = c.x + size.x * c.z;
    let rows = size.x * size.z;
    assert(0 <= size.x * c.z) by (nonlinear_arith)
        requires
            0 <= c.z,
            0 < size.x,
    ;
    assert(t < rows) by (nonlinear_arith)
        requires
            t == c.x + size.x * c.z,
            rows == size.x * size.z,
            0 <= c.x < size.x,
            0 <= c.z < size.z,
    ;
    assert(t <= size.y * t) by (nonlinear_arith)
        requires
            0 <= t,
            1 <= size.y,
    ;
    assert(c.y + size.y * t < size.y * rows) by (nonlinear_arith)
        requires
            t < rows,
            0 <= c.y < size.y,
    ;
    assert(size.y * rows == volume(size)) by (nonlinear_arith)
        requires
            rows == size.x * size.z,
            volume(size) == size.x * size.y * size.z,
    ;
}

/// `cell_at` undoes `zxy` on the cells of the grid.
pub proof fn lemma_cell_at_zxy(size: Cell, c: Cell)
    requires
        c.in_grid(size),
    ensures
        cell_at(size, zxy(size, c)) == c,
        0 <= zxy(size, c) < volume(size),
{
    lemma_zxy_bounds(size, c);
    let t = c.x + size.x * c.z;
    let i = zxy(size, c);
    lemma_fundamental_div_mod_converse(i, size.y, t, c.y);
    lemma_fundamental_div_mod_converse(t, size.x, c.z, c.x);
}

/// `zxy` undoes `cell_at` on the indices of the array.
pub proof fn lemma_zxy_cell_at(size: Cell, i: int)
    requires
        Cell::zero().lt(size),
        0 <= i < volume(size),
    ensures
        cell_at(size, i).in_grid(size),
        zxy(size, cell_at(size, i)) == i,
{
    let t = i / size.y;
    lemma_fundamental_div_mod(i, size.y);
    lemma_fundamental_div_mod(t, size.x);
    lemma_mod_bound(i, size.y);
    lemma_mod_bound(t, size.x);
    lemma_div_pos_is_pos(i, size.y);
    lemma_div_pos_is_pos(t, size.x);
    let q = t / size.x;
    assert(q < size.z) by (nonlinear_arith)
        requires
            i == size.y * t + i % size.y,
            t == size.x * q + t % size.x,
            0 <= i % size.y,
            0 <= t % size.x,
            i < size.x * size.y * size.z,
            size.x > 0,
            size.y > 0,
    {
        if q >= size.z {
            assert(size.x * q >= size.x * size.z);
            assert(size.y * t >= size.y * (size.x * size.z));
        }
    }
}

/// Flat indices are in the same order as the cells they stand for.
pub proof fn lemma_index_order(size: Cell, i: int, j: int)
    requires
        Cell::zero().lt(size),
        0 <= i < j < volume(size),
    ensures
        cell_at(size, i).before(cell_at(size, j)),
{
    lemma_zxy_cell_at(size, i);
    lemma_zxy_cell_at(size, j);
    let a = cell_at(size, i);
    let b = cell_at(size, j);
    let ra = a.x + size.x * a.z;
    let rb = b.x + size.x * b.z;
    assert(ra <= rb) by (nonlinear_arith)
        requires
            a.y + size.y * ra < b.y + size.y * rb,
            0 <= a.y < size.y,
            0 <= b.y < size.y,
    ;
    assert(a.z <= b.z) by (nonlinear_arith)
        requires
            ra == a.x + size.x * a.z,
            rb == b.x + size.x * b.z,
            ra <= rb,
            0 <= a.x < size.x,
            0 <= b.x < size.x,
    ;
}

/// A grid with an empty side has no cells, and one with positive sides has some.
pub proof fn lemma_volume_sign(size: Cell)
    requires
        Cell::zero().le(size),
    ensures
        volume(size) >= 0,
        Cell::zero().lt(size) <==> volume(size) > 0,
{
    assert(volume(size) >= 0 && (volume(size) > 0 <==> (size.x > 0 && size.y > 0 && size.z > 0)))
        by (nonlinear_arith)
        requires
            volume(size) == size.x * size.y * size.z,
            size.x >= 0,
            size.y >= 0,
            size.z >= 0,
    ;
}

/// The array after the cells of `[lo, hi)` have each been given the value `f`
/// names for them. Elements behind the grid's volume are left alone.
pub open spec fn region_write<T>(
    old_values: Seq<T>,
    size: Cell,
    lo: Cell,
    hi: Cell,
    f: spec_fn(Cell) -> T,
) -> Seq<T> {
    Seq::new(
        old_values.len(),
        |i: int|
            if i < volume(size) && cell_at(size, i).within(lo, hi) {
                f(cell_at(size, i))
            } else {
                old_values[i]
            },
    )
}

/// `region_write` carried out for the cells before `cursor` only.
pub open spec fn region_write_before<T>(
    old_values: Seq<T>,
    size: Cell,
    lo: Cell,
    hi: Cell,
    f: spec_fn(Cell) -> T,
    cursor: Cell,
) -> Seq<T> {
    Seq::new(
        old_values.len(),
        |i: int|
            if i < volume(size) && cell_at(size, i).within(lo, hi) && cell_at(size, i).before(
                cursor,
            ) {
                f(cell_at(size, i))
            } else {
                old_values[i]
            },
    )
}

/// Nothing has been written at the start of the box.
pub proof fn lemma_region_start<T>(
    old_values: Seq<T>,
    size: Cell,
    lo: Cell,
    hi: Cell,
    f: spec_fn(Cell) -> T,
)
    ensures
        region_write_before(old_values, size, lo, hi, f, Cell { x: lo.x, y: lo.y, z: lo.z })
            == old_values,
{
    assert(region_write_before(old_values, size, lo, hi, f, lo) =~= old_values);
}

/// Writing the cell at the cursor moves the cursor on by one.
pub proof fn lemma_region_step<T>(
    old_values: Seq<T>,
    size: Cell,
    lo: Cell,
    hi: Cell,
    f: spec_fn(Cell) -> T,
    c: Cell,
)
    requires
        c.within(lo, hi),
        c.in_grid(size),
        zxy(size, c) < old_values.len(),
    ensures
        region_write_before(old_values, size, lo, hi, f, c).update(zxy(size, c), f(c))
            == region_write_before(
            old_values,
            size,
            lo,
            hi,
            f,
            Cell { x: c.x, y: c.y + 1, z: c.z },
        ),
        0 <= zxy(size, c) < volume(size),
{
    lemma_cell_at_zxy(size, c);
    let k = zxy(size, c);
    let next = Cell { x: c.x, y: c.y + 1, z: c.z };
    let left = region_write_before(old_values, size, lo, hi, f, c).update(k, f(c));
    let right = region_write_before(old_values, size, lo, hi, f, next);
    assert forall|i: int| 0 <= i < old_values.len() implies left[i] == right[i] by {
        if i < volume(size) {
            lemma_zxy_cell_at(size, i);
            let d = cell_at(size, i);
            if i != k {
                assert(d != c);
                assert(d.before(c) <==> d.before(next));
            }
        }
    }
    assert(left =~= right);
}

/// The end of a row is the start of the next one.
pub proof fn lemma_region_row_end<T>(
    old_values: Seq<T>,
    size: Cell,
    lo: Cell,
    hi: Cell,
    f: spec_fn(Cell) -> T,
    x: int,
    z: int,
)
    ensures
        region_write_before(old_values, size, lo, hi, f, Cell { x, y: hi.y, z })
            == region_write_before(old_values, size, lo, hi, f, Cell { x: x + 1, y: lo.y, z }),
{
    assert(region_write_before(old_values, size, lo, hi, f, Cell { x, y: hi.y, z })
        =~= region_write_before(old_values, size, lo, hi, f, Cell { x: x + 1, y: lo.y, z }));
}

/// The end of a slab is the start of the next one.
pub proof fn lemma_region_slab_end<T>(
    old_values: Seq<T>,
    size: Cell,
    lo: Cell,
    hi: Cell,
    f: spec_fn(Cell) -> T,
    z: int,
)
    ensures
        region_write_before(old_values, size, lo, hi, f, Cell { x: hi.x, y: lo.y, z })
            == region_write_before(
            old_values,
            size,
            lo,
            hi,
            f,
            Cell { x: lo.x, y: lo.y, z: z + 1 },
        ),
{
    assert(region_write_before(old_values, size, lo, hi, f, Cell { x: hi.x, y: lo.y, z })
        =~= region_write_before(
        old_values,
        size,
        lo,
        hi,
        f,
        Cell { x: lo.x, y: lo.y, z: z + 1 },
    ));
}

/// Behind the last slab the whole box has been written.
pub proof fn lemma_region_done<T>(
    old_values: Seq<T>,
    size: Cell,
    lo: Cell,
    hi: Cell,
    f: spec_fn(Cell) -> T,
)
    ensures
        region_write_before(old_values, size, lo, hi, f, Cell { x: lo.x, y: lo.y, z: hi.z })
            == region_write(old_values, size, lo, hi, f),
{
    assert(region_write_before(
        old_values,
        size,
        lo,
        hi,
        f,
        Cell { x: lo.x, y: lo.y, z: hi.z },
    ) =~= region_write(old_values, size, lo, hi, f));
}

} // verus!
