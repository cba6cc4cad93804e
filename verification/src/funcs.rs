//! Copying, filling and transforming boxes of flat ZXY arrays.

use crate::grid;
use crate::grid::Cell;
use crate::math;
use crate::math::{OrthoBasis, Vector3i};
use vstd::prelude::*;

verus! {

/// Where a copy along one axis starts and ends once both sides are clipped:
/// the new source minimum and maximum and the new destination minimum. The
/// offset between source and destination is kept.
pub open spec fn clip_coord(
    src_min: int,
    src_max: int,
    src_size: int,
    dst_min: int,
    dst_size: int,
) -> (int, int, int) {
    let shift = dst_min - src_min;
    let lo = grid::max_int(src_min, grid::max_int(0, -shift));
    let hi = grid::min_int(src_max, grid::min_int(src_size, dst_size - shift));
    (lo, hi, lo + shift)
}

/// Every value met while clipping one axis fits a signed 32-bit integer.
pub open spec fn clip_coord_fits(
    src_min: int,
    src_max: int,
    src_size: int,
    dst_min: int,
    dst_size: int,
) -> bool {
    let lo = clip_coord(src_min, src_max, src_size, dst_min, dst_size).0;
    let start = grid::max_int(src_min, 0) + dst_min - src_min;
    let width = grid::min_int(src_max, src_size) - lo;
    let end = width + lo + dst_min - src_min;
    &&& src_min > i32::MIN
    &&& start <= i32::MAX
    &&& start < 0 ==> start > i32::MIN && lo <= i32::MAX
    &&& i32::MIN <= width <= i32::MAX
    &&& i32::MIN <= end <= i32::MAX
    &&& end > dst_size ==> end - dst_size <= i32::MAX && dst_size - (dst_min - src_min) >= i32::MIN
}

/// `clip_coord` on all three axes: new source minimum, source maximum and
/// destination minimum.
pub open spec fn clip_region(
    src_min: Cell,
    src_max: Cell,
    src_size: Cell,
    dst_min: Cell,
    dst_size: Cell,
) -> (Cell, Cell, Cell) {
    let x = clip_coord(src_min.x, src_max.x, src_size.x, dst_min.x, dst_size.x);
    let y = clip_coord(src_min.y, src_max.y, src_size.y, dst_min.y, dst_size.y);
    let z = clip_coord(src_min.z, src_max.z, src_size.z, dst_min.z, dst_size.z);
    (
        Cell { x: x.0, y: y.0, z: z.0 },
        Cell { x: x.1, y: y.1, z: z.1 },
        Cell { x: x.2, y: y.2, z: z.2 },
    )
}

/// `clip_coord_fits` on all three axes.
pub open spec fn clip_region_fits(
    src_min: Cell,
    src_max: Cell,
    src_size: Cell,
    dst_min: Cell,
    dst_size: Cell,
) -> bool {
    &&& clip_coord_fits(src_min.x, src_max.x, src_size.x, dst_min.x, dst_size.x)
    &&& clip_coord_fits(src_min.y, src_max.y, src_size.y, dst_min.y, dst_size.y)
    &&& clip_coord_fits(src_min.z, src_max.z, src_size.z, dst_min.z, dst_size.z)
}

/// Clips a copy along one axis so that source and destination stay in bounds.
/// The range `[src_min, src_max)` may end up empty or inverted.
fn clip_copy_region_coord(
    src_min: &mut i32,
    src_max: &mut i32,
    src_size: i32,
    dst_min: &mut i32,
    dst_size: i32,
)
    requires
        clip_coord_fits(
            *old(src_min) as int,
            *old(src_max) as int,
            src_size as int,
            *old(dst_min) as int,
            dst_size as int,
        ),
    ensures
        (*final(src_min) as int, *final(src_max) as int, *final(dst_min) as int) == clip_coord(
            *old(src_min) as int,
            *old(src_max) as int,
            src_size as int,
            *old(dst_min) as int,
            dst_size as int,
        ),
{
    if *src_min < 0 {
        *dst_min = *dst_min + -*src_min;
        *src_min = 0;
    }
    if *src_max > src_size {
        *src_max = src_size;
    }
    if *dst_min < 0 {
        *src_min = *src_min + -*dst_min;
        *dst_min = 0;
    }
    let dst_w: i32 = *src_max - *src_min;
    let dst_max: i32 = *dst_min + dst_w;
    if dst_max > dst_size {
        *src_max = *src_max - (dst_max - dst_size);
    }
}

/// Clips a copy of `[src_min, src_max)` to `dst_min` so that source and
/// destination stay in bounds. The source range may end up empty or inverted:
/// the caller tests for that.
pub fn clip_copy_region(
    src_min: &mut Vector3i,
    src_max: &mut Vector3i,
    src_size: Vector3i,
    dst_min: &mut Vector3i,
    dst_size: Vector3i,
)
    requires
        clip_region_fits(old(src_min)@, old(src_max)@, src_size@, old(dst_min)@, dst_size@),
    ensures
        (final(src_min)@, final(src_max)@, final(dst_min)@) == clip_region(
            old(src_min)@,
            old(src_max)@,
            src_size@,
            old(dst_min)@,
            dst_size@,
        ),
{
    clip_copy_region_coord(&mut src_min.x, &mut src_max.x, src_size.x, &mut dst_min.x, dst_size.x);
    clip_copy_region_coord(&mut src_min.y, &mut src_max.y, src_size.y, &mut dst_min.y, dst_size.y);
    clip_copy_region_coord(&mut src_min.z, &mut src_max.z, src_size.z, &mut dst_min.z, dst_size.z);
}

/// A clipped copy lies inside both grids.
pub proof fn lemma_clip_in_bounds(
    src_min: Cell,
    src_max: Cell,
    src_size: Cell,
    dst_min: Cell,
    dst_size: Cell,
)
    ensures
        ({
            let (lo, hi, to) = clip_region(src_min, src_max, src_size, dst_min, dst_size);
            &&& to.minus(lo) == dst_min.minus(src_min)
            &&& lo.lt(hi) ==> {
                &&& Cell::zero().le(lo)
                &&& hi.le(src_size)
                &&& Cell::zero().le(to)
                &&& to.plus(hi.minus(lo)).le(dst_size)
            }
        }),
{
}

/// Number of elements that reach from the start of a ZXY array to the end of
/// the last row of a box with upper corner `hi`.
pub open spec fn region_end(size: Cell, hi: Cell) -> int {
    grid::zxy(size, hi.minus(Cell::splat(1))) + 1
}

/// The cells of a box with upper corner `hi` all lie before `region_end`.
proof fn lemma_region_end(size: Cell, hi: Cell, c: Cell)
    requires
        c.in_grid(size),
        c.lt(hi),
        hi.le(size),
    ensures
        grid::zxy(size, c) < region_end(size, hi),
{
    let last = hi.minus(Cell::splat(1));
    assert(size.x * c.z <= size.x * last.z) by (nonlinear_arith)
        requires
            c.z <= last.z,
            0 < size.x,
    ;
    let a = c.x + size.x * c.z;
    let b = last.x + size.x * last.z;
    assert(size.y * a <= size.y * b) by (nonlinear_arith)
        requires
            a <= b,
            0 < size.y,
    ;
}

/// The grid of bytes behind a grid of items of `item_size` bytes: an item is a
/// run of `item_size` cells along Y.
pub open spec fn byte_grid(c: Cell, item_size: int) -> Cell {
    Cell { x: c.x, y: c.y * item_size, z: c.z }
}

/// The values of `dst` after the box `[src_min, src_max)` of `src` has been
/// copied to `dst_min`.
pub open spec fn region_copy<T>(
    dst: Seq<T>,
    dst_size: Cell,
    dst_min: Cell,
    src: Seq<T>,
    src_size: Cell,
    src_min: Cell,
    src_max: Cell,
) -> Seq<T> {
    grid::region_write(
        dst,
        dst_size,
        dst_min,
        dst_min.plus(src_max.minus(src_min)),
        |c: Cell| src[grid::zxy(src_size, c.minus(dst_min).plus(src_min))],
    )
}

/// A grid extent or cell in machine words.
#[derive(Clone, Copy)]
struct Extent {
    x: usize,
    y: usize,
    z: usize,
}

impl View for Extent {
    type V = Cell;

    closed spec fn view(&self) -> Cell {
        Cell { x: self.x as int, y: self.y as int, z: self.z as int }
    }
}

impl Extent {
    fn of(v: Vector3i) -> (e: Extent)
        requires
            Cell::zero().le(v@),
        ensures
            e@ == v@,
    {
        Extent { x: v.x as usize, y: v.y as usize, z: v.z as usize }
    }

    /// The same extent with every step along Y made of `item_size` steps.
    fn of_bytes(v: Vector3i, item_size: usize) -> (e: Extent)
        requires
            Cell::zero().le(v@),
            v.y * item_size <= usize::MAX,
        ensures
            e@ == byte_grid(v@, item_size as int),
    {
        proof {
            assert(0 <= v.y * item_size) by (nonlinear_arith)
                requires
                    0 <= v.y,
                    0 <= item_size,
            ;
        }
        Extent { x: v.x as usize, y: v.y as usize * item_size, z: v.z as usize }
    }
}

/// Flat index of a cell whose index is known to fit.
fn flat_index(size: Extent, x: usize, y: usize, z: usize) -> (i: usize)
    requires
        ({
            let c = Cell { x: x as int, y: y as int, z: z as int };
            c.in_grid(size@) && grid::zxy(size@, c) <= usize::MAX
        }),
    ensures
        i == grid::zxy(size@, Cell { x: x as int, y: y as int, z: z as int }),
{
    let ghost c = Cell { x: x as int, y: y as int, z: z as int };
    proof {
        grid::lemma_zxy_bounds(size@, c);
    }
    let row: usize = x + size.x * z;
    proof {
        assert(0 <= size.y * row) by (nonlinear_arith)
            requires
                0 <= size.y,
                0 <= row,
        ;
    }
    y + size.y * row
}

/// Copies the box `[src_min, src_min + area)` of `src` to `dst_min`, row by row.
#[verifier::loop_isolation(false)]
fn copy_box<T: Copy>(
    dst: &mut [T],
    dst_size: Extent,
    dst_min: Extent,
    src: &[T],
    src_size: Extent,
    src_min: Extent,
    area: Extent,
)
    requires
        Cell::zero().lt(area@),
        dst_min@.plus(area@).le(dst_size@),
        src_min@.plus(area@).le(src_size@),
        region_end(dst_size@, dst_min@.plus(area@)) <= old(dst)@.len(),
        region_end(src_size@, src_min@.plus(area@)) <= src@.len(),
    ensures
        final(dst)@ == region_copy(
            old(dst)@,
            dst_size@,
            dst_min@,
            src@,
            src_size@,
            src_min@,
            src_min@.plus(area@),
        ),
{
    let ghost values = dst@;
    let dst_len: usize = dst.len();
    let src_len: usize = src.len();
    let ghost size = dst_size@;
    let ghost lo = dst_min@;
    let ghost hi = dst_min@.plus(area@);
    let ghost f = |c: Cell| src@[grid::zxy(src_size@, c.minus(lo).plus(src_min@))];
    proof {
        grid::lemma_region_start(values, size, lo, hi, f);
        assert(src_min@.plus(area@).minus(src_min@) == area@);
    }
    let mut z: usize = 0;
    while z < area.z
        invariant
            z <= area.z,
            dst@ == grid::region_write_before(
                values,
                size,
                lo,
                hi,
                f,
                Cell { x: lo.x, y: lo.y, z: lo.z + z },
            ),
        decreases area.z - z,
    {
        let mut x: usize = 0;
        while x < area.x
            invariant
                z < area.z,
                x <= area.x,
                dst@ == grid::region_write_before(
                    values,
                    size,
                    lo,
                    hi,
                    f,
                    Cell { x: lo.x + x, y: lo.y, z: lo.z + z },
                ),
            decreases area.x - x,
        {
            let mut y: usize = 0;
            while y < area.y
                invariant
                    z < area.z,
                    x < area.x,
                    y <= area.y,
                    dst@ == grid::region_write_before(
                        values,
                        size,
                        lo,
                        hi,
                        f,
                        Cell { x: lo.x + x, y: lo.y + y, z: lo.z + z },
                    ),
                decreases area.y - y,
            {
                let ghost c = Cell { x: lo.x + x, y: lo.y + y, z: lo.z + z };
                let ghost d = c.minus(lo).plus(src_min@);
                proof {
                    lemma_region_end(size, hi, c);
                    lemma_region_end(src_size@, src_min@.plus(area@), d);
                    grid::lemma_zxy_bounds(size, c);
                    grid::lemma_zxy_bounds(src_size@, d);
                    grid::lemma_region_step(values, size, lo, hi, f, c);
                }
                let si: usize = flat_index(src_size, src_min.x + x, src_min.y + y, src_min.z + z);
                let di: usize = flat_index(dst_size, dst_min.x + x, dst_min.y + y, dst_min.z + z);
                dst[di] = src[si];
                y = y + 1;
            }
            proof {
                grid::lemma_region_row_end(values, size, lo, hi, f, lo.x + x, lo.z + z);
            }
            x = x + 1;
        }
        proof {
            grid::lemma_region_slab_end(values, size, lo, hi, f, lo.z + z);
        }
        z = z + 1;
    }
    proof {
        grid::lemma_region_done(values, size, lo, hi, f);
    }
}

/// Copies the box `[src_min, src_max)` of `src` to `dst_min` between arrays
/// that hold all cells of their grids.
pub(crate) fn copy_rows<T: Copy>(
    dst: &mut [T],
    dst_size: Vector3i,
    dst_min: Vector3i,
    src: &[T],
    src_size: Vector3i,
    src_min: Vector3i,
    src_max: Vector3i,
)
    requires
        src_min@.lt(src_max@),
        Cell::zero().le(src_min@),
        src_max@.le(src_size@),
        Cell::zero().le(dst_min@),
        dst_min@.plus(src_max@.minus(src_min@)).le(dst_size@),
        old(dst)@.len() == grid::volume(dst_size@),
        src@.len() == grid::volume(src_size@),
    ensures
        final(dst)@ == region_copy(
            old(dst)@,
            dst_size@,
            dst_min@,
            src@,
            src_size@,
            src_min@,
            src_max@,
        ),
{
    let area = src_max.minus(src_min);
    proof {
        assert(src_min@.plus(area@) == src_max@);
        grid::lemma_zxy_bounds(src_size@, src_max@.minus(Cell::splat(1)));
        grid::lemma_zxy_bounds(dst_size@, dst_min@.plus(area@).minus(Cell::splat(1)));
    }
    copy_box(
        dst,
        Extent::of(dst_size),
        Extent::of(dst_min),
        src,
        Extent::of(src_size),
        Extent::of(src_min),
        Extent::of(area),
    );
}

/// Fills the box `[lo, hi)` of an array that holds all cells of its grid.
pub(crate) fn fill_rows<T: Copy>(dst: &mut [T], size: Vector3i, lo: Vector3i, hi: Vector3i, value: T)
    requires
        Cell::zero().le(lo@),
        lo@.lt(hi@),
        hi@.le(size@),
        old(dst)@.len() == grid::volume(size@),
    ensures
        final(dst)@ == grid::region_write(old(dst)@, size@, lo@, hi@, |c: Cell| value),
{
    proof {
        grid::lemma_zxy_bounds(size@, hi@.minus(Cell::splat(1)));
    }
    fill_box(dst, Extent::of(size), Extent::of(lo), Extent::of(hi), value);
}

/// Overwrites `dst` with the elements of `src`.
fn copy_all<T: Copy>(dst: &mut [T], src: &[T])
    requires
        old(dst)@.len() == src@.len(),
    ensures
        final(dst)@ == src@,
{
    let mut i: usize = 0;
    while i < src.len()
        invariant
            i <= src@.len(),
            dst@.len() == src@.len(),
            forall|k: int| 0 <= k < i ==> dst@[k] == src@[k],
        decreases src@.len() - i,
    {
        dst[i] = src[i];
        i = i + 1;
    }
}

/// The box that a copy really moves: the source corners in order, and the
/// copy clipped to both grids.
pub open spec fn copy_extent(
    src_min: Cell,
    src_max: Cell,
    src_size: Cell,
    dst_min: Cell,
    dst_size: Cell,
) -> (Cell, Cell, Cell) {
    clip_region(src_min.min(src_max), src_min.max(src_max), src_size, dst_min, dst_size)
}

/// A copy whose clipped box is the whole of both grids.
pub open spec fn copies_everything(
    extent: (Cell, Cell, Cell),
    src_size: Cell,
    dst_size: Cell,
) -> bool {
    extent.1.minus(extent.0) == src_size && extent.1.minus(extent.0) == dst_size
}

/// The bytes of `dst` after a clipped copy from `src`.
pub open spec fn copied_bytes(
    dst: Seq<u8>,
    dst_size: Cell,
    dst_min: Cell,
    src: Seq<u8>,
    src_size: Cell,
    src_min: Cell,
    src_max: Cell,
    item_size: int,
) -> Seq<u8> {
    let extent = copy_extent(src_min, src_max, src_size, dst_min, dst_size);
    let (lo, hi, to) = extent;
    if !lo.lt(hi) {
        dst
    } else if copies_everything(extent, src_size, dst_size) {
        src
    } else {
        region_copy(
            dst,
            byte_grid(dst_size, item_size),
            byte_grid(to, item_size),
            src,
            byte_grid(src_size, item_size),
            byte_grid(lo, item_size),
            byte_grid(hi, item_size),
        )
    }
}

/// The clipped box lies inside both byte arrays.
pub open spec fn copy_in_bounds(
    dst_len: int,
    dst_size: Cell,
    dst_min: Cell,
    src_len: int,
    src_size: Cell,
    src_min: Cell,
    src_max: Cell,
    item_size: int,
) -> bool {
    let extent = copy_extent(src_min, src_max, src_size, dst_min, dst_size);
    let (lo, hi, to) = extent;
    if !lo.lt(hi) {
        true
    } else if copies_everything(extent, src_size, dst_size) {
        grid::volume(src_size) * item_size <= src_len && dst_len == src_len
    } else {
        &&& region_end(src_size, hi) * item_size <= src_len
        &&& region_end(dst_size, to.plus(hi.minus(lo))) * item_size <= dst_len
        &&& src_size.y * item_size <= usize::MAX
        &&& dst_size.y * item_size <= usize::MAX
    }
}

proof fn lemma_byte_region_end(size: Cell, hi: Cell, item_size: int)
    ensures
        region_end(byte_grid(size, item_size), byte_grid(hi, item_size)) == region_end(size, hi)
            * item_size,
{
    let t = hi.x - 1 + size.x * (hi.z - 1);
    assert(hi.y * item_size + size.y * item_size * t == (hi.y + size.y * t) * item_size)
        by (nonlinear_arith);
}

/// Copies the box `[src_min, src_max)` of `src` to `dst_min` in `dst`. Both are
/// flat ZXY arrays of items of `item_size` bytes; the corners may be given in
/// any order, and the box is clipped to both grids.
pub fn copy_3d_region_zxy(
    dst: &mut [u8],
    dst_size: Vector3i,
    dst_min: Vector3i,
    src: &[u8],
    src_size: Vector3i,
    src_min: Vector3i,
    src_max: Vector3i,
    item_size: usize,
)
    requires
        clip_region_fits(
            src_min@.min(src_max@),
            src_min@.max(src_max@),
            src_size@,
            dst_min@,
            dst_size@,
        ),
        copy_extent(src_min@, src_max@, src_size@, dst_min@, dst_size@).1.minus(
            copy_extent(src_min@, src_max@, src_size@, dst_min@, dst_size@).0,
        ).fits(),
        copy_in_bounds(
            old(dst)@.len() as int,
            dst_size@,
            dst_min@,
            src@.len() as int,
            src_size@,
            src_min@,
            src_max@,
            item_size as int,
        ),
    ensures
        final(dst)@ == copied_bytes(
            old(dst)@,
            dst_size@,
            dst_min@,
            src@,
            src_size@,
            src_min@,
            src_max@,
            item_size as int,
        ),
{
    let mut lo = src_min;
    let mut hi = src_max;
    let mut to = dst_min;
    Vector3i::sort_min_max(&mut lo, &mut hi);
    clip_copy_region(&mut lo, &mut hi, src_size, &mut to, dst_size);
    proof {
        lemma_clip_in_bounds(
            src_min@.min(src_max@),
            src_min@.max(src_max@),
            src_size@,
            dst_min@,
            dst_size@,
        );
    }
    let area = hi.minus(lo);
    if area.x <= 0 || area.y <= 0 || area.z <= 0 {
        return;
    }
    if area == src_size && area == dst_size {
        copy_all(dst, src);
    } else if item_size != 0 {
        proof {
            let k = item_size as int;
            lemma_byte_region_end(src_size@, hi@, k);
            lemma_byte_region_end(dst_size@, to@.plus(area@), k);
            assert(lo.y * k <= hi.y * k <= src_size.y * k && 0 <= to.y * k && to.y * k <= dst_size.y * k
                && (to.y + area.y) * k <= dst_size.y * k && area.y * k > 0 && area.y * k <= src_size.y * k
                && lo.y * k + area.y * k == hi.y * k && to.y * k + area.y * k == (to.y + area.y) * k)
                by (nonlinear_arith)
                requires
                    k > 0,
                    0 <= lo.y,
                    lo.y <= hi.y,
                    hi.y <= src_size.y,
                    0 <= to.y,
                    to.y + area.y <= dst_size.y,
                    area.y == hi.y - lo.y,
                    area.y > 0,
            ;
            assert(byte_grid(lo@, k).plus(byte_grid(area@, k)) == byte_grid(hi@, k));
            assert(byte_grid(to@, k).plus(byte_grid(area@, k)) == byte_grid(to@.plus(area@), k));
        }
        copy_box(
            dst,
            Extent::of_bytes(dst_size, item_size),
            Extent::of_bytes(to, item_size),
            src,
            Extent::of_bytes(src_size, item_size),
            Extent::of_bytes(lo, item_size),
            Extent::of_bytes(area, item_size),
        );
    } else {
        proof {
            assert(grid::volume(byte_grid(dst_size@, 0)) == 0) by (nonlinear_arith);
            assert(dst@ =~= copied_bytes(
                dst@,
                dst_size@,
                dst_min@,
                src@,
                src_size@,
                src_min@,
                src_max@,
                0,
            ));
        }
    }
}

/// Gives every cell of `[lo, hi)` the value `value`, row by row.
#[verifier::loop_isolation(false)]
fn fill_box<T: Copy>(dst: &mut [T], dst_size: Extent, dst_lo: Extent, dst_hi: Extent, value: T)
    requires
        dst_lo@.lt(dst_hi@),
        dst_hi@.le(dst_size@),
        region_end(dst_size@, dst_hi@) <= old(dst)@.len(),
    ensures
        final(dst)@ == grid::region_write(
            old(dst)@,
            dst_size@,
            dst_lo@,
            dst_hi@,
            |c: Cell| value,
        ),
{
    let ghost values = dst@;
    let dst_len: usize = dst.len();
    let ghost size = dst_size@;
    let ghost lo = dst_lo@;
    let ghost hi = dst_hi@;
    let ghost f = |c: Cell| value;
    proof {
        grid::lemma_region_start(values, size, lo, hi, f);
    }
    let mut z: usize = dst_lo.z;
    while z < dst_hi.z
        invariant
            dst_lo.z <= z <= dst_hi.z,
            dst@ == grid::region_write_before(
                values,
                size,
                lo,
                hi,
                f,
                Cell { x: lo.x, y: lo.y, z: z as int },
            ),
        decreases dst_hi.z - z,
    {
        let mut x: usize = dst_lo.x;
        while x < dst_hi.x
            invariant
                z < dst_hi.z,
                dst_lo.x <= x <= dst_hi.x,
                dst@ == grid::region_write_before(
                    values,
                    size,
                    lo,
                    hi,
                    f,
                    Cell { x: x as int, y: lo.y, z: z as int },
                ),
            decreases dst_hi.x - x,
        {
            let mut y: usize = dst_lo.y;
            while y < dst_hi.y
                invariant
                    z < dst_hi.z,
                    x < dst_hi.x,
                    dst_lo.y <= y <= dst_hi.y,
                    dst@ == grid::region_write_before(
                        values,
                        size,
                        lo,
                        hi,
                        f,
                        Cell { x: x as int, y: y as int, z: z as int },
                    ),
                decreases dst_hi.y - y,
            {
                proof {
                    let c = Cell { x: x as int, y: y as int, z: z as int };
                    lemma_region_end(size, hi, c);
                    grid::lemma_zxy_bounds(size, c);
                    grid::lemma_region_step(values, size, lo, hi, f, c);
                }
                let i: usize = flat_index(dst_size, x, y, z);
                dst[i] = value;
                y = y + 1;
            }
            proof {
                grid::lemma_region_row_end(values, size, lo, hi, f, x as int, z as int);
            }
            x = x + 1;
        }
        proof {
            grid::lemma_region_slab_end(values, size, lo, hi, f, z as int);
        }
        z = z + 1;
    }
    proof {
        grid::lemma_region_done(values, size, lo, hi, f);
    }
}

/// The corners of a box, put in order and clamped to the grid.
pub open spec fn fill_extent(size: Cell, min: Cell, max: Cell) -> (Cell, Cell) {
    (min.min(max).clamp(Cell::zero(), size), min.max(max).clamp(Cell::zero(), size))
}

/// The elements of `dst` after a box has been filled with `value`. A box that
/// covers the grid fills the whole array.
pub open spec fn filled<T>(dst: Seq<T>, size: Cell, min: Cell, max: Cell, value: T) -> Seq<T> {
    let (lo, hi) = fill_extent(size, min, max);
    if !lo.lt(hi) {
        dst
    } else if hi.minus(lo) == size {
        Seq::new(dst.len(), |i: int| value)
    } else {
        grid::region_write(dst, size, lo, hi, |c: Cell| value)
    }
}

/// The clamped box lies inside an array of `len` elements.
pub open spec fn fill_in_bounds(len: int, size: Cell, min: Cell, max: Cell) -> bool {
    let (lo, hi) = fill_extent(size, min, max);
    if !lo.lt(hi) {
        true
    } else if hi.minus(lo) == size {
        grid::volume(size) <= len
    } else {
        region_end(size, hi) <= len
    }
}

/// Fills the box `[dst_min, dst_max)` of a flat ZXY array with `value`. The
/// corners may be given in any order and are clamped to the grid.
pub fn fill_3d_region_zxy<T: Copy>(
    dst: &mut [T],
    dst_size: Vector3i,
    dst_min: Vector3i,
    dst_max: Vector3i,
    value: T,
)
    requires
        fill_in_bounds(old(dst)@.len() as int, dst_size@, dst_min@, dst_max@),
    ensures
        final(dst)@ == filled(old(dst)@, dst_size@, dst_min@, dst_max@, value),
{
    let mut lo = dst_min;
    let mut hi = dst_max;
    Vector3i::sort_min_max(&mut lo, &mut hi);
    lo = lo.clamp(Vector3i::zero(), dst_size);
    hi = hi.clamp(Vector3i::zero(), dst_size);
    let area = hi.minus(lo);
    if area.x <= 0 || area.y <= 0 || area.z <= 0 {
        return;
    }
    if area == dst_size {
        let mut i: usize = 0;
        while i < dst.len()
            invariant
                i <= dst@.len(),
                dst@.len() == old(dst)@.len(),
                forall|k: int| 0 <= k < i ==> dst@[k] == value,
            decreases dst@.len() - i,
        {
            dst[i] = value;
            i = i + 1;
        }
    } else {
        fill_box(dst, Extent::of(dst_size), Extent::of(lo), Extent::of(hi), value);
    }
}

/// The axis that a unit vector lies along.
pub open spec fn axis_of(v: Vector3i) -> int {
    if v.x != 0 {
        0
    } else if v.y != 0 {
        1
    } else {
        2
    }
}

/// The extent of a volume of extent `size` after it has been turned by `basis`.
pub open spec fn turned_size(basis: OrthoBasis, size: Cell) -> Cell {
    let pick = |a: int|
        if axis_of(basis.x) == a {
            size.x
        } else if axis_of(basis.y) == a {
            size.y
        } else {
            size.z
        };
    Cell { x: pick(0), y: pick(1), z: pick(2) }
}

/// The cell where the turned volume's first cell goes, so that every cell of
/// the volume stays in the turned grid.
pub open spec fn turned_origin(basis: OrthoBasis, size: Cell) -> Cell {
    let dst = turned_size(basis, size);
    Cell {
        x: if basis.x.x < 0 || basis.y.x < 0 || basis.z.x < 0 {
            dst.x - 1
        } else {
            0
        },
        y: if basis.x.y < 0 || basis.y.y < 0 || basis.z.y < 0 {
            dst.y - 1
        } else {
            0
        },
        z: if basis.x.z < 0 || basis.y.z < 0 || basis.z.z < 0 {
            dst.z - 1
        } else {
            0
        },
    }
}

/// Where `basis` takes cell `c` of a volume of extent `size`.
pub open spec fn turned_cell(basis: OrthoBasis, size: Cell, c: Cell) -> Cell {
    turned_origin(basis, size).plus(basis.image(c))
}

/// The cell of the volume that `basis` takes to `d`.
pub open spec fn unturned_cell(basis: OrthoBasis, size: Cell, d: Cell) -> Cell {
    basis.preimage(d.minus(turned_origin(basis, size)))
}

/// Turning keeps every cell inside the turned grid, reaches every cell of it,
/// and keeps the number of cells.
pub proof fn turning_is_a_bijection(basis: OrthoBasis, size: Cell)
    requires
        basis.wf(),
    ensures
        grid::volume(turned_size(basis, size)) == grid::volume(size),
        forall|c: Cell|
            #![trigger turned_cell(basis, size, c)]
            c.in_grid(size) ==> turned_cell(basis, size, c).in_grid(turned_size(basis, size))
                && unturned_cell(basis, size, turned_cell(basis, size, c)) == c,
        forall|d: Cell|
            #![trigger unturned_cell(basis, size, d)]
            d.in_grid(turned_size(basis, size)) ==> unturned_cell(basis, size, d).in_grid(size)
                && turned_cell(basis, size, unturned_cell(basis, size, d)) == d,
{
    let t = turned_size(basis, size);
    assert(t.x * t.y * t.z == size.x * size.y * size.z) by (nonlinear_arith)
        requires
            t == size || t == (Cell { x: size.x, y: size.z, z: size.y }) || t == (Cell {
                x: size.y,
                y: size.x,
                z: size.z,
            }) || t == (Cell { x: size.y, y: size.z, z: size.x }) || t == (Cell {
                x: size.z,
                y: size.x,
                z: size.y,
            }) || t == (Cell { x: size.z, y: size.y, z: size.x }),
    ;
}

/// The cell to add to transformed coordinates so that a turned volume stays
/// inside its grid, and the extent of that grid.
pub fn get_3d_array_transform_origin(basis: &OrthoBasis, src_size: Vector3i) -> (r: (
    Vector3i,
    Vector3i,
))
    requires
        basis.wf(),
        Cell::splat(i32::MIN as int).lt(src_size@),
    ensures
        r.0@ == turned_origin(*basis, src_size@),
        r.1@ == turned_size(*basis, src_size@),
{
    let xa: usize = axis_index(basis.x);
    let ya: usize = axis_index(basis.y);
    let dst_size = Vector3i {
        x: if xa == 0 {
            src_size.x
        } else if ya == 0 {
            src_size.y
        } else {
            src_size.z
        },
        y: if xa == 1 {
            src_size.x
        } else if ya == 1 {
            src_size.y
        } else {
            src_size.z
        },
        z: if xa == 2 {
            src_size.x
        } else if ya == 2 {
            src_size.y
        } else {
            src_size.z
        },
    };
    let ox: i32 = if basis.x.x < 0 || basis.y.x < 0 || basis.z.x < 0 {
        dst_size.x - 1
    } else {
        0
    };
    let oy: i32 = if basis.x.y < 0 || basis.y.y < 0 || basis.z.y < 0 {
        dst_size.y - 1
    } else {
        0
    };
    let oz: i32 = if basis.x.z < 0 || basis.y.z < 0 || basis.z.z < 0 {
        dst_size.z - 1
    } else {
        0
    };
    (Vector3i::new(ox, oy, oz), dst_size)
}

fn axis_index(v: Vector3i) -> (a: usize)
    ensures
        a == axis_of(v),
{
    if v.x != 0 {
        0
    } else if v.y != 0 {
        1
    } else {
        2
    }
}

fn signed(b: i32, v: i32) -> (r: i32)
    requires
        0 <= v,
    ensures
        r == math::signed_int(b as int, v as int),
{
    if b > 0 {
        v
    } else if b < 0 {
        -v
    } else {
        0
    }
}

/// The elements of a volume after it has been turned by `basis`.
pub open spec fn transformed<T>(src: Seq<T>, size: Cell, basis: OrthoBasis) -> Seq<T> {
    let dst_size = turned_size(basis, size);
    Seq::new(
        src.len(),
        |i: int| src[grid::zxy(size, unturned_cell(basis, size, grid::cell_at(dst_size, i)))],
    )
}

/// `transformed` carried out for the source cells before `cursor` only.
spec fn transformed_before<T>(
    dst: Seq<T>,
    src: Seq<T>,
    size: Cell,
    basis: OrthoBasis,
    cursor: Cell,
) -> Seq<T> {
    let dst_size = turned_size(basis, size);
    Seq::new(
        src.len(),
        |i: int|
            {
                let c = unturned_cell(basis, size, grid::cell_at(dst_size, i));
                if c.before(cursor) {
                    src[grid::zxy(size, c)]
                } else {
                    dst[i]
                }
            },
    )
}

proof fn lemma_transform_step<T>(
    dst: Seq<T>,
    src: Seq<T>,
    size: Cell,
    basis: OrthoBasis,
    c: Cell,
)
    requires
        basis.wf(),
        Cell::zero().lt(size),
        src.len() == grid::volume(size),
        c.in_grid(size),
    ensures
        transformed_before(dst, src, size, basis, c).update(
            grid::zxy(turned_size(basis, size), turned_cell(basis, size, c)),
            src[grid::zxy(size, c)],
        ) == transformed_before(dst, src, size, basis, Cell { x: c.x, y: c.y + 1, z: c.z }),
        0 <= grid::zxy(turned_size(basis, size), turned_cell(basis, size, c)) < src.len(),
{
    turning_is_a_bijection(basis, size);
    let t = turned_size(basis, size);
    let d = turned_cell(basis, size, c);
    let k = grid::zxy(t, d);
    let next = Cell { x: c.x, y: c.y + 1, z: c.z };
    grid::lemma_cell_at_zxy(t, d);
    let left = transformed_before(dst, src, size, basis, c).update(k, src[grid::zxy(size, c)]);
    let right = transformed_before(dst, src, size, basis, next);
    assert forall|i: int| 0 <= i < src.len() implies left[i] == right[i] by {
        grid::lemma_zxy_cell_at(t, i);
        let e = grid::cell_at(t, i);
        let u = unturned_cell(basis, size, e);
        if i != k {
            assert(turned_cell(basis, size, u) == e);
            assert(u != c);
        } else {
            assert(u == c);
        }
    }
    assert(left =~= right);
}

proof fn lemma_transform_row_end<T>(
    dst: Seq<T>,
    src: Seq<T>,
    size: Cell,
    basis: OrthoBasis,
    x: int,
    z: int,
)
    requires
        basis.wf(),
        Cell::zero().le(size),
        src.len() == grid::volume(size),
    ensures
        transformed_before(dst, src, size, basis, Cell { x, y: size.y, z }) == transformed_before(
            dst,
            src,
            size,
            basis,
            Cell { x: x + 1, y: 0, z },
        ),
        transformed_before(dst, src, size, basis, Cell { x: size.x, y: 0, z })
            == transformed_before(dst, src, size, basis, Cell { x: 0, y: 0, z: z + 1 }),
        transformed_before(dst, src, size, basis, Cell { x: 0, y: 0, z: size.z }) == transformed(
            src,
            size,
            basis,
        ),
        dst.len() == src.len() ==> transformed_before(dst, src, size, basis, Cell::zero()) == dst,
{
    turning_is_a_bijection(basis, size);
    grid::lemma_volume_sign(size);
    let t = turned_size(basis, size);
    let row_end = transformed_before(dst, src, size, basis, Cell { x, y: size.y, z });
    let next_row = transformed_before(dst, src, size, basis, Cell { x: x + 1, y: 0, z });
    let slab_end = transformed_before(dst, src, size, basis, Cell { x: size.x, y: 0, z });
    let next_slab = transformed_before(dst, src, size, basis, Cell { x: 0, y: 0, z: z + 1 });
    let end = transformed_before(dst, src, size, basis, Cell { x: 0, y: 0, z: size.z });
    let start = transformed_before(dst, src, size, basis, Cell::zero());
    let whole = transformed(src, size, basis);
    assert forall|i: int| 0 <= i < src.len() implies row_end[i] == next_row[i] && slab_end[i]
        == next_slab[i] && end[i] == whole[i] && start[i] == dst[i] by {
        grid::lemma_zxy_cell_at(t, i);
        let c = unturned_cell(basis, size, grid::cell_at(t, i));
        assert(c.in_grid(size));
    }
    assert(row_end =~= next_row);
    assert(slab_end =~= next_slab);
    assert(end =~= whole);
    if dst.len() == src.len() {
        assert(start =~= dst);
    }
}

/// Rotates, flips or transposes a flat ZXY volume by `basis` and returns the
/// extent of the result.
#[verifier::loop_isolation(false)]
pub fn transform_3d_array_zxy<T: Copy>(
    src_grid: &[T],
    dst_grid: &mut [T],
    src_size: Vector3i,
    basis: OrthoBasis,
) -> (dst_size: Vector3i)
    requires
        basis.wf(),
        Cell::zero().le(src_size@),
        src_grid@.len() == grid::volume(src_size@),
        old(dst_grid)@.len() == grid::volume(src_size@),
    ensures
        dst_size@ == turned_size(basis, src_size@),
        final(dst_grid)@ == transformed(src_grid@, src_size@, basis),
{
    let (origin, dst_size) = get_3d_array_transform_origin(&basis, src_size);
    let ghost size = src_size@;
    let ghost values = dst_grid@;
    let len: usize = dst_grid.len();
    proof {
        turning_is_a_bijection(basis, size);
        lemma_transform_row_end(values, src_grid@, size, basis, 0, 0);
    }
    let mut z: i32 = 0;
    while z < src_size.z
        invariant
            0 <= z <= src_size.z,
            dst_grid@ == transformed_before(
                values,
                src_grid@,
                size,
                basis,
                Cell { x: 0, y: 0, z: z as int },
            ),
        decreases src_size.z - z,
    {
        let mut x: i32 = 0;
        while x < src_size.x
            invariant
                0 <= z < src_size.z,
                0 <= x <= src_size.x,
                dst_grid@ == transformed_before(
                    values,
                    src_grid@,
                    size,
                    basis,
                    Cell { x: x as int, y: 0, z: z as int },
                ),
            decreases src_size.x - x,
        {
            let mut y: i32 = 0;
            while y < src_size.y
                invariant
                    0 <= z < src_size.z,
                    0 <= x < src_size.x,
                    0 <= y <= src_size.y,
                    dst_grid@ == transformed_before(
                        values,
                        src_grid@,
                        size,
                        basis,
                        Cell { x: x as int, y: y as int, z: z as int },
                    ),
                decreases src_size.y - y,
            {
                let c = Vector3i::new(x, y, z);
                proof {
                    let _ = turned_cell(basis, size, c@);
                    grid::lemma_zxy_bounds(size, c@);
                    lemma_transform_step(values, src_grid@, size, basis, c@);
                }
                let d = Vector3i::new(
                    origin.x + signed(basis.x.x, x) + signed(basis.y.x, y) + signed(basis.z.x, z),
                    origin.y + signed(basis.x.y, x) + signed(basis.y.y, y) + signed(basis.z.y, z),
                    origin.z + signed(basis.x.z, x) + signed(basis.y.z, y) + signed(basis.z.z, z),
                );
                assert(d@ == turned_cell(basis, size, c@));
                let di: usize = d.zxy_index(dst_size);
                dst_grid[di] = src_grid[c.zxy_index(src_size)];
                y = y + 1;
            }
            proof {
                lemma_transform_row_end(values, src_grid@, size, basis, x as int, z as int);
            }
            x = x + 1;
        }
        proof {
            lemma_transform_row_end(values, src_grid@, size, basis, 0, z as int);
        }
        z = z + 1;
    }
    dst_size
}

/// Turning a volume loses nothing: every element of the source is found in the
/// result, at the cell where its own cell was taken.
pub proof fn transformed_keeps_every_element<T>(
    src: Seq<T>,
    size: Cell,
    basis: OrthoBasis,
    c: Cell,
)
    requires
        basis.wf(),
        c.in_grid(size),
        src.len() == grid::volume(size),
    ensures
        transformed(src, size, basis)[grid::zxy(
            turned_size(basis, size),
            turned_cell(basis, size, c),
        )] == src[grid::zxy(size, c)],
{
    turning_is_a_bijection(basis, size);
    grid::lemma_cell_at_zxy(turned_size(basis, size), turned_cell(basis, size, c));
}

/// The identity basis leaves a volume as it is.
pub proof fn identity_transforms_nothing<T>(src: Seq<T>, size: Cell, axis: math::Axis)
    requires
        Cell::zero().le(size),
        src.len() == grid::volume(size),
    ensures
        transformed(src, size, OrthoBasis::turns_spec(axis, 0)) == src,
        turned_size(OrthoBasis::turns_spec(axis, 0), size) == size,
{
    grid::lemma_volume_sign(size);
    let basis = OrthoBasis::turns_spec(axis, 0);
    let t = transformed(src, size, basis);
    assert forall|i: int| 0 <= i < src.len() implies t[i] == src[i] by {
        grid::lemma_zxy_cell_at(size, i);
        assert(unturned_cell(basis, size, grid::cell_at(size, i)) == grid::cell_at(size, i));
    }
    assert(t =~= src);
}

} // verus!
