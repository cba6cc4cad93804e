//! Integer boxes and the order in which their cells are walked.

use crate::grid;
use crate::grid::Cell;
use crate::math::Vector3i;
use vstd::prelude::*;

verus! {

/// A box of integer cells: its lowest corner and its extent.
#[derive(Clone, Copy, Debug, PartialEq, Eq, Hash, Structural)]
pub struct Box3i {
    pub position: Vector3i,
    pub size: Vector3i,
}

/// A box given by its two corners; the upper one is outside.
#[derive(Clone, Copy, Debug, PartialEq, Eq, Hash, Structural)]
pub struct BoxBounds3i {
    pub min_pos: Vector3i,
    pub max_pos: Vector3i,
}

/// A corner of a box that has no 32-bit representation was asked for.
#[derive(Clone, Copy, Debug, PartialEq, Eq, Structural)]
pub struct BoxOverflow;

impl BoxBounds3i {
    pub fn new(min_pos: Vector3i, max_pos: Vector3i) -> (b: BoxBounds3i)
        ensures
            b == (BoxBounds3i { min_pos, max_pos }),
    {
        BoxBounds3i { min_pos, max_pos }
    }

    /// The two boxes have a cell in common.
    pub open spec fn meets(self, other: BoxBounds3i) -> bool {
        self.min_pos@.lt(other.max_pos@) && other.min_pos@.lt(self.max_pos@)
    }

    /// The corners of a box.
    pub fn from_box(position: Vector3i, size: Vector3i) -> (b: BoxBounds3i)
        requires
            position@.plus(size@).fits(),
        ensures
            b.min_pos == position,
            b.max_pos@ == position@.plus(size@),
    {
        BoxBounds3i { min_pos: position, max_pos: position.plus(size) }
    }

    pub fn intersects(&self, other: &BoxBounds3i) -> (b: bool)
        ensures
            b == self.meets(*other),
    {
        self.min_pos.x < other.max_pos.x && self.min_pos.y < other.max_pos.y && self.min_pos.z
            < other.max_pos.z && other.min_pos.x < self.max_pos.x && other.min_pos.y
            < self.max_pos.y && other.min_pos.z < self.max_pos.z
    }
}

impl Default for Box3i {
    fn default() -> (b: Box3i)
        ensures
            b.position@ == Cell::zero(),
            b.size@ == Cell::zero(),
    {
        Box3i { position: Vector3i::zero(), size: Vector3i::zero() }
    }
}

impl Box3i {
    pub fn new(position: Vector3i, size: Vector3i) -> (b: Box3i)
        ensures
            b == (Box3i { position, size }),
    {
        Box3i { position, size }
    }

    /// The corner behind the last cell.
    pub open spec fn end(self) -> Cell {
        self.position@.plus(self.size@)
    }

    /// The box has no cells.
    pub open spec fn vacant(self) -> bool {
        !Cell::zero().lt(self.size@)
    }

    /// `p` is a cell of the box.
    pub open spec fn has(self, p: Cell) -> bool {
        p.within(self.position@, self.end())
    }

    /// The corner behind the last cell has a representation, or there are no
    /// cells.
    pub open spec fn representable(self) -> bool {
        self.vacant() || self.end().fits()
    }

    /// The cells of the box in ZXY order.
    pub open spec fn cells(self) -> Seq<Vector3i> {
        if self.vacant() {
            Seq::empty()
        } else {
            Seq::new(
                grid::volume(self.size@) as nat,
                |i: int|
                    Vector3i::from_cell(self.position@.plus(grid::cell_at(self.size@, i))),
            )
        }
    }

    /// The listed cells are the cells of the box, each once, in ZXY order.
    pub proof fn lemma_cells(self)
        requires
            self.representable(),
        ensures
            forall|i: int|
                0 <= i < self.cells().len() ==> self.has((#[trigger] self.cells()[i])@),
            forall|p: Vector3i| self.has(p@) ==> #[trigger] self.cells().contains(p),
            self.cells().no_duplicates(),
            forall|i: int, j: int|
                0 <= i < j < self.cells().len() ==> (#[trigger] self.cells()[i])@.before(
                    (#[trigger] self.cells()[j])@,
                ),
    {
        if !self.vacant() {
            let size = self.size@;
            grid::lemma_volume_sign(size);
            assert forall|i: int| 0 <= i < self.cells().len() implies self.has(
                (#[trigger] self.cells()[i])@,
            ) && self.cells()[i]@ == self.position@.plus(grid::cell_at(size, i)) by {
                grid::lemma_zxy_cell_at(size, i);
            }
            assert forall|p: Vector3i| self.has(p@) implies #[trigger] self.cells().contains(p) by {
                let c = p@.minus(self.position@);
                grid::lemma_cell_at_zxy(size, c);
                let i = grid::zxy(size, c);
                assert(self.position@.plus(c) == p@);
                assert(self.cells()[i] == p);
            }
            assert forall|i: int, j: int| 0 <= i < j < self.cells().len() implies (
            #[trigger] self.cells()[i])@.before((#[trigger] self.cells()[j])@) by {
                grid::lemma_index_order(size, i, j);
                assert(self.cells()[i]@ == self.position@.plus(grid::cell_at(size, i)));
                assert(self.cells()[j]@ == self.position@.plus(grid::cell_at(size, j)));
            }
            assert forall|i: int, j: int|
                0 <= i < self.cells().len() && 0 <= j < self.cells().len() && i
                    != j implies self.cells()[i] != self.cells()[j] by {
                if i < j {
                    assert(self.cells()[i]@.before(self.cells()[j]@));
                } else {
                    assert(self.cells()[j]@.before(self.cells()[i]@));
                }
            }
        }
    }

    /// Number of cells.
    pub fn cell_count(self) -> (n: u128)
        ensures
            n == self.cells().len(),
    {
        if self.size.x <= 0 || self.size.y <= 0 || self.size.z <= 0 {
            return 0;
        }
        proof {
            grid::lemma_volume_sign(self.size@);
            assert(0 <= self.size.x * self.size.y <= 0x7fff_ffff * 0x7fff_ffff && self.size.x
                * self.size.y * self.size.z <= 0x7fff_ffff * 0x7fff_ffff * 0x7fff_ffff)
                by (nonlinear_arith)
                requires
                    0 < self.size.x <= 0x7fff_ffff,
                    0 < self.size.y <= 0x7fff_ffff,
                    0 < self.size.z <= 0x7fff_ffff,
            ;
        }
        self.size.x as u128 * self.size.y as u128 * self.size.z as u128
    }

    /// The cell at index `i` in ZXY order.
    pub fn cell(self, i: u128) -> (p: Vector3i)
        requires
            self.representable(),
            i < self.cells().len(),
        ensures
            p == self.cells()[i as int],
            self.has(p@),
    {
        proof {
            self.lemma_cells();
            grid::lemma_volume_sign(self.size@);
            grid::lemma_zxy_cell_at(self.size@, i as int);
            assert(self.has(self.cells()[i as int]@));
        }
        let sx: u128 = self.size.x as u128;
        let sy: u128 = self.size.y as u128;
        let row: u128 = i / sy;
        let y: i32 = (i % sy) as i32;
        let x: i32 = (row % sx) as i32;
        let z: i32 = (row / sx) as i32;
        self.position.plus(Vector3i::new(x, y, z))
    }

    /// The box between two corners.
    pub fn from_min_max(min: Vector3i, max: Vector3i) -> (b: Box3i)
        requires
            max@.minus(min@).fits(),
        ensures
            b.position == min,
            b.end() == max@,
    {
        Box3i { position: min, size: max.minus(min) }
    }

    pub fn is_empty(self) -> (b: bool)
        ensures
            b == self.vacant(),
    {
        self.size.x <= 0 || self.size.y <= 0 || self.size.z <= 0
    }

    pub fn contains_point(self, p: Vector3i) -> (b: bool)
        ensures
            b == self.has(p@),
    {
        p.x >= self.position.x && p.y >= self.position.y && p.z >= self.position.z && (p.x as i64)
            < self.position.x as i64 + self.size.x as i64 && (p.y as i64) < self.position.y as i64
            + self.size.y as i64 && (p.z as i64) < self.position.z as i64 + self.size.z as i64
    }

    /// Every corner of `other` lies inside.
    pub fn contains_box(self, other: Box3i) -> (b: bool)
        ensures
            b == (self.position@.le(other.position@) && other.end().le(self.end())),
    {
        other.position.x >= self.position.x && other.position.y >= self.position.y
            && other.position.z >= self.position.z && other.position.x as i64 + other.size.x as i64
            <= self.position.x as i64 + self.size.x as i64 && other.position.y as i64
            + other.size.y as i64 <= self.position.y as i64 + self.size.y as i64
            && other.position.z as i64 + other.size.z as i64 <= self.position.z as i64
            + self.size.z as i64
    }

    /// The box of cells of edge `scale` that this box touches.
    pub open spec fn over(self, scale: int) -> (Cell, Cell) {
        (
            self.position@.over(scale),
            self.end().plus(Cell::splat(scale - 1)).over(scale),
        )
    }

    /// The box of cells of edge `scale` that this box touches.
    pub fn downscaled(self, scale: i32) -> (b: Box3i)
        requires
            scale > 0,
            self.over(scale as int).1.minus(self.over(scale as int).0).fits(),
        ensures
            b.position@ == self.over(scale as int).0,
            b.end() == self.over(scale as int).1,
    {
        let lo = self.position.floor_div(scale);
        Box3i {
            position: lo,
            size: Vector3i {
                x: (ceil_div(self.position.x, self.size.x, scale) - lo.x as i64) as i32,
                y: (ceil_div(self.position.y, self.size.y, scale) - lo.y as i64) as i32,
                z: (ceil_div(self.position.z, self.size.z, scale) - lo.z as i64) as i32,
            },
        }
    }
}

/// `(position + size) / scale`, rounded up.
fn ceil_div(position: i32, size: i32, scale: i32) -> (q: i64)
    requires
        scale > 0,
    ensures
        q == (position + size + (scale - 1)) / scale as int,
        -0x1_0000_0000 <= q <= 0x1_0000_0000,
{
    let v: i64 = position as i64 + size as i64 + (scale as i64 - 1);
    let d: i64 = scale as i64;
    if v >= 0 {
        proof {
            assert(0 <= v as int / d as int <= v) by (nonlinear_arith)
                requires
                    v >= 0,
                    d >= 1,
            ;
            assert(v as int / d as int <= 0x1_0000_0000) by (nonlinear_arith)
                requires
                    v <= 0x1_0000_0000 - 2 + d,
                    d >= 1,
            ;
        }
        v / d
    } else {
        let n: i64 = -v;
        let q: i64 = (n + d - 1) / d;
        proof {
            assert(-q == v as int / d as int && 0 < q <= n) by (nonlinear_arith)
                requires
                    v < 0,
                    d > 0,
                    n == -v,
                    q == (n + d - 1) / d as int,
            ;
        }
        -q
    }
}

/// The part that two boxes have in common; an empty box where they have none.
pub open spec fn intersection(a: Box3i, b: Box3i) -> Box3i {
    let lo = a.position@.max(b.position@);
    let hi = a.end().min(b.end());
    Box3i {
        position: Vector3i::from_cell(lo),
        size: if lo.lt(hi) {
            Vector3i::from_cell(hi.minus(lo))
        } else {
            Vector3i { x: 0, y: 0, z: 0 }
        },
    }
}

/// The common part has the cells of both boxes, and its corners have a
/// representation.
pub proof fn lemma_intersection(a: Box3i, b: Box3i)
    requires
        a.end().fits(),
        b.end().fits(),
    ensures
        intersection(a, b).end().fits(),
        forall|p: Cell| #[trigger] intersection(a, b).has(p) <==> a.has(p) && b.has(p),
{
    let lo = a.position@.max(b.position@);
    let hi = a.end().min(b.end());
    if lo.lt(hi) {
        assert(hi.minus(lo).fits());
    }
}

/// The common part of two boxes. An error if a corner of either has no
/// representation.
pub fn checked_box_intersection(a: Box3i, b: Box3i) -> (r: Result<Box3i, BoxOverflow>)
    ensures
        r is Ok <==> a.end().fits() && b.end().fits(),
        r matches Ok(c) ==> c == intersection(a, b),
{
    let a_end = match checked_end(a) {
        Some(e) => e,
        None => return Err(BoxOverflow),
    };
    let b_end = match checked_end(b) {
        Some(e) => e,
        None => return Err(BoxOverflow),
    };
    let lo = Vector3i {
        x: if a.position.x >= b.position.x { a.position.x } else { b.position.x },
        y: if a.position.y >= b.position.y { a.position.y } else { b.position.y },
        z: if a.position.z >= b.position.z { a.position.z } else { b.position.z },
    };
    let hi = Vector3i {
        x: if a_end.x <= b_end.x { a_end.x } else { b_end.x },
        y: if a_end.y <= b_end.y { a_end.y } else { b_end.y },
        z: if a_end.z <= b_end.z { a_end.z } else { b_end.z },
    };
    assert(lo == Vector3i::from_cell(a.position@.max(b.position@)));
    if lo.x >= hi.x || lo.y >= hi.y || lo.z >= hi.z {
        return Ok(Box3i { position: lo, size: Vector3i::zero() });
    }
    proof {
        assert(hi@.minus(lo@) == a.end().min(b.end()).minus(a.position@.max(b.position@)));
    }
    Ok(Box3i::from_min_max(lo, hi))
}

/// The corner behind the last cell of a box, where it has a representation.
fn checked_end(b: Box3i) -> (r: Option<Vector3i>)
    ensures
        r is Some <==> b.end().fits(),
        r matches Some(e) ==> e@ == b.end(),
{
    let x: i64 = b.position.x as i64 + b.size.x as i64;
    let y: i64 = b.position.y as i64 + b.size.y as i64;
    let z: i64 = b.position.z as i64 + b.size.z as i64;
    if fits_i32(x) && fits_i32(y) && fits_i32(z) {
        Some(Vector3i::new(x as i32, y as i32, z as i32))
    } else {
        None
    }
}

fn fits_i32(v: i64) -> (b: bool)
    ensures
        b == (i32::MIN <= v <= i32::MAX),
{
    -0x8000_0000 <= v && v <= 0x7fff_ffff
}

/// Edge, in voxels of the finest level, of a block at level `lod`.
pub open spec fn stride_of(lod: nat) -> int
    decreases lod,
{
    if lod == 0 {
        16
    } else {
        2 * stride_of((lod - 1) as nat)
    }
}

/// The coarsest level whose blocks have an edge with a 32-bit representation.
pub const MAX_STRIDE_LOD: usize = 26;

pub proof fn lemma_stride(lod: nat)
    requires
        lod <= MAX_STRIDE_LOD,
    ensures
        16 <= stride_of(lod) <= 0x4000_0000,
{
    reveal_with_fuel(stride_of, 28);
    lemma_stride_grows(lod, 26);
    lemma_stride_grows(0, lod);
}

proof fn lemma_stride_grows(a: nat, b: nat)
    requires
        a <= b,
    ensures
        0 < stride_of(a) <= stride_of(b),
    decreases b,
{
    if a < b {
        lemma_stride_grows(a, (b - 1) as nat);
    } else if a > 0 {
        lemma_stride_grows((a - 1) as nat, (a - 1) as nat);
    }
}

/// Edge, in voxels of the finest level, of a block at level `lod`.
pub fn lod_stride(lod: usize) -> (s: i32)
    requires
        lod <= MAX_STRIDE_LOD,
    ensures
        s == stride_of(lod as nat),
        16 <= s <= 0x4000_0000,
{
    let mut s: i32 = 16;
    let mut i: usize = 0;
    while i < lod
        invariant
            i <= lod,
            lod <= MAX_STRIDE_LOD,
            s == stride_of(i as nat),
        decreases lod - i,
    {
        proof {
            lemma_stride((i + 1) as nat);
        }
        s = s * 2;
        i = i + 1;
    }
    proof {
        lemma_stride(lod as nat);
    }
    s
}

/// The bounds of the data in blocks of level `lod`: every block that the box of
/// voxels touches.
pub open spec fn lod_bounds(bounds: Box3i, lod: nat) -> Box3i {
    let (lo, hi) = bounds.over(stride_of(lod));
    Box3i { position: Vector3i::from_cell(lo), size: Vector3i::from_cell(hi.minus(lo)) }
}

/// The bounds can be counted in blocks of level `lod`.
pub open spec fn lod_bounds_exist(bounds: Box3i, lod: int) -> bool {
    lod <= MAX_STRIDE_LOD && bounds.end().fits()
}

/// The corners of the bounds in blocks have a representation.
pub proof fn lemma_lod_bounds(bounds: Box3i, lod: nat)
    requires
        lod <= MAX_STRIDE_LOD,
    ensures
        lod_bounds(bounds, lod).position@ == bounds.over(stride_of(lod)).0,
        lod_bounds(bounds, lod).end() == bounds.over(stride_of(lod)).1,
        lod_bounds(bounds, lod).end().fits(),
        bounds.over(stride_of(lod)).1.minus(bounds.over(stride_of(lod)).0).fits(),
{
    lemma_stride(lod);
    let s = stride_of(lod);
    lemma_over_bounds(bounds.position.x as int, bounds.end().x, s);
    lemma_over_bounds(bounds.position.y as int, bounds.end().y, s);
    lemma_over_bounds(bounds.position.z as int, bounds.end().z, s);
}

proof fn lemma_over_bounds(lo: int, hi: int, s: int)
    requires
        i32::MIN <= lo <= i32::MAX,
        2 * i32::MIN <= hi <= 2 * i32::MAX,
        16 <= s <= 0x4000_0000,
    ensures
        -0x800_0000 <= lo / s <= 0x800_0000,
        -0x1000_0000 <= (hi + (s - 1)) / s <= 0x1000_0001,
{
    assert(-0x800_0000 <= lo / s <= 0x800_0000) by (nonlinear_arith)
        requires
            -0x8000_0000 <= lo <= 0x7fff_ffff,
            16 <= s,
    ;
    assert(-0x1000_0000 <= (hi + (s - 1)) / s <= 0x1000_0001) by (nonlinear_arith)
        requires
            -0x1_0000_0000 <= hi <= 0xffff_fffe,
            16 <= s,
    ;
}

/// The bounds of the data in blocks of level `lod`, wherever they end.
pub fn blocks_in_bounds(bounds: Box3i, lod: usize) -> (b: Box3i)
    requires
        lod <= MAX_STRIDE_LOD,
    ensures
        b == lod_bounds(bounds, lod as nat),
        b.end().fits(),
{
    let stride: i32 = lod_stride(lod);
    proof {
        lemma_lod_bounds(bounds, lod as nat);
    }
    let b = bounds.downscaled(stride);
    proof {
        let e = lod_bounds(bounds, lod as nat);
        assert(b.position@ == e.position@);
        assert(b.size@ == b.end().minus(b.position@));
        assert(e.size@ == e.end().minus(e.position@));
    }
    b
}

/// The bounds of the data in blocks of level `lod`.
pub fn bounds_in_lod_blocks(bounds: Box3i, lod: usize) -> (r: Result<Box3i, BoxOverflow>)
    ensures
        r is Ok <==> lod_bounds_exist(bounds, lod as int),
        r matches Ok(b) ==> b == lod_bounds(bounds, lod as nat),
{
    if lod > MAX_STRIDE_LOD {
        return Err(BoxOverflow);
    }
    match checked_end(bounds) {
        Some(_) => {},
        None => return Err(BoxOverflow),
    }
    Ok(blocks_in_bounds(bounds, lod))
}

/// The voxels of the finest level that a box of blocks of level `lod` covers.
pub open spec fn block_bounds(blocks: Box3i, lod: nat) -> BoxBounds3i {
    BoxBounds3i {
        min_pos: Vector3i::from_cell(blocks.position@.times(stride_of(lod))),
        max_pos: Vector3i::from_cell(blocks.end().times(stride_of(lod))),
    }
}

/// Both corners of those voxels have a representation.
pub open spec fn block_bounds_exist(blocks: Box3i, lod: nat) -> bool {
    blocks.position@.times(stride_of(lod)).fits() && blocks.end().times(stride_of(lod)).fits()
}

/// The box that holds one block.
pub open spec fn single(p: Vector3i) -> Box3i {
    Box3i { position: p, size: Vector3i { x: 1, y: 1, z: 1 } }
}

/// The voxels of the finest level that a box of blocks of level `lod` covers.
pub fn checked_lod_block_bounds(blocks_box: Box3i, lod: usize) -> (r: Option<BoxBounds3i>)
    requires
        lod <= MAX_STRIDE_LOD,
    ensures
        r is Some <==> block_bounds_exist(blocks_box, lod as nat),
        r matches Some(b) ==> b == block_bounds(blocks_box, lod as nat),
{
    let stride: i64 = lod_stride(lod) as i64;
    let x = checked_scaled(blocks_box.position.x, blocks_box.size.x, stride);
    let y = checked_scaled(blocks_box.position.y, blocks_box.size.y, stride);
    let z = checked_scaled(blocks_box.position.z, blocks_box.size.z, stride);
    match (x, y, z) {
        (Some(x), Some(y), Some(z)) => Some(
            BoxBounds3i {
                min_pos: Vector3i { x: x.0, y: y.0, z: z.0 },
                max_pos: Vector3i { x: x.1, y: y.1, z: z.1 },
            },
        ),
        _ => None,
    }
}

/// Both ends of a range, scaled.
fn checked_scaled(position: i32, size: i32, stride: i64) -> (r: Option<(i32, i32)>)
    requires
        16 <= stride <= 0x4000_0000,
    ensures
        r is Some <==> i32::MIN <= position * stride <= i32::MAX && i32::MIN <= (position + size)
            * stride <= i32::MAX,
        r matches Some(e) ==> e.0 == position * stride && e.1 == (position + size) * stride,
{
    let end: i64 = position as i64 + size as i64;
    assert(-0x4000_0000_0000_0000 <= position * stride <= 0x4000_0000_0000_0000
        && -0x4000_0000_0000_0000 <= end * stride <= 0x4000_0000_0000_0000) by (nonlinear_arith)
        requires
            -0x8000_0000 <= position <= 0x7fff_ffff,
            -0x1_0000_0000 <= end <= 0x1_0000_0000,
            16 <= stride <= 0x4000_0000,
    ;
    let lo: i64 = position as i64 * stride;
    let hi: i64 = end * stride;
    if fits_i32(lo) && fits_i32(hi) {
        Some((lo as i32, hi as i32))
    } else {
        None
    }
}

} // verus!
