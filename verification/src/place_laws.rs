//! Where voxels, blocks and levels lie: the same places, told by coordinates.

use crate::boxes;
use crate::boxes::Box3i;
use crate::grid::Cell;
use crate::math::Vector3i;
use crate::voxel_data;
use crate::voxel_data_lods;
use crate::voxel_data_map;
use crate::voxel_edit;
use vstd::arithmetic::div_mod::{lemma_div_multiples_vanish, lemma_fundamental_div_mod_converse};
use vstd::arithmetic::power2::{lemma_pow2_pos, lemma_pow2_unfold, pow2};
use vstd::prelude::*;

verus! {

/// Voxel `v` is voxel `local` of block `p`, block edges being 16 voxels.
pub open spec fn is_voxel_of(v: Cell, p: Cell, local: Cell) -> bool {
    &&& v.x == p.x * 16 + local.x && 0 <= local.x < 16
    &&& v.y == p.y * 16 + local.y && 0 <= local.y < 16
    &&& v.z == p.z * 16 + local.z && 0 <= local.z < 16
}

/// A voxel is found in its block at the offset from the first voxel of the
/// block, and only there.
pub proof fn voxels_lie_in_their_blocks(v: Vector3i, p: Vector3i, local: Cell)
    ensures
        is_voxel_of(v@, voxel_data_map::block_of(v)@, voxel_data_map::local_of(v)),
        is_voxel_of(v@, p@, local) ==> p == voxel_data_map::block_of(v) && local
            == voxel_data_map::local_of(v),
{
    voxel_data_map::lemma_local(v);
    if is_voxel_of(v@, p@, local) {
        assert(p@ == voxel_data_map::block_of(v)@);
    }
}

/// Two voxels with the same block and the same place in it are one.
pub proof fn voxels_are_told_apart(a: Vector3i, b: Vector3i)
    requires
        voxel_data_map::block_of(a) == voxel_data_map::block_of(b),
        voxel_data_map::local_of(a) == voxel_data_map::local_of(b),
    ensures
        a == b,
{
    voxels_lie_in_their_blocks(a, voxel_data_map::block_of(a), voxel_data_map::local_of(a));
    voxels_lie_in_their_blocks(b, voxel_data_map::block_of(a), voxel_data_map::local_of(a));
    assert(a@ == b@);
}

/// A block lies in the lower or the upper half of its parent on each axis, and
/// its octant begins there.
pub proof fn parents_hold_two_blocks_on_each_axis(p: Vector3i)
    ensures
        ({
            let q = voxel_data_lods::parent_of(p);
            let o = voxel_data_lods::octant_of(p);
            &&& p.x == 2 * q.x && o.x == 0 || p.x == 2 * q.x + 1 && o.x == 8
            &&& p.y == 2 * q.y && o.y == 0 || p.y == 2 * q.y + 1 && o.y == 8
            &&& p.z == 2 * q.z && o.z == 0 || p.z == 2 * q.z + 1 && o.z == 8
        }),
{
    voxel_data_lods::lemma_octant(p);
    let q = voxel_data_lods::parent_of(p);
    let o = voxel_data_lods::octant_of(p);
    assert(q@.x == p.x as int / 2 && q@.y == p.y as int / 2 && q@.z == p.z as int / 2);
    assert(o.x == (p.x - q@.x * 2) * 8);
    assert(o.y == (p.y - q@.y * 2) * 8);
    assert(o.z == (p.z - q@.z * 2) * 8);
}

/// Halving the coordinates of an even voxel of a block gives the voxel of the
/// parent that samples it: it lies in the octant of the block, at half the
/// offset.
pub proof fn halved_voxels_lie_in_the_octant(v: Vector3i, w: Vector3i)
    requires
        v@ == w@.times(2),
    ensures
        voxel_data_map::block_of(w) == voxel_data_lods::parent_of(voxel_data_map::block_of(v)),
        voxel_data_map::local_of(w) == voxel_data_lods::octant_of(
            voxel_data_map::block_of(v),
        ).plus(voxel_data_map::local_of(v).over(2)),
        voxel_data_map::local_of(v).over(2).times(2) == voxel_data_map::local_of(v),
        voxel_data_map::local_of(v).over(2).in_grid(Cell::splat(8)),
{
    let p = voxel_data_map::block_of(v);
    voxels_lie_in_their_blocks(v, p, voxel_data_map::local_of(v));
    voxels_lie_in_their_blocks(w, p, voxel_data_map::local_of(v));
    parents_hold_two_blocks_on_each_axis(p);
    assert(voxel_data_map::block_of(w)@ == voxel_data_lods::parent_of(p)@);
}

/// The edge of a block is 16 voxels at the finest level and doubles from level
/// to level.
pub proof fn block_edges_double(lod: nat)
    ensures
        boxes::stride_of(lod) == 16 * pow2(lod),
        boxes::stride_of(lod) > 0,
    decreases lod,
{
    lemma_pow2_pos(lod);
    if lod == 0 {
        vstd::arithmetic::power2::lemma2_to64();
    } else {
        block_edges_double((lod - 1) as nat);
        lemma_pow2_unfold(lod);
    }
}

/// Flooring twice is flooring once by the product.
pub proof fn lemma_floor_twice(x: int, s: int)
    requires
        s > 0,
    ensures
        (x / s) / 2 == x / (2 * s),
{
    let q = x / s;
    let r = x % s;
    let h = q / 2;
    let b = q % 2;
    assert(x == s * q + r && 0 <= r < s) by {
        vstd::arithmetic::div_mod::lemma_fundamental_div_mod(x, s);
        vstd::arithmetic::div_mod::lemma_mod_bound(x, s);
    }
    assert(x == h * (2 * s) + (s * b + r)) by (nonlinear_arith)
        requires
            x == s * q + r,
            q == 2 * h + b,
    ;
    assert(0 <= s * b + r < 2 * s) by (nonlinear_arith)
        requires
            0 <= b <= 1,
            0 <= r < s,
    ;
    lemma_fundamental_div_mod_converse(x, 2 * s, h, s * b + r);
}

/// A voxel of the finest level lies, at every level, in the block whose extent
/// holds it.
pub proof fn levels_nest(pos: Vector3i, l: int)
    requires
        l >= 0,
    ensures
        voxel_edit::edited_position(pos, l)@ == pos@.over(16 * pow2(l as nat) as int),
    decreases l,
{
    block_edges_double(l as nat);
    if l > 0 {
        levels_nest(pos, l - 1);
        block_edges_double((l - 1) as nat);
        let s = boxes::stride_of((l - 1) as nat);
        lemma_floor_twice(pos.x as int, s);
        lemma_floor_twice(pos.y as int, s);
        lemma_floor_twice(pos.z as int, s);
        voxel_data_lods::lemma_octant(voxel_edit::edited_position(pos, l - 1));
    } else {
        vstd::arithmetic::power2::lemma2_to64();
        voxel_data_map::lemma_local(pos);
    }
}

proof fn lemma_scaled_axis(p: int, s: int)
    requires
        s > 0,
    ensures
        (p * s) / s == p,
        (p + 1) * s == p * s + s,
{
    lemma_div_multiples_vanish(p, s);
    assert(s * p == p * s && (p + 1) * s == p * s + s) by (nonlinear_arith);
}

/// The first voxel of a block of a level is its position times the edge of the
/// blocks there, axis by axis. It is the first corner of the voxels that the
/// block covers; the last corner is one edge further on every axis.
pub proof fn blocks_begin_at_their_first_voxel(p: Vector3i, lod: nat)
    ensures
        ({
            let edge = 16 * pow2(lod) as int;
            let first = voxel_data_lods::block_origin(p, lod);
            &&& first.x == p.x * edge
            &&& first.y == p.y * edge
            &&& first.z == p.z * edge
            &&& first.over(edge) == p@
            &&& boxes::block_bounds_exist(boxes::single(p), lod) ==> {
                let b = boxes::block_bounds(boxes::single(p), lod);
                &&& b.min_pos@ == first
                &&& b.max_pos@ == first.plus(Cell::splat(edge))
            }
            &&& boxes::block_bounds_exist(boxes::single(p), lod) <==> first.fits() && first.plus(
                Cell::splat(edge),
            ).fits()
            &&& lod == 0 && first.fits() ==> voxel_data_map::block_of(Vector3i::from_cell(first))
                == p
        }),
{
    block_edges_double(lod);
    let s = boxes::stride_of(lod);
    lemma_scaled_axis(p.x as int, s);
    lemma_scaled_axis(p.y as int, s);
    lemma_scaled_axis(p.z as int, s);
    let first = voxel_data_lods::block_origin(p, lod);
    if lod == 0 && first.fits() {
        assert(Vector3i::from_cell(first)@ == first);
        assert(voxel_data_map::block_of(Vector3i::from_cell(first))@ == p@);
    }
}

proof fn lemma_touched_axis(lo: int, hi: int, s: int, p: int, v: int)
    requires
        s > 0,
    ensures
        lo <= v < hi ==> lo / s <= v / s < (hi + (s - 1)) / s,
        lo < hi ==> (lo / s <= p < (hi + (s - 1)) / s <==> p * s < hi && lo < p * s + s),
{
    vstd::arithmetic::div_mod::lemma_fundamental_div_mod(lo, s);
    vstd::arithmetic::div_mod::lemma_mod_bound(lo, s);
    vstd::arithmetic::div_mod::lemma_fundamental_div_mod(v, s);
    vstd::arithmetic::div_mod::lemma_mod_bound(v, s);
    vstd::arithmetic::div_mod::lemma_fundamental_div_mod(hi + (s - 1), s);
    vstd::arithmetic::div_mod::lemma_mod_bound(hi + (s - 1), s);
    let a = lo / s;
    let b = v / s;
    let e = (hi + (s - 1)) / s;
    let ra = lo % s;
    let rb = v % s;
    let re = (hi + (s - 1)) % s;
    assert(lo <= v ==> a <= b) by (nonlinear_arith)
        requires
            lo == s * a + ra,
            v == s * b + rb,
            0 <= ra < s,
            0 <= rb < s,
    ;
    assert(v < hi ==> b < e) by (nonlinear_arith)
        requires
            hi + (s - 1) == s * e + re,
            v == s * b + rb,
            0 <= re < s,
            0 <= rb < s,
    ;
    assert(a <= p <==> lo < p * s + s) by (nonlinear_arith)
        requires
            lo == s * a + ra,
            0 <= ra < s,
    ;
    assert(p < e <==> p * s < hi) by (nonlinear_arith)
        requires
            hi + (s - 1) == s * e + re,
            0 <= re < s,
    ;
}

/// The blocks of a level that a box of voxels touches: every block that holds a
/// voxel of the box, and only blocks whose extent meets the box on every axis.
pub proof fn boxes_touch_the_blocks_of_their_voxels(b: Box3i, lod: nat, v: Cell, p: Cell)
    requires
        !b.vacant(),
        lod <= boxes::MAX_STRIDE_LOD,
    ensures
        ({
            let edge = 16 * pow2(lod) as int;
            let blocks = boxes::lod_bounds(b, lod);
            &&& b.has(v) ==> blocks.has(v.over(edge))
            &&& blocks.has(p) <==> {
                &&& p.x * edge < b.end().x && b.position.x < p.x * edge + edge
                &&& p.y * edge < b.end().y && b.position.y < p.y * edge + edge
                &&& p.z * edge < b.end().z && b.position.z < p.z * edge + edge
            }
        }),
        lod == 0 ==> voxel_data::touched_blocks(b) == boxes::lod_bounds(b, lod),
{
    block_edges_double(lod);
    boxes::lemma_lod_bounds(b, lod);
    let s = boxes::stride_of(lod);
    lemma_touched_axis(b.position.x as int, b.end().x, s, p.x, v.x);
    lemma_touched_axis(b.position.y as int, b.end().y, s, p.y, v.y);
    lemma_touched_axis(b.position.z as int, b.end().z, s, p.z, v.z);
}

/// Two boxes have the cells in common that lie in both.
pub proof fn boxes_share_the_cells_in_both(a: Box3i, b: Box3i, p: Cell)
    requires
        a.end().fits(),
        b.end().fits(),
    ensures
        boxes::intersection(a, b).has(p) <==> {
            &&& a.position.x <= p.x < a.position.x + a.size.x
            &&& a.position.y <= p.y < a.position.y + a.size.y
            &&& a.position.z <= p.z < a.position.z + a.size.z
            &&& b.position.x <= p.x < b.position.x + b.size.x
            &&& b.position.y <= p.y < b.position.y + b.size.y
            &&& b.position.z <= p.z < b.position.z + b.size.z
        },
{
    boxes::lemma_intersection(a, b);
}

/// A box lists each of its cells once: y changes fastest, then x, then z.
pub proof fn boxes_list_their_cells(b: Box3i, p: Vector3i, i: int, j: int)
    requires
        b.representable(),
        0 <= i < j < b.cells().len(),
    ensures
        b.cells().contains(p) <==> {
            &&& b.position.x <= p.x < b.position.x + b.size.x
            &&& b.position.y <= p.y < b.position.y + b.size.y
            &&& b.position.z <= p.z < b.position.z + b.size.z
        },
        ({
            let one = b.cells()[i];
            let two = b.cells()[j];
            one.z < two.z || one.z == two.z && (one.x < two.x || one.x == two.x && one.y < two.y)
        }),
{
    b.lemma_cells();
    if b.cells().contains(p) {
        let k = choose|k: int| 0 <= k < b.cells().len() && b.cells()[k] == p;
        assert(b.has(b.cells()[k]@));
    }
    if b.has(p@) {
        assert(b.cells().contains(p));
    }
    assert(b.cells()[i]@.before(b.cells()[j]@));
}

} // verus!
