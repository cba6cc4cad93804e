//! Generating missing blocks and carrying edits to coarser levels of detail.

use crate::boxes;
use crate::boxes::Box3i;
use crate::buffer_model;
use crate::buffer_model::BufferModel;
use crate::collections;
use crate::depth::ChannelDepth;
use crate::generator;
use crate::generator::{SharedVoxelGenerator, VoxelGenerator};
use crate::grid::Cell;
use crate::map_paste;
use crate::math::Vector3i;
use crate::voxel_buffer::VoxelBuffer;
use crate::voxel_data::{BlockLocation, DataModel, VoxelData, MAX_LOD};
use crate::voxel_data_block::{BlockModel, VoxelDataBlock};
use crate::voxel_data_map;
use crate::voxel_data_map::{MapModel, VoxelDataMap, BLOCK_SIZE};
use crate::voxel_format::VoxelFormat;
use vstd::arithmetic::power2::{lemma2_to64, lemma_pow2_pos, lemma_pow2_unfold, pow2};
use vstd::prelude::*;

verus! {

/// The block that holds block `p` at the next coarser level.
pub open spec fn parent_of(p: Vector3i) -> Vector3i {
    Vector3i::from_cell(p@.over(2))
}

/// The first voxel, at the finest level, of block `p` of level `lod`.
pub open spec fn block_origin(p: Vector3i, lod: nat) -> Cell {
    p@.times(boxes::stride_of(lod))
}

/// `b` is a possible content of a new block: what the generator makes of an
/// empty one, or an empty one where there is no generator.
pub open spec fn generated_by(
    generator: Option<&dyn VoxelGenerator>,
    format: Seq<ChannelDepth>,
    p: Vector3i,
    lod: nat,
    b: BufferModel,
) -> bool {
    &&& b.wf()
    &&& generator::same_shape(voxel_data_map::block_buffer(format), b)
    &&& match generator {
        Some(g) => g.may_generate(
            voxel_data_map::block_buffer(format),
            Vector3i::from_cell(block_origin(p, lod)),
            lod as u32,
            b,
        ),
        None => b == voxel_data_map::block_buffer(format),
    }
}

/// New voxels for block `p` of a level.
pub(crate) fn generate_voxels(
    format: VoxelFormat,
    generator: Option<&dyn VoxelGenerator>,
    p: Vector3i,
    lod: usize,
) -> (b: VoxelBuffer)
    requires
        lod < MAX_LOD,
        generator is Some ==> block_origin(p, lod as nat).fits(),
    ensures
        b.wf(),
        b@.size == Cell::splat(BLOCK_SIZE as int),
        generated_by(generator, format@, p, lod as nat, b@),
{
    let mut b = map_paste::new_block_buffer(format);
    match generator {
        Some(g) => {
            let stride: i32 = boxes::lod_stride(lod);
            let origin = p.times(stride);
            assert(origin == Vector3i::from_cell(block_origin(p, lod as nat)));
            g.generate_block(&mut b, origin, lod as u32);
        },
        None => {},
    }
    proof {
        b.lemma_wf();
    }
    b
}

/// `b` is a possible content of a new block of data with the given generator
/// and format.
pub open spec fn generated_for(
    generator: Option<SharedVoxelGenerator>,
    format: Seq<ChannelDepth>,
    p: Vector3i,
    lod: nat,
    b: BufferModel,
) -> bool {
    &&& b.wf()
    &&& generator::same_shape(voxel_data_map::block_buffer(format), b)
    &&& match generator {
        Some(g) => g.may_generate(
            voxel_data_map::block_buffer(format),
            Vector3i::from_cell(block_origin(p, lod)),
            lod as u32,
            b,
        ),
        None => b == voxel_data_map::block_buffer(format),
    }
}

/// New voxels for block `p` of a level, by a shared generator if there is one.
pub fn generate_block_voxels(
    generator: &Option<SharedVoxelGenerator>,
    format: VoxelFormat,
    p: Vector3i,
    lod: usize,
) -> (b: VoxelBuffer)
    requires
        lod < MAX_LOD,
        generator is Some ==> block_origin(p, lod as nat).fits(),
    ensures
        b.wf(),
        b@.size == Cell::splat(BLOCK_SIZE as int),
        generated_for(*generator, format@, p, lod as nat, b@),
{
    let mut b = map_paste::new_block_buffer(format);
    match generator {
        Some(g) => {
            let stride: i32 = boxes::lod_stride(lod);
            let origin = p.times(stride);
            assert(origin == Vector3i::from_cell(block_origin(p, lod as nat)));
            g.generate_block(&mut b, origin, lod as u32);
        },
        None => {},
    }
    proof {
        b.lemma_wf();
    }
    b
}

/// The block at `p` is generated in advance: it has no voxels, and it is there
/// or nothing is streamed.
pub open spec fn pre_generates(m: MapModel, streaming: bool, p: Vector3i) -> bool {
    !m.has_voxels(p) && (m.has(p) || !streaming)
}

/// The map with the wanted blocks of `cells` made as `made` says.
pub open spec fn made_change(
    streaming: bool,
    lod_index: u8,
    made: Map<Vector3i, BufferModel>,
) -> spec_fn(Vector3i, Option<BlockModel>) -> Option<BlockModel> {
    |p: Vector3i, o: Option<BlockModel>|
        match o {
            Some(b) => if b.voxels is Some {
                Some(b)
            } else {
                Some(BlockModel { voxels: Some(made[p]), ..b })
            },
            None => if streaming {
                None
            } else {
                Some(BlockModel::fresh(Some(made[p]), lod_index))
            },
        }
}

/// Every wanted block of `cells` has a possible content in `made`.
pub open spec fn made_for(
    m: MapModel,
    streaming: bool,
    generator: Option<&dyn VoxelGenerator>,
    cells: Seq<Vector3i>,
    lod: nat,
    made: Map<Vector3i, BufferModel>,
) -> bool {
    forall|p: Vector3i|
        cells.contains(p) && pre_generates(m, streaming, p) ==> generated_by(
            generator,
            m.format,
            p,
            lod,
            #[trigger] made[p],
        )
}

/// Makes the wanted blocks of a box and returns how many they are.
fn generate_missing(
    map: &mut VoxelDataMap,
    area: Box3i,
    lod: usize,
    streaming: bool,
    generator: Option<&dyn VoxelGenerator>,
) -> (count: u128)
    requires
        old(map).wf(),
        old(map)@.lod_index == lod,
        lod < MAX_LOD,
        area.representable(),
        generator is Some ==> forall|p: Vector3i|
            area.has(p@) ==> #[trigger] block_origin(p, lod as nat).fits(),
    ensures
        final(map).wf(),
        count == area.cells().filter(
            |p: Vector3i| pre_generates(old(map)@, streaming, p),
        ).len(),
        exists|made: Map<Vector3i, BufferModel>| #[trigger]
            made_for(old(map)@, streaming, generator, area.cells(), lod as nat, made)
                && final(map)@ == old(map)@.changed(
                area.cells(),
                made_change(streaming, lod as u8, made),
            ),
{
    let ghost m = map@;
    let ghost cells = area.cells();
    let ghost wanted = |p: Vector3i| pre_generates(m, streaming, p);
    let ghost mut made: Map<Vector3i, BufferModel> = Map::empty();
    let format = map.format();
    let mut count: u128 = 0;
    let n: u128 = area.cell_count();
    let mut i: u128 = 0;
    proof {
        area.lemma_cells();
        voxel_data_map::lemma_changed_start(m, cells, made_change(streaming, lod as u8, made));
        collections::lemma_filter_none(cells, wanted);
    }
    while i < n
        invariant
            i <= n,
            n == cells.len(),
            cells == area.cells(),
            cells.no_duplicates(),
            area.representable(),
            map.wf(),
            m.lod_index == lod,
            lod < MAX_LOD,
            format@ == m.format,
            generator is Some ==> forall|p: Vector3i|
                area.has(p@) ==> #[trigger] block_origin(p, lod as nat).fits(),
            wanted == (|p: Vector3i| pre_generates(m, streaming, p)),
            count <= i,
            count == cells.take(i as int).filter(wanted).len(),
            made_for(m, streaming, generator, cells.take(i as int), lod as nat, made),
            map@ == m.changed(
                cells.take(i as int),
                made_change(streaming, lod as u8, made),
            ),
        decreases n - i,
    {
        let p = area.cell(i);
        let ghost now = map@;
        let ghost made_before = made;
        proof {
            voxel_data_map::lemma_changed_step(
                m,
                cells,
                made_change(streaming, lod as u8, made),
                i as int,
            );
            voxel_data_map::lemma_changed_same(now, p);
            collections::lemma_filter_take(cells, wanted, i as int);
            collections::lemma_take_contains(cells, i as int);
        }
        let generate = match map.get_block(p) {
            Some(block) => !block.has_voxels(),
            None => !streaming,
        };
        if generate {
            let voxels = generate_voxels(format, generator, p, lod);
            map.set_block_buffer(p, voxels, true);
            count = count + 1;
            proof {
                made = made_before.insert(p, voxels@);
                assert(!cells.take(i as int).contains(p)) by {
                    if cells.take(i as int).contains(p) {
                        let k = choose|k: int| 0 <= k < i && cells.take(i as int)[k] == p;
                        assert(cells[k] == cells[i as int]);
                    }
                }
                assert(m.changed(cells.take(i as int), made_change(streaming, lod as u8, made))
                    =~= now);
                voxel_data_map::lemma_changed_step(
                    m,
                    cells,
                    made_change(streaming, lod as u8, made),
                    i as int,
                );
                assert forall|q: Vector3i|
                    cells.take(i + 1).contains(q) && pre_generates(
                        m,
                        streaming,
                        q,
                    ) implies generated_by(
                    generator,
                    m.format,
                    q,
                    lod as nat,
                    #[trigger] made[q],
                ) by {
                    if q != p {
                        assert(made_before[q] == made[q]);
                    }
                }
            }
        }
        i = i + 1;
    }
    proof {
        assert(cells.take(n as int) =~= cells);
    }
    count
}

/// The number of blocks of the first `n` levels that are generated in advance
/// for a box of voxels.
pub open spec fn pre_generated_below(d: DataModel, voxel_box: Box3i, n: int) -> nat
    decreases n,
{
    if n <= 0 {
        0
    } else {
        pre_generated_below(d, voxel_box, n - 1) + boxes::lod_bounds(
            voxel_box,
            (n - 1) as nat,
        ).cells().filter(
            |p: Vector3i| pre_generates(d.lods[n - 1], d.streaming_enabled, p),
        ).len()
    }
}

/// Level `l` after its wanted blocks have been made.
pub open spec fn level_generated(
    before: DataModel,
    after: MapModel,
    voxel_box: Box3i,
    generator: Option<&dyn VoxelGenerator>,
    l: int,
) -> bool {
    let cells = boxes::lod_bounds(voxel_box, l as nat).cells();
    exists|made: Map<Vector3i, BufferModel>| #[trigger]
        made_for(before.lods[l], before.streaming_enabled, generator, cells, l as nat, made)
            && after == before.lods[l].changed(
            cells,
            made_change(before.streaming_enabled, l as u8, made),
        )
}

proof fn lemma_pre_generated_grows(d: DataModel, voxel_box: Box3i, a: int, b: int)
    requires
        0 <= a <= b,
    ensures
        pre_generated_below(d, voxel_box, a) <= pre_generated_below(d, voxel_box, b),
    decreases b - a,
{
    if a < b {
        lemma_pre_generated_grows(d, voxel_box, a, b - 1);
    }
}

impl VoxelData {
    /// Makes the blocks that a box of voxels touches and that have no voxels, at
    /// every level; while data is streamed, only those that are there. Returns
    /// how many were made.
    pub fn pre_generate_box(
        &mut self,
        voxel_box: Box3i,
        generator: Option<&dyn VoxelGenerator>,
    ) -> (count: usize)
        requires
            old(self).wf(),
            voxel_box.end().fits(),
            pre_generated_below(old(self)@, voxel_box, old(self)@.lods.len() as int)
                <= usize::MAX,
            generator is Some ==> forall|p: Vector3i, l: int|
                0 <= l < old(self)@.lods.len() && boxes::lod_bounds(voxel_box, l as nat).has(p@)
                    ==> #[trigger] block_origin(p, l as nat).fits(),
        ensures
            final(self).wf(),
            final(self)@ == (DataModel { lods: final(self)@.lods, ..old(self)@ }),
            final(self)@.lods.len() == old(self)@.lods.len(),
            forall|l: int|
                0 <= l < old(self)@.lods.len() ==> level_generated(
                    old(self)@,
                    #[trigger] final(self)@.lods[l],
                    voxel_box,
                    generator,
                    l,
                ),
            count == pre_generated_below(old(self)@, voxel_box, old(self)@.lods.len() as int),
    {
        let ghost before = self@;
        proof {
            self.lemma_wf();
        }
        let streaming = self.is_streaming_enabled();
        let n: usize = self.lod_count();
        let mut count: usize = 0;
        let mut l: usize = 0;
        while l < n
            invariant
                l <= n,
                n == before.lods.len(),
                n < MAX_LOD,
                before == old(self)@,
                before.wf(),
                self.wf(),
                streaming == before.streaming_enabled,
                voxel_box.end().fits(),
                pre_generated_below(before, voxel_box, n as int) <= usize::MAX,
                generator is Some ==> forall|p: Vector3i, k: int|
                    0 <= k < before.lods.len() && boxes::lod_bounds(voxel_box, k as nat).has(p@)
                        ==> #[trigger] block_origin(p, k as nat).fits(),
                self@ == (DataModel { lods: self@.lods, ..before }),
                self@.lods.len() == n,
                forall|k: int|
                    0 <= k < l ==> level_generated(
                        before,
                        #[trigger] self@.lods[k],
                        voxel_box,
                        generator,
                        k,
                    ),
                forall|k: int| l <= k < n ==> #[trigger] self@.lods[k] == before.lods[k],
                count == pre_generated_below(before, voxel_box, l as int),
            decreases n - l,
        {
            proof {
                boxes::lemma_lod_bounds(voxel_box, l as nat);
                lemma_pre_generated_grows(before, voxel_box, l + 1, n as int);
                assert(before.lods[l as int].wf());
            }
            let stride: i32 = boxes::lod_stride(l);
            let area = voxel_box.downscaled(stride);
            proof {
                let e = boxes::lod_bounds(voxel_box, l as nat);
                assert(area.position@ == e.position@);
                assert(area.size@ == area.end().minus(area.position@));
                assert(e.size@ == e.end().minus(e.position@));
                assert(area == e);
            }
            let made: u128 = generate_missing(self.lod_mut(l), area, l, streaming, generator);
            count = count + made as usize;
            l = l + 1;
        }
        count
    }
}

/// Number of blocks of level `lod` on either side of the origin whose first
/// voxel has a 32-bit position.
pub open spec fn span_of(lod: nat) -> int
    decreases lod,
{
    if lod == 0 {
        0x800_0000
    } else {
        span_of((lod - 1) as nat) / 2
    }
}

/// The first voxel of block `p` of level `lod` has a 32-bit position.
pub open spec fn in_span(p: Vector3i, lod: nat) -> bool {
    p@.within(Cell::splat(-span_of(lod)), Cell::splat(span_of(lod)))
}

proof fn lemma_span(lod: nat)
    requires
        lod < MAX_LOD,
    ensures
        span_of(lod) >= 16,
        span_of(lod) % 2 == 0,
        span_of(lod) == 16 * pow2((MAX_LOD - 1 - lod) as nat),
        span_of(lod) * boxes::stride_of(lod) == 0x8000_0000,
    decreases lod,
{
    lemma_pow2_pos((MAX_LOD - 1 - lod) as nat);
    if lod == 0 {
        lemma2_to64();
    } else {
        let below = (lod - 1) as nat;
        lemma_span(below);
        let s = span_of(below);
        let t = boxes::stride_of(below);
        assert((s / 2) * (2 * t) == s * t) by (nonlinear_arith)
            requires
                s % 2 == 0,
        ;
        lemma_pow2_unfold((MAX_LOD - 1 - below) as nat);
    }
}

/// Blocks whose first voxel has a position have parents of which the same is
/// true.
proof fn lemma_parent_in_span(p: Vector3i, lod: nat)
    requires
        lod + 1 < MAX_LOD,
        in_span(p, lod),
    ensures
        in_span(parent_of(p), lod + 1),
{
    lemma_span(lod);
}

proof fn lemma_origin_fits(p: Vector3i, lod: nat)
    requires
        lod < MAX_LOD,
        in_span(p, lod),
    ensures
        block_origin(p, lod).fits(),
{
    lemma_span(lod);
    lemma_axis_fits(p.x as int, span_of(lod), boxes::stride_of(lod));
    lemma_axis_fits(p.y as int, span_of(lod), boxes::stride_of(lod));
    lemma_axis_fits(p.z as int, span_of(lod), boxes::stride_of(lod));
}

proof fn lemma_axis_fits(v: int, span: int, stride: int)
    requires
        -span <= v < span,
        span >= 16,
        span * stride == 0x8000_0000,
    ensures
        i32::MIN <= v * stride <= i32::MAX,
{
    assert(-(span * stride) <= v * stride && v * stride <= (span - 1) * stride && (span - 1)
        * stride == span * stride - stride && stride > 0) by (nonlinear_arith)
        requires
            -span <= v <= span - 1,
            span >= 16,
            span * stride == 0x8000_0000,
    ;
}

/// The octant of its parent that block `p` takes: an offset in voxels.
pub open spec fn octant_of(p: Vector3i) -> Cell {
    p@.minus(parent_of(p)@.times(2)).times(BLOCK_SIZE / 2)
}

/// A block that waits no longer for an update of the coarser levels.
pub open spec fn settled(m: MapModel, p: Vector3i) -> MapModel {
    if m.has(p) {
        m.with_block(p, BlockModel { needs_lodding: false, ..m.blocks[p] })
    } else {
        m
    }
}

/// Carrying block `p` of level `d - 1` to level `d` has something to do: the
/// block has voxels, and its parent is there or nothing is streamed.
pub open spec fn carries(lods: Seq<MapModel>, d: int, streaming: bool, p: Vector3i) -> bool {
    lods[d - 1].has_voxels(p) && (lods[d].has(parent_of(p)) || !streaming)
}

/// Carrying block `p` needs new voxels for its parent.
pub open spec fn carry_makes(lods: Seq<MapModel>, d: int, streaming: bool, p: Vector3i) -> bool {
    carries(lods, d, streaming, p) && !lods[d].has_voxels(parent_of(p))
}

/// The parent of `p` at level `d`, with voxels: its own, or `made`.
pub open spec fn parent_with_voxels(
    m: MapModel,
    p: Vector3i,
    made: Option<BufferModel>,
) -> BlockModel {
    let q = parent_of(p);
    if m.has_voxels(q) {
        m.blocks[q]
    } else {
        m.with_buffer(q, made->0).blocks[q]
    }
}

/// The parent at level `d` newly waits to be carried on itself.
pub open spec fn carry_enqueues(
    lods: Seq<MapModel>,
    d: int,
    streaming: bool,
    p: Vector3i,
    made: Option<BufferModel>,
) -> bool {
    carries(lods, d, streaming, p) && d != lods.len() - 1 && !parent_with_voxels(
        lods[d],
        p,
        made,
    ).needs_lodding
}

/// The levels after block `p` of level `d - 1` has been carried to level `d`:
/// every second voxel of it is sampled into its octant of the parent, which is
/// then modified.
pub open spec fn carried(
    lods: Seq<MapModel>,
    d: int,
    streaming: bool,
    p: Vector3i,
    made: Option<BufferModel>,
) -> Seq<MapModel> {
    let src = settled(lods[d - 1], p);
    if !carries(lods, d, streaming, p) {
        lods.update(d - 1, src)
    } else {
        let q = parent_of(p);
        let b = parent_with_voxels(lods[d], p, made);
        let from = lods[d - 1].blocks[p].voxels->0;
        let after = BlockModel {
            voxels: Some(
                (b.voxels->0).downscaled_from(from, Cell::zero(), from.size, octant_of(p)),
            ),
            modified: true,
            needs_lodding: b.needs_lodding || d != lods.len() - 1,
            ..b
        };
        lods.update(d - 1, src).update(d, lods[d].with_block(q, after))
    }
}

/// The state of a pass over the blocks of one level.
#[verifier::ext_equal]
pub struct PassState {
    pub lods: Seq<MapModel>,
    /// Blocks of the coarser level that wait for the next pass.
    pub next: Seq<Vector3i>,
    /// Blocks that were updated.
    pub updated: Seq<BlockLocation>,
}

/// The state after the first `n` blocks of `work` have been carried to level
/// `d`, one after the other.
pub open spec fn pass_after(
    start: PassState,
    d: int,
    streaming: bool,
    work: Seq<Vector3i>,
    made: Seq<Option<BufferModel>>,
    n: int,
) -> PassState
    decreases n,
{
    if n <= 0 {
        start
    } else {
        let s = pass_after(start, d, streaming, work, made, n - 1);
        let p = work[n - 1];
        PassState {
            lods: carried(s.lods, d, streaming, p, made[n - 1]),
            next: if carry_enqueues(s.lods, d, streaming, p, made[n - 1]) {
                s.next.push(parent_of(p))
            } else {
                s.next
            },
            updated: if carries(s.lods, d, streaming, p) {
                s.updated.push(BlockLocation { position: parent_of(p), lod_index: d as u8 })
            } else {
                s.updated
            },
        }
    }
}

/// Wherever the first `n` steps of a pass need new voxels, `made` has possible
/// ones.
pub open spec fn pass_made(
    start: PassState,
    d: int,
    streaming: bool,
    format: Seq<ChannelDepth>,
    generator: Option<&dyn VoxelGenerator>,
    work: Seq<Vector3i>,
    made: Seq<Option<BufferModel>>,
    n: int,
) -> bool {
    forall|k: int|
        0 <= k < n ==> {
            let s = #[trigger] pass_after(start, d, streaming, work, made, k);
            carry_makes(s.lods, d, streaming, work[k]) ==> (made[k] matches Some(b)
                && generated_by(generator, format, parent_of(work[k]), d as nat, b))
        }
}

/// The state before the first pass: the given blocks of the finest level wait
/// no longer, and those that are there count as updated.
pub open spec fn update_start(before: DataModel, blocks: Seq<Vector3i>) -> PassState {
    let m = before.lods[0];
    PassState {
        lods: before.lods.update(0, m.changed(blocks, settle_change())),
        next: blocks,
        updated: blocks.filter(|p: Vector3i| m.has(p)).map_values(
            |p: Vector3i| BlockLocation { position: p, lod_index: 0 },
        ),
    }
}

/// Every block waits no longer.
pub open spec fn settle_change() -> spec_fn(Vector3i, Option<BlockModel>) -> Option<BlockModel> {
    |p: Vector3i, o: Option<BlockModel>|
        match o {
            Some(b) => Some(BlockModel { needs_lodding: false, ..b }),
            None => None,
        }
}

/// The state after passes to the levels 1 to `d`.
pub open spec fn update_after(
    before: DataModel,
    blocks: Seq<Vector3i>,
    made: Seq<Seq<Option<BufferModel>>>,
    d: int,
) -> PassState
    decreases d,
{
    if d <= 0 {
        update_start(before, blocks)
    } else {
        let s = update_after(before, blocks, made, d - 1);
        pass_after(
            PassState { next: Seq::empty(), ..s },
            d,
            before.streaming_enabled,
            s.next,
            made[d],
            s.next.len() as int,
        )
    }
}

/// Wherever the passes to the levels 1 to `d` need new voxels, `made` has
/// possible ones.
pub open spec fn update_made(
    before: DataModel,
    blocks: Seq<Vector3i>,
    generator: Option<&dyn VoxelGenerator>,
    made: Seq<Seq<Option<BufferModel>>>,
    d: int,
) -> bool {
    forall|k: int|
        1 <= k <= d ==> {
            let s = #[trigger] update_after(before, blocks, made, k - 1);
            pass_made(
                PassState { next: Seq::empty(), ..s },
                k,
                before.streaming_enabled,
                before.format,
                generator,
                s.next,
                made[k],
                s.next.len() as int,
            )
        }
}

/// An octant is one of the eight corners of the parent.
pub proof fn lemma_octant(p: Vector3i)
    ensures
        octant_of(p).within(Cell::zero(), Cell::splat(BLOCK_SIZE / 2 + 1)),
        octant_of(p).x == 0 || octant_of(p).x == BLOCK_SIZE / 2,
        octant_of(p).y == 0 || octant_of(p).y == BLOCK_SIZE / 2,
        octant_of(p).z == 0 || octant_of(p).z == BLOCK_SIZE / 2,
        parent_of(p)@ == p@.over(2),
{
}

/// Sampling a whole block into an octant stays inside both blocks.
proof fn lemma_octant_in_bounds(dst: BufferModel, src: BufferModel, p: Vector3i)
    requires
        dst.size == Cell::splat(BLOCK_SIZE as int),
        src.size == Cell::splat(BLOCK_SIZE as int),
    ensures
        dst.downscale_in_bounds(src, Cell::zero(), src.size, octant_of(p)),
{
    lemma_octant(p);
    let extent = buffer_model::downscale_extent(
        src.size,
        dst.size,
        Cell::zero(),
        src.size,
        octant_of(p),
    );
    assert(extent.0 == Cell::zero());
    assert(extent.1 == octant_of(p));
    assert(extent.2 == octant_of(p).plus(Cell::splat(BLOCK_SIZE / 2)));
}

/// A block with every second voxel of `child` sampled into the octant that block
/// `p` takes of its parent.
pub open spec fn sampled(parent: BlockModel, child: BlockModel, p: Vector3i) -> BlockModel {
    let from = child.voxels->0;
    BlockModel {
        voxels: Some(
            (parent.voxels->0).downscaled_from(from, Cell::zero(), from.size, octant_of(p)),
        ),
        ..parent
    }
}

/// Samples every second voxel of `child`, block `p` of its level, into its
/// octant of the parent.
pub fn sample_into_parent(parent: &mut VoxelDataBlock, child: &VoxelDataBlock, p: Vector3i)
    requires
        old(parent).wf(),
        child.wf(),
        old(parent)@.voxels is Some,
        child@.voxels is Some,
        voxel_data_map::block_fits(old(parent)@),
        voxel_data_map::block_fits(child@),
    ensures
        final(parent).wf(),
        final(parent)@ == sampled(old(parent)@, child@, p),
        voxel_data_map::block_fits(final(parent)@),
{
    let q = p.floor_div(2);
    proof {
        lemma_octant(p);
        assert(q == parent_of(p));
        lemma_octant_in_bounds(parent@.voxels->0, child@.voxels->0, p);
    }
    let octant = p.minus(q.times(2)).times(BLOCK_SIZE / 2);
    let voxels = child.voxels();
    let size = voxels.size();
    voxels.downscale_to(parent.voxels_mut(), Vector3i::zero(), size, octant);
}

/// What an optional buffer holds.
pub open spec fn made_of(made: Option<VoxelBuffer>) -> Option<BufferModel> {
    match made {
        Some(v) => Some(v@),
        None => None,
    }
}

impl VoxelData {
    /// True if carrying block `p` of level `d - 1` to level `d` needs new voxels
    /// for the parent.
    pub fn carry_needs_voxels(&self, d: usize, p: Vector3i) -> (b: bool)
        requires
            self.wf(),
            1 <= d < self@.lods.len(),
        ensures
            b == carry_makes(self@.lods, d as int, self@.streaming_enabled, p),
    {
        let has_voxels = match self.lod(d - 1).get_block(p) {
            Some(block) => block.has_voxels(),
            None => false,
        };
        if !has_voxels {
            return false;
        }
        let q = p.floor_div(2);
        assert(q == parent_of(p));
        match self.lod(d).get_block(q) {
            Some(block) => !block.has_voxels(),
            None => !self.is_streaming_enabled(),
        }
    }

    /// Carries block `p` of level `d - 1` to level `d`. `made` holds new voxels
    /// for the parent where it needs them. Returns whether there was anything
    /// to do, and whether the parent newly waits to be carried on.
    pub fn carry_block(&mut self, d: usize, p: Vector3i, made: Option<VoxelBuffer>) -> (r: (
        bool,
        bool,
    ))
        requires
            old(self).wf(),
            1 <= d < old(self)@.lods.len(),
            made matches Some(v) ==> v.wf() && v@.size == Cell::splat(BLOCK_SIZE as int),
            carry_makes(old(self)@.lods, d as int, old(self)@.streaming_enabled, p)
                ==> made is Some,
        ensures
            final(self).wf(),
            final(self)@ == (DataModel {
                lods: carried(
                    old(self)@.lods,
                    d as int,
                    old(self)@.streaming_enabled,
                    p,
                    made_of(made),
                ),
                ..old(self)@
            }),
            r.0 == carries(old(self)@.lods, d as int, old(self)@.streaming_enabled, p),
            r.1 == carry_enqueues(
                old(self)@.lods,
                d as int,
                old(self)@.streaming_enabled,
                p,
                made_of(made),
            ),
    {
        let ghost before = self@;
        let ghost lods = before.lods;
        let ghost i = d as int;
        let ghost made_model = made_of(made);
        let streaming = self.is_streaming_enabled();
        let last: usize = self.lod_count() - 1;
        let q = p.floor_div(2);
        proof {
            self.lemma_wf();
            lemma_octant(p);
            assert(q == parent_of(p));
            assert(lods[i - 1].wf());
            assert(lods[i].wf());
            voxel_data_map::lemma_changed_same(lods[i - 1], p);
        }
        let src_has_voxels = match self.lod_mut(d - 1).get_block_mut(p) {
            Some(block) => {
                block.set_needs_lodding(false);
                block.has_voxels()
            },
            None => false,
        };
        proof {
            assert(self@.lods =~= lods.update(i - 1, settled(lods[i - 1], p)));
        }
        if !src_has_voxels {
            return (false, false);
        }
        if !self.lod(d).has_block(q) && streaming {
            return (false, false);
        }
        let dst_has_voxels = match self.lod(d).get_block(q) {
            Some(block) => block.has_voxels(),
            None => false,
        };
        if !dst_has_voxels {
            match made {
                Some(voxels) => self.lod_mut(d).set_block_buffer(q, voxels, true),
                None => {},
            }
        }
        let ghost mid = self@;
        let ghost b = parent_with_voxels(lods[i], p, made_model);
        proof {
            self.lemma_wf();
            assert(mid.lods[i].wf());
            assert(mid.lods[i].blocks[q] == b);
            assert(mid.lods[i - 1] == settled(lods[i - 1], p));
        }
        let mut enqueue = false;
        match self.lod_mut(d).remove_block(q) {
            Some(mut block) => {
                block.set_modified(true);
                if d != last && !block.needs_lodding() {
                    block.set_needs_lodding(true);
                    enqueue = true;
                }
                let octant = p.minus(q.times(2)).times(BLOCK_SIZE / 2);
                match self.lod(d - 1).get_block(p) {
                    Some(src) => {
                        proof {
                            src.lemma_wf();
                            lemma_octant_in_bounds(b.voxels->0, src@.voxels->0, p);
                        }
                        let size = src.voxels().size();
                        src.voxels().downscale_to(
                            block.voxels_mut(),
                            Vector3i::zero(),
                            size,
                            octant,
                        );
                    },
                    None => {
                        assert(false);
                    },
                }
                self.lod_mut(d).set_block(q, block, true);
            },
            None => {
                assert(false);
            },
        }
        proof {
            let expected = carried(lods, i, before.streaming_enabled, p, made_model);
            assert(self@.lods[i].blocks =~= expected[i].blocks);
            assert(self@.lods =~= expected);
        }
        (true, enqueue)
    }
}

/// Later steps do not matter for an earlier state.
proof fn lemma_pass_prefix(
    start: PassState,
    d: int,
    streaming: bool,
    work: Seq<Vector3i>,
    made: Seq<Option<BufferModel>>,
    more: Option<BufferModel>,
    n: int,
)
    requires
        0 <= n <= made.len(),
    ensures
        pass_after(start, d, streaming, work, made.push(more), n) == pass_after(
            start,
            d,
            streaming,
            work,
            made,
            n,
        ),
    decreases n,
{
    if n > 0 {
        lemma_pass_prefix(start, d, streaming, work, made, more, n - 1);
        assert(made.push(more)[n - 1] == made[n - 1]);
    }
}

/// Later levels do not matter for an earlier state.
proof fn lemma_update_prefix(
    before: DataModel,
    blocks: Seq<Vector3i>,
    made: Seq<Seq<Option<BufferModel>>>,
    more: Seq<Option<BufferModel>>,
    d: int,
)
    requires
        0 <= d < made.len(),
    ensures
        update_after(before, blocks, made.push(more), d) == update_after(before, blocks, made, d),
    decreases d,
{
    if d > 0 {
        lemma_update_prefix(before, blocks, made, more, d - 1);
        assert(made.push(more)[d] == made[d]);
    }
}

/// `made` gets one entry more; what it had stays possible.
proof fn lemma_pass_made_step(
    start: PassState,
    d: int,
    streaming: bool,
    format: Seq<ChannelDepth>,
    generator: Option<&dyn VoxelGenerator>,
    work: Seq<Vector3i>,
    made: Seq<Option<BufferModel>>,
    more: Option<BufferModel>,
)
    requires
        made.len() < work.len(),
        pass_made(start, d, streaming, format, generator, work, made, made.len() as int),
        carry_makes(
            pass_after(start, d, streaming, work, made, made.len() as int).lods,
            d,
            streaming,
            work[made.len() as int],
        ) ==> (more matches Some(b) && generated_by(
            generator,
            format,
            parent_of(work[made.len() as int]),
            d as nat,
            b,
        )),
    ensures
        pass_made(start, d, streaming, format, generator, work, made.push(more), (made.len() + 1) as int),
{
    let longer = made.push(more);
    assert forall|k: int| 0 <= k < made.len() + 1 implies {
        let s = #[trigger] pass_after(start, d, streaming, work, longer, k);
        carry_makes(s.lods, d, streaming, work[k]) ==> (longer[k] matches Some(b)
            && generated_by(generator, format, parent_of(work[k]), d as nat, b))
    } by {
        lemma_pass_prefix(start, d, streaming, work, made, more, k);
        if k < made.len() {
            let s = pass_after(start, d, streaming, work, made, k);
            assert(longer[k] == made[k]);
        }
    }
}

/// Every listed block of level `lod` has a first voxel with a position.
pub open spec fn all_in_span(work: Seq<Vector3i>, lod: nat) -> bool {
    forall|k: int| 0 <= k < work.len() ==> in_span(#[trigger] work[k], lod)
}

impl VoxelData {
    /// One pass: carries the blocks of `work` to level `d`. Returns the blocks
    /// that wait for the next pass; those that were updated are appended to
    /// `updated`.
    fn carry_pass(
        &mut self,
        d: usize,
        work: &Vec<Vector3i>,
        generator: Option<&dyn VoxelGenerator>,
        updated: &mut Vec<BlockLocation>,
    ) -> (next: Vec<Vector3i>)
        requires
            old(self).wf(),
            1 <= d < old(self)@.lods.len(),
            generator is Some ==> all_in_span(work@, (d - 1) as nat),
        ensures
            final(self).wf(),
            final(self)@ == (DataModel { lods: final(self)@.lods, ..old(self)@ }),
            final(self)@.lods.len() == old(self)@.lods.len(),
            generator is Some ==> all_in_span(next@, d as nat),
            exists|made: Seq<Option<BufferModel>>| #[trigger]
                pass_made(
                    (PassState {
                        lods: old(self)@.lods,
                        next: Seq::empty(),
                        updated: old(updated)@,
                    }),
                    d as int,
                    old(self)@.streaming_enabled,
                    old(self)@.format,
                    generator,
                    work@,
                    made,
                    work@.len() as int,
                ) && pass_after(
                    (PassState {
                        lods: old(self)@.lods,
                        next: Seq::empty(),
                        updated: old(updated)@,
                    }),
                    d as int,
                    old(self)@.streaming_enabled,
                    work@,
                    made,
                    work@.len() as int,
                ) == (PassState {
                    lods: final(self)@.lods,
                    next: next@,
                    updated: final(updated)@,
                }),
    {
        let ghost before = self@;
        let ghost start = PassState {
            lods: before.lods,
            next: Seq::empty(),
            updated: updated@,
        };
        let ghost mut made: Seq<Option<BufferModel>> = Seq::empty();
        proof {
            self.lemma_wf();
        }
        let format = self.format();
        let mut next: Vec<Vector3i> = Vec::new();
        let mut i: usize = 0;
        while i < work.len()
            invariant
                i <= work@.len(),
                self.wf(),
                1 <= d < before.lods.len(),
                before.lods.len() < MAX_LOD,
                self@ == (DataModel { lods: self@.lods, ..before }),
                self@.lods.len() == before.lods.len(),
                format@ == before.format,
                generator is Some ==> all_in_span(work@, (d - 1) as nat),
                generator is Some ==> all_in_span(next@, d as nat),
                start == (PassState {
                    lods: before.lods,
                    next: Seq::empty(),
                    updated: old(updated)@,
                }),
                made.len() == i,
                pass_made(
                    start,
                    d as int,
                    before.streaming_enabled,
                    before.format,
                    generator,
                    work@,
                    made,
                    i as int,
                ),
                pass_after(
                    start,
                    d as int,
                    before.streaming_enabled,
                    work@,
                    made,
                    i as int,
                ) == (PassState { lods: self@.lods, next: next@, updated: updated@ }),
            decreases work@.len() - i,
        {
            let p = work[i];
            let q = p.floor_div(2);
            proof {
                assert(q == parent_of(p));
                if generator is Some {
                    assert(in_span(work@[i as int], (d - 1) as nat));
                    lemma_parent_in_span(p, (d - 1) as nat);
                    lemma_origin_fits(q, d as nat);
                }
            }
            let voxels = if self.carry_needs_voxels(d, p) {
                Some(generate_voxels(format, generator, q, d))
            } else {
                None
            };
            let ghost more = made_of(voxels);
            let (done, enqueue) = self.carry_block(d, p, voxels);
            proof {
                lemma_pass_made_step(
                    start,
                    d as int,
                    before.streaming_enabled,
                    before.format,
                    generator,
                    work@,
                    made,
                    more,
                );
                lemma_pass_prefix(
                    start,
                    d as int,
                    before.streaming_enabled,
                    work@,
                    made,
                    more,
                    i as int,
                );
                made = made.push(more);
            }
            if enqueue {
                next.push(q);
            }
            if done {
                updated.push(BlockLocation { position: q, lod_index: d as u8 });
            }
            i = i + 1;
        }
        next
    }

    /// Carries edits of blocks of the finest level to all coarser levels, level
    /// by level. Each block is sampled into its octant of its parent, which is
    /// then modified and carried on in turn. A missing parent is made, with the
    /// generator if one is given, unless data is streamed. The blocks that were
    /// updated are appended to `out_updated_blocks`, the finest level first.
    pub fn update_lods(
        &mut self,
        modified_lod0_blocks: &[Vector3i],
        generator: Option<&dyn VoxelGenerator>,
        out_updated_blocks: Option<&mut Vec<BlockLocation>>,
    )
        requires
            old(self).wf(),
            generator is Some ==> all_in_span(modified_lod0_blocks@, 0),
        ensures
            final(self).wf(),
            exists|made: Seq<Seq<Option<BufferModel>>>|
                #![trigger update_made(old(self)@, modified_lod0_blocks@, generator, made, old(self)@.lods.len() - 1)]
                update_made(
                    old(self)@,
                    modified_lod0_blocks@,
                    generator,
                    made,
                    old(self)@.lods.len() - 1,
                ) && {
                    let end = update_after(
                        old(self)@,
                        modified_lod0_blocks@,
                        made,
                        old(self)@.lods.len() - 1,
                    );
                    &&& final(self)@ == (DataModel { lods: end.lods, ..old(self)@ })
                    &&& match out_updated_blocks {
                        Some(v) => final(v)@ == v@ + end.updated,
                        None => true,
                    }
                },
    {
        let ghost before = self@;
        let ghost blocks = modified_lod0_blocks@;
        let ghost m = before.lods[0];
        let ghost f = settle_change();
        let ghost present = |p: Vector3i| m.has(p);
        let ghost locate = |p: Vector3i| BlockLocation { position: p, lod_index: 0 };
        let mut updated: Vec<BlockLocation> = Vec::new();
        let mut work: Vec<Vector3i> = Vec::new();
        let n: usize = self.lod_count();
        proof {
            self.lemma_wf();
            voxel_data_map::lemma_changed_start(m, blocks, f);
            collections::lemma_filter_none(blocks, present);
            assert(blocks.take(0).filter(present).map_values(locate) =~= Seq::empty());
            assert(blocks.take(0) =~= Seq::empty());
            assert(self@.lods =~= before.lods.update(0, m));
        }
        let mut i: usize = 0;
        while i < modified_lod0_blocks.len()
            invariant
                i <= blocks.len(),
                blocks == modified_lod0_blocks@,
                n == before.lods.len(),
                before.wf(),
                m == before.lods[0],
                self.wf(),
                f == settle_change(),
                present == (|p: Vector3i| m.has(p)),
                locate == (|p: Vector3i| BlockLocation { position: p, lod_index: 0 }),
                self@ == before.with_lod(0, m.changed(blocks.take(i as int), f)),
                work@ == blocks.take(i as int),
                updated@ == blocks.take(i as int).filter(present).map_values(locate),
            decreases blocks.len() - i,
        {
            let p = modified_lod0_blocks[i];
            let ghost now = m.changed(blocks.take(i as int), f);
            proof {
                voxel_data_map::lemma_changed_again(m, blocks, f, i as int);
                voxel_data_map::lemma_changed_same(now, p);
                collections::lemma_filter_take(blocks, present, i as int);
                assert(self@.lods[0] == now);
                assert(now.has(p) == m.has(p));
            }
            match self.lod_mut(0).get_block_mut(p) {
                Some(block) => {
                    block.set_needs_lodding(false);
                    updated.push(BlockLocation { position: p, lod_index: 0 });
                    proof {
                        assert(blocks.take(i + 1).filter(present).map_values(locate)
                            =~= blocks.take(i as int).filter(present).map_values(locate).push(
                            locate(p),
                        ));
                    }
                },
                None => {},
            }
            work.push(p);
            proof {
                assert(blocks.take(i + 1) =~= blocks.take(i as int).push(p));
                assert(self@.lods =~= before.with_lod(0, m.changed(blocks.take(i + 1), f)).lods);
            }
            i = i + 1;
        }
        let ghost mut made: Seq<Seq<Option<BufferModel>>> = seq![Seq::empty()];
        proof {
            assert(blocks.take(i as int) =~= blocks);
            assert(update_after(before, blocks, made, 0) =~= PassState {
                lods: self@.lods,
                next: work@,
                updated: updated@,
            });
        }
        let mut d: usize = 1;
        while d < n
            invariant
                1 <= d <= n,
                n == before.lods.len(),
                n < MAX_LOD,
                self.wf(),
                self@ == (DataModel { lods: self@.lods, ..before }),
                self@.lods.len() == n,
                generator is Some ==> all_in_span(work@, (d - 1) as nat),
                made.len() == d,
                update_made(before, blocks, generator, made, d - 1),
                update_after(before, blocks, made, d - 1) == (PassState {
                    lods: self@.lods,
                    next: work@,
                    updated: updated@,
                }),
            decreases n - d,
        {
            let ghost s = update_after(before, blocks, made, d - 1);
            let next = self.carry_pass(d, &work, generator, &mut updated);
            proof {
                let start = PassState { next: Seq::empty(), ..s };
                let more = choose|more: Seq<Option<BufferModel>>| #[trigger]
                    pass_made(
                        start,
                        d as int,
                        before.streaming_enabled,
                        before.format,
                        generator,
                        work@,
                        more,
                        work@.len() as int,
                    ) && pass_after(
                        start,
                        d as int,
                        before.streaming_enabled,
                        work@,
                        more,
                        work@.len() as int,
                    ) == (PassState { lods: self@.lods, next: next@, updated: updated@ });
                lemma_update_prefix(before, blocks, made, more, d - 1);
                let longer = made.push(more);
                assert(longer[d as int] == more);
                assert forall|k: int| 1 <= k <= d implies {
                    let s = #[trigger] update_after(before, blocks, longer, k - 1);
                    pass_made(
                        PassState { next: Seq::empty(), ..s },
                        k,
                        before.streaming_enabled,
                        before.format,
                        generator,
                        s.next,
                        longer[k],
                        s.next.len() as int,
                    )
                } by {
                    lemma_update_prefix(before, blocks, made, more, k - 1);
                    if k < d {
                        let s = update_after(before, blocks, made, k - 1);
                        assert(longer[k] == made[k]);
                    }
                }
                made = longer;
            }
            work = next;
            d = d + 1;
        }
        match out_updated_blocks {
            Some(out) => out.append(&mut updated),
            None => {},
        }
        proof {
            assert(update_made(before, blocks, generator, made, n - 1));
        }
    }
}

} // verus!
