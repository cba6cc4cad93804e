//! Revisions of block keys.

use crate::math::Vector3i;
use crate::voxel_data_map::{MapModel, VoxelDataMap};
use vstd::prelude::*;

verus! {

/// The revision of a block key, and whether a block is there.
#[derive(Clone, Copy, Debug, PartialEq, Eq, Structural)]
pub enum VoxelDataKeyRevision {
    Present(u64),
    Tombstone(u64),
}

impl VoxelDataKeyRevision {
    /// The number itself.
    pub open spec fn number(self) -> u64 {
        match self {
            VoxelDataKeyRevision::Present(n) => n,
            VoxelDataKeyRevision::Tombstone(n) => n,
        }
    }

    pub fn value(self) -> (n: u64)
        ensures
            n == self.number(),
    {
        match self {
            VoxelDataKeyRevision::Present(n) => n,
            VoxelDataKeyRevision::Tombstone(n) => n,
        }
    }
}

impl MapModel {
    /// The revision of the key `p`, and whether a block is there.
    pub open spec fn key_revision(self, p: Vector3i) -> VoxelDataKeyRevision {
        if self.has(p) {
            VoxelDataKeyRevision::Present(self.revision(p))
        } else {
            VoxelDataKeyRevision::Tombstone(self.revision(p))
        }
    }

    /// The map with one more revision for every listed key.
    pub open spec fn advanced(self, cells: Seq<Vector3i>) -> MapModel {
        MapModel {
            revisions: Map::new(
                |p: Vector3i| self.revisions.contains_key(p) || cells.contains(p),
                |p: Vector3i|
                    if cells.contains(p) {
                        (self.revision(p) + 1) as u64
                    } else {
                        self.revisions[p]
                    },
            ),
            ..self
        }
    }
}

/// The revision of the key at `position`, and whether a block is there.
pub fn current_key_revision(map: &VoxelDataMap, position: Vector3i) -> (r: VoxelDataKeyRevision)
    ensures
        r == map@.key_revision(position),
{
    let revision: u64 = map.key_revision(position);
    if map.has_block(position) {
        VoxelDataKeyRevision::Present(revision)
    } else {
        VoxelDataKeyRevision::Tombstone(revision)
    }
}

/// Gives every listed key one more revision.
pub fn advance_revisions(map: &mut VoxelDataMap, cells: &Vec<Vector3i>)
    requires
        old(map).wf(),
        cells@.no_duplicates(),
        forall|k: int| 0 <= k < cells@.len() ==> old(map)@.revision(#[trigger] cells@[k]) < u64::MAX,
    ensures
        final(map).wf(),
        final(map)@ == old(map)@.advanced(cells@),
{
    let ghost m = map@;
    let mut i: usize = 0;
    assert(m.advanced(cells@.take(0)).revisions =~= m.revisions);
    while i < cells.len()
        invariant
            i <= cells@.len(),
            map.wf(),
            cells@.no_duplicates(),
            forall|k: int| 0 <= k < cells@.len() ==> m.revision(#[trigger] cells@[k]) < u64::MAX,
            map@ == m.advanced(cells@.take(i as int)),
        decreases cells@.len() - i,
    {
        let p = cells[i];
        proof {
            lemma_advanced_step(m, cells@, i as int);
        }
        let revision: u64 = map.key_revision(p);
        map.commit_key_revision(p, revision + 1);
        i = i + 1;
    }
    assert(cells@.take(i as int) =~= cells@);
}

/// Advancing the next key continues.
pub proof fn lemma_advanced_step(m: MapModel, cells: Seq<Vector3i>, i: int)
    requires
        0 <= i < cells.len(),
        cells.no_duplicates(),
        m.revision(cells[i]) < u64::MAX,
    ensures
        m.advanced(cells.take(i)).revision(cells[i]) == m.revision(cells[i]),
        m.advanced(cells.take(i + 1)) == m.advanced(cells.take(i)).with_revision(
            cells[i],
            (m.revision(cells[i]) + 1) as u64,
        ),
{
    let p = cells[i];
    crate::collections::lemma_take_contains(cells, i);
    assert(!cells.take(i).contains(p)) by {
        if cells.take(i).contains(p) {
            let k = choose|k: int| 0 <= k < i && cells.take(i)[k] == p;
            assert(cells[k] == cells[i]);
        }
    }
    assert(m.advanced(cells.take(i + 1)).revisions =~= m.advanced(cells.take(i)).with_revision(
        p,
        (m.revision(p) + 1) as u64,
    ).revisions);
}

} // verus!
