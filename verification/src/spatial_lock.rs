//! Which regions of space are being read or written.

use crate::boxes::BoxBounds3i;
use vstd::prelude::*;

verus! {

/// A region in use.
#[derive(Clone, Copy, Debug, PartialEq, Eq, Structural)]
pub struct LockedRegion {
    pub bounds: BoxBounds3i,
    pub write: bool,
}

/// A region may be read where nothing writes.
pub open spec fn can_read(regions: Seq<LockedRegion>, bounds: BoxBounds3i) -> bool {
    forall|k: int|
        0 <= k < regions.len() && (#[trigger] regions[k]).write ==> !regions[k].bounds.meets(bounds)
}

/// A region may be written where nothing reads or writes.
pub open spec fn can_write(regions: Seq<LockedRegion>, bounds: BoxBounds3i) -> bool {
    forall|k: int| 0 <= k < regions.len() ==> !(#[trigger] regions[k]).bounds.meets(bounds)
}

/// Regions that are written meet no other region.
pub open spec fn regions_agree(regions: Seq<LockedRegion>) -> bool {
    forall|i: int, j: int|
        0 <= i < j < regions.len() && ((#[trigger] regions[i]).write || (
        #[trigger] regions[j]).write) ==> !regions[i].bounds.meets(regions[j].bounds)
}

/// The regions in use at one level of detail. Any number of readers may share
/// space; a writer shares it with nobody.
pub struct SpatialLock3D {
    regions: Vec<LockedRegion>,
}

impl View for SpatialLock3D {
    type V = Seq<LockedRegion>;

    closed spec fn view(&self) -> Seq<LockedRegion> {
        self.regions@
    }
}

impl SpatialLock3D {
    pub fn new() -> (l: SpatialLock3D)
        ensures
            l@ == Seq::<LockedRegion>::empty(),
    {
        SpatialLock3D { regions: Vec::new() }
    }

    /// A region may be read where nothing writes.
    pub fn allows_read(&self, bounds: BoxBounds3i) -> (b: bool)
        ensures
            b == can_read(self@, bounds),
    {
        let mut i: usize = 0;
        while i < self.regions.len()
            invariant
                i <= self.regions@.len(),
                forall|k: int|
                    0 <= k < i && (#[trigger] self.regions@[k]).write
                        ==> !self.regions@[k].bounds.meets(bounds),
            decreases self.regions@.len() - i,
        {
            if self.regions[i].write && self.regions[i].bounds.intersects(&bounds) {
                return false;
            }
            i = i + 1;
        }
        true
    }

    /// A region may be written where nothing reads or writes.
    pub fn allows_write(&self, bounds: BoxBounds3i) -> (b: bool)
        ensures
            b == can_write(self@, bounds),
    {
        let mut i: usize = 0;
        while i < self.regions.len()
            invariant
                i <= self.regions@.len(),
                forall|k: int|
                    0 <= k < i ==> !(#[trigger] self.regions@[k]).bounds.meets(bounds),
            decreases self.regions@.len() - i,
        {
            if self.regions[i].bounds.intersects(&bounds) {
                return false;
            }
            i = i + 1;
        }
        true
    }

    /// Begins to read a region, unless it is being written.
    pub fn try_lock_read(&mut self, bounds: BoxBounds3i) -> (locked: bool)
        requires
            regions_agree(old(self)@),
        ensures
            regions_agree(final(self)@),
            locked == can_read(old(self)@, bounds),
            final(self)@ == if locked {
                old(self)@.push(LockedRegion { bounds, write: false })
            } else {
                old(self)@
            },
    {
        if !self.allows_read(bounds) {
            return false;
        }
        self.regions.push(LockedRegion { bounds, write: false });
        true
    }

    /// Begins to write a region, unless it is in use.
    pub fn try_lock_write(&mut self, bounds: BoxBounds3i) -> (locked: bool)
        requires
            regions_agree(old(self)@),
        ensures
            regions_agree(final(self)@),
            locked == can_write(old(self)@, bounds),
            final(self)@ == if locked {
                old(self)@.push(LockedRegion { bounds, write: true })
            } else {
                old(self)@
            },
    {
        if !self.allows_write(bounds) {
            return false;
        }
        self.regions.push(LockedRegion { bounds, write: true });
        true
    }

    /// Ends one use of a region.
    pub fn unlock(&mut self, region: LockedRegion)
        requires
            regions_agree(old(self)@),
            old(self)@.contains(region),
        ensures
            regions_agree(final(self)@),
            exists|i: int|
                0 <= i < old(self)@.len() && old(self)@[i] == region && final(self)@
                    == #[trigger] old(self)@.remove(i),
    {
        let mut i: usize = 0;
        while i < self.regions.len() && self.regions[i] != region
            invariant
                i <= self.regions@.len(),
                self.regions@ == old(self)@,
                forall|k: int| 0 <= k < i ==> self.regions@[k] != region,
            decreases self.regions@.len() - i,
        {
            i = i + 1;
        }
        proof {
            let k = choose|k: int| 0 <= k < old(self)@.len() && old(self)@[k] == region;
            assert(i <= k);
            lemma_remove_agrees(old(self)@, i as int);
        }
        let _ = self.regions.remove(i);
    }

    /// Number of regions in use.
    pub fn locked_boxes_count(&self) -> (n: usize)
        ensures
            n == self@.len(),
    {
        self.regions.len()
    }
}

/// Ending one use leaves the others in agreement.
pub proof fn lemma_remove_agrees(regions: Seq<LockedRegion>, i: int)
    requires
        regions_agree(regions),
        0 <= i < regions.len(),
    ensures
        regions_agree(regions.remove(i)),
{
    let after = regions.remove(i);
    assert forall|a: int, b: int|
        0 <= a < b < after.len() && ((#[trigger] after[a]).write || (
        #[trigger] after[b]).write) implies !after[a].bounds.meets(after[b].bounds) by {
        let x = if a < i {
            a
        } else {
            a + 1
        };
        let y = if b < i {
            b
        } else {
            b + 1
        };
        assert(after[a] == regions[x]);
        assert(after[b] == regions[y]);
    }
}

} // verus!
