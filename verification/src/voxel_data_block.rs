//! One block of sparse voxel data.

use crate::buffer_model::BufferModel;
use crate::voxel_buffer::VoxelBuffer;
use vstd::prelude::*;

verus! {

/// Number of viewers that keep a block loaded.
#[derive(Clone, Copy, Debug, PartialEq, Eq, Structural)]
pub struct Viewers(u32);

impl View for Viewers {
    type V = u32;

    closed spec fn view(&self) -> u32 {
        self.0
    }
}

impl Viewers {
    pub fn new() -> (v: Viewers)
        ensures
            v@ == 0,
    {
        Viewers(0)
    }

    pub fn get(self) -> (n: u32)
        ensures
            n == self@,
    {
        self.0
    }

    pub fn set_exact(&mut self, value: u32)
        ensures
            final(self)@ == value,
    {
        self.0 = value;
    }

    /// One viewer more, up to the largest count.
    pub fn add(&mut self)
        ensures
            final(self)@ == if old(self)@ < u32::MAX {
                old(self)@ + 1
            } else {
                u32::MAX as int
            },
    {
        self.0 = self.0.saturating_add(1);
    }

    /// One viewer less, down to zero. Returns the new count.
    pub fn remove(&mut self) -> (n: u32)
        ensures
            final(self)@ == if old(self)@ > 0 {
                old(self)@ - 1
            } else {
                0
            },
            n == final(self)@,
    {
        self.0 = self.0.saturating_sub(1);
        self.0
    }
}

impl Default for Viewers {
    fn default() -> (v: Viewers)
        ensures
            v@ == 0,
    {
        Viewers(0)
    }
}

/// What a block holds.
#[verifier::ext_equal]
pub struct BlockModel {
    pub voxels: Option<BufferModel>,
    pub lod_index: u8,
    pub needs_lodding: bool,
    pub modified: bool,
    pub edited: bool,
    pub viewers: u32,
}

/// A block of voxels at one level of detail, with its state.
#[derive(Debug)]
pub struct VoxelDataBlock {
    voxels: Option<VoxelBuffer>,
    lod_index: u8,
    needs_lodding: bool,
    modified: bool,
    edited: bool,
    pub viewers: Viewers,
}

impl View for VoxelDataBlock {
    type V = BlockModel;

    closed spec fn view(&self) -> BlockModel {
        BlockModel {
            voxels: match self.voxels {
                Some(v) => Some(v@),
                None => None,
            },
            lod_index: self.lod_index,
            needs_lodding: self.needs_lodding,
            modified: self.modified,
            edited: self.edited,
            viewers: self.viewers@,
        }
    }
}

impl BlockModel {
    /// A block as a constructor makes it.
    pub open spec fn fresh(voxels: Option<BufferModel>, lod_index: u8) -> BlockModel {
        BlockModel {
            voxels,
            lod_index,
            needs_lodding: false,
            modified: false,
            edited: false,
            viewers: 0,
        }
    }

    pub open spec fn wf(self) -> bool {
        self.voxels matches Some(v) ==> v.wf()
    }
}

impl VoxelDataBlock {
    /// The voxels, where there are any, are well-formed.
    pub closed spec fn wf(&self) -> bool {
        self.voxels matches Some(v) ==> v.wf()
    }

    pub proof fn lemma_wf(&self)
        requires
            self.wf(),
        ensures
            self@.wf(),
    {
        match self.voxels {
            Some(v) => {
                v.lemma_wf();
            },
            None => {},
        }
    }

    pub fn empty(lod_index: u8) -> (b: VoxelDataBlock)
        ensures
            b.wf(),
            b@ == BlockModel::fresh(None, lod_index),
    {
        VoxelDataBlock {
            voxels: None,
            lod_index,
            needs_lodding: false,
            modified: false,
            edited: false,
            viewers: Viewers::new(),
        }
    }

    pub fn with_voxels(voxels: VoxelBuffer, lod_index: u8) -> (b: VoxelDataBlock)
        requires
            voxels.wf(),
        ensures
            b.wf(),
            b@ == BlockModel::fresh(Some(voxels@), lod_index),
    {
        VoxelDataBlock {
            voxels: Some(voxels),
            lod_index,
            needs_lodding: false,
            modified: false,
            edited: false,
            viewers: Viewers::new(),
        }
    }

    pub fn lod_index(&self) -> (i: u8)
        ensures
            i == self@.lod_index,
    {
        self.lod_index
    }

    pub fn has_voxels(&self) -> (b: bool)
        ensures
            b == self@.voxels is Some,
    {
        self.voxels.is_some()
    }

    /// The block's voxels.
    pub fn voxels(&self) -> (v: &VoxelBuffer)
        requires
            self.wf(),
            self@.voxels is Some,
        ensures
            v.wf(),
            Some(v@) == self@.voxels,
    {
        self.voxels.as_ref().unwrap()
    }

    /// The block's voxels, to be changed.
    pub fn voxels_mut(&mut self) -> (v: &mut VoxelBuffer)
        requires
            old(self).wf(),
            old(self)@.voxels is Some,
        ensures
            v.wf(),
            Some(v@) == old(self)@.voxels,
            final(v).wf() ==> final(self).wf(),
            final(self)@ == (BlockModel { voxels: Some(final(v)@), ..old(self)@ }),
    {
        self.voxels.as_mut().unwrap()
    }

    pub fn set_voxels(&mut self, voxels: VoxelBuffer)
        requires
            voxels.wf(),
        ensures
            final(self).wf(),
            final(self)@ == (BlockModel { voxels: Some(voxels@), ..old(self)@ }),
    {
        self.voxels = Some(voxels);
    }

    /// The voxels alone.
    pub fn into_voxels(self) -> (v: Option<VoxelBuffer>)
        requires
            self.wf(),
        ensures
            v is Some <==> self@.voxels is Some,
            v matches Some(b) ==> b.wf() && Some(b@) == self@.voxels,
    {
        self.voxels
    }

    /// Drops the voxels. The block is then no longer edited.
    pub fn clear_voxels(&mut self)
        ensures
            final(self).wf(),
            final(self)@ == (BlockModel { voxels: None, edited: false, ..old(self)@ }),
    {
        self.voxels = None;
        self.edited = false;
    }

    pub fn is_modified(&self) -> (b: bool)
        ensures
            b == self@.modified,
    {
        self.modified
    }

    pub fn set_modified(&mut self, modified: bool)
        ensures
            old(self).wf() ==> final(self).wf(),
            final(self)@ == (BlockModel { modified, ..old(self)@ }),
    {
        self.modified = modified;
    }

    pub fn needs_lodding(&self) -> (b: bool)
        ensures
            b == self@.needs_lodding,
    {
        self.needs_lodding
    }

    pub fn set_needs_lodding(&mut self, needs_lodding: bool)
        ensures
            old(self).wf() ==> final(self).wf(),
            final(self)@ == (BlockModel { needs_lodding, ..old(self)@ }),
    {
        self.needs_lodding = needs_lodding;
    }

    pub fn is_edited(&self) -> (b: bool)
        ensures
            b == self@.edited,
    {
        self.edited
    }

    pub fn set_edited(&mut self, edited: bool)
        ensures
            old(self).wf() ==> final(self).wf(),
            final(self)@ == (BlockModel { edited, ..old(self)@ }),
    {
        self.edited = edited;
    }

    /// The number of viewers.
    pub fn viewers(&self) -> (n: u32)
        ensures
            n == self@.viewers,
    {
        self.viewers.get()
    }

    /// One viewer more, up to the largest count.
    pub fn add_viewer(&mut self)
        ensures
            old(self).wf() ==> final(self).wf(),
            final(self)@ == (BlockModel {
                viewers: if old(self)@.viewers < u32::MAX {
                    (old(self)@.viewers + 1) as u32
                } else {
                    u32::MAX
                },
                ..old(self)@
            }),
    {
        self.viewers.add();
    }

    /// One viewer less, down to zero.
    pub fn remove_viewer(&mut self)
        ensures
            old(self).wf() ==> final(self).wf(),
            final(self)@ == (BlockModel {
                viewers: if old(self)@.viewers > 0 {
                    (old(self)@.viewers - 1) as u32
                } else {
                    0
                },
                ..old(self)@
            }),
    {
        let _ = self.viewers.remove();
    }

    /// Sets the number of viewers.
    pub fn set_viewers(&mut self, viewers: u32)
        ensures
            old(self).wf() ==> final(self).wf(),
            final(self)@ == (BlockModel { viewers, ..old(self)@ }),
    {
        self.viewers.set_exact(viewers);
    }
}

} // verus!
