//! Channel depths of a whole data set.

use crate::buffer_model::BufferModel;
use crate::channel;
use crate::channel::MAX_CHANNELS;
use crate::depth::ChannelDepth;
use crate::voxel_buffer::VoxelBuffer;
use vstd::prelude::*;

verus! {

/// The depth of each channel.
#[derive(Clone, Copy, Debug, PartialEq, Eq)]
pub struct VoxelFormat {
    pub depths: [ChannelDepth; 8],
}

impl View for VoxelFormat {
    type V = Seq<ChannelDepth>;

    open spec fn view(&self) -> Seq<ChannelDepth> {
        self.depths@
    }
}

/// The depths of a new format.
pub open spec fn default_depths() -> Seq<ChannelDepth> {
    Seq::new(MAX_CHANNELS as nat, |i: int| channel::default_depth(i))
}

/// A buffer whose channels have been given the depths of a format.
pub open spec fn formatted(b: BufferModel, depths: Seq<ChannelDepth>) -> BufferModel {
    BufferModel {
        channels: Seq::new(
            b.channels.len(),
            |i: int| b.depth_set(i, depths[i]).channels[i],
        ),
        ..b
    }
}

impl VoxelFormat {
    pub fn new() -> (f: VoxelFormat)
        ensures
            f@ == default_depths(),
    {
        let f = VoxelFormat {
            depths: [
                channel::default_depth_for_channel_index(0),
                channel::default_depth_for_channel_index(1),
                channel::default_depth_for_channel_index(2),
                channel::default_depth_for_channel_index(3),
                channel::default_depth_for_channel_index(4),
                channel::default_depth_for_channel_index(5),
                channel::default_depth_for_channel_index(6),
                channel::default_depth_for_channel_index(7),
            ],
        };
        assert(f@ =~= default_depths());
        f
    }

    /// True when both formats have the same depths.
    pub fn same_as(&self, other: &VoxelFormat) -> (b: bool)
        ensures
            b == (self@ == other@),
    {
        let mut i: usize = 0;
        while i < MAX_CHANNELS
            invariant
                i <= MAX_CHANNELS,
                forall|k: int| 0 <= k < i ==> self.depths@[k] == other.depths@[k],
            decreases MAX_CHANNELS - i,
        {
            if self.depths[i] != other.depths[i] {
                return false;
            }
            i = i + 1;
        }
        assert(self@ =~= other@);
        true
    }

    /// Gives a buffer's channels the depths of this format.
    pub fn configure_buffer(&self, buffer: &mut VoxelBuffer)
        requires
            old(buffer).wf(),
        ensures
            final(buffer).wf(),
            final(buffer)@ == formatted(old(buffer)@, self@),
    {
        let ghost before = buffer@;
        proof {
            buffer.lemma_wf();
        }
        let mut i: usize = 0;
        while i < MAX_CHANNELS
            invariant
                i <= MAX_CHANNELS,
                buffer.wf(),
                buffer@ == (BufferModel { channels: buffer@.channels, ..before }),
                buffer@.channels.len() == MAX_CHANNELS,
                before.channels.len() == MAX_CHANNELS,
                forall|k: int|
                    0 <= k < i ==> #[trigger] buffer@.channels[k] == formatted(
                        before,
                        self@,
                    ).channels[k],
                forall|k: int|
                    i <= k < MAX_CHANNELS ==> #[trigger] buffer@.channels[k] == before.channels[k],
            decreases MAX_CHANNELS - i,
        {
            buffer.set_channel_depth(i, self.depths[i]);
            i = i + 1;
        }
        assert(buffer@.channels =~= formatted(before, self@).channels);
    }
}

} // verus!
