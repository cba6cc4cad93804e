//! Bit depths of voxel channels.

use vstd::prelude::*;

verus! {

/// Width of one stored voxel value.
#[derive(Clone, Copy, Debug, PartialEq, Eq, Hash, Structural)]
pub enum ChannelDepth {
    Bit8,
    Bit16,
    Bit32,
    Bit64,
}

impl ChannelDepth {
    /// Bytes that one value takes.
    pub open spec fn bytes(self) -> int {
        match self {
            ChannelDepth::Bit8 => 1,
            ChannelDepth::Bit16 => 2,
            ChannelDepth::Bit32 => 4,
            ChannelDepth::Bit64 => 8,
        }
    }

    /// The low bits of `value` that are kept at this depth.
    pub open spec fn truncated(self, value: u64) -> u64 {
        match self {
            ChannelDepth::Bit8 => value % 0x100,
            ChannelDepth::Bit16 => value % 0x1_0000,
            ChannelDepth::Bit32 => value % 0x1_0000_0000,
            ChannelDepth::Bit64 => value,
        }
    }

    /// Number of bytes per voxel.
    pub fn byte_count(self) -> (n: u32)
        ensures
            n == self.bytes(),
    {
        match self {
            ChannelDepth::Bit8 => 1,
            ChannelDepth::Bit16 => 2,
            ChannelDepth::Bit32 => 4,
            ChannelDepth::Bit64 => 8,
        }
    }

    /// Number of bits per voxel.
    pub fn bit_count(self) -> (n: u32)
        ensures
            n == 8 * self.bytes(),
    {
        self.byte_count() * 8
    }
}

/// Truncating twice is truncating once.
pub proof fn truncation_is_idempotent(depth: ChannelDepth, value: u64)
    ensures
        depth.truncated(depth.truncated(value)) == depth.truncated(value),
{
}

} // verus!
