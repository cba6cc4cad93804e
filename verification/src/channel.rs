//! Typed storage of one voxel channel.

use crate::depth::ChannelDepth;
use crate::funcs;
use crate::grid;
use crate::grid::Cell;
use crate::math::Vector3i;
use vstd::prelude::*;

verus! {

/// Number of channels of a buffer.
pub const MAX_CHANNELS: usize = 8;

/// Mask that selects every channel.
pub const ALL_CHANNELS_MASK: u8 = 0xff;

/// Largest extent of a buffer along any axis.
pub const MAX_SIZE: u32 = 65535;

/// Packed material indices 0, 1, 2, 3.
pub const MIXEL4_DEFAULT_INDICES: u64 = 0x3210;

/// Packed material weights with everything on the first material.
pub const MIXEL4_DEFAULT_WEIGHTS: u64 = 0x000f;

pub const DEFAULT_CHANNEL_DEPTH: ChannelDepth = ChannelDepth::Bit8;

pub const DEFAULT_TYPE_CHANNEL_DEPTH: ChannelDepth = ChannelDepth::Bit16;

pub const DEFAULT_SDF_CHANNEL_DEPTH: ChannelDepth = ChannelDepth::Bit16;

pub const DEFAULT_INDICES_CHANNEL_DEPTH: ChannelDepth = ChannelDepth::Bit16;

pub const DEFAULT_WEIGHTS_CHANNEL_DEPTH: ChannelDepth = ChannelDepth::Bit16;

/// Identifies a channel of a buffer.
#[derive(Clone, Copy, Debug, PartialEq, Eq, Hash, Structural)]
pub enum ChannelId {
    /// Block type or material id.
    Type,
    /// Signed distance field.
    Sdf,
    /// Colour.
    Color,
    /// Material indices.
    Indices,
    /// Material weights.
    Weights,
    Data5,
    Data6,
    Data7,
}

impl ChannelId {
    pub open spec fn slot(self) -> int {
        match self {
            ChannelId::Type => 0,
            ChannelId::Sdf => 1,
            ChannelId::Color => 2,
            ChannelId::Indices => 3,
            ChannelId::Weights => 4,
            ChannelId::Data5 => 5,
            ChannelId::Data6 => 6,
            ChannelId::Data7 => 7,
        }
    }

    pub open spec fn label(self) -> Seq<char> {
        match self {
            ChannelId::Type => "type"@,
            ChannelId::Sdf => "sdf"@,
            ChannelId::Color => "color"@,
            ChannelId::Indices => "indices"@,
            ChannelId::Weights => "weights"@,
            ChannelId::Data5 => "data5"@,
            ChannelId::Data6 => "data6"@,
            ChannelId::Data7 => "data7"@,
        }
    }

    /// Human-readable name.
    pub fn name(self) -> (s: &'static str)
        ensures
            s@ == self.label(),
    {
        match self {
            ChannelId::Type => "type",
            ChannelId::Sdf => "sdf",
            ChannelId::Color => "color",
            ChannelId::Indices => "indices",
            ChannelId::Weights => "weights",
            ChannelId::Data5 => "data5",
            ChannelId::Data6 => "data6",
            ChannelId::Data7 => "data7",
        }
    }

    /// Position among the channels of a buffer.
    pub fn index(self) -> (i: usize)
        ensures
            i == self.slot(),
            i < MAX_CHANNELS,
    {
        match self {
            ChannelId::Type => 0,
            ChannelId::Sdf => 1,
            ChannelId::Color => 2,
            ChannelId::Indices => 3,
            ChannelId::Weights => 4,
            ChannelId::Data5 => 5,
            ChannelId::Data6 => 6,
            ChannelId::Data7 => 7,
        }
    }
}

/// The channel at position `i`, where there is one.
pub fn channel_id_from_index(i: usize) -> (id: Option<ChannelId>)
    ensures
        id is Some <==> i < MAX_CHANNELS,
        id matches Some(c) ==> c.slot() == i,
{
    if i == 0 {
        Some(ChannelId::Type)
    } else if i == 1 {
        Some(ChannelId::Sdf)
    } else if i == 2 {
        Some(ChannelId::Color)
    } else if i == 3 {
        Some(ChannelId::Indices)
    } else if i == 4 {
        Some(ChannelId::Weights)
    } else if i == 5 {
        Some(ChannelId::Data5)
    } else if i == 6 {
        Some(ChannelId::Data6)
    } else if i == 7 {
        Some(ChannelId::Data7)
    } else {
        None
    }
}

/// How the voxels of a channel are stored.
#[derive(Clone, Copy, Debug, PartialEq, Eq, Hash, Structural)]
pub enum Compression {
    /// One stored value per voxel.
    Dense,
    /// One value for all voxels; nothing is allocated.
    Uniform,
}

/// Where a buffer's allocations come from.
#[derive(Clone, Copy, Debug, PartialEq, Eq, Hash, Structural)]
pub enum Allocator {
    /// The global allocator.
    Default,
    /// A memory pool.
    Pool,
}

/// Default raw distance value: far outside. The two wide depths hold the bits
/// of the floating-point number 100.
pub open spec fn default_sdf_raw(depth: ChannelDepth) -> u64 {
    match depth {
        ChannelDepth::Bit8 => 127,
        ChannelDepth::Bit16 => 32767,
        ChannelDepth::Bit32 => 0x42c8_0000,
        ChannelDepth::Bit64 => 0x4059_0000_0000_0000,
    }
}

/// Default raw value of channel `index` at `depth`.
pub open spec fn default_raw(index: int, depth: ChannelDepth) -> u64 {
    if index == 1 {
        default_sdf_raw(depth)
    } else if index == 3 {
        MIXEL4_DEFAULT_INDICES
    } else if index == 4 {
        MIXEL4_DEFAULT_WEIGHTS
    } else {
        0
    }
}

/// Default depth of channel `index`.
pub open spec fn default_depth(index: int) -> ChannelDepth {
    if index == 0 {
        DEFAULT_TYPE_CHANNEL_DEPTH
    } else if index == 1 {
        DEFAULT_SDF_CHANNEL_DEPTH
    } else if index == 3 {
        DEFAULT_INDICES_CHANNEL_DEPTH
    } else if index == 4 {
        DEFAULT_WEIGHTS_CHANNEL_DEPTH
    } else {
        DEFAULT_CHANNEL_DEPTH
    }
}

/// The default raw value of a channel at the given depth.
pub fn get_default_raw_value(channel: ChannelId, depth: ChannelDepth) -> (v: u64)
    ensures
        v == default_raw(channel.slot(), depth),
{
    match channel {
        ChannelId::Sdf => get_default_sdf_raw_value(depth),
        ChannelId::Indices => get_default_indices_raw_value(depth),
        ChannelId::Weights => MIXEL4_DEFAULT_WEIGHTS,
        _ => 0,
    }
}

/// The default raw distance value at the given depth.
pub fn get_default_sdf_raw_value(depth: ChannelDepth) -> (v: u64)
    ensures
        v == default_sdf_raw(depth),
{
    match depth {
        ChannelDepth::Bit8 => 127,
        ChannelDepth::Bit16 => 32767,
        ChannelDepth::Bit32 => 0x42c8_0000,
        ChannelDepth::Bit64 => 0x4059_0000_0000_0000,
    }
}

/// The default raw material indices, the same at every depth.
pub fn get_default_indices_raw_value(_depth: ChannelDepth) -> (v: u64)
    ensures
        v == MIXEL4_DEFAULT_INDICES,
{
    MIXEL4_DEFAULT_INDICES
}

/// Default depth of the channel at position `i`.
pub fn default_depth_for_channel_index(i: usize) -> (depth: ChannelDepth)
    ensures
        depth == default_depth(i as int),
{
    if i == 0 {
        DEFAULT_TYPE_CHANNEL_DEPTH
    } else if i == 1 {
        DEFAULT_SDF_CHANNEL_DEPTH
    } else if i == 3 {
        DEFAULT_INDICES_CHANNEL_DEPTH
    } else if i == 4 {
        DEFAULT_WEIGHTS_CHANNEL_DEPTH
    } else {
        DEFAULT_CHANNEL_DEPTH
    }
}

/// The typed voxel values of a channel, one variant per depth.
#[derive(Debug, PartialEq, Eq)]
pub enum ChannelData {
    U8(Vec<u8>),
    U16(Vec<u16>),
    U32(Vec<u32>),
    U64(Vec<u64>),
}

pub open spec fn widen_u8(s: Seq<u8>) -> Seq<u64> {
    Seq::new(s.len(), |i: int| s[i] as u64)
}

pub open spec fn widen_u16(s: Seq<u16>) -> Seq<u64> {
    Seq::new(s.len(), |i: int| s[i] as u64)
}

pub open spec fn widen_u32(s: Seq<u32>) -> Seq<u64> {
    Seq::new(s.len(), |i: int| s[i] as u64)
}

impl View for ChannelData {
    type V = Seq<u64>;

    open spec fn view(&self) -> Seq<u64> {
        match self {
            ChannelData::U8(v) => widen_u8(v@),
            ChannelData::U16(v) => widen_u16(v@),
            ChannelData::U32(v) => widen_u32(v@),
            ChannelData::U64(v) => v@,
        }
    }
}

/// Weight of byte `k` of a number.
pub open spec fn byte_place(k: int) -> int {
    if k == 0 {
        1
    } else if k == 1 {
        0x100
    } else if k == 2 {
        0x1_0000
    } else if k == 3 {
        0x100_0000
    } else if k == 4 {
        0x1_0000_0000
    } else if k == 5 {
        0x100_0000_0000
    } else if k == 6 {
        0x1_0000_0000_0000
    } else {
        0x100_0000_0000_0000
    }
}

/// Byte `k` of `value`, the least significant one first.
pub open spec fn byte_of(value: u64, k: int) -> u8 {
    (value as int / byte_place(k) % 0x100) as u8
}

/// The machine stores the least significant byte of a number first.
pub open spec fn machine_is_little() -> bool {
    vstd::endian::endianness() is Little
}

/// The bytes of a sequence of numbers of `width` bytes each.
pub open spec fn bytes_of(values: Seq<u64>, width: int, little: bool) -> Seq<u8> {
    Seq::new(
        (values.len() * width) as nat,
        |j: int|
            byte_of(
                values[j / width],
                if little {
                    j % width
                } else {
                    width - 1 - j % width
                },
            ),
    )
}

/// Byte `k` of the number at `start`, the least significant one first.
pub open spec fn stored_byte(bytes: Seq<u8>, start: int, width: int, little: bool, k: int) -> int {
    bytes[start + (if little {
        k
    } else {
        width - 1 - k
    })] as int
}

/// The number whose `width` bytes start at `start`.
pub open spec fn word_at(bytes: Seq<u8>, start: int, width: int, little: bool) -> int {
    let low = stored_byte(bytes, start, width, little, 0);
    let pair = low + stored_byte(bytes, start, width, little, 1) * 0x100;
    let quad = pair + stored_byte(bytes, start, width, little, 2) * 0x1_0000 + stored_byte(
        bytes,
        start,
        width,
        little,
        3,
    ) * 0x100_0000;
    let all = quad + stored_byte(bytes, start, width, little, 4) * 0x1_0000_0000 + stored_byte(
        bytes,
        start,
        width,
        little,
        5,
    ) * 0x100_0000_0000 + stored_byte(bytes, start, width, little, 6) * 0x1_0000_0000_0000 + stored_byte(
        bytes,
        start,
        width,
        little,
        7,
    ) * 0x100_0000_0000_0000;
    if width == 1 {
        low
    } else if width == 2 {
        pair
    } else if width == 4 {
        quad
    } else {
        all
    }
}

/// The numbers of `width` bytes each that `bytes` holds.
pub open spec fn words_of(bytes: Seq<u8>, width: int, little: bool) -> Seq<u64> {
    Seq::new(
        (bytes.len() as int / width) as nat,
        |i: int| word_at(bytes, i * width, width, little) as u64,
    )
}

/// A number is the weighted sum of its bytes.
proof fn lemma_number_of_bytes(v: u64)
    ensures
        v < 0x100 ==> v == byte_of(v, 0),
        v < 0x1_0000 ==> v == byte_of(v, 0) + byte_of(v, 1) * 0x100,
        v < 0x1_0000_0000 ==> v == byte_of(v, 0) + byte_of(v, 1) * 0x100 + byte_of(v, 2)
            * 0x1_0000 + byte_of(v, 3) * 0x100_0000,
        v == byte_of(v, 0) + byte_of(v, 1) * 0x100 + byte_of(v, 2) * 0x1_0000
            + byte_of(v, 3) * 0x100_0000 + byte_of(v, 4) * 0x1_0000_0000 + byte_of(v, 5)
            * 0x100_0000_0000 + byte_of(v, 6) * 0x1_0000_0000_0000 + byte_of(v, 7) * 0x100_0000_0000_0000,
{
    let q1 = v as int / 0x100;
    let q2 = v as int / 0x1_0000;
    let q3 = v as int / 0x100_0000;
    let q4 = v as int / 0x1_0000_0000;
    let q5 = v as int / 0x100_0000_0000;
    let q6 = v as int / 0x1_0000_0000_0000;
    let q7 = v as int / 0x100_0000_0000_0000;
    assert(q2 == q1 / 0x100);
    assert(q3 == q2 / 0x100);
    assert(q4 == q3 / 0x100);
    assert(q5 == q4 / 0x100);
    assert(q6 == q5 / 0x100);
    assert(q7 == q6 / 0x100);
}

/// Reading back the bytes of a sequence of numbers gives the numbers.
pub proof fn words_of_bytes_of(values: Seq<u64>, depth: ChannelDepth, little: bool)
    requires
        forall|i: int| 0 <= i < values.len() ==> depth.truncated(#[trigger] values[i]) == values[i],
    ensures
        words_of(bytes_of(values, depth.bytes(), little), depth.bytes(), little) == values,
{
    let w = depth.bytes();
    let bytes = bytes_of(values, w, little);
    let words = words_of(bytes, w, little);
    assert(bytes.len() as int / w == values.len()) by (nonlinear_arith)
        requires
            bytes.len() == values.len() * w,
            w > 0,
    ;
    assert forall|i: int| 0 <= i < values.len() implies words[i] == values[i] by {
        assert forall|k: int| 0 <= k < w implies #[trigger] stored_byte(
            bytes,
            i * w,
            w,
            little,
            k,
        ) == byte_of(values[i], k) by {
            let at = if little { k } else { w - 1 - k };
            let j = i * w + at;
            assert(0 <= j < values.len() * w && j / w == i && j % w == at) by (nonlinear_arith)
                requires
                    j == i * w + at,
                    0 <= at < w,
                    0 <= i < values.len(),
            ;
        }
        let v = values[i];
        assert(depth.truncated(v) == v);
        lemma_number_of_bytes(v);
        assert(stored_byte(bytes, i * w, w, little, 0) == byte_of(v, 0));
        if w >= 2 {
            assert(stored_byte(bytes, i * w, w, little, 1) == byte_of(v, 1));
        }
        if w >= 4 {
            assert(stored_byte(bytes, i * w, w, little, 2) == byte_of(v, 2));
            assert(stored_byte(bytes, i * w, w, little, 3) == byte_of(v, 3));
        }
        if w >= 8 {
            assert(stored_byte(bytes, i * w, w, little, 4) == byte_of(v, 4));
            assert(stored_byte(bytes, i * w, w, little, 5) == byte_of(v, 5));
            assert(stored_byte(bytes, i * w, w, little, 6) == byte_of(v, 6));
            assert(stored_byte(bytes, i * w, w, little, 7) == byte_of(v, 7));
        }
        assert(word_at(bytes, i * w, w, little) == v);
    }
    assert(words =~= values);
}

/// `bytemuck::cast_slice` from 16-bit numbers to bytes: the same memory, read
/// byte by byte in the machine's byte order.
#[verifier::external_body]
fn u16_as_bytes(v: &[u16]) -> (r: &[u8])
    ensures
        r@ == bytes_of(widen_u16(v@), 2, machine_is_little()),
{
    bytemuck::cast_slice(v)
}

/// `bytemuck::cast_slice` from 32-bit numbers to bytes: the same memory, read
/// byte by byte in the machine's byte order.
#[verifier::external_body]
fn u32_as_bytes(v: &[u32]) -> (r: &[u8])
    ensures
        r@ == bytes_of(widen_u32(v@), 4, machine_is_little()),
{
    bytemuck::cast_slice(v)
}

/// `bytemuck::cast_slice` from 64-bit numbers to bytes: the same memory, read
/// byte by byte in the machine's byte order.
#[verifier::external_body]
fn u64_as_bytes(v: &[u64]) -> (r: &[u8])
    ensures
        r@ == bytes_of(v@, 8, machine_is_little()),
{
    bytemuck::cast_slice(v)
}

/// `bytemuck::cast_slice_mut` from 16-bit numbers to bytes: the same memory.
/// The numbers are afterwards those that the bytes then hold, in the machine's
/// byte order. The bytes keep their number, as a borrowed slice does.
#[verifier::external_body]
fn u16_as_bytes_mut(v: &mut [u16]) -> (r: &mut [u8])
    ensures
        r@ == bytes_of(widen_u16(old(v)@), 2, machine_is_little()),
        final(r)@.len() == r@.len() ==> widen_u16(final(v)@) == words_of(
            final(r)@,
            2,
            machine_is_little(),
        ),
{
    bytemuck::cast_slice_mut(v)
}

/// `bytemuck::cast_slice_mut` from 32-bit numbers to bytes: the same memory.
/// The numbers are afterwards those that the bytes then hold, in the machine's
/// byte order. The bytes keep their number, as a borrowed slice does.
#[verifier::external_body]
fn u32_as_bytes_mut(v: &mut [u32]) -> (r: &mut [u8])
    ensures
        r@ == bytes_of(widen_u32(old(v)@), 4, machine_is_little()),
        final(r)@.len() == r@.len() ==> widen_u32(final(v)@) == words_of(
            final(r)@,
            4,
            machine_is_little(),
        ),
{
    bytemuck::cast_slice_mut(v)
}

/// `bytemuck::cast_slice_mut` from 64-bit numbers to bytes: the same memory.
/// The numbers are afterwards those that the bytes then hold, in the machine's
/// byte order. The bytes keep their number, as a borrowed slice does.
#[verifier::external_body]
fn u64_as_bytes_mut(v: &mut [u64]) -> (r: &mut [u8])
    ensures
        r@ == bytes_of(old(v)@, 8, machine_is_little()),
        final(r)@.len() == r@.len() ==> final(v)@ == words_of(final(r)@, 8, machine_is_little()),
{
    bytemuck::cast_slice_mut(v)
}

/// The low byte of `value`.
fn low_u8(value: u64) -> (r: u8)
    ensures
        r == ChannelDepth::Bit8.truncated(value),
{
    assert(value as u8 == value % 0x100) by (bit_vector);
    #[verifier::truncate]
    (value as u8)
}

/// The low 16 bits of `value`.
fn low_u16(value: u64) -> (r: u16)
    ensures
        r == ChannelDepth::Bit16.truncated(value),
{
    assert(value as u16 == value % 0x1_0000) by (bit_vector);
    #[verifier::truncate]
    (value as u16)
}

/// The low 32 bits of `value`.
fn low_u32(value: u64) -> (r: u32)
    ensures
        r == ChannelDepth::Bit32.truncated(value),
{
    assert(value as u32 == value % 0x1_0000_0000) by (bit_vector);
    #[verifier::truncate]
    (value as u32)
}

impl ChannelData {
    /// The depth that this storage stands for.
    pub open spec fn width(&self) -> ChannelDepth {
        match self {
            ChannelData::U8(_) => ChannelDepth::Bit8,
            ChannelData::U16(_) => ChannelDepth::Bit16,
            ChannelData::U32(_) => ChannelDepth::Bit32,
            ChannelData::U64(_) => ChannelDepth::Bit64,
        }
    }

    /// Every stored value fits the storage's depth.
    pub proof fn lemma_values_fit(&self)
        ensures
            forall|i: int|
                0 <= i < self@.len() ==> self.width().truncated(#[trigger] self@[i]) == self@[i],
    {
    }

    /// A copy, unless memory for it cannot be had. Where nothing is stored, none
    /// is needed.
    pub fn try_clone(&self) -> (r: Result<ChannelData, std::collections::TryReserveError>)
        ensures
            r matches Ok(copy) ==> copy@ == self@ && copy.width() == self.width(),
            self@.len() == 0 ==> r is Ok,
    {
        match self {
            ChannelData::U8(values) => {
                let mut copy: Vec<u8> = Vec::new();
                if values.len() > 0 {
                    match copy.try_reserve(values.len()) {
                        Ok(_) => {},
                        Err(e) => return Err(e),
                    }
                }
                copy.extend_from_slice(values.as_slice());
                assert(copy@ =~= values@);
                Ok(ChannelData::U8(copy))
            },
            ChannelData::U16(values) => {
                let mut copy: Vec<u16> = Vec::new();
                if values.len() > 0 {
                    match copy.try_reserve(values.len()) {
                        Ok(_) => {},
                        Err(e) => return Err(e),
                    }
                }
                copy.extend_from_slice(values.as_slice());
                assert(copy@ =~= values@);
                Ok(ChannelData::U16(copy))
            },
            ChannelData::U32(values) => {
                let mut copy: Vec<u32> = Vec::new();
                if values.len() > 0 {
                    match copy.try_reserve(values.len()) {
                        Ok(_) => {},
                        Err(e) => return Err(e),
                    }
                }
                copy.extend_from_slice(values.as_slice());
                assert(copy@ =~= values@);
                Ok(ChannelData::U32(copy))
            },
            ChannelData::U64(values) => {
                let mut copy: Vec<u64> = Vec::new();
                if values.len() > 0 {
                    match copy.try_reserve(values.len()) {
                        Ok(_) => {},
                        Err(e) => return Err(e),
                    }
                }
                copy.extend_from_slice(values.as_slice());
                assert(copy@ =~= values@);
                Ok(ChannelData::U64(copy))
            },
        }
    }

    /// Storage for `len` voxels of the given depth, all zero.
    pub fn new_for_depth(depth: ChannelDepth, len: usize) -> (r: ChannelData)
        requires
            len * depth.bytes() <= isize::MAX,
        ensures
            r@ == Seq::new(len as nat, |i: int| 0u64),
            r.width() == depth,
    {
        let r = match depth {
            ChannelDepth::Bit8 => ChannelData::U8(vec![0u8; len]),
            ChannelDepth::Bit16 => ChannelData::U16(vec![0u16; len]),
            ChannelDepth::Bit32 => ChannelData::U32(vec![0u32; len]),
            ChannelDepth::Bit64 => ChannelData::U64(vec![0u64; len]),
        };
        assert(r@ =~= Seq::new(len as nat, |i: int| 0u64));
        r
    }

    /// Number of stored voxels.
    pub fn len(&self) -> (n: usize)
        ensures
            n == self@.len(),
    {
        match self {
            ChannelData::U8(v) => v.len(),
            ChannelData::U16(v) => v.len(),
            ChannelData::U32(v) => v.len(),
            ChannelData::U64(v) => v.len(),
        }
    }

    /// True if no voxels are stored.
    pub fn is_empty(&self) -> (b: bool)
        ensures
            b == (self@.len() == 0),
    {
        self.len() == 0
    }

    /// The depth that this storage stands for.
    pub fn depth(&self) -> (d: ChannelDepth)
        ensures
            d == self.width(),
    {
        match self {
            ChannelData::U8(_) => ChannelDepth::Bit8,
            ChannelData::U16(_) => ChannelDepth::Bit16,
            ChannelData::U32(_) => ChannelDepth::Bit32,
            ChannelData::U64(_) => ChannelDepth::Bit64,
        }
    }

    /// The voxel at flat index `i`, zero-extended.
    pub fn get_u64(&self, i: usize) -> (v: u64)
        requires
            i < self@.len(),
        ensures
            v == self@[i as int],
    {
        match self {
            ChannelData::U8(v) => v[i] as u64,
            ChannelData::U16(v) => v[i] as u64,
            ChannelData::U32(v) => v[i] as u64,
            ChannelData::U64(v) => v[i],
        }
    }

    /// Stores `value` at flat index `i`, truncated to the storage's depth.
    pub fn set_u64(&mut self, i: usize, value: u64)
        requires
            i < old(self)@.len(),
        ensures
            final(self)@ == old(self)@.update(i as int, old(self).width().truncated(value)),
            final(self).width() == old(self).width(),
    {
        match self {
            ChannelData::U8(v) => v[i] = low_u8(value),
            ChannelData::U16(v) => v[i] = low_u16(value),
            ChannelData::U32(v) => v[i] = low_u32(value),
            ChannelData::U64(v) => v[i] = value,
        }
        assert(self@ =~= old(self)@.update(i as int, old(self).width().truncated(value)));
    }

    /// Stores `value`, truncated to the storage's depth, at every index.
    pub fn fill_u64(&mut self, value: u64)
        ensures
            final(self)@ == Seq::new(
                old(self)@.len(),
                |i: int| old(self).width().truncated(value),
            ),
            final(self).width() == old(self).width(),
    {
        let n: usize = self.len();
        let mut i: usize = 0;
        while i < n
            invariant
                i <= n,
                n == self@.len(),
                n == old(self)@.len(),
                self.width() == old(self).width(),
                forall|k: int| 0 <= k < i ==> self@[k] == old(self).width().truncated(value),
            decreases n - i,
        {
            self.set_u64(i, value);
            i = i + 1;
        }
        assert(self@ =~= Seq::new(old(self)@.len(), |i: int| old(self).width().truncated(value)));
    }

    /// The stored voxels as raw bytes, in the machine's byte order.
    pub fn as_bytes(&self) -> (r: &[u8])
        ensures
            r@ == bytes_of(self@, self.width().bytes(), machine_is_little()),
    {
        match self {
            ChannelData::U8(v) => {
                assert(v@ =~= bytes_of(widen_u8(v@), 1, machine_is_little()));
                v.as_slice()
            },
            ChannelData::U16(v) => u16_as_bytes(v.as_slice()),
            ChannelData::U32(v) => u32_as_bytes(v.as_slice()),
            ChannelData::U64(v) => u64_as_bytes(v.as_slice()),
        }
    }

    /// The stored voxels as raw bytes that can be written. A slice keeps its
    /// length, and the voxels are then what the bytes say.
    pub fn as_bytes_mut(&mut self) -> (r: &mut [u8])
        ensures
            r@ == bytes_of(old(self)@, old(self).width().bytes(), machine_is_little()),
            final(self).width() == old(self).width(),
            final(r)@.len() == r@.len() ==> final(self)@ == words_of(
                final(r)@,
                old(self).width().bytes(),
                machine_is_little(),
            ),
    {
        match self {
            ChannelData::U8(v) => {
                proof {
                    assert(v@ =~= bytes_of(widen_u8(v@), 1, machine_is_little()));
                    lemma_u8_words();
                }
                v.as_mut_slice()
            },
            ChannelData::U16(v) => u16_as_bytes_mut(v.as_mut_slice()),
            ChannelData::U32(v) => u32_as_bytes_mut(v.as_mut_slice()),
            ChannelData::U64(v) => u64_as_bytes_mut(v.as_mut_slice()),
        }
    }
}

/// Fills the box `[lo, hi)` of a channel with `value`, truncated to its depth.
/// The depth is told apart once, not for each voxel.
pub(crate) fn fill_channel_region_typed(
    data: &mut ChannelData,
    size: Vector3i,
    lo: Vector3i,
    hi: Vector3i,
    value: u64,
)
    requires
        Cell::zero().le(lo@),
        lo@.lt(hi@),
        hi@.le(size@),
        old(data)@.len() == grid::volume(size@),
    ensures
        final(data).width() == old(data).width(),
        final(data)@ == grid::region_write(
            old(data)@,
            size@,
            lo@,
            hi@,
            |c: Cell| old(data).width().truncated(value),
        ),
{
    match data {
        ChannelData::U8(v) => funcs::fill_rows(v.as_mut_slice(), size, lo, hi, low_u8(value)),
        ChannelData::U16(v) => funcs::fill_rows(v.as_mut_slice(), size, lo, hi, low_u16(value)),
        ChannelData::U32(v) => funcs::fill_rows(v.as_mut_slice(), size, lo, hi, low_u32(value)),
        ChannelData::U64(v) => funcs::fill_rows(v.as_mut_slice(), size, lo, hi, value),
    }
    assert(data@ =~= grid::region_write(
        old(data)@,
        size@,
        lo@,
        hi@,
        |c: Cell| old(data).width().truncated(value),
    ));
}

/// Copies the box `[src_min, src_max)` of one channel to `dst_min` in another
/// of the same depth. The depth is told apart once, not for each voxel.
pub(crate) fn copy_channel_region_typed(
    dst: &mut ChannelData,
    dst_size: Vector3i,
    dst_min: Vector3i,
    src: &ChannelData,
    src_size: Vector3i,
    src_min: Vector3i,
    src_max: Vector3i,
)
    requires
        old(dst).width() == src.width(),
        src_min@.lt(src_max@),
        Cell::zero().le(src_min@),
        src_max@.le(src_size@),
        Cell::zero().le(dst_min@),
        dst_min@.plus(src_max@.minus(src_min@)).le(dst_size@),
        old(dst)@.len() == grid::volume(dst_size@),
        src@.len() == grid::volume(src_size@),
    ensures
        final(dst).width() == old(dst).width(),
        final(dst)@ == funcs::region_copy(
            old(dst)@,
            dst_size@,
            dst_min@,
            src@,
            src_size@,
            src_min@,
            src_max@,
        ),
{
    let ghost before = dst@;
    match (&mut *dst, src) {
        (ChannelData::U8(d), ChannelData::U8(s)) => {
            funcs::copy_rows(
                d.as_mut_slice(),
                dst_size,
                dst_min,
                s.as_slice(),
                src_size,
                src_min,
                src_max,
            )
        },
        (ChannelData::U16(d), ChannelData::U16(s)) => {
            funcs::copy_rows(
                d.as_mut_slice(),
                dst_size,
                dst_min,
                s.as_slice(),
                src_size,
                src_min,
                src_max,
            )
        },
        (ChannelData::U32(d), ChannelData::U32(s)) => {
            funcs::copy_rows(
                d.as_mut_slice(),
                dst_size,
                dst_min,
                s.as_slice(),
                src_size,
                src_min,
                src_max,
            )
        },
        (ChannelData::U64(d), ChannelData::U64(s)) => {
            funcs::copy_rows(
                d.as_mut_slice(),
                dst_size,
                dst_min,
                s.as_slice(),
                src_size,
                src_min,
                src_max,
            )
        },
        _ => {},
    }
    proof {
        let after = funcs::region_copy(
            before,
            dst_size@,
            dst_min@,
            src@,
            src_size@,
            src_min@,
            src_max@,
        );
        assert forall|i: int| 0 <= i < before.len() implies dst@[i] == after[i] by {
            let c = grid::cell_at(dst_size@, i);
            if c.within(dst_min@, dst_min@.plus(src_max@.minus(src_min@))) {
                grid::lemma_zxy_bounds(src_size@, c.minus(dst_min@).plus(src_min@));
            }
        }
        assert(dst@ =~= after);
    }
}

/// Bytes read as numbers of one byte are the bytes themselves.
proof fn lemma_u8_words()
    ensures
        forall|s: Seq<u8>, little: bool| #[trigger] words_of(s, 1, little) == widen_u8(s),
{
    assert forall|s: Seq<u8>, little: bool| #[trigger] words_of(s, 1, little) == widen_u8(s) by {
        let words = words_of(s, 1, little);
        assert forall|i: int| 0 <= i < s.len() implies words[i] == widen_u8(s)[i] by {
            assert(word_at(s, i * 1, 1, little) == stored_byte(s, i, 1, little, 0));
        }
        assert(words =~= widen_u8(s));
    }
}

impl Default for ChannelData {
    fn default() -> (r: ChannelData)
        ensures
            r@ == Seq::<u64>::empty(),
            r.width() == ChannelDepth::Bit8,
    {
        let r = ChannelData::U8(Vec::new());
        assert(r@ =~= Seq::<u64>::empty());
        r
    }
}

impl Clone for ChannelData {
    fn clone(&self) -> (r: ChannelData)
        ensures
            r@ == self@,
            r.width() == self.width(),
    {
        let r = match self {
            ChannelData::U8(v) => ChannelData::U8(v.clone()),
            ChannelData::U16(v) => ChannelData::U16(v.clone()),
            ChannelData::U32(v) => ChannelData::U32(v.clone()),
            ChannelData::U64(v) => ChannelData::U64(v.clone()),
        };
        assert(r@ =~= self@);
        r
    }
}

} // verus!
