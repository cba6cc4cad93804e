//! Metadata attached to voxels and to whole buffers.

use crate::collections;
use crate::math::Vector3i;
use crate::position_map::PosMap;
use vstd::prelude::*;

verus! {

/// A metadata entry. Floating-point payloads are held as their bit patterns and
/// compared as the numbers they stand for.
#[derive(Debug)]
pub enum MetadataValue {
    /// Empty or cleared entry.
    Nil,
    /// Signed integer payload.
    Int(i64),
    /// Bits of a 64-bit floating-point payload.
    Float(u64),
    /// Text payload.
    Text(String),
    /// Opaque byte payload.
    Bytes(Vec<u8>),
}

/// What a metadata entry holds.
#[verifier::ext_equal]
pub enum MetadataModel {
    Nil,
    Int(i64),
    Float(u64),
    Text(Seq<char>),
    Bytes(Seq<u8>),
}

impl View for MetadataValue {
    type V = MetadataModel;

    open spec fn view(&self) -> MetadataModel {
        match self {
            MetadataValue::Nil => MetadataModel::Nil,
            MetadataValue::Int(v) => MetadataModel::Int(*v),
            MetadataValue::Float(v) => MetadataModel::Float(*v),
            MetadataValue::Text(v) => MetadataModel::Text(v@),
            MetadataValue::Bytes(v) => MetadataModel::Bytes(v@),
        }
    }
}

/// Exponent and fraction of a 64-bit floating-point number.
pub const FLOAT_MAGNITUDE: u64 = 0x7fff_ffff_ffff_ffff;

/// The magnitude of infinity. All above it are those of the values that are not
/// numbers.
pub const FLOAT_INFINITY: u64 = 0x7ff0_0000_0000_0000;

/// The bits stand for something that is not a number.
pub open spec fn is_nan(bits: u64) -> bool {
    bits & FLOAT_MAGNITUDE > FLOAT_INFINITY
}

/// The bits stand for zero, of either sign.
pub open spec fn is_zero(bits: u64) -> bool {
    bits & FLOAT_MAGNITUDE == 0
}

/// The bits stand for equal numbers: the zeros of both signs are equal, and what
/// is not a number equals nothing.
pub open spec fn same_number(a: u64, b: u64) -> bool {
    !is_nan(a) && !is_nan(b) && (a == b || (is_zero(a) && is_zero(b)))
}

/// Two entries are equal: of the same kind, with equal payloads.
pub open spec fn same_metadata(a: MetadataModel, b: MetadataModel) -> bool {
    match (a, b) {
        (MetadataModel::Float(x), MetadataModel::Float(y)) => same_number(x, y),
        _ => a == b,
    }
}

/// True when both byte payloads are the same.
fn same_bytes(a: &Vec<u8>, b: &Vec<u8>) -> (same: bool)
    ensures
        same == (a@ == b@),
{
    if a.len() != b.len() {
        return false;
    }
    let mut i: usize = 0;
    while i < a.len()
        invariant
            i <= a@.len(),
            a@.len() == b@.len(),
            forall|k: int| 0 <= k < i ==> a@[k] == b@[k],
        decreases a@.len() - i,
    {
        if a[i] != b[i] {
            assert(a@[i as int] != b@[i as int]);
            return false;
        }
        i = i + 1;
    }
    assert(a@ =~= b@);
    true
}

impl PartialEq for MetadataValue {
    fn eq(&self, other: &MetadataValue) -> (same: bool) {
        match (self, other) {
            (MetadataValue::Nil, MetadataValue::Nil) => true,
            (MetadataValue::Int(a), MetadataValue::Int(b)) => *a == *b,
            (MetadataValue::Float(a), MetadataValue::Float(b)) => {
                let x: u64 = *a & FLOAT_MAGNITUDE;
                let y: u64 = *b & FLOAT_MAGNITUDE;
                x <= FLOAT_INFINITY && y <= FLOAT_INFINITY && (*a == *b || (x == 0 && y == 0))
            },
            (MetadataValue::Text(a), MetadataValue::Text(b)) => *a == *b,
            (MetadataValue::Bytes(a), MetadataValue::Bytes(b)) => same_bytes(a, b),
            _ => false,
        }
    }
}

impl vstd::std_specs::cmp::PartialEqSpecImpl for MetadataValue {
    open spec fn obeys_eq_spec() -> bool {
        true
    }

    open spec fn eq_spec(&self, other: &MetadataValue) -> bool {
        same_metadata(self@, other@)
    }
}

impl MetadataValue {
    /// True when this value is the empty one.
    pub fn is_nil(&self) -> (b: bool)
        ensures
            b == (self@ is Nil),
    {
        matches!(self, MetadataValue::Nil)
    }
}

impl Default for MetadataValue {
    fn default() -> (v: MetadataValue)
        ensures
            v@ is Nil,
    {
        MetadataValue::Nil
    }
}

impl Clone for MetadataValue {
    fn clone(&self) -> (v: MetadataValue)
        ensures
            v@ == self@,
    {
        match self {
            MetadataValue::Nil => MetadataValue::Nil,
            MetadataValue::Int(v) => MetadataValue::Int(*v),
            MetadataValue::Float(v) => MetadataValue::Float(*v),
            MetadataValue::Text(v) => MetadataValue::Text(v.clone()),
            MetadataValue::Bytes(v) => {
                let copy = v.clone();
                assert(copy@ =~= v@);
                MetadataValue::Bytes(copy)
            },
        }
    }
}

/// What a map of metadata entries holds.
pub open spec fn metadata_model(map: Map<Vector3i, MetadataValue>) -> Map<Vector3i, MetadataModel> {
    map.map_values(|v: MetadataValue| v@)
}

/// A copy of a whole map of metadata entries.
pub fn copy_metadata(src: &PosMap<MetadataValue>) -> (dst: PosMap<MetadataValue>)
    requires
        src.wf(),
    ensures
        dst.wf(),
        metadata_model(dst@) == metadata_model(src@),
{
    let positions = src.positions();
    let mut dst: PosMap<MetadataValue> = PosMap::new();
    let mut i: usize = 0;
    while i < positions.len()
        invariant
            i <= positions@.len(),
            positions@.to_set() == src@.dom(),
            dst.wf(),
            metadata_model(dst@) == metadata_model(src@).restrict(positions@.take(i as int).to_set()),
        decreases positions@.len() - i,
    {
        let p = positions[i];
        let ghost before = dst@;
        assert(positions@.to_set().contains(p));
        match src.get(p) {
            Some(v) => {
                let _ = dst.insert(p, v.clone());
                proof {
                    collections::lemma_take_to_set(positions@, i as int);
                    assert(metadata_model(dst@) =~= metadata_model(before).insert(p, v@));
                    assert(metadata_model(dst@) =~= metadata_model(src@).restrict(
                        positions@.take(i + 1).to_set(),
                    ));
                }
            },
            None => {},
        }
        i = i + 1;
    }
    proof {
        assert(positions@.take(i as int) =~= positions@);
        assert(metadata_model(src@).restrict(src@.dom()) =~= metadata_model(src@));
    }
    dst
}

} // verus!
