//! Little-endian integer views over raw bytes.
//!
//! Every multi-byte field of the format is stored least-significant byte
//! first.  The spec functions below are the single definition of what a
//! field read from a byte sequence means; every other contract in the crate
//! speaks through them.

use vstd::prelude::*;

verus! {

/// The 16-bit little-endian value stored at byte offset `i` of `d`.
pub open spec fn le16(d: Seq<u8>, i: int) -> u16 {
    (d[i] + d[i + 1] * 0x100) as u16
}

/// The 32-bit little-endian value stored at byte offset `i` of `d`.
pub open spec fn le32(d: Seq<u8>, i: int) -> u32 {
    (d[i] + d[i + 1] * 0x100 + d[i + 2] * 0x10000 + d[i + 3] * 0x1000000) as u32
}

/// The 8-bit field wrapper holding `v`.
pub open spec fn spec_le_u8(v: u8) -> LittleEndianU8 {
    LittleEndianU8 { value: v }
}

/// The 16-bit field wrapper holding `v`.
pub open spec fn spec_le_u16(v: u16) -> LittleEndianU16 {
    LittleEndianU16 { value: v }
}

/// The 32-bit field wrapper holding `v`.
pub open spec fn spec_le_u32(v: u32) -> LittleEndianU32 {
    LittleEndianU32 { value: v }
}

/// Reads the byte at offset `i`.
pub fn read_u8(d: &[u8], i: usize) -> (r: u8)
    requires
        i < d@.len(),
    ensures
        r == d@[i as int],
{
    *vstd::slice::slice_index_get(d, i)
}

/// Reads the 16-bit little-endian value at offset `i`.
pub fn read_u16(d: &[u8], i: usize) -> (r: u16)
    requires
        i + 2 <= d@.len(),
    ensures
        r == le16(d@, i as int),
{
    let _n = d.len();
    let b0 = *vstd::slice::slice_index_get(d, i) as u16;
    let b1 = *vstd::slice::slice_index_get(d, i + 1) as u16;
    b0 + b1 * 0x100
}

/// Reads the 32-bit little-endian value at offset `i`.
pub fn read_u32(d: &[u8], i: usize) -> (r: u32)
    requires
        i + 4 <= d@.len(),
    ensures
        r == le32(d@, i as int),
{
    let _n = d.len();
    let b0 = *vstd::slice::slice_index_get(d, i) as u32;
    let b1 = *vstd::slice::slice_index_get(d, i + 1) as u32;
    let b2 = *vstd::slice::slice_index_get(d, i + 2) as u32;
    let b3 = *vstd::slice::slice_index_get(d, i + 3) as u32;
    b0 + b1 * 0x100 + b2 * 0x10000 + b3 * 0x1000000
}

/// An 8-bit field read from the byte stream.
#[derive(Clone, Copy, PartialEq, Eq, Structural, Debug)]
pub struct LittleEndianU8 {
    pub value: u8,
}

impl View for LittleEndianU8 {
    type V = u8;

    open spec fn view(&self) -> u8 {
        self.value
    }
}

impl LittleEndianU8 {
    /// Wraps a host-native value.
    pub fn new(value: u8) -> (r: LittleEndianU8)
        ensures
            r@ == value,
    {
        LittleEndianU8 { value }
    }

    /// Reads the field at offset `i` of `d`.
    pub fn read(d: &[u8], i: usize) -> (r: LittleEndianU8)
        requires
            i < d@.len(),
        ensures
            r@ == d@[i as int],
    {
        LittleEndianU8 { value: read_u8(d, i) }
    }

    /// The host-native value of the field.
    pub fn value(&self) -> (r: u8)
        ensures
            r == self@,
    {
        self.value
    }
}

/// A 16-bit little-endian field read from the byte stream.
#[derive(Clone, Copy, PartialEq, Eq, Structural, Debug)]
pub struct LittleEndianU16 {
    pub value: u16,
}

impl View for LittleEndianU16 {
    type V = u16;

    open spec fn view(&self) -> u16 {
        self.value
    }
}

impl LittleEndianU16 {
    /// Wraps a host-native value.
    pub fn new(value: u16) -> (r: LittleEndianU16)
        ensures
            r@ == value,
    {
        LittleEndianU16 { value }
    }

    /// Reads the field at offset `i` of `d`.
    pub fn read(d: &[u8], i: usize) -> (r: LittleEndianU16)
        requires
            i + 2 <= d@.len(),
        ensures
            r@ == le16(d@, i as int),
    {
        LittleEndianU16 { value: read_u16(d, i) }
    }

    /// The host-native value of the field.
    pub fn value(&self) -> (r: u16)
        ensures
            r == self@,
    {
        self.value
    }
}

/// A 32-bit little-endian field read from the byte stream.
#[derive(Clone, Copy, PartialEq, Eq, Structural, Debug)]
pub struct LittleEndianU32 {
    pub value: u32,
}

impl View for LittleEndianU32 {
    type V = u32;

    open spec fn view(&self) -> u32 {
        self.value
    }
}

impl LittleEndianU32 {
    /// Wraps a host-native value.
    pub fn new(value: u32) -> (r: LittleEndianU32)
        ensures
            r@ == value,
    {
        LittleEndianU32 { value }
    }

    /// Reads the field at offset `i` of `d`.
    pub fn read(d: &[u8], i: usize) -> (r: LittleEndianU32)
        requires
            i + 4 <= d@.len(),
        ensures
            r@ == le32(d@, i as int),
    {
        LittleEndianU32 { value: read_u32(d, i) }
    }

    /// The host-native value of the field.
    pub fn value(&self) -> (r: u32)
        ensures
            r == self@,
    {
        self.value
    }
}

} // verus!
