//! The packed 32-bit resource identifier and its `(package, type, entry)`
//! fields.

use vstd::prelude::*;

verus! {

/// The packed form of a `(package-id, type-id, entry-id)` triple: the
/// package id in the top byte, the type id below it, the entry id in the
/// low 16 bits.
pub open spec fn pack_resid(package_id: u8, type_id: u8, entry_id: u16) -> u32 {
    ((package_id as u32) << 24) | ((type_id as u32) << 16) | (entry_id as u32)
}

/// The package-id field of a packed identifier.
pub open spec fn resid_package(id: u32) -> u8 {
    ((id & 0xff00_0000) >> 24) as u8
}

/// The type-id field of a packed identifier.
pub open spec fn resid_type(id: u32) -> u8 {
    ((id & 0x00ff_0000) >> 16) as u8
}

/// The entry-id field of a packed identifier.
pub open spec fn resid_entry(id: u32) -> u16 {
    (id & 0x0000_ffff) as u16
}

/// A 32-bit resource identifier.  Any triple is accepted; no validation is
/// applied.
#[derive(Clone, Copy, PartialEq, Eq, Structural, Debug)]
pub struct ResourceId {
    id: u32,
}

impl View for ResourceId {
    type V = u32;

    closed spec fn view(&self) -> u32 {
        self.id
    }
}

impl ResourceId {
    /// Packs the three fields into one identifier.
    pub fn from_parts(package_id: u8, type_id: u8, entry_id: u16) -> (r: ResourceId)
        ensures
            r@ == pack_resid(package_id, type_id, entry_id),
    {
        ResourceId {
            id: ((package_id as u32) << 24) | ((type_id as u32) << 16) | entry_id as u32,
        }
    }

    /// Wraps an already-packed identifier.
    pub fn from_u32(id: u32) -> (r: ResourceId)
        ensures
            r@ == id,
    {
        ResourceId { id }
    }

    /// The package-id field.
    pub fn package_id(&self) -> (r: u8)
        ensures
            r == resid_package(self@),
    {
        ((self.id & 0xff00_0000) >> 24) as u8
    }

    /// The type-id field.
    pub fn type_id(&self) -> (r: u8)
        ensures
            r == resid_type(self@),
    {
        ((self.id & 0x00ff_0000) >> 16) as u8
    }

    /// The entry-id field.
    pub fn entry_id(&self) -> (r: u16)
        ensures
            r == resid_entry(self@),
    {
        (self.id & 0x0000_ffff) as u16
    }
}

impl From<ResourceId> for u32 {
    /// The lossless conversion to the underlying 32-bit representation.
    fn from(resid: ResourceId) -> (r: u32)
        ensures
            r == resid@,
    {
        resid.id
    }
}

impl vstd::std_specs::convert::FromSpecImpl<ResourceId> for u32 {
    open spec fn obeys_from_spec() -> bool {
        true
    }

    open spec fn from_spec(resid: ResourceId) -> u32 {
        resid@
    }
}

/// Packing a triple and reading its fields back returns the same triple,
/// and re-packing the fields of any packed identifier returns that
/// identifier: the two representations are in exact correspondence.
pub proof fn lemma_resid_round_trip(package_id: u8, type_id: u8, entry_id: u16, id: u32)
    ensures
        resid_package(pack_resid(package_id, type_id, entry_id)) == package_id,
        resid_type(pack_resid(package_id, type_id, entry_id)) == type_id,
        resid_entry(pack_resid(package_id, type_id, entry_id)) == entry_id,
        pack_resid(resid_package(id), resid_type(id), resid_entry(id)) == id,
{
    assert(((((package_id as u32) << 24) | ((type_id as u32) << 16) | (entry_id as u32))
        & 0xff00_0000) >> 24 == package_id) by (bit_vector);
    assert(((((package_id as u32) << 24) | ((type_id as u32) << 16) | (entry_id as u32))
        & 0x00ff_0000) >> 16 == type_id) by (bit_vector);
    assert((((package_id as u32) << 24) | ((type_id as u32) << 16) | (entry_id as u32))
        & 0x0000_ffff == entry_id) by (bit_vector);
    assert(((((id & 0xff00_0000) >> 24) as u8 as u32) << 24) | ((((id & 0x00ff_0000) >> 16)
        as u8 as u32) << 16) | ((id & 0x0000_ffff) as u16 as u32) == id) by (bit_vector);
}

/// Strict lexicographic order on the `(package-id, type-id, entry-id)`
/// triples of two packed identifiers.
pub open spec fn resid_lex_lt(a: u32, b: u32) -> bool {
    resid_package(a) < resid_package(b) || (resid_package(a) == resid_package(b) && (resid_type(
        a,
    ) < resid_type(b) || (resid_type(a) == resid_type(b) && resid_entry(a) < resid_entry(b))))
}

/// Packed identifiers order exactly as their `(package-id, type-id,
/// entry-id)` triples do lexicographically: the packing is monotone.
pub proof fn lemma_resid_order(a: u32, b: u32)
    ensures
        a < b <==> resid_lex_lt(a, b),
{
    assert(a < b <==> ((((a & 0xff00_0000) >> 24) as u8) < (((b & 0xff00_0000) >> 24) as u8)
        || ((((a & 0xff00_0000) >> 24) as u8) == (((b & 0xff00_0000) >> 24) as u8) && ((((a
        & 0x00ff_0000) >> 16) as u8) < (((b & 0x00ff_0000) >> 16) as u8) || ((((a & 0x00ff_0000)
        >> 16) as u8) == (((b & 0x00ff_0000) >> 16) as u8) && ((a & 0x0000_ffff) as u16) < ((b
        & 0x0000_ffff) as u16)))))) by (bit_vector);
}

/// The per-configuration device profile of a value, carried verbatim; no
/// configuration-selection logic is applied to it.
#[derive(Clone, Copy, PartialEq, Eq, Structural, Debug)]
pub struct ResourceConfiguration {
    pub imsi: u32,
    pub locale: u32,
    pub screen_type: u32,
    pub input: u32,
    pub screen_size: u32,
    pub version: u32,
    pub screen_config: u32,
    pub screen_size_dp: u32,
}

} // verus!
