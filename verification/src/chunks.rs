//! The chunk container: header vocabulary, typed header records, and the
//! walker that partitions a byte range into a finite sequence of chunks.
//!
//! A chunk is a length-prefixed, type-tagged record.  Its 8-byte header
//! holds a 16-bit type code, a 16-bit header size and a 32-bit total size;
//! the walker checks `8 <= header-size <= total-size <= bytes left` before
//! surfacing a chunk, so every surfaced chunk is exactly its declared byte
//! range and the walk always terminates.

use vstd::prelude::*;
use vstd::string::StringExecFns;

use crate::endianness::le16;
use crate::endianness::le32;
use crate::endianness::read_u16;
use crate::endianness::spec_le_u16;
use crate::endianness::spec_le_u32;
use crate::endianness::spec_le_u8;
use crate::endianness::read_u32;
use crate::endianness::LittleEndianU16;
use crate::endianness::LittleEndianU32;
use crate::endianness::LittleEndianU8;
use crate::error::Error;
use crate::stringpool::decode_utf8_lossy;

verus! {

/// The 16-bit chunk type codes of the format.
#[derive(Clone, Copy, PartialEq, Eq, Structural, Debug)]
pub enum ChunkType {
    Null,
    StringPool,
    Table,
    Xml,
    XmlStartNamespace,
    XmlEndNamespace,
    XmlStartElement,
    XmlEndElement,
    XmlCdata,
    XmlResourceMap,
    Package,
    Type,
    Spec,
    Library,
}

/// The chunk variant denoted by a 16-bit type code, if the code belongs to
/// the vocabulary.
pub open spec fn spec_chunk_type_of(code: u16) -> Option<ChunkType> {
    if code == 0x0000 {
        Some(ChunkType::Null)
    } else if code == 0x0001 {
        Some(ChunkType::StringPool)
    } else if code == 0x0002 {
        Some(ChunkType::Table)
    } else if code == 0x0003 {
        Some(ChunkType::Xml)
    } else if code == 0x0100 {
        Some(ChunkType::XmlStartNamespace)
    } else if code == 0x0101 {
        Some(ChunkType::XmlEndNamespace)
    } else if code == 0x0102 {
        Some(ChunkType::XmlStartElement)
    } else if code == 0x0103 {
        Some(ChunkType::XmlEndElement)
    } else if code == 0x0104 {
        Some(ChunkType::XmlCdata)
    } else if code == 0x0180 {
        Some(ChunkType::XmlResourceMap)
    } else if code == 0x0200 {
        Some(ChunkType::Package)
    } else if code == 0x0201 {
        Some(ChunkType::Type)
    } else if code == 0x0202 {
        Some(ChunkType::Spec)
    } else if code == 0x0203 {
        Some(ChunkType::Library)
    } else {
        None
    }
}

/// Whether the loader ingests chunks of this type.  `Null`, the `Xml`
/// family and `Library` are recognized codes of the vocabulary but carry no
/// structured data for the resource table; the walker surfaces them as an
/// error item.
pub open spec fn spec_supported(t: ChunkType) -> bool {
    match t {
        ChunkType::Table => true,
        ChunkType::Package => true,
        ChunkType::StringPool => true,
        ChunkType::Spec => true,
        ChunkType::Type => true,
        _ => false,
    }
}

impl ChunkType {
    /// Maps a 16-bit type code to its chunk variant.
    pub fn from_code(code: u16) -> (r: Option<ChunkType>)
        ensures
            r == spec_chunk_type_of(code),
    {
        match code {
            0x0000 => Some(ChunkType::Null),
            0x0001 => Some(ChunkType::StringPool),
            0x0002 => Some(ChunkType::Table),
            0x0003 => Some(ChunkType::Xml),
            0x0100 => Some(ChunkType::XmlStartNamespace),
            0x0101 => Some(ChunkType::XmlEndNamespace),
            0x0102 => Some(ChunkType::XmlStartElement),
            0x0103 => Some(ChunkType::XmlEndElement),
            0x0104 => Some(ChunkType::XmlCdata),
            0x0180 => Some(ChunkType::XmlResourceMap),
            0x0200 => Some(ChunkType::Package),
            0x0201 => Some(ChunkType::Type),
            0x0202 => Some(ChunkType::Spec),
            0x0203 => Some(ChunkType::Library),
            _ => None,
        }
    }
}

/// The 8-bit type tags of a resource value.
#[derive(Clone, Copy, PartialEq, Eq, Structural, Debug)]
pub enum ValueType {
    Null,
    Reference,
    Attribute,
    String,
    Float,
    Dimension,
    Fraction,
    DynamicReference,
    DynamicAttribute,
    IntDec,
    IntHex,
    IntBoolean,
    IntColorArgb8,
    IntColorRgb8,
    IntColorArgb4,
    IntColorRgb4,
}

/// The value variant denoted by an 8-bit type tag, if the tag belongs to
/// the vocabulary.
pub open spec fn spec_value_type_of(tag: u8) -> Option<ValueType> {
    if tag == 0x00 {
        Some(ValueType::Null)
    } else if tag == 0x01 {
        Some(ValueType::Reference)
    } else if tag == 0x02 {
        Some(ValueType::Attribute)
    } else if tag == 0x03 {
        Some(ValueType::String)
    } else if tag == 0x04 {
        Some(ValueType::Float)
    } else if tag == 0x05 {
        Some(ValueType::Dimension)
    } else if tag == 0x06 {
        Some(ValueType::Fraction)
    } else if tag == 0x07 {
        Some(ValueType::DynamicReference)
    } else if tag == 0x08 {
        Some(ValueType::DynamicAttribute)
    } else if tag == 0x10 {
        Some(ValueType::IntDec)
    } else if tag == 0x11 {
        Some(ValueType::IntHex)
    } else if tag == 0x12 {
        Some(ValueType::IntBoolean)
    } else if tag == 0x1c {
        Some(ValueType::IntColorArgb8)
    } else if tag == 0x1d {
        Some(ValueType::IntColorRgb8)
    } else if tag == 0x1e {
        Some(ValueType::IntColorArgb4)
    } else if tag == 0x1f {
        Some(ValueType::IntColorRgb4)
    } else {
        None
    }
}

impl ValueType {
    /// Maps an 8-bit value type tag to its variant.
    pub fn from_code(tag: u8) -> (r: Option<ValueType>)
        ensures
            r == spec_value_type_of(tag),
    {
        match tag {
            0x00 => Some(ValueType::Null),
            0x01 => Some(ValueType::Reference),
            0x02 => Some(ValueType::Attribute),
            0x03 => Some(ValueType::String),
            0x04 => Some(ValueType::Float),
            0x05 => Some(ValueType::Dimension),
            0x06 => Some(ValueType::Fraction),
            0x07 => Some(ValueType::DynamicReference),
            0x08 => Some(ValueType::DynamicAttribute),
            0x10 => Some(ValueType::IntDec),
            0x11 => Some(ValueType::IntHex),
            0x12 => Some(ValueType::IntBoolean),
            0x1c => Some(ValueType::IntColorArgb8),
            0x1d => Some(ValueType::IntColorRgb8),
            0x1e => Some(ValueType::IntColorArgb4),
            0x1f => Some(ValueType::IntColorRgb4),
            _ => None,
        }
    }
}

/// The configuration-flag bits a Spec chunk may carry for an entry.
pub const CONFIG_MCC: u32 = 0x0000_0001;

pub const CONFIG_MNC: u32 = 0x0000_0002;

pub const CONFIG_LOCALE: u32 = 0x0000_0004;

pub const CONFIG_TOUCHSCREEN: u32 = 0x0000_0008;

pub const CONFIG_KEYBOARD: u32 = 0x0000_0010;

pub const CONFIG_KEYBOARD_HIDDEN: u32 = 0x0000_0020;

pub const CONFIG_NAVIGATION: u32 = 0x0000_0040;

pub const CONFIG_ORIENTATION: u32 = 0x0000_0080;

pub const CONFIG_DENSITY: u32 = 0x0000_0100;

pub const CONFIG_SCREEN_SIZE: u32 = 0x0000_0200;

pub const CONFIG_VERSION: u32 = 0x0000_0400;

pub const CONFIG_SCREEN_LAYOUT: u32 = 0x0000_0800;

pub const CONFIG_UI_MODE: u32 = 0x0000_1000;

pub const CONFIG_SMALLEST_SCREEN_SIZE: u32 = 0x0000_2000;

pub const CONFIG_LAYOUTDIR: u32 = 0x0000_4000;

pub const CONFIG_SCREEN_ROUND: u32 = 0x0000_8000;

pub const CONFIG_COLOR_MODE: u32 = 0x0001_0000;

pub const SPEC_PUBLIC: u32 = 0x4000_0000;

/// Every flag bit a Spec chunk's per-entry bitmask may carry; any other bit
/// is a structural error.
pub const KNOWN_CONFIG_FLAGS: u32 = CONFIG_MCC | CONFIG_MNC | CONFIG_LOCALE | CONFIG_TOUCHSCREEN
    | CONFIG_KEYBOARD | CONFIG_KEYBOARD_HIDDEN | CONFIG_NAVIGATION | CONFIG_ORIENTATION
    | CONFIG_DENSITY | CONFIG_SCREEN_SIZE | CONFIG_VERSION | CONFIG_SCREEN_LAYOUT | CONFIG_UI_MODE
    | CONFIG_SMALLEST_SCREEN_SIZE | CONFIG_LAYOUTDIR | CONFIG_SCREEN_ROUND | CONFIG_COLOR_MODE
    | SPEC_PUBLIC;

/// The 8-byte header that opens every chunk.
#[derive(Clone, Copy, PartialEq, Eq, Structural, Debug)]
pub struct Header {
    pub type_: LittleEndianU16,
    pub header_size: LittleEndianU16,
    pub size: LittleEndianU32,
}

/// The chunk header stored at byte offset `off` of `d`.
pub open spec fn spec_header(d: Seq<u8>, off: int) -> Header {
    Header {
        type_: spec_le_u16(le16(d, off)),
        header_size: spec_le_u16(le16(d, off + 2)),
        size: spec_le_u32(le32(d, off + 4)),
    }
}

impl Header {
    /// Reads the header at byte offset `off` of `d`.
    pub fn read(d: &[u8], off: usize) -> (r: Header)
        requires
            off + 8 <= d@.len(),
        ensures
            r == spec_header(d@, off as int),
    {
        let _n = d.len();
        Header {
            type_: LittleEndianU16::read(d, off),
            header_size: LittleEndianU16::read(d, off + 2),
            size: LittleEndianU32::read(d, off + 4),
        }
    }
}

/// The 64-byte device-configuration record carried by a Type chunk,
/// interpreted as its leading fixed fields and compared bitwise.
#[derive(Clone, Copy, PartialEq, Eq, Structural, Debug)]
pub struct Configuration {
    pub size: LittleEndianU32,
    pub imsi: LittleEndianU32,
    pub locale: LittleEndianU32,
    pub screen_type: LittleEndianU32,
    pub input: LittleEndianU32,
    pub screen_size: LittleEndianU32,
    pub version: LittleEndianU32,
    pub screen_config: LittleEndianU32,
    pub screen_size_dp: LittleEndianU32,
}

impl Configuration {
    /// Reads the configuration record at byte offset `off` of `d`.
    pub fn read(d: &[u8], off: usize) -> (r: Configuration)
        requires
            off + 36 <= d@.len(),
        ensures
            r == spec_configuration(d@, off as int),
    {
        let _n = d.len();
        Configuration {
            size: LittleEndianU32::read(d, off),
            imsi: LittleEndianU32::read(d, off + 4),
            locale: LittleEndianU32::read(d, off + 8),
            screen_type: LittleEndianU32::read(d, off + 12),
            input: LittleEndianU32::read(d, off + 16),
            screen_size: LittleEndianU32::read(d, off + 20),
            version: LittleEndianU32::read(d, off + 24),
            screen_config: LittleEndianU32::read(d, off + 28),
            screen_size_dp: LittleEndianU32::read(d, off + 32),
        }
    }
}

/// The configuration record whose fixed fields start at offset `off` of `d`.
pub open spec fn spec_configuration(d: Seq<u8>, off: int) -> Configuration {
    Configuration {
        size: spec_le_u32(le32(d, off)),
        imsi: spec_le_u32(le32(d, off + 4)),
        locale: spec_le_u32(le32(d, off + 8)),
        screen_type: spec_le_u32(le32(d, off + 12)),
        input: spec_le_u32(le32(d, off + 16)),
        screen_size: spec_le_u32(le32(d, off + 20)),
        version: spec_le_u32(le32(d, off + 24)),
        screen_config: spec_le_u32(le32(d, off + 28)),
        screen_size_dp: spec_le_u32(le32(d, off + 32)),
    }
}

/// The fixed header of a Table chunk.
#[derive(Clone, Copy, PartialEq, Eq, Structural, Debug)]
pub struct Table {
    pub header: Header,
    pub package_count: LittleEndianU32,
}

/// The fixed header of a Package chunk: an 8-bit effective id, a
/// zero-terminated name of up to 128 16-bit code units, and the
/// chunk-relative offsets of its two nested string pools.
#[derive(Clone, Debug)]
pub struct Package {
    pub header: Header,
    pub id: LittleEndianU32,
    pub name: Vec<LittleEndianU16>,
    pub types_string_buffer_offset: LittleEndianU32,
    pub names_string_buffer_offset: LittleEndianU32,
}

/// The fixed header of a StringPool chunk.
#[derive(Clone, Copy, PartialEq, Eq, Structural, Debug)]
pub struct StringPool {
    pub header: Header,
    pub string_count: LittleEndianU32,
    pub style_count: LittleEndianU32,
    pub flags: LittleEndianU32,
    pub strings_offset: LittleEndianU32,
    pub styles_offset: LittleEndianU32,
}

/// One style record: a span of a styled string.  A style is a sequence of
/// these, terminated by a record whose `name` is `0xffff_ffff`.
#[derive(Clone, Copy, PartialEq, Eq, Structural, Debug)]
pub struct StringPoolSpan {
    pub name: LittleEndianU32,
    pub begin: LittleEndianU32,
    pub end: LittleEndianU32,
}

/// The fixed header of a Spec chunk.
#[derive(Clone, Copy, PartialEq, Eq, Structural, Debug)]
pub struct Spec {
    pub header: Header,
    pub id: LittleEndianU8,
    pub entry_count: LittleEndianU32,
}

/// The fixed header of a Type chunk: one configuration-specific variant of
/// the entry table of type `id`.
#[derive(Clone, Copy, PartialEq, Eq, Structural, Debug)]
pub struct Type {
    pub header: Header,
    pub id: LittleEndianU8,
    pub flags: LittleEndianU8,
    pub entry_count: LittleEndianU32,
    pub entries_offset: LittleEndianU32,
    pub config: Configuration,
}

/// The fixed part of a simple entry; bit 0 of `flags` marks a complex
/// (map) entry.
#[derive(Clone, Copy, PartialEq, Eq, Structural, Debug)]
pub struct Entry {
    pub size: LittleEndianU16,
    pub flags: LittleEndianU16,
    pub key_index: LittleEndianU32,
}

/// The entry record stored at byte offset `off` of `d`.
pub open spec fn spec_entry(d: Seq<u8>, off: int) -> Entry {
    Entry {
        size: spec_le_u16(le16(d, off)),
        flags: spec_le_u16(le16(d, off + 2)),
        key_index: spec_le_u32(le32(d, off + 4)),
    }
}

impl Entry {
    /// Reads the entry record at byte offset `off` of `d`.
    pub fn read(d: &[u8], off: usize) -> (r: Entry)
        requires
            off + 8 <= d@.len(),
        ensures
            r == spec_entry(d@, off as int),
    {
        let _n = d.len();
        Entry {
            size: LittleEndianU16::read(d, off),
            flags: LittleEndianU16::read(d, off + 2),
            key_index: LittleEndianU32::read(d, off + 4),
        }
    }
}

/// The extension a complex entry carries after its `Entry` header: a parent
/// resource id and the number of `(key, value)` pairs that follow.
#[derive(Clone, Copy, PartialEq, Eq, Structural, Debug)]
pub struct MapEntry {
    pub entry: Entry,
    pub parent_id: LittleEndianU32,
    pub count: LittleEndianU32,
}

/// The map-entry record stored at byte offset `off` of `d`.
pub open spec fn spec_map_entry(d: Seq<u8>, off: int) -> MapEntry {
    MapEntry {
        entry: spec_entry(d, off),
        parent_id: spec_le_u32(le32(d, off + 8)),
        count: spec_le_u32(le32(d, off + 12)),
    }
}

impl MapEntry {
    /// Reads the map-entry record at byte offset `off` of `d`.
    pub fn read(d: &[u8], off: usize) -> (r: MapEntry)
        requires
            off + 16 <= d@.len(),
        ensures
            r == spec_map_entry(d@, off as int),
    {
        let _n = d.len();
        MapEntry {
            entry: Entry::read(d, off),
            parent_id: LittleEndianU32::read(d, off + 8),
            count: LittleEndianU32::read(d, off + 12),
        }
    }
}

/// An 8-byte tagged value record.
#[derive(Clone, Copy, PartialEq, Eq, Structural, Debug)]
pub struct Value {
    pub size: LittleEndianU16,
    pub type_: LittleEndianU8,
    pub data: LittleEndianU32,
}

impl Value {
    /// Reads the value record at byte offset `off` of `d`.  The type tag
    /// sits at byte 3, after the 16-bit size and one padding byte.
    pub fn read(d: &[u8], off: usize) -> (r: Value)
        requires
            off + 8 <= d@.len(),
        ensures
            r == spec_value(d@, off as int),
    {
        let _n = d.len();
        Value {
            size: LittleEndianU16::read(d, off),
            type_: LittleEndianU8::read(d, off + 3),
            data: LittleEndianU32::read(d, off + 4),
        }
    }
}

/// The value record stored at byte offset `off` of `d`.
pub open spec fn spec_value(d: Seq<u8>, off: int) -> Value {
    Value {
        size: spec_le_u16(le16(d, off)),
        type_: spec_le_u8(d[off + 3]),
        data: spec_le_u32(le32(d, off + 4)),
    }
}

/// One `(key, value)` pair of a complex entry.
#[derive(Clone, Copy, PartialEq, Eq, Structural, Debug)]
pub struct KeyAndValue {
    pub key: LittleEndianU32,
    pub value: Value,
}

/// The pair stored at byte offset `off` of `d`.
pub open spec fn spec_key_value(d: Seq<u8>, off: int) -> KeyAndValue {
    KeyAndValue { key: spec_le_u32(le32(d, off)), value: spec_value(d, off + 4) }
}

impl KeyAndValue {
    /// Reads the pair stored at byte offset `off` of `d`.
    pub fn read(d: &[u8], off: usize) -> (r: KeyAndValue)
        requires
            off + 12 <= d@.len(),
        ensures
            r == spec_key_value(d@, off as int),
    {
        let _n = d.len();
        KeyAndValue { key: LittleEndianU32::read(d, off), value: Value::read(d, off + 4) }
    }
}

/// One chunk surfaced by the walker: a copy of the chunk's exact byte range
/// together with its start offset in the walked range, or an error item
/// describing why the walk stopped.
#[derive(Clone, Debug)]
pub struct ChunkData {
    /// The chunk's start, relative to the byte range the walker covers; for
    /// a nested walk this is relative to the parent chunk's start.
    pub offset: usize,
    /// The chunk's bytes, header included: exactly `total-size` bytes.
    pub data: Vec<u8>,
}

/// A tagged chunk, or the error item that terminates a walk.
#[derive(Clone, Debug)]
pub enum Chunk {
    Table(ChunkData),
    Package(ChunkData),
    StringPool(ChunkData),
    Spec(ChunkData),
    Type(ChunkData),
    Error(String),
}

/// Whether chunk `c` is the tagged view of kind `t` over
/// `d[off .. off + sz]`.
pub open spec fn chunk_matches(c: Chunk, t: ChunkType, off: int, sz: int, d: Seq<u8>) -> bool {
    match c {
        Chunk::Table(cd) => t == ChunkType::Table && cd.offset == off && cd.data@ == d.subrange(
            off,
            off + sz,
        ),
        Chunk::Package(cd) => t == ChunkType::Package && cd.offset == off && cd.data@
            == d.subrange(off, off + sz),
        Chunk::StringPool(cd) => t == ChunkType::StringPool && cd.offset == off && cd.data@
            == d.subrange(off, off + sz),
        Chunk::Spec(cd) => t == ChunkType::Spec && cd.offset == off && cd.data@ == d.subrange(
            off,
            off + sz,
        ),
        Chunk::Type(cd) => t == ChunkType::Type && cd.offset == off && cd.data@ == d.subrange(
            off,
            off + sz,
        ),
        Chunk::Error(_) => false,
    }
}

/// The items a walk of `d` yields from byte offset `off` on: `Some((kind,
/// start, size))` for each recognized chunk, then either nothing (the end
/// of the range was reached exactly) or a final `None`, the error item.
/// Every chunk advances the cursor by `size >= 8` bytes, so the sequence is
/// finite.
pub open spec fn walk(d: Seq<u8>, off: int) -> Seq<Option<(ChunkType, int, int)>>
    decreases d.len() - off,
{
    if off < 0 || off >= d.len() {
        Seq::empty()
    } else if d.len() - off < 8 {
        seq![None]
    } else {
        let hs = le16(d, off + 2) as int;
        let sz = le32(d, off + 4) as int;
        if sz < hs || hs < 8 || d.len() - off < sz {
            seq![None]
        } else {
            match spec_chunk_type_of(le16(d, off)) {
                Some(t) => if spec_supported(t) {
                    seq![Some((t, off, sz))] + walk(d, off + sz)
                } else {
                    seq![None]
                },
                None => seq![None],
            }
        }
    }
}


/// A walk is finite and bounded: every surfaced chunk advances the
/// cursor by its total size, at least 8 bytes, and the walk ends at the
/// end of the range or with one error item, so a range of `n` bytes
/// yields at most `n / 8` chunks plus possibly that error item.
pub proof fn lemma_walk_finite(d: Seq<u8>, off: int)
    requires
        0 <= off <= d.len(),
    ensures
        walk(d, off).len() <= (d.len() - off) / 8 + 1,
    decreases d.len() - off,
{
    if off < d.len() && d.len() - off >= 8 {
        let hs = le16(d, off + 2) as int;
        let sz = le32(d, off + 4) as int;
        if !(sz < hs || hs < 8 || d.len() - off < sz) {
            match spec_chunk_type_of(le16(d, off)) {
                Some(t) => {
                    if spec_supported(t) {
                        lemma_walk_finite(d, off + sz);
                        assert((d.len() - off - sz) / 8 <= (d.len() - off - 8) / 8) by {
                            vstd::arithmetic::div_mod::lemma_div_is_ordered(
                                d.len() - off - sz,
                                d.len() - off - 8,
                                8,
                            );
                        }
                        assert((d.len() - off - 8) / 8 + 1 == (d.len() - off) / 8) by {
                            vstd::arithmetic::div_mod::lemma_div_plus_one(
                                d.len() - off - 8,
                                8,
                            );
                        }
                    }
                },
                None => {},
            }
        }
    }
}

/// Renders a byte offset as hexadecimal digits for a walker error item;
/// the format's own spec asks every error item to carry the offset it
/// stopped at.
fn hex_digits(v: usize) -> (r: String) {
    let mut bytes: Vec<u8> = Vec::new();
    let mut rest = v;
    if rest == 0 {
        bytes.push(0x30);
    }
    while rest > 0
        decreases rest,
    {
        let digit = (rest % 16) as u8;
        let c = if digit < 10 {
            0x30 + digit
        } else {
            0x57 + digit
        };
        bytes.insert(0, c);
        rest = rest / 16;
    }
    let r = decode_utf8_lossy(bytes.as_slice());
    r
}

/// Builds a walker error message: the hexadecimal byte offset the walk
/// stopped at, then the reason.
fn offset_message(offset: usize, reason: &str) -> (r: String) {
    let mut m = String::from_str("0x");
    let digits = hex_digits(offset);
    m.append(digits.as_str());
    m.append(reason);
    m
}

/// A forward-only cursor over the chunks of one byte range.
#[derive(Debug)]
pub struct ChunkIterator {
    data: Vec<u8>,
    offset: usize,
}

impl ChunkIterator {
    /// The byte range this walker covers.
    pub closed spec fn spec_data(&self) -> Seq<u8> {
        self.data@
    }

    /// The walker's cursor: the offset the next chunk would start at.
    pub closed spec fn spec_offset(&self) -> int {
        self.offset as int
    }

    /// The items this walker has yet to yield.
    pub open spec fn remaining(&self) -> Seq<Option<(ChunkType, int, int)>> {
        walk(self.spec_data(), self.spec_offset())
    }

    /// Starts a walk over `data`.
    pub fn new(data: &[u8]) -> (r: ChunkIterator)
        ensures
            r.spec_data() == data@,
            r.spec_offset() == 0,
    {
        ChunkIterator { data: vstd::slice::slice_to_vec(data), offset: 0 }
    }

    /// Moves the cursor to the end of the range, terminating the walk.
    fn invalidate(&mut self)
        ensures
            final(self).spec_data() == old(self).spec_data(),
            final(self).spec_offset() == final(self).spec_data().len(),
            final(self).remaining() == Seq::<Option<(ChunkType, int, int)>>::empty(),
    {
        self.offset = self.data.len();
    }

    /// Yields the next item of the walk: `None` once the end of the range
    /// was reached exactly, a tagged chunk over its exact byte range, or
    /// one error item after which the walk is over.
    pub fn next(&mut self) -> (r: Option<Chunk>)
        ensures
            final(self).spec_data() == old(self).spec_data(),
            r is None <==> old(self).remaining().len() == 0,
            old(self).remaining().len() == 0 ==> final(self).spec_offset() == old(self).spec_offset(),
            old(self).remaining().len() > 0 ==> match old(self).remaining()[0] {
                None => (r matches Some(c) && c matches Chunk::Error(_)) && final(self).remaining().len()
                    == 0,
                Some((t, off, sz)) => (r matches Some(c) && chunk_matches(
                    c,
                    t,
                    off,
                    sz,
                    old(self).spec_data(),
                )) && final(self).spec_offset() == off + sz && final(self).remaining()
                    == old(self).remaining().skip(1),
            },
    {
        let n = self.data.len();
        if self.offset >= n {
            return None;
        }
        let bytes_left = n - self.offset;
        if bytes_left < 8 {
            let m = offset_message(self.offset, ": bytes left cannot contain header");
            self.invalidate();
            return Some(Chunk::Error(m));
        }
        let hs = read_u16(self.data.as_slice(), self.offset + 2) as usize;
        let sz = read_u32(self.data.as_slice(), self.offset + 4) as usize;
        if sz < hs {
            let m = offset_message(self.offset, ": chunk size less than header size");
            self.invalidate();
            return Some(Chunk::Error(m));
        }
        if hs < 8 {
            let m = offset_message(self.offset, ": header size cannot contain header");
            self.invalidate();
            return Some(Chunk::Error(m));
        }
        if bytes_left < sz {
            let m = offset_message(self.offset, ": bytes left cannot contain chunk");
            self.invalidate();
            return Some(Chunk::Error(m));
        }
        let code = read_u16(self.data.as_slice(), self.offset);
        let type_ = match ChunkType::from_code(code) {
            Some(t) => t,
            None => {
                let m = offset_message(self.offset, ": unknown chunk type");
                self.invalidate();
                return Some(Chunk::Error(m));
            },
        };
        let cd = ChunkData {
            offset: self.offset,
            data: vstd::slice::slice_to_vec(
                vstd::slice::slice_subrange(self.data.as_slice(), self.offset, self.offset + sz),
            ),
        };
        let ghost prev = self.offset as int;
        let chunk = match type_ {
            ChunkType::Table => Chunk::Table(cd),
            ChunkType::Package => Chunk::Package(cd),
            ChunkType::StringPool => Chunk::StringPool(cd),
            ChunkType::Spec => Chunk::Spec(cd),
            ChunkType::Type => Chunk::Type(cd),
            _ => {
                let m = offset_message(cd.offset, ": chunk type carries no table data");
                self.invalidate();
                return Some(Chunk::Error(m));
            },
        };
        self.offset = self.offset + sz;
        proof {
            assert(old(self).remaining() == seq![
                Some((type_, prev, sz as int)),
            ] + walk(self.data@, prev + sz));
            assert(old(self).remaining().skip(1) =~= walk(self.data@, prev + sz));
        }
        Some(chunk)
    }
}

impl Chunk {
    /// Starts a nested walk over this chunk's children, which begin exactly
    /// `header-size` bytes past the chunk start.  Only Table and Package
    /// chunks contain children; for the walker's offsets to be relative to
    /// the chunk start, the nested walker covers the whole chunk range with
    /// its cursor placed at `header-size`.
    pub fn iter(&self) -> (r: Option<ChunkIterator>)
        ensures
            match self {
                Chunk::Table(cd) | Chunk::Package(cd) => {
                    if cd.data@.len() >= 8 && le16(cd.data@, 2) <= cd.data@.len() {
                        r matches Some(it) && it.spec_data() == cd.data@ && it.spec_offset()
                            == le16(cd.data@, 2)
                    } else {
                        r is None
                    }
                },
                _ => r is None,
            },
    {
        match self {
            Chunk::Table(cd) | Chunk::Package(cd) => {
                let n = cd.data.len();
                if n < 8 {
                    return None;
                }
                let hs = read_u16(cd.data.as_slice(), 2) as usize;
                if hs <= n {
                    Some(ChunkIterator { data: vstd::slice::slice_to_vec(cd.data.as_slice()), offset: hs })
                } else {
                    None
                }
            },
            _ => None,
        }
    }

    /// Reads the Table header of this chunk.
    pub fn as_table(&self) -> (r: Result<Table, Error>)
        ensures
            match self {
                Chunk::Table(cd) => {
                    if cd.data@.len() >= 12 {
                        r matches Ok(t) && t.header.type_@ == le16(cd.data@, 0)
                            && t.header.header_size@ == le16(cd.data@, 2) && t.header.size@
                            == le32(cd.data@, 4) && t.package_count@ == le32(cd.data@, 8)
                    } else {
                        r matches Err(e) && e matches Error::CorruptData(_)
                    }
                },
                _ => r matches Err(e) && e matches Error::UnexpectedChunk,
            },
    {
        match self {
            Chunk::Table(cd) => {
                let d = cd.data.as_slice();
                let n = d.len();
                if n < 12 {
                    return Err(Error::CorruptData("table chunk too small".to_owned()));
                }
                Ok(Table { header: Header::read(d, 0), package_count: LittleEndianU32::read(d, 8) })
            },
            _ => Err(Error::UnexpectedChunk),
        }
    }

    /// Reads the Package header of this chunk.  The name field occupies 128
    /// 16-bit code units at byte 12; the two pool offsets follow it, each
    /// separated by a reserved word.
    pub fn as_package(&self) -> (r: Result<Package, Error>)
        ensures
            match self {
                Chunk::Package(cd) => {
                    if cd.data@.len() >= 284 {
                        r matches Ok(p) && p.header.type_@ == le16(cd.data@, 0)
                            && p.header.header_size@ == le16(cd.data@, 2) && p.header.size@
                            == le32(cd.data@, 4) && p.id@ == le32(cd.data@, 8) && p.name@.len()
                            == 128 && (forall|j: int|
                            0 <= j < 128 ==> p.name@[j]@ == le16(cd.data@, 12 + 2 * j))
                            && p.types_string_buffer_offset@ == le32(cd.data@, 268)
                            && p.names_string_buffer_offset@ == le32(cd.data@, 276)
                    } else {
                        r matches Err(e) && e matches Error::CorruptData(_)
                    }
                },
                _ => r matches Err(e) && e matches Error::UnexpectedChunk,
            },
    {
        match self {
            Chunk::Package(cd) => {
                let d = cd.data.as_slice();
                let n = d.len();
                if n < 284 {
                    return Err(Error::CorruptData("package chunk too small".to_owned()));
                }
                let mut name: Vec<LittleEndianU16> = Vec::new();
                let mut j: usize = 0;
                while j < 128
                    invariant
                        0 <= j <= 128,
                        name@.len() == j,
                        n == cd.data@.len(),
                        d@ == cd.data@,
                        284 <= cd.data@.len(),
                        forall|k: int| 0 <= k < j ==> name@[k]@ == le16(cd.data@, 12 + 2 * k),
                    decreases 128 - j,
                {
                    name.push(LittleEndianU16::read(d, 12 + 2 * j));
                    j = j + 1;
                }
                Ok(
                    Package {
                        header: Header::read(d, 0),
                        id: LittleEndianU32::read(d, 8),
                        name,
                        types_string_buffer_offset: LittleEndianU32::read(d, 268),
                        names_string_buffer_offset: LittleEndianU32::read(d, 276),
                    },
                )
            },
            _ => Err(Error::UnexpectedChunk),
        }
    }

    /// Reads the StringPool header of this chunk.
    pub fn as_stringpool(&self) -> (r: Result<StringPool, Error>)
        ensures
            match self {
                Chunk::StringPool(cd) => {
                    if cd.data@.len() >= 28 {
                        r matches Ok(s) && s.header.type_@ == le16(cd.data@, 0)
                            && s.header.header_size@ == le16(cd.data@, 2) && s.header.size@
                            == le32(cd.data@, 4) && s.string_count@ == le32(cd.data@, 8)
                            && s.style_count@ == le32(cd.data@, 12) && s.flags@ == le32(
                            cd.data@,
                            16,
                        ) && s.strings_offset@ == le32(cd.data@, 20) && s.styles_offset@ == le32(
                            cd.data@,
                            24,
                        )
                    } else {
                        r matches Err(e) && e matches Error::CorruptData(_)
                    }
                },
                _ => r matches Err(e) && e matches Error::UnexpectedChunk,
            },
    {
        match self {
            Chunk::StringPool(cd) => {
                let d = cd.data.as_slice();
                let n = d.len();
                if n < 28 {
                    return Err(Error::CorruptData("string pool chunk too small".to_owned()));
                }
                Ok(
                    StringPool {
                        header: Header::read(d, 0),
                        string_count: LittleEndianU32::read(d, 8),
                        style_count: LittleEndianU32::read(d, 12),
                        flags: LittleEndianU32::read(d, 16),
                        strings_offset: LittleEndianU32::read(d, 20),
                        styles_offset: LittleEndianU32::read(d, 24),
                    },
                )
            },
            _ => Err(Error::UnexpectedChunk),
        }
    }

    /// Reads the Spec header of this chunk.  The 8-bit type id sits at byte
    /// 8, followed by three padding bytes and the 32-bit entry count.
    pub fn as_spec(&self) -> (r: Result<Spec, Error>)
        ensures
            match self {
                Chunk::Spec(cd) => {
                    if cd.data@.len() >= 16 {
                        r matches Ok(s) && s.header.type_@ == le16(cd.data@, 0)
                            && s.header.header_size@ == le16(cd.data@, 2) && s.header.size@
                            == le32(cd.data@, 4) && s.id@ == cd.data@[8] && s.entry_count@
                            == le32(cd.data@, 12)
                    } else {
                        r matches Err(e) && e matches Error::CorruptData(_)
                    }
                },
                _ => r matches Err(e) && e matches Error::UnexpectedChunk,
            },
    {
        match self {
            Chunk::Spec(cd) => {
                let d = cd.data.as_slice();
                let n = d.len();
                if n < 16 {
                    return Err(Error::CorruptData("spec chunk too small".to_owned()));
                }
                Ok(
                    Spec {
                        header: Header::read(d, 0),
                        id: LittleEndianU8::read(d, 8),
                        entry_count: LittleEndianU32::read(d, 12),
                    },
                )
            },
            _ => Err(Error::UnexpectedChunk),
        }
    }

    /// Reads the Type header of this chunk, configuration record included.
    pub fn as_type(&self) -> (r: Result<Type, Error>)
        ensures
            match self {
                Chunk::Type(cd) => {
                    if cd.data@.len() >= 56 {
                        r matches Ok(t) && t.header.type_@ == le16(cd.data@, 0)
                            && t.header.header_size@ == le16(cd.data@, 2) && t.header.size@
                            == le32(cd.data@, 4) && t.id@ == cd.data@[8] && t.flags@ == cd.data@[9]
                            && t.entry_count@ == le32(cd.data@, 12) && t.entries_offset@ == le32(
                            cd.data@,
                            16,
                        ) && t.config == spec_configuration(cd.data@, 20)
                    } else {
                        r matches Err(e) && e matches Error::CorruptData(_)
                    }
                },
                _ => r matches Err(e) && e matches Error::UnexpectedChunk,
            },
    {
        match self {
            Chunk::Type(cd) => {
                let d = cd.data.as_slice();
                let n = d.len();
                if n < 56 {
                    return Err(Error::CorruptData("type chunk too small".to_owned()));
                }
                Ok(
                    Type {
                        header: Header::read(d, 0),
                        id: LittleEndianU8::read(d, 8),
                        flags: LittleEndianU8::read(d, 9),
                        entry_count: LittleEndianU32::read(d, 12),
                        entries_offset: LittleEndianU32::read(d, 16),
                        config: Configuration::read(d, 20),
                    },
                )
            },
            _ => Err(Error::UnexpectedChunk),
        }
    }
}

} // verus!
