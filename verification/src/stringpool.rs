//! The string-pool decoder.
//!
//! A StringPool chunk holds `string-count` strings (and optionally
//! `style-count` style-span lists) in one of two encodings.  Offsets into
//! the payload come from two 32-bit offset tables that follow the header;
//! every offset is validated against the chunk before a byte is read, and
//! all content is decoded eagerly, so that afterwards `string_at(i)`
//! succeeds exactly when `i` is in range.

use vstd::prelude::*;

use crate::chunks::Chunk;
use crate::endianness::le16;
use crate::endianness::le32;
use crate::endianness::read_u16;
use crate::endianness::read_u32;
use crate::endianness::read_u8;
use crate::error::Error;

verus! {

/// The in-file encoding of a pool's strings.
#[derive(Clone, Copy, PartialEq, Eq, Structural, Debug)]
pub enum Encoding {
    Utf8,
    Utf16,
}

/// What `String::from_utf8_lossy` returns for the given bytes: a pure
/// function of the bytes alone, with ill-formed sequences replaced by the
/// replacement character.
pub uninterp spec fn utf8_lossy_of(bytes: Seq<u8>) -> Seq<char>;

/// What `String::from_utf16_lossy` returns for the given code units: a
/// pure function of the units alone, with ill-formed sequences replaced by
/// the replacement character.
pub uninterp spec fn utf16_lossy_of(units: Seq<u16>) -> Seq<char>;

/// Relies on `String::from_utf8_lossy`: decodes UTF-8 bytes, substituting
/// replacement characters for ill-formed sequences; the result depends on
/// the bytes alone and the call never fails.
#[verifier::external_body]
pub(crate) fn decode_utf8_lossy(bytes: &[u8]) -> (r: String)
    ensures
        r@ == utf8_lossy_of(bytes@),
{
    String::from_utf8_lossy(bytes).into_owned()
}

/// Relies on `String::from_utf16_lossy`: decodes UTF-16 code units,
/// substituting replacement characters for ill-formed sequences; the
/// result depends on the units alone and the call never fails.
#[verifier::external_body]
pub(crate) fn decode_utf16_lossy(units: &[u16]) -> (r: String)
    ensures
        r@ == utf16_lossy_of(units@),
{
    String::from_utf16_lossy(units)
}

/// How many bytes the 8-bit-prefixed length at `off` occupies: a prefix
/// byte with the high bit set opens a 2-byte prefix.
pub open spec fn len8_bump(d: Seq<u8>, off: int) -> int {
    if d[off] & 0x80 != 0 {
        2
    } else {
        1
    }
}

/// The value of the 8-bit-prefixed length at `off`.
pub open spec fn len8_value(d: Seq<u8>, off: int) -> int {
    if d[off] & 0x80 != 0 {
        ((d[off] & 0x7f) as int) * 0x100 + d[off + 1]
    } else {
        d[off] as int
    }
}

/// How many 16-bit units the 16-bit-prefixed length at byte offset `off`
/// occupies: a prefix unit with the high bit set opens a 2-unit prefix.
pub open spec fn len16_bump(d: Seq<u8>, off: int) -> int {
    if le16(d, off) & 0x8000 != 0 {
        2
    } else {
        1
    }
}

/// The value of the 16-bit-prefixed length at byte offset `off`, counted
/// in 16-bit units.
pub open spec fn len16_value(d: Seq<u8>, off: int) -> int {
    if le16(d, off) & 0x8000 != 0 {
        ((le16(d, off) & 0x7fff) as int) * 0x10000 + le16(d, off + 2)
    } else {
        le16(d, off) as int
    }
}

/// Whether a UTF-8 string entry at `off` lies entirely inside
/// `d[.. limit]`: its two length prefixes (character count, then byte
/// count) and its payload.
pub open spec fn str8_ok(d: Seq<u8>, off: int, limit: int) -> bool {
    &&& 0 <= off
    &&& off < limit
    &&& off + len8_bump(d, off) < limit
    &&& {
        let off1 = off + len8_bump(d, off);
        &&& off1 + len8_bump(d, off1) <= limit
        &&& off1 + len8_bump(d, off1) + len8_value(d, off1) <= limit
    }
}

/// The decoded UTF-8 string entry at `off`: the first prefix (the
/// character count) is skipped, the second gives the byte count of the
/// payload.
pub open spec fn spec_string8(d: Seq<u8>, off: int) -> Seq<char> {
    let off1 = off + len8_bump(d, off);
    let start = off1 + len8_bump(d, off1);
    utf8_lossy_of(d.subrange(start, start + len8_value(d, off1)))
}

/// Whether a UTF-16 string entry at byte offset `off` lies entirely inside
/// `d[.. limit]`: its length prefix and its payload of 16-bit units.
pub open spec fn str16_ok(d: Seq<u8>, off: int, limit: int) -> bool {
    &&& 0 <= off
    &&& off + 2 <= limit
    &&& off + 2 * len16_bump(d, off) <= limit
    &&& off + 2 * len16_bump(d, off) + 2 * len16_value(d, off) <= limit
}

/// The 16-bit units of the UTF-16 string entry at byte offset `off`.
pub open spec fn spec_string16_units(d: Seq<u8>, off: int) -> Seq<u16> {
    let start = off + 2 * len16_bump(d, off);
    Seq::new(len16_value(d, off) as nat, |j: int| le16(d, start + 2 * j))
}

/// The decoded UTF-16 string entry at byte offset `off`.
pub open spec fn spec_string16(d: Seq<u8>, off: int) -> Seq<char> {
    utf16_lossy_of(spec_string16_units(d, off))
}

/// One span of a styled string.
#[derive(Clone, Copy, PartialEq, Eq, Structural, Debug)]
pub struct LoadedStringPoolSpan {
    pub name: u32,
    pub begin: u32,
    pub end: u32,
}

/// Whether the style-span list at `off` lies entirely inside `d[.. limit]`:
/// records of 12 bytes up to a record whose name field is the sentinel
/// `0xffff_ffff`.
pub open spec fn spans_ok(d: Seq<u8>, off: int, limit: int) -> bool
    decreases limit - off,
{
    &&& 0 <= off
    &&& off + 4 <= limit
    &&& (le32(d, off) != 0xffff_ffff ==> off + 12 <= limit && spans_ok(d, off + 12, limit))
}

/// The style-span list at `off`, up to its sentinel record.
pub open spec fn spec_spans(d: Seq<u8>, off: int, limit: int) -> Seq<LoadedStringPoolSpan>
    decreases limit - off,
{
    if 0 <= off && off + 4 <= limit && le32(d, off) != 0xffff_ffff && off + 12 <= limit {
        seq![
            LoadedStringPoolSpan {
                name: le32(d, off),
                begin: le32(d, off + 4),
                end: le32(d, off + 8),
            },
        ] + spec_spans(d, off + 12, limit)
    } else {
        Seq::empty()
    }
}

/// The string-pool header fields, as specs over the chunk's bytes.
pub open spec fn pool_count(d: Seq<u8>) -> int {
    le32(d, 8) as int
}

pub open spec fn pool_style_count(d: Seq<u8>) -> int {
    le32(d, 12) as int
}

pub open spec fn pool_encoding(d: Seq<u8>) -> Encoding {
    if le32(d, 16) & 0x100 != 0 {
        Encoding::Utf8
    } else {
        Encoding::Utf16
    }
}

/// The absolute offset of string entry `i`: the strings payload offset
/// plus the `i`-th element of the string offset table, which sits right
/// after the header.
pub open spec fn pool_str_off(d: Seq<u8>, i: int) -> int {
    le32(d, 20) + le32(d, le16(d, 2) + 4 * i)
}

/// The absolute offset of style entry `i`: the styles payload offset plus
/// the `i`-th element of the style offset table, which follows the string
/// offset table.
pub open spec fn pool_style_off(d: Seq<u8>, i: int) -> int {
    le32(d, 24) + le32(d, le16(d, 2) + 4 * pool_count(d) + 4 * i)
}

/// The decoded string entry `i`, per the pool's encoding.
pub open spec fn pool_string(d: Seq<u8>, i: int) -> Seq<char> {
    if pool_encoding(d) == Encoding::Utf8 {
        spec_string8(d, pool_str_off(d, i))
    } else {
        spec_string16(d, pool_str_off(d, i))
    }
}

/// Whether string entry `i` lies inside the chunk, per the encoding.
pub open spec fn pool_string_ok(d: Seq<u8>, i: int) -> bool {
    if pool_encoding(d) == Encoding::Utf8 {
        str8_ok(d, pool_str_off(d, i), le32(d, 4) as int)
    } else {
        str16_ok(d, pool_str_off(d, i), le32(d, 4) as int)
    }
}

/// Whether a StringPool chunk with bytes `d` is well-formed: the declared
/// size is inside the data and 4-aligned along with the header size, the
/// offset tables fit, and every string and style entry lies inside the
/// declared size.
#[verifier::opaque]
pub open spec fn pool_wf(d: Seq<u8>) -> bool {
    let hs = le16(d, 2) as int;
    let sz = le32(d, 4) as int;
    &&& d.len() >= 28
    &&& sz >= 28
    &&& sz >= hs
    &&& sz <= d.len()
    &&& (le16(d, 2) as u32 | le32(d, 4)) & 0x03 == 0
    &&& hs + 4 * pool_count(d) + (if pool_style_count(d) > 0 {
        4 * pool_style_count(d)
    } else {
        0
    }) <= sz
    &&& forall|i: int| 0 <= i < pool_count(d) ==> pool_string_ok(d, i)
    &&& forall|i: int|
        0 <= i < pool_style_count(d) ==> spans_ok(d, pool_style_off(d, i), sz)
}

/// The abstract content of a decoded pool.
pub ghost struct StringPoolV {
    pub encoding: Encoding,
    pub strings: Seq<Seq<char>>,
    pub styles: Seq<Seq<LoadedStringPoolSpan>>,
}

/// The model a well-formed StringPool chunk with bytes `d` decodes to.
#[verifier::opaque]
pub open spec fn spec_pool(d: Seq<u8>) -> StringPoolV {
    StringPoolV {
        encoding: pool_encoding(d),
        strings: Seq::new(pool_count(d) as nat, |i: int| pool_string(d, i)),
        styles: Seq::new(
            pool_style_count(d) as nat,
            |i: int| spec_spans(d, pool_style_off(d, i), le32(d, 4) as int),
        ),
    }
}

/// An indexable, eagerly decoded view of one string pool.
#[derive(Debug)]
pub struct LoadedStringPool {
    pub encoding: Encoding,
    pub strings: Vec<String>,
    pub styles: Vec<Vec<LoadedStringPoolSpan>>,
}

impl View for LoadedStringPool {
    type V = StringPoolV;

    open spec fn view(&self) -> StringPoolV {
        StringPoolV {
            encoding: self.encoding,
            strings: self.strings@.map_values(|s: String| s@),
            styles: self.styles@.map_values(|v: Vec<LoadedStringPoolSpan>| v@),
        }
    }
}

/// Decodes the UTF-8 string entry at `off`, bounded by `d[.. limit]`.
fn decode_string8(d: &[u8], off: usize, limit: usize) -> (r: Option<String>)
    requires
        limit <= d@.len(),
    ensures
        r is Some <==> str8_ok(d@, off as int, limit as int),
        r matches Some(s) ==> s@ == spec_string8(d@, off as int),
{
    if off >= limit {
        return None;
    }
    let b0 = read_u8(d, off);
    let bump0: usize = if b0 & 0x80 != 0 {
        2
    } else {
        1
    };
    if limit - off <= bump0 {
        return None;
    }
    let off1 = off + bump0;
    let b1 = read_u8(d, off1);
    let bump1: usize = if b1 & 0x80 != 0 {
        2
    } else {
        1
    };
    if limit - off1 < bump1 {
        return None;
    }
    let n: usize = if b1 & 0x80 != 0 {
        ((b1 & 0x7f) as usize) * 0x100 + read_u8(d, off1 + 1) as usize
    } else {
        b1 as usize
    };
    let start = off1 + bump1;
    if limit - start < n {
        return None;
    }
    let payload = vstd::slice::slice_subrange(d, start, start + n);
    Some(decode_utf8_lossy(payload))
}

/// Decodes the UTF-16 string entry at byte offset `off`, bounded by
/// `d[.. limit]`.
fn decode_string16(d: &[u8], off: usize, limit: usize) -> (r: Option<String>)
    requires
        limit <= d@.len(),
    ensures
        r is Some <==> str16_ok(d@, off as int, limit as int),
        r matches Some(s) ==> s@ == spec_string16(d@, off as int),
{
    if off >= limit || limit - off < 2 {
        return None;
    }
    let p0 = read_u16(d, off);
    let bump: usize = if p0 & 0x8000 != 0 {
        2
    } else {
        1
    };
    if limit - off < 2 * bump {
        return None;
    }
    let n: usize = if p0 & 0x8000 != 0 {
        ((p0 & 0x7fff) as usize) * 0x10000 + read_u16(d, off + 2) as usize
    } else {
        p0 as usize
    };
    let start = off + 2 * bump;
    if (limit - start) / 2 < n {
        return None;
    }
    let mut units: Vec<u16> = Vec::new();
    let mut j: usize = 0;
    while j < n
        invariant
            j <= n,
            units@.len() == j,
            start + 2 * n <= limit <= d@.len(),
            forall|k: int| 0 <= k < j ==> units@[k] == le16(d@, start + 2 * k),
        decreases n - j,
    {
        units.push(read_u16(d, start + 2 * j));
        j = j + 1;
    }
    proof {
        assert(units@ =~= spec_string16_units(d@, off as int));
    }
    Some(decode_utf16_lossy(units.as_slice()))
}

/// Decodes the style-span list at `off`, bounded by `d[.. limit]`.
fn decode_spans(d: &[u8], off: usize, limit: usize) -> (r: Option<Vec<LoadedStringPoolSpan>>)
    requires
        limit <= d@.len(),
    ensures
        r is Some <==> spans_ok(d@, off as int, limit as int),
        r matches Some(v) ==> v@ == spec_spans(d@, off as int, limit as int),
{
    let mut out: Vec<LoadedStringPoolSpan> = Vec::new();
    let mut cur = off;
    loop
        invariant
            off <= cur,
            limit <= d@.len(),
            spans_ok(d@, off as int, limit as int) <==> spans_ok(d@, cur as int, limit as int),
            spans_ok(d@, cur as int, limit as int) ==> spec_spans(d@, off as int, limit as int)
                =~= out@ + spec_spans(d@, cur as int, limit as int),
        decreases limit - cur,
    {
        if cur >= limit || limit - cur < 4 {
            return None;
        }
        let name = read_u32(d, cur);
        if name == 0xffff_ffff {
            proof {
                assert(spec_spans(d@, cur as int, limit as int) =~= Seq::<
                    LoadedStringPoolSpan,
                >::empty());
            }
            return Some(out);
        }
        if limit - cur < 12 {
            return None;
        }
        let span = LoadedStringPoolSpan {
            name,
            begin: read_u32(d, cur + 4),
            end: read_u32(d, cur + 8),
        };
        out.push(span);
        cur = cur + 12;
    }
}

impl LoadedStringPool {
    /// Decodes a StringPool chunk.  Fails with `UnexpectedChunk` on any
    /// other chunk variant and with `CorruptData` exactly when the chunk is
    /// not well-formed: a size or alignment defect, an offset table that
    /// does not fit, or a string or style entry outside the chunk.
    #[verifier::rlimit(100)]
    #[verifier::loop_isolation(false)]
    pub fn from_chunk(chunk: Chunk) -> (r: Result<LoadedStringPool, Error>)
        ensures
            match chunk {
                Chunk::StringPool(cd) => {
                    &&& (r is Ok <==> pool_wf(cd.data@))
                    &&& (r matches Ok(sp) ==> sp@ == spec_pool(cd.data@))
                    &&& (r is Err ==> r matches Err(Error::CorruptData(_)))
                },
                _ => r matches Err(Error::UnexpectedChunk),
            },
    {
        proof {
            reveal(pool_wf);
            reveal(spec_pool);
        }
        let cd = match chunk {
            Chunk::StringPool(cd) => cd,
            _ => { return Err(Error::UnexpectedChunk) },
        };
        let d = cd.data.as_slice();
        let dn = d.len();
        if dn < 28 {
            return Err(Error::CorruptData("size too small".to_owned()));
        }
        let hs = read_u16(d, 2) as usize;
        let sz32 = read_u32(d, 4);
        let sz = sz32 as usize;
        if sz < 28 {
            return Err(Error::CorruptData("size too small".to_owned()));
        }
        if sz < hs {
            return Err(Error::CorruptData("size smaller than header size".to_owned()));
        }
        if sz > dn {
            return Err(Error::CorruptData("size exceeds chunk data".to_owned()));
        }
        if (hs as u32 | sz32) & 0x03 != 0 {
            return Err(Error::CorruptData("misaligned data".to_owned()));
        }
        let count = read_u32(d, 8) as usize;
        let style_count = read_u32(d, 12) as usize;
        let flags = read_u32(d, 16);
        let strings_offset = read_u32(d, 20);
        let styles_offset = read_u32(d, 24);
        let offsets_need: u64 = hs as u64 + 4 * (count as u64) + (if style_count > 0 {
            4 * (style_count as u64)
        } else {
            0
        });
        if offsets_need > sz as u64 {
            return Err(Error::CorruptData("offset tables exceed chunk".to_owned()));
        }
        let utf8 = flags & 0x100 != 0;
        let encoding = if utf8 {
            Encoding::Utf8
        } else {
            Encoding::Utf16
        };
        let ghost dv = cd.data@;
        let mut strings: Vec<String> = Vec::new();
        let mut i: usize = 0;
        while i < count
            invariant
                i <= count,
                strings@.len() == i,
                d@ == dv,
                dn == dv.len(),
                hs == le16(dv, 2),
                sz == le32(dv, 4) <= dn,
                count == pool_count(dv),
                utf8 == (pool_encoding(dv) == Encoding::Utf8),
                strings_offset == le32(dv, 20),
                hs + 4 * count <= sz,
                forall|j: int| 0 <= j < i ==> pool_string_ok(dv, j),
                forall|j: int| 0 <= j < i ==> strings@[j]@ == pool_string(dv, j),
            decreases count - i,
        {
            let rel = read_u32(d, hs + 4 * i);
            let abs64: u64 = strings_offset as u64 + rel as u64;
            proof {
                assert(pool_str_off(dv, i as int) == abs64 as int);
            }
            if abs64 > sz as u64 {
                proof {
                    reveal(pool_wf);
                    assert(!pool_string_ok(dv, i as int));
                    assert(!pool_wf(dv));
                }
                return Err(Error::CorruptData("string entry outside chunk".to_owned()));
            }
            let soff = abs64 as usize;
            let s = if utf8 {
                decode_string8(d, soff, sz)
            } else {
                decode_string16(d, soff, sz)
            };
            match s {
                Some(s) => { strings.push(s) },
                None => {
                    proof {
                        reveal(pool_wf);
                        assert(!pool_string_ok(dv, i as int));
                        assert(!pool_wf(dv));
                    }
                    return Err(Error::CorruptData("string entry outside chunk".to_owned()))
                },
            }
            i = i + 1;
        }
        let mut styles: Vec<Vec<LoadedStringPoolSpan>> = Vec::new();
        let mut i: usize = 0;
        while i < style_count
            invariant
                i <= style_count,
                styles@.len() == i,
                d@ == dv,
                dn == dv.len(),
                hs == le16(dv, 2),
                sz == le32(dv, 4) <= dn,
                count == pool_count(dv),
                style_count == pool_style_count(dv),
                styles_offset == le32(dv, 24),
                hs + 4 * count + 4 * style_count <= sz,
                forall|j: int| 0 <= j < i ==> spans_ok(dv, pool_style_off(dv, j), sz as int),
                forall|j: int|
                    0 <= j < i ==> styles@[j]@ == spec_spans(dv, pool_style_off(dv, j), sz as int),
            decreases style_count - i,
        {
            let rel = read_u32(d, hs + 4 * count + 4 * i);
            let abs64: u64 = styles_offset as u64 + rel as u64;
            proof {
                assert(pool_style_off(dv, i as int) == abs64 as int);
            }
            if abs64 > sz as u64 {
                proof {
                    reveal(pool_wf);
                    assert(!spans_ok(dv, pool_style_off(dv, i as int), sz as int));
                    assert(!pool_wf(dv));
                }
                return Err(Error::CorruptData("style entry outside chunk".to_owned()));
            }
            let soff = abs64 as usize;
            match decode_spans(d, soff, sz) {
                Some(v) => { styles.push(v) },
                None => {
                    proof {
                        reveal(pool_wf);
                        assert(!spans_ok(dv, pool_style_off(dv, i as int), sz as int));
                        assert(!pool_wf(dv));
                    }
                    return Err(Error::CorruptData("style entry outside chunk".to_owned()))
                },
            }
            i = i + 1;
        }
        let result = LoadedStringPool { encoding, strings, styles };
        proof {
            reveal(pool_wf);
            reveal(spec_pool);
            assert(pool_wf(dv));
            assert(result@.strings =~= spec_pool(dv).strings);
            assert(result@.styles =~= spec_pool(dv).styles);
            assert(result@ == spec_pool(dv));
        }
        Ok(result)
    }

    /// The number of strings in the pool.
    pub fn string_count(&self) -> (r: usize)
        ensures
            r == self@.strings.len(),
    {
        self.strings.len()
    }

    /// Returns string `i`.  Succeeds exactly when `i < string_count()`;
    /// any out-of-range index fails with `BadIndex`.
    pub fn string_at(&self, i: usize) -> (r: Result<String, Error>)
        ensures
            i < self@.strings.len() <==> r is Ok,
            r matches Ok(s) ==> s@ == self@.strings[i as int],
            r matches Err(e) ==> e matches Error::BadIndex,
    {
        if i >= self.strings.len() {
            return Err(Error::BadIndex);
        }
        Ok(self.strings[i].clone())
    }

    /// The number of style-span lists in the pool.
    pub fn style_count(&self) -> (r: usize)
        ensures
            r == self@.styles.len(),
    {
        self.styles.len()
    }

    /// Returns the span list of style `i`.  Succeeds exactly when
    /// `i < style_count()`; any out-of-range index fails with `BadIndex`.
    pub fn style_at(&self, i: usize) -> (r: Result<Vec<LoadedStringPoolSpan>, Error>)
        ensures
            i < self@.styles.len() <==> r is Ok,
            r matches Ok(v) ==> v@ == self@.styles[i as int],
            r matches Err(e) ==> e matches Error::BadIndex,
    {
        if i >= self.styles.len() {
            return Err(Error::BadIndex);
        }
        let src = &self.styles[i];
        let mut out: Vec<LoadedStringPoolSpan> = Vec::new();
        let mut j: usize = 0;
        while j < src.len()
            invariant
                j <= src@.len(),
                out@.len() == j,
                src@ == self.styles@[i as int]@,
                i < self.styles@.len(),
                forall|k: int| 0 <= k < j ==> out@[k] == src@[k],
            decreases src@.len() - j,
        {
            out.push(src[j]);
            j = j + 1;
        }
        proof {
            assert(out@ =~= self@.styles[i as int]);
        }
        Ok(out)
    }
}

} // verus!
