//! Tests over a canonical small fixture: package `test.app` (id `0x7f`)
//! with a `bool` type holding `foo` and a `string` type holding
//! `app_name` and `foo` across several locale configurations.

use arsc::chunks::{Chunk, ChunkData, ChunkIterator};
use arsc::stringpool::{Encoding, LoadedStringPool};
use arsc::table::{LoadedPackage, LoadedTable, LoadedValue};
use arsc::ResourceId;
use std::collections::HashSet;

/// Assembles one chunk: 8-byte header, then the extra header fields, then
/// the body.
fn chunk(ty: u16, header_extra: &[u8], body: &[u8]) -> Vec<u8> {
    let header_size = 8 + header_extra.len();
    let total = header_size + body.len();
    let mut v = Vec::new();
    v.extend_from_slice(&ty.to_le_bytes());
    v.extend_from_slice(&(header_size as u16).to_le_bytes());
    v.extend_from_slice(&(total as u32).to_le_bytes());
    v.extend_from_slice(header_extra);
    v.extend_from_slice(body);
    v
}

fn stringpool_header_extra(
    count: u32,
    style_count: u32,
    flags: u32,
    strings_offset: u32,
    styles_offset: u32,
) -> Vec<u8> {
    let mut extra = Vec::new();
    extra.extend_from_slice(&count.to_le_bytes());
    extra.extend_from_slice(&style_count.to_le_bytes());
    extra.extend_from_slice(&flags.to_le_bytes());
    extra.extend_from_slice(&strings_offset.to_le_bytes());
    extra.extend_from_slice(&styles_offset.to_le_bytes());
    extra
}

/// A UTF-8 string pool chunk (flag bit 8 set): two 8-bit length prefixes
/// (character count, then byte count) before each string.
fn stringpool_utf8(strings: &[&str]) -> Vec<u8> {
    let mut payload: Vec<u8> = Vec::new();
    let mut offsets: Vec<u32> = Vec::new();
    for s in strings {
        offsets.push(payload.len() as u32);
        let bytes = s.as_bytes();
        assert!(bytes.len() < 0x80 && s.chars().count() < 0x80);
        payload.push(s.chars().count() as u8);
        payload.push(bytes.len() as u8);
        payload.extend_from_slice(bytes);
        payload.push(0);
    }
    while payload.len() % 4 != 0 {
        payload.push(0);
    }
    let strings_offset = 28 + 4 * strings.len() as u32;
    let mut body = Vec::new();
    for off in &offsets {
        body.extend_from_slice(&off.to_le_bytes());
    }
    body.extend_from_slice(&payload);
    let extra = stringpool_header_extra(strings.len() as u32, 0, 1 << 8, strings_offset, 0);
    chunk(0x0001, &extra, &body)
}

/// A UTF-16 string pool chunk: one 16-bit length prefix (in code units)
/// before each string.
fn stringpool_utf16(strings: &[&str]) -> Vec<u8> {
    let mut payload: Vec<u8> = Vec::new();
    let mut offsets: Vec<u32> = Vec::new();
    for s in strings {
        offsets.push(payload.len() as u32);
        let units: Vec<u16> = s.encode_utf16().collect();
        assert!(units.len() < 0x8000);
        payload.extend_from_slice(&(units.len() as u16).to_le_bytes());
        for u in &units {
            payload.extend_from_slice(&u.to_le_bytes());
        }
        payload.extend_from_slice(&0u16.to_le_bytes());
    }
    while payload.len() % 4 != 0 {
        payload.push(0);
    }
    let strings_offset = 28 + 4 * strings.len() as u32;
    let mut body = Vec::new();
    for off in &offsets {
        body.extend_from_slice(&off.to_le_bytes());
    }
    body.extend_from_slice(&payload);
    let extra = stringpool_header_extra(strings.len() as u32, 0, 0, strings_offset, 0);
    chunk(0x0001, &extra, &body)
}

/// A Spec chunk: type id, then one 32-bit configuration mask per entry.
fn spec_chunk(id: u8, masks: &[u32]) -> Vec<u8> {
    let mut extra = Vec::new();
    extra.push(id);
    extra.push(0);
    extra.extend_from_slice(&0u16.to_le_bytes());
    extra.extend_from_slice(&(masks.len() as u32).to_le_bytes());
    let mut body = Vec::new();
    for m in masks {
        body.extend_from_slice(&m.to_le_bytes());
    }
    chunk(0x0202, &extra, &body)
}

/// A Type chunk with simple entries: each present slot is
/// `(key-index, value-type-tag, value-data)`; `None` is an absent slot.
fn type_chunk(id: u8, flags: u8, locale: u32, entries: &[Option<(u32, u8, u32)>]) -> Vec<u8> {
    let mut payload: Vec<u8> = Vec::new();
    let mut offsets: Vec<u32> = Vec::new();
    for e in entries {
        match e {
            None => offsets.push(0xffff_ffff),
            Some((key, vt, vd)) => {
                offsets.push(payload.len() as u32);
                payload.extend_from_slice(&8u16.to_le_bytes());
                payload.extend_from_slice(&0u16.to_le_bytes());
                payload.extend_from_slice(&key.to_le_bytes());
                payload.extend_from_slice(&8u16.to_le_bytes());
                payload.push(0);
                payload.push(*vt);
                payload.extend_from_slice(&vd.to_le_bytes());
            }
        }
    }
    let mut config = vec![0u8; 64];
    config[0..4].copy_from_slice(&64u32.to_le_bytes());
    config[8..12].copy_from_slice(&locale.to_le_bytes());
    let entries_offset = 84 + 4 * entries.len() as u32;
    let mut extra = Vec::new();
    extra.push(id);
    extra.push(flags);
    extra.extend_from_slice(&0u16.to_le_bytes());
    extra.extend_from_slice(&(entries.len() as u32).to_le_bytes());
    extra.extend_from_slice(&entries_offset.to_le_bytes());
    extra.extend_from_slice(&config);
    let mut body = Vec::new();
    for off in &offsets {
        body.extend_from_slice(&off.to_le_bytes());
    }
    body.extend_from_slice(&payload);
    chunk(0x0201, &extra, &body)
}

/// A Package chunk holding its two string pools and further children.
fn package_chunk(
    id: u32,
    name: &str,
    type_pool: &[u8],
    name_pool: &[u8],
    rest: &[Vec<u8>],
) -> Vec<u8> {
    let types_off = 284u32;
    let names_off = 284 + type_pool.len() as u32;
    let mut namebuf = [0u8; 256];
    for (i, u) in name.encode_utf16().enumerate() {
        namebuf[2 * i..2 * i + 2].copy_from_slice(&u.to_le_bytes());
    }
    let mut extra = Vec::new();
    extra.extend_from_slice(&id.to_le_bytes());
    extra.extend_from_slice(&namebuf);
    extra.extend_from_slice(&types_off.to_le_bytes());
    extra.extend_from_slice(&0u32.to_le_bytes());
    extra.extend_from_slice(&names_off.to_le_bytes());
    extra.extend_from_slice(&0u32.to_le_bytes());
    let mut body = Vec::new();
    body.extend_from_slice(type_pool);
    body.extend_from_slice(name_pool);
    for c in rest {
        body.extend_from_slice(c);
    }
    chunk(0x0200, &extra, &body)
}

fn table_chunk(package_count: u32, body: &[u8]) -> Vec<u8> {
    chunk(0x0002, &package_count.to_le_bytes(), body)
}

/// The canonical fixture.  Value pool: `Foo`, `Test app`, `Bar` and four
/// pseudo-localized variants (7 strings, UTF-8).  One package `test.app`
/// (id `0x7f`) with UTF-16 type pool [`bool`, `string`] and name pool
/// [`app_name`, `foo`]; one `bool` Type chunk and four `string` Type
/// chunks across locale configurations.
fn fixture() -> Vec<u8> {
    let value_pool = stringpool_utf8(&[
        "Foo",
        "Test app",
        "Bar",
        "Föö",
        "Tëst äpp",
        "Bär",
        "Füü",
    ]);
    let type_pool = stringpool_utf16(&["bool", "string"]);
    let name_pool = stringpool_utf16(&["app_name", "foo"]);
    let bool_spec = spec_chunk(1, &[0]);
    let bool_type = type_chunk(1, 0, 0, &[Some((1, 0x12, 0xffff_ffff))]);
    let string_spec = spec_chunk(2, &[0x4, 0x4]);
    let string_default = type_chunk(2, 0, 0, &[Some((0, 0x03, 1)), Some((1, 0x03, 0))]);
    let string_loc1 = type_chunk(2, 0, 0x0101, &[Some((0, 0x03, 4)), Some((1, 0x03, 3))]);
    let string_loc2 = type_chunk(2, 0, 0x0202, &[Some((0, 0x03, 4)), None]);
    let string_loc3 = type_chunk(2, 0, 0x0303, &[None, Some((1, 0x03, 6))]);
    let pkg = package_chunk(
        0x7f,
        "test.app",
        &type_pool,
        &name_pool,
        &[
            bool_spec,
            bool_type,
            string_spec,
            string_default,
            string_loc1,
            string_loc2,
            string_loc3,
        ],
    );
    let mut body = value_pool;
    body.extend_from_slice(&pkg);
    table_chunk(1, &body)
}

fn collect_resids(table: &LoadedTable) -> Vec<u32> {
    let mut it = table.resid_iter();
    let mut out = Vec::new();
    while let Some(resid) = it.next() {
        out.push(u32::from(resid));
    }
    out
}

#[test]
fn iter_valid_data() {
    fn iterate(mut iter: ChunkIterator, depth: usize, out: &mut Vec<String>) {
        while let Some(chunk) = iter.next() {
            out.push(match &chunk {
                Chunk::Table(_) => format!("{}-Table", depth),
                Chunk::Package(_) => format!("{}-Package", depth),
                Chunk::StringPool(_) => format!("{}-StringPool", depth),
                Chunk::Spec(_) => format!("{}-Spec", depth),
                Chunk::Type(_) => format!("{}-Type", depth),
                _ => "ERROR".to_owned(),
            });
            if let Some(child_iter) = chunk.iter() {
                iterate(child_iter, depth + 1, out);
            }
        }
    }

    let data = fixture();
    let iter = ChunkIterator::new(&data);
    let mut v = Vec::new();
    iterate(iter, 0, &mut v);
    println!("{:#?}", v);
    assert_eq!(
        v,
        [
            "0-Table",
            "1-StringPool",
            "1-Package",
            "2-StringPool",
            "2-StringPool",
            "2-Spec",
            "2-Type",
            "2-Spec",
            "2-Type",
            "2-Type",
            "2-Type",
            "2-Type",
        ]
    );
}

#[test]
fn try_from_chunk_to_table() {
    let data = fixture();
    let mut iter = ChunkIterator::new(&data);
    let chunk = iter.next().unwrap();
    let table = chunk.as_table().unwrap();
    assert_eq!(table.package_count.value(), 1);
}

fn value_pool_of(data: &[u8]) -> LoadedStringPool {
    let mut iter = ChunkIterator::new(data);
    let table = iter.next().unwrap();
    let mut inner = table.iter().unwrap();
    loop {
        match inner.next().unwrap() {
            c @ Chunk::StringPool(_) => return LoadedStringPool::from_chunk(c).unwrap(),
            _ => {}
        }
    }
}

#[test]
fn decode_utf8() {
    let data = fixture();
    let sp = value_pool_of(&data);
    assert_eq!(sp.encoding, Encoding::Utf8);
    assert_eq!(sp.string_count(), 7);
    assert_eq!(sp.string_at(0).unwrap(), "Foo".to_owned());
    assert_eq!(sp.string_at(1).unwrap(), "Test app".to_owned());
    assert_eq!(sp.string_at(2).unwrap(), "Bar".to_owned());
    assert!(sp.string_at(3).is_ok());
    assert!(sp.string_at(4).is_ok());
    assert!(sp.string_at(5).is_ok());
    assert!(sp.string_at(6).is_ok());
    assert!(sp.string_at(7).is_err());
}

#[test]
fn pseudo_locale_strings_decode_exactly() {
    let data = fixture();
    let sp = value_pool_of(&data);
    assert_eq!(sp.string_at(3).unwrap(), "Föö".to_owned());
    assert_eq!(sp.string_at(4).unwrap(), "Tëst äpp".to_owned());
}

#[test]
fn decode_utf16() {
    let data = fixture();
    let mut iter = ChunkIterator::new(&data);
    let table = iter.next().unwrap();
    let mut inner = table.iter().unwrap();
    let pkg = loop {
        match inner.next().unwrap() {
            c @ Chunk::Package(_) => break c,
            _ => {}
        }
    };
    let mut pkg_iter = pkg.iter().unwrap();
    let sp = loop {
        match pkg_iter.next().unwrap() {
            c @ Chunk::StringPool(_) => break LoadedStringPool::from_chunk(c).unwrap(),
            _ => {}
        }
    };
    assert_eq!(sp.encoding, Encoding::Utf16);
    assert_eq!(sp.string_count(), 2);
    assert_eq!(sp.string_at(0).unwrap(), "bool".to_string());
    assert_eq!(sp.string_at(1).unwrap(), "string".to_string());
    assert!(sp.string_at(2).is_err());
}

#[test]
fn parse_valid_table() {
    let data = fixture();
    let table = LoadedTable::parse(&data).unwrap();
    assert_eq!(table.packages.len(), 1);

    let actual = (0..table.value_strings.string_count())
        .map(|i| table.value_strings.string_at(i).unwrap())
        .collect::<HashSet<_>>();
    assert!(actual.contains("Foo"));
    assert!(actual.contains("Bar"));
    assert!(actual.contains("Test app"));

    let pkg = &table.packages[0];
    assert_eq!(pkg.id, 0x7f);
    assert_eq!(pkg.name, "test.app".to_owned());
    assert_eq!(pkg.types.len(), 2);

    let mut expected = HashSet::new();
    expected.insert("bool".to_owned());
    expected.insert("string".to_owned());
    let actual = (0..pkg.type_strings.string_count())
        .map(|i| pkg.type_strings.string_at(i).unwrap())
        .collect::<HashSet<_>>();
    assert_eq!(expected, actual);

    let mut expected = HashSet::new();
    expected.insert("app_name".to_owned());
    expected.insert("foo".to_owned());
    let actual = (0..pkg.name_strings.string_count())
        .map(|i| pkg.name_strings.string_at(i).unwrap())
        .collect::<HashSet<_>>();
    assert_eq!(expected, actual);
}

#[test]
fn resid_iter() {
    let data = fixture();
    let table = LoadedTable::parse(&data).unwrap();
    let expected = vec![0x7f010000, 0x7f020000, 0x7f020001];
    assert_eq!(expected, collect_resids(&table));
}

#[test]
fn resid_iter_empty_table() {
    let data = fixture();
    let table = LoadedTable::parse(&data).unwrap();
    let table = LoadedTable {
        packages: Vec::new(),
        ..table
    };
    assert_eq!(0, collect_resids(&table).len());
}

#[test]
fn resid_iter_empty_package() {
    let data = fixture();
    let mut table = LoadedTable::parse(&data).unwrap();
    let pkg = LoadedPackage {
        types: Vec::new(),
        ..table.packages.pop().unwrap()
    };
    let table = LoadedTable {
        packages: vec![pkg],
        ..table
    };
    assert_eq!(0, collect_resids(&table).len());
}

#[test]
fn resid_iter_empty_type() {
    let data = fixture();
    let mut table = LoadedTable::parse(&data).unwrap();
    let mut pkg = table.packages.pop().unwrap();
    pkg.types[0].entries.clear();
    let table = LoadedTable {
        packages: vec![pkg],
        ..table
    };
    let expected = vec![0x7f020000, 0x7f020001];
    assert_eq!(expected, collect_resids(&table));
}

#[test]
fn resid_iter_two_packages() {
    let data = fixture();
    let mut system_table = LoadedTable::parse(&data).unwrap();
    let system_pkg = LoadedPackage {
        id: 0x01,
        ..system_table.packages.pop().unwrap()
    };
    let mut table = LoadedTable::parse(&data).unwrap();
    let app_pkg = table.packages.pop().unwrap();
    let table = LoadedTable {
        packages: vec![system_pkg, app_pkg],
        ..table
    };
    let expected = vec![
        0x01010000, 0x01020000, 0x01020001, 0x7f010000, 0x7f020000, 0x7f020001,
    ];
    assert_eq!(expected, collect_resids(&table));
}

#[test]
fn resid_for_name() {
    let data = fixture();
    let table = LoadedTable::parse(&data).unwrap();
    assert_eq!(
        table
            .resid_for_name("test.app", "bool", "foo")
            .map(|resid| u32::from(resid)),
        Some(0x7f010000)
    );
    assert_eq!(
        table
            .resid_for_name("test.app", "string", "app_name")
            .map(|resid| u32::from(resid)),
        Some(0x7f020000)
    );
    assert_eq!(
        table
            .resid_for_name("test.app", "string", "foo")
            .map(|resid| u32::from(resid)),
        Some(0x7f020001)
    );
    assert!(table.resid_for_name("-", "string", "foo").is_none());
    assert!(table.resid_for_name("test.app", "-", "foo").is_none());
    assert!(table.resid_for_name("test.app", "string", "-").is_none());
}

#[test]
fn name_for_resid() {
    let data = fixture();
    let table = LoadedTable::parse(&data).unwrap();
    assert_eq!(
        table.name_for_resid(&ResourceId::from_parts(0x7f, 0x01, 0x0000)),
        Some(("test.app".to_owned(), "bool".to_owned(), "foo".to_owned()))
    );
}

#[test]
fn name_id_round_trip_on_fixture() {
    let data = fixture();
    let table = LoadedTable::parse(&data).unwrap();
    for raw in [0x7f010000u32, 0x7f020000, 0x7f020001] {
        let (p, t, e) = table
            .name_for_resid(&ResourceId::from_u32(raw))
            .unwrap();
        let back = table.resid_for_name(&p, &t, &e).unwrap();
        assert_eq!(u32::from(back), raw);
    }
    let id = table.resid_for_name("test.app", "string", "app_name").unwrap();
    assert_eq!(
        table.name_for_resid(&id),
        Some((
            "test.app".to_owned(),
            "string".to_owned(),
            "app_name".to_owned()
        ))
    );
}

#[test]
fn entry_variants_follow_configurations() {
    let data = fixture();
    let table = LoadedTable::parse(&data).unwrap();
    let pkg = &table.packages[0];
    let string_type = &pkg.types[1];
    assert_eq!(string_type.id, 2);
    assert_eq!(string_type.entries.len(), 2);
    // `app_name` is present in the default and two locale variants.
    assert_eq!(string_type.entries[0].name, "app_name");
    assert_eq!(string_type.entries[0].values.len(), 3);
    // `foo` is present in the default and two other locale variants.
    assert_eq!(string_type.entries[1].name, "foo");
    assert_eq!(string_type.entries[1].values.len(), 3);
}

#[test]
fn absent_slot_everywhere_drops_entry() {
    // A type whose second slot is absent in every configuration
    // materializes only the first entry.
    let value_pool = stringpool_utf8(&["Foo"]);
    let type_pool = stringpool_utf16(&["string"]);
    let name_pool = stringpool_utf16(&["app_name", "foo"]);
    let ty = type_chunk(1, 0, 0, &[Some((0, 0x03, 0)), None]);
    let pkg = package_chunk(0x7f, "test.app", &type_pool, &name_pool, &[ty]);
    let mut body = value_pool;
    body.extend_from_slice(&pkg);
    let data = table_chunk(1, &body);
    let table = LoadedTable::parse(&data).unwrap();
    assert_eq!(collect_resids(&table), vec![0x7f010000]);
}

#[test]
fn trailing_data_after_table() {
    let mut data = fixture();
    data.extend_from_slice(&[0, 0, 0, 0]);
    match LoadedTable::parse(&data) {
        Err(arsc::Error::CorruptData(m)) => assert_eq!(m, "trailing data after table"),
        other => panic!("unexpected result: {:?}", other.map(|_| ())),
    }
}

#[test]
fn sparse_type_layout_rejected() {
    let value_pool = stringpool_utf8(&["Foo"]);
    let type_pool = stringpool_utf16(&["string"]);
    let name_pool = stringpool_utf16(&["foo"]);
    let ty = type_chunk(1, 0x01, 0, &[Some((0, 0x03, 0))]);
    let pkg = package_chunk(0x7f, "test.app", &type_pool, &name_pool, &[ty]);
    let mut body = value_pool;
    body.extend_from_slice(&pkg);
    let data = table_chunk(1, &body);
    match LoadedTable::parse(&data) {
        Err(arsc::Error::CorruptData(m)) => {
            assert_eq!(m, "sparse type layout not supported")
        }
        other => panic!("unexpected result: {:?}", other.map(|_| ())),
    }
}

#[test]
fn unknown_spec_flag_bits_rejected() {
    let value_pool = stringpool_utf8(&["Foo"]);
    let type_pool = stringpool_utf16(&["string"]);
    let name_pool = stringpool_utf16(&["foo"]);
    let spec = spec_chunk(1, &[0x0010_0000]);
    let ty = type_chunk(1, 0, 0, &[Some((0, 0x03, 0))]);
    let pkg = package_chunk(0x7f, "test.app", &type_pool, &name_pool, &[spec, ty]);
    let mut body = value_pool;
    body.extend_from_slice(&pkg);
    let data = table_chunk(1, &body);
    match LoadedTable::parse(&data) {
        Err(arsc::Error::CorruptData(m)) => {
            assert_eq!(m, "unknown configuration flag bits")
        }
        other => panic!("unexpected result: {:?}", other.map(|_| ())),
    }
}

#[test]
fn package_count_mismatch_rejected() {
    let value_pool = stringpool_utf8(&["Foo"]);
    let data = table_chunk(1, &value_pool);
    match LoadedTable::parse(&data) {
        Err(arsc::Error::CorruptData(m)) => assert_eq!(m, "package count mismatch"),
        other => panic!("unexpected result: {:?}", other.map(|_| ())),
    }
}

#[test]
fn misaligned_string_pool_rejected() {
    // A pool whose total size is not a multiple of 4 is corrupt.
    let mut pool = stringpool_utf8(&["Foo"]);
    pool.push(0);
    let total = pool.len() as u32;
    pool[4..8].copy_from_slice(&total.to_le_bytes());
    let cd = ChunkData {
        offset: 0,
        data: pool,
    };
    match LoadedStringPool::from_chunk(Chunk::StringPool(cd)) {
        Err(arsc::Error::CorruptData(m)) => assert_eq!(m, "misaligned data"),
        other => panic!("unexpected result: {:?}", other.map(|_| ())),
    }
}

#[test]
fn string_at_bad_index() {
    let data = fixture();
    let sp = value_pool_of(&data);
    assert!(matches!(sp.string_at(7), Err(arsc::Error::BadIndex)));
    assert!(matches!(sp.style_at(0), Err(arsc::Error::BadIndex)));
}

#[test]
fn utf8_long_length_prefix() {
    // A string of 300 bytes forces the two-byte form of both 8-bit
    // length prefixes (high bit set on the first prefix byte).
    let text: String = std::iter::repeat('a').take(300).collect();
    let bytes = text.as_bytes();
    let mut payload: Vec<u8> = Vec::new();
    payload.push(0x80 | ((300 >> 8) as u8));
    payload.push((300 & 0xff) as u8);
    payload.push(0x80 | ((300 >> 8) as u8));
    payload.push((300 & 0xff) as u8);
    payload.extend_from_slice(bytes);
    while payload.len() % 4 != 0 {
        payload.push(0);
    }
    let strings_offset = 28 + 4;
    let mut body = Vec::new();
    body.extend_from_slice(&0u32.to_le_bytes());
    body.extend_from_slice(&payload);
    let extra = stringpool_header_extra(1, 0, 1 << 8, strings_offset, 0);
    let pool = chunk(0x0001, &extra, &body);
    let sp = LoadedStringPool::from_chunk(Chunk::StringPool(ChunkData {
        offset: 0,
        data: pool,
    }))
    .unwrap();
    assert_eq!(sp.string_at(0).unwrap(), text);
}

#[test]
fn utf16_long_length_prefix() {
    // 0x8000 code units force the two-unit form of the 16-bit length
    // prefix (high bit set on the first unit).
    let n: usize = 0x8000;
    let mut payload: Vec<u8> = Vec::new();
    payload.extend_from_slice(&(0x8000u16 | ((n >> 16) as u16)).to_le_bytes());
    payload.extend_from_slice(&((n & 0xffff) as u16).to_le_bytes());
    for _ in 0..n {
        payload.extend_from_slice(&(b'b' as u16).to_le_bytes());
    }
    let strings_offset = 28 + 4;
    let mut body = Vec::new();
    body.extend_from_slice(&0u32.to_le_bytes());
    body.extend_from_slice(&payload);
    let extra = stringpool_header_extra(1, 0, 0, strings_offset, 0);
    let pool = chunk(0x0001, &extra, &body);
    let sp = LoadedStringPool::from_chunk(Chunk::StringPool(ChunkData {
        offset: 0,
        data: pool,
    }))
    .unwrap();
    let expected: String = std::iter::repeat('b').take(n).collect();
    assert_eq!(sp.string_at(0).unwrap(), expected);
}

#[test]
fn complex_map_entry_parses() {
    // A Type chunk with one complex ("map") entry: entry flag bit 0 set,
    // a parent resource id, and two (key, value) pairs.
    let mut payload: Vec<u8> = Vec::new();
    payload.extend_from_slice(&16u16.to_le_bytes());
    payload.extend_from_slice(&1u16.to_le_bytes());
    payload.extend_from_slice(&0u32.to_le_bytes());
    payload.extend_from_slice(&0x7f010000u32.to_le_bytes());
    payload.extend_from_slice(&2u32.to_le_bytes());
    for (key, data) in [(0x01000000u32, 11u32), (0x01000001, 22)] {
        payload.extend_from_slice(&key.to_le_bytes());
        payload.extend_from_slice(&8u16.to_le_bytes());
        payload.push(0);
        payload.push(0x10);
        payload.extend_from_slice(&data.to_le_bytes());
    }
    let mut config = vec![0u8; 64];
    config[0..4].copy_from_slice(&64u32.to_le_bytes());
    let entries_offset = 84 + 4u32;
    let mut extra = Vec::new();
    extra.push(1u8);
    extra.push(0);
    extra.extend_from_slice(&0u16.to_le_bytes());
    extra.extend_from_slice(&1u32.to_le_bytes());
    extra.extend_from_slice(&entries_offset.to_le_bytes());
    extra.extend_from_slice(&config);
    let mut body = Vec::new();
    body.extend_from_slice(&0u32.to_le_bytes());
    body.extend_from_slice(&payload);
    let ty = chunk(0x0201, &extra, &body);

    let value_pool = stringpool_utf8(&["Foo"]);
    let type_pool = stringpool_utf16(&["style"]);
    let name_pool = stringpool_utf16(&["themed"]);
    let pkg = package_chunk(0x7f, "test.app", &type_pool, &name_pool, &[ty]);
    let mut table_body = value_pool;
    table_body.extend_from_slice(&pkg);
    let data = table_chunk(1, &table_body);

    let table = LoadedTable::parse(&data).unwrap();
    let entry = &table.packages[0].types[0].entries[0];
    assert_eq!(entry.name, "themed");
    assert_eq!(entry.values.len(), 1);
    match &entry.values[0].1 {
        LoadedValue::Complex(map_entry, pairs) => {
            assert_eq!(map_entry.parent_id.value(), 0x7f010000);
            assert_eq!(map_entry.count.value(), 2);
            assert_eq!(pairs.len(), 2);
            assert_eq!(pairs[0].key.value(), 0x01000000);
            assert_eq!(pairs[0].value.data.value(), 11);
            assert_eq!(pairs[1].key.value(), 0x01000001);
            assert_eq!(pairs[1].value.data.value(), 22);
        }
        other => panic!("expected a complex entry, got {:?}", other),
    }
}

#[test]
fn spec_directly_under_table_rejected() {
    // A Spec chunk is not permitted as a direct child of the Table.
    let value_pool = stringpool_utf8(&["Foo"]);
    let spec = spec_chunk(1, &[0]);
    let mut body = value_pool;
    body.extend_from_slice(&spec);
    let data = table_chunk(0, &body);
    assert!(matches!(
        LoadedTable::parse(&data),
        Err(arsc::Error::UnexpectedChunk)
    ));
}

#[test]
fn missing_name_pool_rejected() {
    // A package whose header points the name-pool offset past its only
    // pool never binds a name pool.
    let value_pool = stringpool_utf8(&["Foo"]);
    let type_pool = stringpool_utf16(&["string"]);
    let name_pool = stringpool_utf16(&["foo"]);
    // Declare the name pool at the right offset but omit the chunk.
    let types_off = 284u32;
    let names_off = 284 + type_pool.len() as u32;
    let mut namebuf = [0u8; 256];
    for (i, u) in "test.app".encode_utf16().enumerate() {
        namebuf[2 * i..2 * i + 2].copy_from_slice(&u.to_le_bytes());
    }
    let mut extra = Vec::new();
    extra.extend_from_slice(&0x7fu32.to_le_bytes());
    extra.extend_from_slice(&namebuf);
    extra.extend_from_slice(&types_off.to_le_bytes());
    extra.extend_from_slice(&0u32.to_le_bytes());
    extra.extend_from_slice(&(names_off + 0x1000).to_le_bytes());
    extra.extend_from_slice(&0u32.to_le_bytes());
    let mut pkg_body = Vec::new();
    pkg_body.extend_from_slice(&type_pool);
    pkg_body.extend_from_slice(&name_pool);
    let pkg = chunk(0x0200, &extra, &pkg_body);
    let mut body = value_pool;
    body.extend_from_slice(&pkg);
    let data = table_chunk(1, &body);
    match LoadedTable::parse(&data) {
        Err(arsc::Error::CorruptData(m)) => {
            assert_eq!(m, "unexpected string pool in package")
        }
        other => panic!("unexpected result: {:?}", other.map(|_| ())),
    }
}

#[test]
fn entry_count_mismatch_across_configurations_rejected() {
    let value_pool = stringpool_utf8(&["Foo"]);
    let type_pool = stringpool_utf16(&["string"]);
    let name_pool = stringpool_utf16(&["foo"]);
    let ty_one = type_chunk(1, 0, 0, &[Some((0, 0x03, 0))]);
    let ty_two = type_chunk(1, 0, 0x0101, &[Some((0, 0x03, 0)), None]);
    let pkg = package_chunk(0x7f, "test.app", &type_pool, &name_pool, &[ty_one, ty_two]);
    let mut body = value_pool;
    body.extend_from_slice(&pkg);
    let data = table_chunk(1, &body);
    match LoadedTable::parse(&data) {
        Err(arsc::Error::CorruptData(m)) => {
            assert_eq!(m, "entry count differs across configurations")
        }
        other => panic!("unexpected result: {:?}", other.map(|_| ())),
    }
}

#[test]
fn type_id_zero_rejected() {
    let value_pool = stringpool_utf8(&["Foo"]);
    let type_pool = stringpool_utf16(&["string"]);
    let name_pool = stringpool_utf16(&["foo"]);
    let ty = type_chunk(0, 0, 0, &[Some((0, 0x03, 0))]);
    let pkg = package_chunk(0x7f, "test.app", &type_pool, &name_pool, &[ty]);
    let mut body = value_pool;
    body.extend_from_slice(&pkg);
    let data = table_chunk(1, &body);
    match LoadedTable::parse(&data) {
        Err(arsc::Error::CorruptData(m)) => assert_eq!(m, "type id must be nonzero"),
        other => panic!("unexpected result: {:?}", other.map(|_| ())),
    }
}

#[test]
fn entry_key_outside_name_pool_rejected() {
    let value_pool = stringpool_utf8(&["Foo"]);
    let type_pool = stringpool_utf16(&["string"]);
    let name_pool = stringpool_utf16(&["foo"]);
    let ty = type_chunk(1, 0, 0, &[Some((7, 0x03, 0))]);
    let pkg = package_chunk(0x7f, "test.app", &type_pool, &name_pool, &[ty]);
    let mut body = value_pool;
    body.extend_from_slice(&pkg);
    let data = table_chunk(1, &body);
    match LoadedTable::parse(&data) {
        Err(arsc::Error::CorruptData(m)) => {
            assert_eq!(m, "entry key outside name string pool")
        }
        other => panic!("unexpected result: {:?}", other.map(|_| ())),
    }
}

#[test]
fn string_offset_outside_pool_rejected() {
    // The single string's offset table entry points past the chunk.
    let mut pool = stringpool_utf8(&["Foo"]);
    pool[28..32].copy_from_slice(&0x1000u32.to_le_bytes());
    let cd = ChunkData {
        offset: 0,
        data: pool,
    };
    match LoadedStringPool::from_chunk(Chunk::StringPool(cd)) {
        Err(arsc::Error::CorruptData(m)) => assert_eq!(m, "string entry outside chunk"),
        other => panic!("unexpected result: {:?}", other.map(|_| ())),
    }
}

#[test]
fn entry_offset_outside_type_chunk_rejected() {
    // The single slot's offset points past the Type chunk.
    let value_pool = stringpool_utf8(&["Foo"]);
    let type_pool = stringpool_utf16(&["string"]);
    let name_pool = stringpool_utf16(&["foo"]);
    let mut ty = type_chunk(1, 0, 0, &[Some((0, 0x03, 0))]);
    ty[84..88].copy_from_slice(&0x1000u32.to_le_bytes());
    let pkg = package_chunk(0x7f, "test.app", &type_pool, &name_pool, &[ty]);
    let mut body = value_pool;
    body.extend_from_slice(&pkg);
    let data = table_chunk(1, &body);
    match LoadedTable::parse(&data) {
        Err(arsc::Error::CorruptData(m)) => assert_eq!(m, "entry outside chunk"),
        other => panic!("unexpected result: {:?}", other.map(|_| ())),
    }
}

#[test]
fn style_spans_decode() {
    // One UTF-8 string with one style of two spans.
    let mut payload: Vec<u8> = Vec::new();
    payload.push(3);
    payload.push(3);
    payload.extend_from_slice(b"Foo");
    payload.push(0);
    while payload.len() % 4 != 0 {
        payload.push(0);
    }
    let mut styles: Vec<u8> = Vec::new();
    for (name, begin, end) in [(7u32, 0u32, 1u32), (9, 1, 2)] {
        styles.extend_from_slice(&name.to_le_bytes());
        styles.extend_from_slice(&begin.to_le_bytes());
        styles.extend_from_slice(&end.to_le_bytes());
    }
    styles.extend_from_slice(&0xffff_ffffu32.to_le_bytes());
    let strings_offset = 28 + 4 + 4;
    let styles_offset = strings_offset + payload.len() as u32;
    let mut body = Vec::new();
    body.extend_from_slice(&0u32.to_le_bytes());
    body.extend_from_slice(&0u32.to_le_bytes());
    body.extend_from_slice(&payload);
    body.extend_from_slice(&styles);
    let extra = stringpool_header_extra(1, 1, 1 << 8, strings_offset, styles_offset);
    let pool = chunk(0x0001, &extra, &body);
    let sp = LoadedStringPool::from_chunk(Chunk::StringPool(ChunkData {
        offset: 0,
        data: pool,
    }))
    .unwrap();
    assert_eq!(sp.string_count(), 1);
    assert_eq!(sp.style_count(), 1);
    let spans = sp.style_at(0).unwrap();
    assert_eq!(spans.len(), 2);
    assert_eq!((spans[0].name, spans[0].begin, spans[0].end), (7, 0, 1));
    assert_eq!((spans[1].name, spans[1].begin, spans[1].end), (9, 1, 2));
}
