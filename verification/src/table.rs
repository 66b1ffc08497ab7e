//! The resource-table loader and its query surface.
//!
//! `parse` walks the chunk tree under the root Table chunk, binds each
//! Package to its two nested string pools, groups Type chunks by type id
//! across configurations, and materializes entries with their
//! per-configuration values.  The loaded model is immutable; the query
//! surface translates between packed resource identifiers and
//! `(package, type, entry)` name triples and enumerates all identifiers in
//! ascending order.

use vstd::prelude::*;

use crate::chunks::Chunk;
use crate::chunks::ChunkIterator;
use crate::chunks::ChunkType;
use crate::chunks::Configuration;
use crate::chunks::Entry;
use crate::chunks::Header;
use crate::chunks::KNOWN_CONFIG_FLAGS;
use crate::chunks::KeyAndValue;
use crate::chunks::MapEntry;
use crate::chunks::Spec;
use crate::chunks::Value;
use crate::chunks::spec_configuration;
use crate::chunks::spec_entry;
use crate::chunks::spec_header;
use crate::chunks::spec_key_value;
use crate::chunks::spec_map_entry;
use crate::chunks::spec_value;
use crate::chunks::walk;
use crate::endianness::LittleEndianU16;
use crate::endianness::LittleEndianU32;
use crate::endianness::LittleEndianU8;
use crate::endianness::le16;
use crate::endianness::le32;
use crate::endianness::read_u16;
use crate::endianness::read_u32;
use crate::endianness::read_u8;
use crate::error::Error;
use crate::resources::ResourceId;
use crate::resources::lemma_resid_order;
use crate::resources::lemma_resid_round_trip;
use crate::resources::pack_resid;
use crate::resources::resid_entry;
use crate::resources::resid_lex_lt;
use crate::resources::resid_package;
use crate::resources::resid_type;
use crate::stringpool::LoadedStringPool;
use crate::stringpool::StringPoolV;
use crate::stringpool::decode_utf16_lossy;
use crate::stringpool::pool_count;
use crate::stringpool::pool_wf;
use crate::stringpool::spec_pool;
use crate::stringpool::utf16_lossy_of;

verus! {

/// One materialized value: either a simple entry followed by a single
/// value record, or a complex (map) entry with its `(key, value)` pairs.
#[derive(Debug)]
pub enum LoadedValue {
    Single(Entry, Value),
    Complex(MapEntry, Vec<KeyAndValue>),
}

/// The abstract form of a materialized value.
pub ghost enum LoadedValueV {
    Single(Entry, Value),
    Complex(MapEntry, Seq<KeyAndValue>),
}

impl View for LoadedValue {
    type V = LoadedValueV;

    open spec fn view(&self) -> LoadedValueV {
        match self {
            LoadedValue::Single(e, v) => LoadedValueV::Single(*e, *v),
            LoadedValue::Complex(m, kvs) => LoadedValueV::Complex(*m, kvs@),
        }
    }
}

/// One configuration variant of an entry: the Type chunk's configuration
/// record and the value it holds for the entry.
#[derive(Debug)]
pub struct ConfigAndValue(pub Configuration, pub LoadedValue);

/// The abstract form of a configuration variant.
pub ghost struct ConfigAndValueV {
    pub config: Configuration,
    pub value: LoadedValueV,
}

impl View for ConfigAndValue {
    type V = ConfigAndValueV;

    open spec fn view(&self) -> ConfigAndValueV {
        ConfigAndValueV { config: self.0, value: self.1@ }
    }
}

/// One resource: its entry id (its slot index in the type), its decoded
/// key name, and one value per configuration that provides it.
#[derive(Debug)]
pub struct LoadedEntry {
    pub id: u16,
    pub name: String,
    pub values: Vec<ConfigAndValue>,
}

/// The abstract form of an entry.
pub ghost struct EntryV {
    pub id: u16,
    pub name: Seq<char>,
    pub values: Seq<ConfigAndValueV>,
}

impl View for LoadedEntry {
    type V = EntryV;

    open spec fn view(&self) -> EntryV {
        EntryV {
            id: self.id,
            name: self.name@,
            values: self.values@.map_values(|cv: ConfigAndValue| cv@),
        }
    }
}

/// One resource type of a package, with its entries in ascending entry-id
/// order.
#[derive(Debug)]
pub struct LoadedType {
    pub id: u8,
    pub name: String,
    pub entries: Vec<LoadedEntry>,
}

/// The abstract form of a type.
pub ghost struct TypeV {
    pub id: u8,
    pub name: Seq<char>,
    pub entries: Seq<EntryV>,
}

impl View for LoadedType {
    type V = TypeV;

    open spec fn view(&self) -> TypeV {
        TypeV {
            id: self.id,
            name: self.name@,
            entries: self.entries@.map_values(|e: LoadedEntry| e@),
        }
    }
}

/// One package: its id, decoded name, two string pools, and its types in
/// ascending type-id order.
#[derive(Debug)]
pub struct LoadedPackage {
    pub id: u8,
    pub name: String,
    pub type_strings: LoadedStringPool,
    pub name_strings: LoadedStringPool,
    pub types: Vec<LoadedType>,
}

/// The abstract form of a package.
pub ghost struct PackageV {
    pub id: u8,
    pub name: Seq<char>,
    pub type_strings: StringPoolV,
    pub name_strings: StringPoolV,
    pub types: Seq<TypeV>,
}

impl View for LoadedPackage {
    type V = PackageV;

    open spec fn view(&self) -> PackageV {
        PackageV {
            id: self.id,
            name: self.name@,
            type_strings: self.type_strings@,
            name_strings: self.name_strings@,
            types: self.types@.map_values(|t: LoadedType| t@),
        }
    }
}

/// The loaded model of a whole resource table.
#[derive(Debug)]
pub struct LoadedTable {
    pub value_strings: LoadedStringPool,
    pub packages: Vec<LoadedPackage>,
}

/// The abstract form of a table.
pub ghost struct TableV {
    pub value_strings: StringPoolV,
    pub packages: Seq<PackageV>,
}

impl View for LoadedTable {
    type V = TableV;

    open spec fn view(&self) -> TableV {
        TableV {
            value_strings: self.value_strings@,
            packages: self.packages@.map_values(|p: LoadedPackage| p@),
        }
    }
}

/// Well-formedness of a loaded type: type ids start at 1, every entry has
/// at least one configuration variant, and entries are in strictly
/// ascending entry-id order.
pub open spec fn type_wf(t: TypeV) -> bool {
    &&& t.id >= 1
    &&& forall|i: int| 0 <= i < t.entries.len() ==> (#[trigger] t.entries[i]).values.len() > 0
    &&& forall|i: int, j: int|
        0 <= i < j < t.entries.len() ==> t.entries[i].id < t.entries[j].id
}

/// Well-formedness of a loaded package: its types are well-formed, in
/// strictly ascending type-id order, and each type's name is the
/// type-string-pool entry at `type-id - 1`.
pub open spec fn package_wf(p: PackageV) -> bool {
    &&& forall|i: int| 0 <= i < p.types.len() ==> type_wf(#[trigger] p.types[i])
    &&& forall|i: int, j: int| 0 <= i < j < p.types.len() ==> p.types[i].id < p.types[j].id
    &&& forall|i: int|
        0 <= i < p.types.len() ==> 1 <= (#[trigger] p.types[i]).id
            <= p.type_strings.strings.len() && p.types[i].name
            == p.type_strings.strings[p.types[i].id - 1]
}

/// Well-formedness of a loaded table: every package is well-formed.
pub open spec fn table_wf(t: TableV) -> bool {
    forall|i: int| 0 <= i < t.packages.len() ==> package_wf(#[trigger] t.packages[i])
}

/// The first element of `s` satisfying `p`, if any: the linear-search
/// semantics of the query surface.
pub open spec fn find_first<A>(s: Seq<A>, p: spec_fn(A) -> bool) -> Option<A>
    decreases s.len(),
{
    if s.len() == 0 {
        None
    } else if p(s[0]) {
        Some(s[0])
    } else {
        find_first(s.drop_first(), p)
    }
}

/// What a successful search returns: a member that satisfies the
/// predicate; and a failed search means no member satisfies it.
pub proof fn lemma_find_first_props<A>(s: Seq<A>, p: spec_fn(A) -> bool)
    ensures
        find_first(s, p) matches Some(x) ==> p(x) && exists|k: int|
            0 <= k < s.len() && s[k] == x,
        find_first(s, p) is None ==> forall|k: int| 0 <= k < s.len() ==> !p(#[trigger] s[k]),
    decreases s.len(),
{
    if s.len() > 0 && !p(s[0]) {
        lemma_find_first_props(s.drop_first(), p);
        match find_first(s.drop_first(), p) {
            Some(x) => {
                let k = choose|k: int|
                    0 <= k < s.drop_first().len() && s.drop_first()[k] == x;
                assert(s[k + 1] == x);
            },
            None => {
                assert forall|k: int| 0 <= k < s.len() implies !p(s[k]) by {
                    if k > 0 {
                        assert(s.drop_first()[k - 1] == s[k]);
                    }
                }
            },
        }
    }
}

/// If the first `k` elements fail the predicate and element `k` satisfies
/// it, the search returns element `k`.
pub proof fn lemma_find_first_at<A>(s: Seq<A>, p: spec_fn(A) -> bool, k: int)
    requires
        0 <= k < s.len(),
        forall|j: int| 0 <= j < k ==> !p(#[trigger] s[j]),
        p(s[k]),
    ensures
        find_first(s, p) == Some(s[k]),
    decreases s.len(),
{
    if k > 0 {
        lemma_find_first_at(s.drop_first(), p, k - 1);
    }
}

/// If no element satisfies the predicate, the search fails.
pub proof fn lemma_find_first_none<A>(s: Seq<A>, p: spec_fn(A) -> bool)
    requires
        forall|j: int| 0 <= j < s.len() ==> !p(#[trigger] s[j]),
    ensures
        find_first(s, p) is None,
    decreases s.len(),
{
    if s.len() > 0 {
        lemma_find_first_none(s.drop_first(), p);
    }
}

/// The identifier the query surface returns for a name triple: the first
/// package of that name, the first of its types of that name, the first of
/// its entries of that name, packed.
pub open spec fn spec_resid_for_name(
    t: TableV,
    package_name: Seq<char>,
    typ_name: Seq<char>,
    entry_name: Seq<char>,
) -> Option<u32> {
    match find_first(t.packages, |pk: PackageV| pk.name == package_name) {
        None => None,
        Some(pk) => match find_first(pk.types, |tv: TypeV| tv.name == typ_name) {
            None => None,
            Some(tv) => match find_first(tv.entries, |ev: EntryV| ev.name == entry_name) {
                None => None,
                Some(ev) => Some(pack_resid(pk.id, tv.id, ev.id)),
            },
        },
    }
}

/// The name triple the query surface returns for an identifier: the first
/// package, type and entry whose ids match the identifier's fields.
pub open spec fn spec_name_for_resid(t: TableV, id: u32) -> Option<
    (Seq<char>, Seq<char>, Seq<char>),
> {
    match find_first(t.packages, |pk: PackageV| pk.id == resid_package(id)) {
        None => None,
        Some(pk) => match find_first(pk.types, |tv: TypeV| tv.id == resid_type(id)) {
            None => None,
            Some(tv) => match find_first(tv.entries, |ev: EntryV| ev.id == resid_entry(id)) {
                None => None,
                Some(ev) => Some((pk.name, tv.name, ev.name)),
            },
        },
    }
}

/// The packed identifiers of a run of entries of one type, in order.
pub open spec fn entries_resids(package_id: u8, type_id: u8, entries: Seq<EntryV>) -> Seq<u32>
    decreases entries.len(),
{
    if entries.len() == 0 {
        Seq::empty()
    } else {
        seq![pack_resid(package_id, type_id, entries[0].id)] + entries_resids(
            package_id,
            type_id,
            entries.drop_first(),
        )
    }
}

/// The packed identifiers of a run of types of one package, in order.
pub open spec fn types_resids(package_id: u8, types: Seq<TypeV>) -> Seq<u32>
    decreases types.len(),
{
    if types.len() == 0 {
        Seq::empty()
    } else {
        entries_resids(package_id, types[0].id, types[0].entries) + types_resids(
            package_id,
            types.drop_first(),
        )
    }
}

/// The packed identifiers of a run of packages, in order: all identifiers
/// the iteration surface yields.
pub open spec fn table_resids(packages: Seq<PackageV>) -> Seq<u32>
    decreases packages.len(),
{
    if packages.len() == 0 {
        Seq::empty()
    } else {
        types_resids(packages[0].id, packages[0].types) + table_resids(packages.drop_first())
    }
}

/// Appending one entry appends its identifier.
proof fn lemma_entries_resids_push(package_id: u8, type_id: u8, entries: Seq<EntryV>, e: EntryV)
    ensures
        entries_resids(package_id, type_id, entries.push(e)) == entries_resids(
            package_id,
            type_id,
            entries,
        ) + seq![pack_resid(package_id, type_id, e.id)],
    decreases entries.len(),
{
    if entries.len() == 0 {
        assert(entries.push(e).drop_first() =~= entries);
        assert(entries_resids(package_id, type_id, entries.push(e)) =~= seq![
            pack_resid(package_id, type_id, e.id),
        ]);
        assert(entries_resids(package_id, type_id, entries) =~= Seq::empty());
    } else {
        assert(entries.push(e).drop_first() =~= entries.drop_first().push(e));
        lemma_entries_resids_push(package_id, type_id, entries.drop_first(), e);
        assert(entries_resids(package_id, type_id, entries.push(e)) =~= entries_resids(
            package_id,
            type_id,
            entries,
        ) + seq![pack_resid(package_id, type_id, e.id)]);
    }
}

/// Appending one type appends its entries' identifiers.
proof fn lemma_types_resids_push(package_id: u8, types: Seq<TypeV>, t: TypeV)
    ensures
        types_resids(package_id, types.push(t)) == types_resids(package_id, types)
            + entries_resids(package_id, t.id, t.entries),
    decreases types.len(),
{
    if types.len() == 0 {
        assert(types.push(t).drop_first() =~= types);
        assert(types_resids(package_id, types) =~= Seq::empty());
        assert(types_resids(package_id, types.push(t)) =~= entries_resids(
            package_id,
            t.id,
            t.entries,
        ));
    } else {
        assert(types.push(t).drop_first() =~= types.drop_first().push(t));
        lemma_types_resids_push(package_id, types.drop_first(), t);
        assert(types_resids(package_id, types.push(t)) =~= types_resids(package_id, types)
            + entries_resids(package_id, t.id, t.entries));
    }
}

/// Appending one package appends its types' identifiers.
proof fn lemma_table_resids_push(packages: Seq<PackageV>, p: PackageV)
    ensures
        table_resids(packages.push(p)) == table_resids(packages) + types_resids(p.id, p.types),
    decreases packages.len(),
{
    if packages.len() == 0 {
        assert(packages.push(p).drop_first() =~= packages);
        assert(table_resids(packages) =~= Seq::empty());
        assert(table_resids(packages.push(p)) =~= types_resids(p.id, p.types));
    } else {
        assert(packages.push(p).drop_first() =~= packages.drop_first().push(p));
        lemma_table_resids_push(packages.drop_first(), p);
        assert(table_resids(packages.push(p)) =~= table_resids(packages) + types_resids(
            p.id,
            p.types,
        ));
    }
}

/// A single-pass enumerator of all resource identifiers of a table, in
/// the table's order: packages in table order, types in ascending type-id
/// order, entries in ascending entry-id order.
#[derive(Debug)]
pub struct ResourceIdIterator {
    ids: Vec<u32>,
    pos: usize,
}

impl ResourceIdIterator {
    /// All identifiers this iterator enumerates.
    pub closed spec fn spec_ids(&self) -> Seq<u32> {
        self.ids@
    }

    /// How many identifiers were already yielded.
    pub closed spec fn spec_pos(&self) -> int {
        self.pos as int
    }

    /// Builds the enumerator for `table`.
    #[verifier::loop_isolation(false)]
    pub fn new(table: &LoadedTable) -> (r: ResourceIdIterator)
        ensures
            r.spec_ids() == table_resids(table@.packages),
            r.spec_pos() == 0,
    {
        let ghost pkgs = table@.packages;
        let mut ids: Vec<u32> = Vec::new();
        let mut pi: usize = 0;
        proof {
            assert(pkgs.take(0) =~= Seq::empty());
            assert(ids@ =~= table_resids(pkgs.take(0)));
        }
        while pi < table.packages.len()
            invariant
                pi <= table.packages.len(),
                ids@ == table_resids(pkgs.take(pi as int)),
            decreases table.packages.len() - pi,
        {
            let pkg = &table.packages[pi];
            let ghost pv = pkgs[pi as int];
            let ghost ids_before_pkg = ids@;
            let mut ti: usize = 0;
            proof {
                assert(pv.types.take(0) =~= Seq::empty());
                assert(types_resids(pv.id, pv.types.take(0)) =~= Seq::empty());
            }
            while ti < pkg.types.len()
                invariant
                    ti <= pkg.types.len(),
                    ids@ == ids_before_pkg + types_resids(pv.id, pv.types.take(ti as int)),
                decreases pkg.types.len() - ti,
            {
                let ty = &pkg.types[ti];
                let ghost tv = pv.types[ti as int];
                let ghost ids_before_type = ids@;
                let mut ei: usize = 0;
                proof {
                    assert(tv.entries.take(0) =~= Seq::empty());
                    assert(entries_resids(pv.id, tv.id, tv.entries.take(0)) =~= Seq::empty());
                }
                while ei < ty.entries.len()
                    invariant
                        ei <= ty.entries.len(),
                        ids@ == ids_before_type + entries_resids(
                            pv.id,
                            tv.id,
                            tv.entries.take(ei as int),
                        ),
                    decreases ty.entries.len() - ei,
                {
                    let rid = ResourceId::from_parts(pkg.id, ty.id, ty.entries[ei].id);
                    ids.push(u32::from(rid));
                    proof {
                        assert(tv.entries.take(ei + 1) =~= tv.entries.take(ei as int).push(
                            tv.entries[ei as int],
                        ));
                        lemma_entries_resids_push(
                            pv.id,
                            tv.id,
                            tv.entries.take(ei as int),
                            tv.entries[ei as int],
                        );
                    }
                    ei = ei + 1;
                }
                proof {
                    assert(tv.entries.take(ty.entries@.len() as int) =~= tv.entries);
                    assert(pv.types.take(ti + 1) =~= pv.types.take(ti as int).push(
                        pv.types[ti as int],
                    ));
                    lemma_types_resids_push(pv.id, pv.types.take(ti as int), pv.types[ti as int]);
                }
                ti = ti + 1;
            }
            proof {
                assert(pv.types.take(pkg.types@.len() as int) =~= pv.types);
                assert(pkgs.take(pi + 1) =~= pkgs.take(pi as int).push(pkgs[pi as int]));
                lemma_table_resids_push(pkgs.take(pi as int), pkgs[pi as int]);
            }
            pi = pi + 1;
        }
        proof {
            assert(pkgs.take(table.packages@.len() as int) =~= pkgs);
        }
        ResourceIdIterator { ids, pos: 0 }
    }

    /// Yields the next identifier, or `None` once all were yielded.
    pub fn next(&mut self) -> (r: Option<ResourceId>)
        ensures
            final(self).spec_ids() == old(self).spec_ids(),
            old(self).spec_pos() < old(self).spec_ids().len() ==> final(self).spec_pos()
                == old(self).spec_pos() + 1 && (r matches Some(id) && id@
                == old(self).spec_ids()[old(self).spec_pos()]),
            old(self).spec_pos() >= old(self).spec_ids().len() ==> r is None
                && final(self).spec_pos() == old(self).spec_pos(),
    {
        if self.pos < self.ids.len() {
            let id = self.ids[self.pos];
            self.pos = self.pos + 1;
            Some(ResourceId::from_u32(id))
        } else {
            None
        }
    }
}

impl LoadedTable {
    /// Enumerates all resource identifiers, in ascending
    /// `(package-id, type-id, entry-id)` order for a table whose packages
    /// are in ascending id order.  The enumerator is single-pass and
    /// restartable by constructing a new one.
    pub fn resid_iter(&self) -> (r: ResourceIdIterator)
        ensures
            r.spec_ids() == table_resids(self@.packages),
            r.spec_pos() == 0,
    {
        ResourceIdIterator::new(self)
    }

    /// Looks a resource identifier up by its name triple: linear search,
    /// names compared by exact equality of the decoded text.
    #[verifier::loop_isolation(false)]
    pub fn resid_for_name(
        &self,
        package_name: &str,
        typ_name: &str,
        entry_name: &str,
    ) -> (r: Option<ResourceId>)
        ensures
            match r {
                Some(id) => spec_resid_for_name(self@, package_name@, typ_name@, entry_name@)
                    == Some(id@),
                None => spec_resid_for_name(self@, package_name@, typ_name@, entry_name@)
                    is None,
            },
    {
        let pname: String = package_name.to_owned();
        let tname: String = typ_name.to_owned();
        let ename: String = entry_name.to_owned();
        let ghost ppred = |pk: PackageV| pk.name == package_name@;
        let mut pi: usize = 0;
        while pi < self.packages.len()
            invariant
                pi <= self.packages@.len(),
                pname@ == package_name@,
                tname@ == typ_name@,
                ename@ == entry_name@,
                forall|j: int| 0 <= j < pi ==> !ppred(#[trigger] self@.packages[j]),
            decreases self.packages@.len() - pi,
        {
            if self.packages[pi].name == pname {
                let pkg = &self.packages[pi];
                proof {
                    lemma_find_first_at(self@.packages, ppred, pi as int);
                }
                let ghost tpred = |tv: TypeV| tv.name == typ_name@;
                let mut ti: usize = 0;
                while ti < pkg.types.len()
                    invariant
                        ti <= pkg.types@.len(),
                        tname@ == typ_name@,
                        ename@ == entry_name@,
                        find_first(self@.packages, ppred) == Some(pkg@),
                        forall|j: int| 0 <= j < ti ==> !tpred(#[trigger] pkg@.types[j]),
                    decreases pkg.types@.len() - ti,
                {
                    if pkg.types[ti].name == tname {
                        let ty = &pkg.types[ti];
                        proof {
                            lemma_find_first_at(pkg@.types, tpred, ti as int);
                        }
                        let ghost epred = |ev: EntryV| ev.name == entry_name@;
                        let mut ei: usize = 0;
                        while ei < ty.entries.len()
                            invariant
                                ei <= ty.entries@.len(),
                                ename@ == entry_name@,
                                find_first(pkg@.types, tpred) == Some(ty@),
                                find_first(self@.packages, ppred) == Some(pkg@),
                                forall|j: int| 0 <= j < ei ==> !epred(#[trigger] ty@.entries[j]),
                            decreases ty.entries@.len() - ei,
                        {
                            if ty.entries[ei].name == ename {
                                proof {
                                    lemma_find_first_at(ty@.entries, epred, ei as int);
                                }
                                return Some(
                                    ResourceId::from_parts(pkg.id, ty.id, ty.entries[ei].id),
                                );
                            }
                            ei = ei + 1;
                        }
                        proof {
                            lemma_find_first_none(ty@.entries, epred);
                        }
                        return None;
                    }
                    ti = ti + 1;
                }
                proof {
                    lemma_find_first_none(pkg@.types, tpred);
                }
                return None;
            }
            pi = pi + 1;
        }
        proof {
            lemma_find_first_none(self@.packages, ppred);
        }
        None
    }

    /// Looks a name triple up by resource identifier: linear search over
    /// the three id fields.
    #[verifier::loop_isolation(false)]
    pub fn name_for_resid(&self, resid: &ResourceId) -> (r: Option<(String, String, String)>)
        ensures
            match r {
                Some(triple) => spec_name_for_resid(self@, resid@) == Some(
                    (triple.0@, triple.1@, triple.2@),
                ),
                None => spec_name_for_resid(self@, resid@) is None,
            },
    {
        let pid = resid.package_id();
        let tid = resid.type_id();
        let eid = resid.entry_id();
        let ghost ppred = |pk: PackageV| pk.id == resid_package(resid@);
        let mut pi: usize = 0;
        while pi < self.packages.len()
            invariant
                pi <= self.packages@.len(),
                pid == resid_package(resid@),
                tid == resid_type(resid@),
                eid == resid_entry(resid@),
                forall|j: int| 0 <= j < pi ==> !ppred(#[trigger] self@.packages[j]),
            decreases self.packages@.len() - pi,
        {
            if self.packages[pi].id == pid {
                let pkg = &self.packages[pi];
                proof {
                    lemma_find_first_at(self@.packages, ppred, pi as int);
                }
                let ghost tpred = |tv: TypeV| tv.id == resid_type(resid@);
                let mut ti: usize = 0;
                while ti < pkg.types.len()
                    invariant
                        ti <= pkg.types@.len(),
                        tid == resid_type(resid@),
                        eid == resid_entry(resid@),
                        find_first(self@.packages, ppred) == Some(pkg@),
                        forall|j: int| 0 <= j < ti ==> !tpred(#[trigger] pkg@.types[j]),
                    decreases pkg.types@.len() - ti,
                {
                    if pkg.types[ti].id == tid {
                        let ty = &pkg.types[ti];
                        proof {
                            lemma_find_first_at(pkg@.types, tpred, ti as int);
                        }
                        let ghost epred = |ev: EntryV| ev.id == resid_entry(resid@);
                        let mut ei: usize = 0;
                        while ei < ty.entries.len()
                            invariant
                                ei <= ty.entries@.len(),
                                eid == resid_entry(resid@),
                                find_first(pkg@.types, tpred) == Some(ty@),
                                find_first(self@.packages, ppred) == Some(pkg@),
                                forall|j: int| 0 <= j < ei ==> !epred(#[trigger] ty@.entries[j]),
                            decreases ty.entries@.len() - ei,
                        {
                            if ty.entries[ei].id == eid {
                                proof {
                                    lemma_find_first_at(ty@.entries, epred, ei as int);
                                }
                                return Some(
                                    (
                                        pkg.name.clone(),
                                        ty.name.clone(),
                                        ty.entries[ei].name.clone(),
                                    ),
                                );
                            }
                            ei = ei + 1;
                        }
                        proof {
                            lemma_find_first_none(ty@.entries, epred);
                        }
                        return None;
                    }
                    ti = ti + 1;
                }
                proof {
                    lemma_find_first_none(pkg@.types, tpred);
                }
                return None;
            }
            pi = pi + 1;
        }
        proof {
            lemma_find_first_none(self@.packages, ppred);
        }
        None
    }
}

/// Conditions for a well-formed Spec chunk: the fixed header fits, and
/// every per-entry configuration mask carries only known flag bits.
pub open spec fn spec_chunk_wf(d: Seq<u8>) -> bool {
    let hs = le16(d, 2) as int;
    let sz = le32(d, 4) as int;
    &&& d.len() >= 16
    &&& sz <= d.len()
    &&& hs + 4 * (le32(d, 12) as int) <= sz
    &&& forall|i: int|
        0 <= i < le32(d, 12) ==> (#[trigger] le32(d, hs + 4 * i)) & !KNOWN_CONFIG_FLAGS == 0
}

/// The offset-table element of entry slot `i` of a Type chunk, relative
/// to the entries payload; `0xffff_ffff` marks an absent slot.
pub open spec fn type_slot_rel(d: Seq<u8>, i: int) -> u32 {
    le32(d, le16(d, 2) + 4 * i)
}

/// Whether entry slot `i` of a Type chunk is absent.
pub open spec fn type_slot_absent(d: Seq<u8>, i: int) -> bool {
    type_slot_rel(d, i) == 0xffff_ffff
}

/// The absolute position of the entry record of slot `i`.
pub open spec fn type_entry_pos(d: Seq<u8>, i: int) -> int {
    le32(d, 16) + type_slot_rel(d, i)
}

/// Whether the entry record of slot `i` lies inside the chunk: the entry
/// header, and behind it either one value record (simple entry) or the
/// map-entry extension and its `count` pairs (complex entry).
pub open spec fn slot_ok(d: Seq<u8>, i: int) -> bool {
    let p = type_entry_pos(d, i);
    let sz = le32(d, 4) as int;
    &&& p + 8 <= sz
    &&& if le16(d, p + 2) & 0x01 == 0 {
        p + le16(d, p) + 8 <= sz
    } else {
        &&& p + 16 <= sz
        &&& p + le16(d, p) + 12 * (le32(d, p + 12) as int) <= sz
    }
}

/// The value of present slot `i`: a simple value right behind the entry
/// header (at its declared size), or the complex entry's pair list.
pub open spec fn slot_value(d: Seq<u8>, i: int) -> LoadedValueV {
    let p = type_entry_pos(d, i);
    if le16(d, p + 2) & 0x01 == 0 {
        LoadedValueV::Single(spec_entry(d, p), spec_value(d, p + le16(d, p)))
    } else {
        LoadedValueV::Complex(
            spec_map_entry(d, p),
            Seq::new(
                le32(d, p + 12) as nat,
                |j: int| spec_key_value(d, p + le16(d, p) + 12 * j),
            ),
        )
    }
}

/// Conditions for a well-formed Type chunk: the fixed header fits, the
/// sparse layout bit is clear, the entry count fits a 16-bit entry id,
/// the offset table fits, and every present slot lies inside the chunk.
pub open spec fn type_chunk_wf(d: Seq<u8>) -> bool {
    let hs = le16(d, 2) as int;
    let sz = le32(d, 4) as int;
    let n = le32(d, 12) as int;
    &&& d.len() >= 56
    &&& sz <= d.len()
    &&& d[9] & 0x01 == 0
    &&& n <= 0xffff
    &&& hs + 4 * n <= sz
    &&& forall|i: int| 0 <= i < n ==> type_slot_absent(d, i) || slot_ok(d, i)
}

/// The slot array a well-formed Type chunk contributes: one optional
/// `(configuration, value)` per entry slot, absent where the offset table
/// holds the absent marker.
pub open spec fn spec_type_slots(d: Seq<u8>) -> Seq<Option<ConfigAndValueV>> {
    Seq::new(
        le32(d, 12) as nat,
        |i: int|
            if type_slot_absent(d, i) {
                None
            } else {
                Some(
                    ConfigAndValueV { config: spec_configuration(d, 20), value: slot_value(d, i) },
                )
            },
    )
}

/// The view of one decoded slot.
pub open spec fn slot_view(o: Option<ConfigAndValue>) -> Option<ConfigAndValueV> {
    match o {
        Some(cv) => Some(cv@),
        None => None,
    }
}

impl LoadedTable {
    /// Validates a Spec chunk: reads its fixed header and checks every
    /// per-entry configuration bitmask against the known flag vocabulary.
    /// No state beyond the header is kept.
    #[verifier::loop_isolation(false)]
    fn parse_spec(chunk: Chunk) -> (r: Result<Spec, Error>)
        ensures
            match chunk {
                Chunk::Spec(cd) => {
                    &&& (r is Ok <==> spec_chunk_wf(cd.data@))
                    &&& (r matches Ok(s) ==> s.header == spec_header(cd.data@, 0) && s.id@
                        == cd.data@[8] && s.entry_count@ == le32(cd.data@, 12))
                    &&& (r is Err ==> r matches Err(Error::CorruptData(_)))
                },
                _ => r matches Err(Error::UnexpectedChunk),
            },
    {
        let cd = match chunk {
            Chunk::Spec(cd) => cd,
            _ => { return Err(Error::UnexpectedChunk) },
        };
        let d = cd.data.as_slice();
        let dn = d.len();
        if dn < 16 {
            return Err(Error::CorruptData("spec chunk too small".to_owned()));
        }
        let hs = read_u16(d, 2) as usize;
        let sz = read_u32(d, 4) as usize;
        if sz > dn {
            return Err(Error::CorruptData("size exceeds chunk data".to_owned()));
        }
        let count = read_u32(d, 12) as usize;
        if (hs as u64) + 4 * (count as u64) > sz as u64 {
            return Err(Error::CorruptData("flag mask table exceeds chunk".to_owned()));
        }
        let mut i: usize = 0;
        while i < count
            invariant
                i <= count,
                forall|j: int|
                    0 <= j < i ==> (#[trigger] le32(cd.data@, hs + 4 * j)) & !KNOWN_CONFIG_FLAGS
                        == 0,
            decreases count - i,
        {
            let mask = read_u32(d, hs + 4 * i);
            if mask & !KNOWN_CONFIG_FLAGS != 0 {
                return Err(Error::CorruptData("unknown configuration flag bits".to_owned()));
            }
            i = i + 1;
        }
        Ok(
            Spec {
                header: Header::read(d, 0),
                id: LittleEndianU8::read(d, 8),
                entry_count: LittleEndianU32::read(d, 12),
            },
        )
    }

    /// Decodes one Type chunk into its slot array: one optional
    /// `(configuration, value)` per entry slot.  Rejects the sparse entry
    /// layout (header flag bit 0) and any slot whose entry or value data
    /// reaches outside the chunk.
    #[verifier::loop_isolation(false)]
    #[verifier::rlimit(100)]
    fn parse_type(chunk: Chunk) -> (r: Result<Vec<Option<ConfigAndValue>>, Error>)
        ensures
            match chunk {
                Chunk::Type(cd) => {
                    &&& (r is Ok <==> type_chunk_wf(cd.data@))
                    &&& (r matches Ok(v) ==> v@.map_values(|o: Option<ConfigAndValue>| slot_view(o))
                        == spec_type_slots(cd.data@))
                    &&& (r is Err ==> r matches Err(Error::CorruptData(_)))
                },
                _ => r matches Err(Error::UnexpectedChunk),
            },
    {
        let cd = match chunk {
            Chunk::Type(cd) => cd,
            _ => { return Err(Error::UnexpectedChunk) },
        };
        let d = cd.data.as_slice();
        let dn = d.len();
        if dn < 56 {
            return Err(Error::CorruptData("type chunk too small".to_owned()));
        }
        let hs = read_u16(d, 2) as usize;
        let sz = read_u32(d, 4) as usize;
        if sz > dn {
            return Err(Error::CorruptData("size exceeds chunk data".to_owned()));
        }
        let flags = read_u8(d, 9);
        if flags & 0x01 != 0 {
            return Err(Error::CorruptData("sparse type layout not supported".to_owned()));
        }
        let count_u32 = read_u32(d, 12);
        if count_u32 > 0xffff {
            return Err(Error::CorruptData("entry count too large".to_owned()));
        }
        let count = count_u32 as usize;
        if (hs as u64) + 4 * (count as u64) > sz as u64 {
            return Err(Error::CorruptData("entry offset table exceeds chunk".to_owned()));
        }
        let entries_offset = read_u32(d, 16);
        let config = Configuration::read(d, 20);
        let ghost dv = cd.data@;
        let mut values: Vec<Option<ConfigAndValue>> = Vec::new();
        let mut i: usize = 0;
        while i < count
            invariant
                i <= count,
                values@.len() == i,
                forall|j: int| 0 <= j < i ==> type_slot_absent(dv, j) || slot_ok(dv, j),
                forall|j: int|
                    0 <= j < i ==> slot_view(#[trigger] values@[j]) == spec_type_slots(dv)[j],
            decreases count - i,
        {
            let rel = read_u32(d, hs + 4 * i);
            if rel == 0xffff_ffff {
                values.push(None);
            } else {
                let pos64: u64 = entries_offset as u64 + rel as u64;
                proof {
                    assert(type_entry_pos(dv, i as int) == pos64 as int);
                }
                if pos64 + 8 > sz as u64 {
                    proof {
                        assert(!slot_ok(dv, i as int));
                    }
                    return Err(Error::CorruptData("entry outside chunk".to_owned()));
                }
                let p = pos64 as usize;
                let entry = Entry::read(d, p);
                let esize = entry.size.value() as usize;
                if entry.flags.value() & 0x01 == 0 {
                    if (p as u64) + (esize as u64) + 8 > sz as u64 {
                        proof {
                            assert(!slot_ok(dv, i as int));
                        }
                        return Err(Error::CorruptData("entry value outside chunk".to_owned()));
                    }
                    let value = Value::read(d, p + esize);
                    values.push(Some(ConfigAndValue(config, LoadedValue::Single(entry, value))));
                } else {
                    if (p as u64) + 16 > sz as u64 {
                        proof {
                            assert(!slot_ok(dv, i as int));
                        }
                        return Err(Error::CorruptData("map entry outside chunk".to_owned()));
                    }
                    let map_entry = MapEntry::read(d, p);
                    let cnt = map_entry.count.value();
                    if (p as u64) + (esize as u64) + 12 * (cnt as u64) > sz as u64 {
                        proof {
                            assert(!slot_ok(dv, i as int));
                        }
                        return Err(Error::CorruptData("map values outside chunk".to_owned()));
                    }
                    let mut kvs: Vec<KeyAndValue> = Vec::new();
                    let mut j: usize = 0;
                    while j < cnt as usize
                        invariant
                            j <= cnt,
                            kvs@.len() == j,
                            forall|k: int|
                                0 <= k < j ==> kvs@[k] == spec_key_value(
                                    dv,
                                    p + esize + 12 * k,
                                ),
                        decreases cnt - j,
                    {
                        kvs.push(KeyAndValue::read(d, p + esize + 12 * j));
                        j = j + 1;
                    }
                    proof {
                        assert(kvs@ =~= Seq::new(
                            le32(dv, p + 12) as nat,
                            |k: int| spec_key_value(dv, p + le16(dv, p as int) + 12 * k),
                        ));
                    }
                    values.push(
                        Some(ConfigAndValue(config, LoadedValue::Complex(map_entry, kvs))),
                    );
                }
            }
            i = i + 1;
        }
        proof {
            assert(values@.map_values(|o: Option<ConfigAndValue>| slot_view(o)) =~= spec_type_slots(
                dv,
            ));
        }
        Ok(values)
    }
}


impl Clone for LoadedValue {
    /// A deep copy with the same abstract value.
    fn clone(&self) -> (r: LoadedValue)
        ensures
            r@ == self@,
    {
        match self {
            LoadedValue::Single(e, v) => LoadedValue::Single(*e, *v),
            LoadedValue::Complex(m, kvs) => {
                let mut out: Vec<KeyAndValue> = Vec::new();
                let mut j: usize = 0;
                while j < kvs.len()
                    invariant
                        j <= kvs@.len(),
                        out@.len() == j,
                        forall|k: int| 0 <= k < j ==> out@[k] == kvs@[k],
                    decreases kvs@.len() - j,
                {
                    out.push(kvs[j]);
                    j = j + 1;
                }
                proof {
                    assert(out@ =~= kvs@);
                }
                LoadedValue::Complex(*m, out)
            },
        }
    }
}

impl Clone for ConfigAndValue {
    /// A deep copy with the same abstract value.
    fn clone(&self) -> (r: ConfigAndValue)
        ensures
            r@ == self@,
    {
        ConfigAndValue(self.0, self.1.clone())
    }
}

/// The longest zero-free prefix of `s`: the characters of a
/// zero-terminated fixed-width name field.
pub open spec fn take_until_zero(s: Seq<u16>) -> Seq<u16>
    decreases s.len(),
{
    if s.len() == 0 {
        s
    } else if s[0] == 0 {
        Seq::empty()
    } else {
        seq![s[0]] + take_until_zero(s.drop_first())
    }
}

/// If the first `k` units are nonzero and unit `k` (if any) is zero, the
/// zero-free prefix is exactly the first `k` units.
proof fn lemma_take_until_zero(s: Seq<u16>, k: int)
    requires
        0 <= k <= s.len(),
        forall|j: int| 0 <= j < k ==> s[j] != 0,
        k < s.len() ==> s[k] == 0,
    ensures
        take_until_zero(s) == s.take(k),
    decreases s.len(),
{
    if s.len() == 0 {
        assert(s.take(0) =~= s);
    } else if k == 0 {
        assert(s.take(0) =~= Seq::<u16>::empty());
    } else {
        lemma_take_until_zero(s.drop_first(), k - 1);
        assert(s.take(k) =~= seq![s[0]] + s.drop_first().take(k - 1));
    }
}

/// The 16-bit units of a Package chunk's name field, up to its zero
/// terminator.
pub open spec fn package_name_units(d: Seq<u8>) -> Seq<u16> {
    take_until_zero(Seq::new(128, |j: int| le16(d, 12 + 2 * j)))
}

/// The decoded name of a Package chunk.
pub open spec fn spec_package_name(d: Seq<u8>) -> Seq<char> {
    utf16_lossy_of(package_name_units(d))
}

/// The key index an entry draws its name from: the `key_index` field of
/// its first configuration variant's entry record.
pub open spec fn cav_key(cv: ConfigAndValueV) -> int {
    match cv.value {
        LoadedValueV::Single(e, _) => e.key_index@ as int,
        LoadedValueV::Complex(m, _) => m.entry.key_index@ as int,
    }
}


/// Whether some Type chunk among the walk items carries the id of `t`.
pub open spec fn type_has_source(
    d: Seq<u8>,
    items: Seq<Option<(ChunkType, int, int)>>,
    t: TypeV,
) -> bool {
    exists|j: int|
        0 <= j < items.len() && (#[trigger] walk_item_is_type(items, j)) && walk_item_type_id(
            d,
            items,
            j,
        ) == t.id
}

/// Whether each of `types` carries the type id of some Type chunk among
/// the walk items.
pub open spec fn types_from_children(
    d: Seq<u8>,
    items: Seq<Option<(ChunkType, int, int)>>,
    types: Seq<TypeV>,
) -> bool {
    forall|a: int| 0 <= a < types.len() ==> type_has_source(d, items, #[trigger] types[a])
}

/// A witness list turns into the existential form of
/// `types_from_children`.
proof fn lemma_types_from_children(
    d: Seq<u8>,
    items: Seq<Option<(ChunkType, int, int)>>,
    types: Seq<TypeV>,
    wit: Seq<int>,
)
    requires
        wit.len() == types.len(),
        forall|a: int|
            0 <= a < types.len() ==> 0 <= #[trigger] wit[a] < items.len() && walk_item_is_type(
                items,
                wit[a],
            ) && walk_item_type_id(d, items, wit[a]) == types[a].id,
    ensures
        types_from_children(d, items, types),
{
    assert forall|a: int| 0 <= a < types.len() implies type_has_source(
        d,
        items,
        #[trigger] types[a],
    ) by {
        assert(walk_item_is_type(items, wit[a]));
        assert(type_has_source(d, items, types[a]));
    }
}


/// Whether every item of a walk is a chunk: the walk covered its range
/// exactly, with no error item.
pub open spec fn walk_clean(items: Seq<Option<(ChunkType, int, int)>>) -> bool {
    forall|j: int| 0 <= j < items.len() ==> (#[trigger] items[j]) is Some
}

/// The kind of chunk item `j` (immaterial for an error item).
pub open spec fn walk_item_kind(items: Seq<Option<(ChunkType, int, int)>>, j: int) -> ChunkType {
    match items[j] {
        Some((t, off, sz)) => t,
        None => ChunkType::Null,
    }
}

/// The bytes of chunk item `j`: its exact `[start, start + size)` range.
pub open spec fn walk_item_data(
    d: Seq<u8>,
    items: Seq<Option<(ChunkType, int, int)>>,
    j: int,
) -> Seq<u8> {
    match items[j] {
        Some((t, off, sz)) => d.subrange(off, off + sz),
        None => Seq::empty(),
    }
}

/// The chunk-relative start offset of item `j`.
pub open spec fn walk_item_off(items: Seq<Option<(ChunkType, int, int)>>, j: int) -> int {
    match items[j] {
        Some((t, off, sz)) => off,
        None => 0,
    }
}

/// How many items are StringPool chunks starting at offset `at`.
pub open spec fn count_pools_at(items: Seq<Option<(ChunkType, int, int)>>, at: u32) -> int
    decreases items.len(),
{
    if items.len() == 0 {
        0
    } else {
        (match items[0] {
            Some((t, off, sz)) => if t == ChunkType::StringPool && off == at {
                1int
            } else {
                0int
            },
            None => 0int,
        }) + count_pools_at(items.drop_first(), at)
    }
}

/// Appending one item adds its contribution to the count.
proof fn lemma_count_pools_at_push(
    items: Seq<Option<(ChunkType, int, int)>>,
    x: Option<(ChunkType, int, int)>,
    at: u32,
)
    ensures
        count_pools_at(items.push(x), at) == count_pools_at(items, at) + (match x {
            Some((t, off, sz)) => if t == ChunkType::StringPool && off == at {
                1int
            } else {
                0int
            },
            None => 0int,
        }),
    decreases items.len(),
{
    if items.len() == 0 {
        assert(items.push(x).drop_first() =~= items);
    } else {
        assert(items.push(x).drop_first() =~= items.drop_first().push(x));
        lemma_count_pools_at_push(items.drop_first(), x, at);
    }
}

/// A prefix never counts more than the whole.
proof fn lemma_count_pools_at_prefix(
    items: Seq<Option<(ChunkType, int, int)>>,
    k: int,
    at: u32,
)
    requires
        0 <= k <= items.len(),
    ensures
        count_pools_at(items, at) >= count_pools_at(items.take(k), at),
        count_pools_at(items, at) >= 0,
    decreases items.len() - k,
{
    if k == items.len() {
        assert(items.take(k) =~= items);
        lemma_count_pools_at_nonneg(items, at);
    } else {
        assert(items.take(k + 1) =~= items.take(k).push(items[k]));
        lemma_count_pools_at_push(items.take(k), items[k], at);
        lemma_count_pools_at_prefix(items, k + 1, at);
    }
}

/// The count is never negative.
proof fn lemma_count_pools_at_nonneg(items: Seq<Option<(ChunkType, int, int)>>, at: u32)
    ensures
        count_pools_at(items, at) >= 0,
    decreases items.len(),
{
    if items.len() > 0 {
        lemma_count_pools_at_nonneg(items.drop_first(), at);
    }
}

/// The bytes of the first StringPool item starting at offset `at`; empty
/// when there is none.
pub open spec fn pool_data_at(
    d: Seq<u8>,
    items: Seq<Option<(ChunkType, int, int)>>,
    at: u32,
) -> Seq<u8>
    decreases items.len(),
{
    if items.len() == 0 {
        Seq::empty()
    } else {
        match items[0] {
            Some((t, off, sz)) => if t == ChunkType::StringPool && off == at {
                d.subrange(off, off + sz)
            } else {
                pool_data_at(d, items.drop_first(), at)
            },
            None => pool_data_at(d, items.drop_first(), at),
        }
    }
}

/// Once a pool at `at` sits in the prefix, appending items never changes
/// which one is first; before that, an appended pool at `at` becomes it.
proof fn lemma_pool_data_at_push(
    d: Seq<u8>,
    items: Seq<Option<(ChunkType, int, int)>>,
    x: Option<(ChunkType, int, int)>,
    at: u32,
)
    ensures
        count_pools_at(items, at) > 0 ==> pool_data_at(d, items.push(x), at) == pool_data_at(
            d,
            items,
            at,
        ),
        count_pools_at(items, at) == 0 ==> pool_data_at(d, items.push(x), at) == (match x {
            Some((t, off, sz)) => if t == ChunkType::StringPool && off == at {
                d.subrange(off, off + sz)
            } else {
                Seq::empty()
            },
            None => Seq::<u8>::empty(),
        }),
    decreases items.len(),
{
    lemma_count_pools_at_nonneg(items, at);
    if items.len() == 0 {
        assert(items.push(x).drop_first() =~= items);
        assert(items.push(x)[0] == x);
        assert(pool_data_at(d, items, at) == Seq::<u8>::empty());
        assert(count_pools_at(items, at) == 0);
    } else {
        assert(items.push(x).drop_first() =~= items.drop_first().push(x));
        assert(items.push(x)[0] == items[0]);
        lemma_count_pools_at_nonneg(items.drop_first(), at);
        lemma_pool_data_at_push(d, items.drop_first(), x, at);
    }
}

/// The bytes of the `a`-th Package chunk item, in walk order.
pub open spec fn nth_package_data(
    d: Seq<u8>,
    items: Seq<Option<(ChunkType, int, int)>>,
    a: int,
) -> Seq<u8>
    decreases items.len(),
{
    if items.len() == 0 {
        Seq::empty()
    } else {
        match items[0] {
            Some((t, off, sz)) => if t == ChunkType::Package {
                if a == 0 {
                    d.subrange(off, off + sz)
                } else {
                    nth_package_data(d, items.drop_first(), a - 1)
                }
            } else {
                nth_package_data(d, items.drop_first(), a)
            },
            None => nth_package_data(d, items.drop_first(), a),
        }
    }
}

/// Appending one item leaves the first `count` package positions alone;
/// an appended Package chunk becomes position `count`.
proof fn lemma_nth_package_data_push(
    d: Seq<u8>,
    items: Seq<Option<(ChunkType, int, int)>>,
    x: Option<(ChunkType, int, int)>,
    a: int,
)
    ensures
        0 <= a < count_kind(items, ChunkType::Package) ==> nth_package_data(d, items.push(x), a)
            == nth_package_data(d, items, a),
        a == count_kind(items, ChunkType::Package) ==> nth_package_data(d, items.push(x), a)
            == (match x {
            Some((t, off, sz)) => if t == ChunkType::Package {
                d.subrange(off, off + sz)
            } else {
                Seq::empty()
            },
            None => Seq::<u8>::empty(),
        }),
    decreases items.len(),
{
    lemma_count_kind_nonneg(items, ChunkType::Package);
    if items.len() == 0 {
        assert(items.push(x).drop_first() =~= items);
        assert(items.push(x)[0] == x);
        assert(nth_package_data(d, items, 0) == Seq::<u8>::empty());
        assert(count_kind(items, ChunkType::Package) == 0);
    } else {
        assert(items.push(x).drop_first() =~= items.drop_first().push(x));
        assert(items.push(x)[0] == items[0]);
        lemma_count_kind_nonneg(items.drop_first(), ChunkType::Package);
        let a2: int = match items[0] {
            Some((t, off, sz)) => if t == ChunkType::Package {
                a - 1
            } else {
                a
            },
            None => a,
        };
        lemma_nth_package_data_push(d, items.drop_first(), x, a2);
    }
}

/// A prefix never counts more of a kind than the whole.
proof fn lemma_count_kind_prefix(items: Seq<Option<(ChunkType, int, int)>>, k: int, t: ChunkType)
    requires
        0 <= k <= items.len(),
    ensures
        count_kind(items, t) >= count_kind(items.take(k), t),
        count_kind(items, t) >= 0,
    decreases items.len() - k,
{
    if k == items.len() {
        assert(items.take(k) =~= items);
        lemma_count_kind_nonneg(items, t);
    } else {
        assert(items.take(k + 1) =~= items.take(k).push(items[k]));
        lemma_count_kind_push(items.take(k), items[k], t);
        lemma_count_kind_prefix(items, k + 1, t);
    }
}

/// The count of a kind is never negative.
proof fn lemma_count_kind_nonneg(items: Seq<Option<(ChunkType, int, int)>>, t: ChunkType)
    ensures
        count_kind(items, t) >= 0,
    decreases items.len(),
{
    if items.len() > 0 {
        lemma_count_kind_nonneg(items.drop_first(), t);
    }
}

/// The entry count declared by the Type chunk at item `j`.
pub open spec fn walk_item_entry_count(
    d: Seq<u8>,
    items: Seq<Option<(ChunkType, int, int)>>,
    j: int,
) -> int {
    le32(walk_item_data(d, items, j), 12) as int
}

/// The slot arrays contributed by the Type chunks of id `t`, in walk
/// order: one decoded slot array per configuration variant.
pub open spec fn slots_of_id(
    d: Seq<u8>,
    items: Seq<Option<(ChunkType, int, int)>>,
    t: u8,
) -> Seq<Seq<Option<ConfigAndValueV>>>
    decreases items.len(),
{
    if items.len() == 0 {
        Seq::empty()
    } else {
        (match items[0] {
            Some((k, off, sz)) => if k == ChunkType::Type && d.subrange(off, off + sz)[8] == t {
                seq![spec_type_slots(d.subrange(off, off + sz))]
            } else {
                Seq::empty()
            },
            None => Seq::empty(),
        }) + slots_of_id(d, items.drop_first(), t)
    }
}

/// Appending one item appends its slot array when it is a Type chunk of
/// id `t`, and nothing otherwise.
proof fn lemma_slots_of_id_push(
    d: Seq<u8>,
    items: Seq<Option<(ChunkType, int, int)>>,
    x: Option<(ChunkType, int, int)>,
    t: u8,
)
    ensures
        slots_of_id(d, items.push(x), t) == slots_of_id(d, items, t) + (match x {
            Some((k, off, sz)) => if k == ChunkType::Type && d.subrange(off, off + sz)[8] == t {
                seq![spec_type_slots(d.subrange(off, off + sz))]
            } else {
                Seq::empty()
            },
            None => Seq::empty(),
        }),
    decreases items.len(),
{
    if items.len() == 0 {
        assert(items.push(x).drop_first() =~= items);
        assert(slots_of_id(d, items.push(x), t) =~= slots_of_id(d, items, t) + (match x {
            Some((k, off, sz)) => if k == ChunkType::Type && d.subrange(off, off + sz)[8] == t {
                seq![spec_type_slots(d.subrange(off, off + sz))]
            } else {
                Seq::empty()
            },
            None => Seq::empty(),
        }));
    } else {
        assert(items.push(x).drop_first() =~= items.drop_first().push(x));
        lemma_slots_of_id_push(d, items.drop_first(), x, t);
        assert(slots_of_id(d, items.push(x), t) =~= slots_of_id(d, items, t) + (match x {
            Some((k, off, sz)) => if k == ChunkType::Type && d.subrange(off, off + sz)[8] == t {
                seq![spec_type_slots(d.subrange(off, off + sz))]
            } else {
                Seq::empty()
            },
            None => Seq::empty(),
        }));
    }
}

/// A prefix of the walk contributes a prefix of the slot arrays.
proof fn lemma_slots_of_id_prefix(
    d: Seq<u8>,
    items: Seq<Option<(ChunkType, int, int)>>,
    k: int,
    t: u8,
)
    requires
        0 <= k <= items.len(),
    ensures
        slots_of_id(d, items, t).len() >= slots_of_id(d, items.take(k), t).len(),
        forall|a: int|
            0 <= a < slots_of_id(d, items.take(k), t).len() ==> #[trigger] slots_of_id(
                d,
                items,
                t,
            )[a] == slots_of_id(d, items.take(k), t)[a],
    decreases items.len() - k,
{
    if k == items.len() {
        assert(items.take(k) =~= items);
    } else {
        assert(items.take(k + 1) =~= items.take(k).push(items[k]));
        lemma_slots_of_id_push(d, items.take(k), items[k], t);
        lemma_slots_of_id_prefix(d, items, k + 1, t);
    }
}

/// The abstract views of a group's collected slot arrays.
pub open spec fn variants_views(v: Seq<Vec<Option<ConfigAndValue>>>) -> Seq<
    Seq<Option<ConfigAndValueV>>,
> {
    v.map_values(
        |vv: Vec<Option<ConfigAndValue>>| vv@.map_values(|o: Option<ConfigAndValue>| slot_view(o)),
    )
}

/// The `(configuration, value)` variants that provide slot `i`, drawn
/// from each slot array that has slot `i` present, in order.
pub open spec fn present_variants(
    slotss: Seq<Seq<Option<ConfigAndValueV>>>,
    i: int,
) -> Seq<ConfigAndValueV>
    decreases slotss.len(),
{
    if slotss.len() == 0 {
        Seq::empty()
    } else {
        (match slotss[0][i] {
            Some(cv) => seq![cv],
            None => Seq::empty(),
        }) + present_variants(slotss.drop_first(), i)
    }
}

/// Appending one slot array appends its slot-`i` value when present.
proof fn lemma_present_variants_push(
    slotss: Seq<Seq<Option<ConfigAndValueV>>>,
    x: Seq<Option<ConfigAndValueV>>,
    i: int,
)
    ensures
        present_variants(slotss.push(x), i) == present_variants(slotss, i) + (match x[i] {
            Some(cv) => seq![cv],
            None => Seq::empty(),
        }),
    decreases slotss.len(),
{
    if slotss.len() == 0 {
        assert(slotss.push(x).drop_first() =~= slotss);
        assert(present_variants(slotss.push(x), i) =~= present_variants(slotss, i) + (match x[i] {
            Some(cv) => seq![cv],
            None => Seq::empty(),
        }));
    } else {
        assert(slotss.push(x).drop_first() =~= slotss.drop_first().push(x));
        lemma_present_variants_push(slotss.drop_first(), x, i);
        assert(present_variants(slotss.push(x), i) =~= present_variants(slotss, i) + (match x[i] {
            Some(cv) => seq![cv],
            None => Seq::empty(),
        }));
    }
}

/// Whether every walk item is a chunk of a kind a Package may contain.
pub open spec fn package_kinds_ok(items: Seq<Option<(ChunkType, int, int)>>) -> bool {
    forall|j: int|
        0 <= j < items.len() ==> (#[trigger] walk_item_kind(items, j)) == ChunkType::StringPool
            || walk_item_kind(items, j) == ChunkType::Spec || walk_item_kind(items, j)
            == ChunkType::Type
}

/// Whether every walk item is a chunk of a kind the Table may contain.
pub open spec fn table_kinds_ok(items: Seq<Option<(ChunkType, int, int)>>) -> bool {
    forall|j: int|
        0 <= j < items.len() ==> (#[trigger] walk_item_kind(items, j)) == ChunkType::StringPool
            || walk_item_kind(items, j) == ChunkType::Package
}

/// Well-formedness of one Package chunk with bytes `d`: the fixed header
/// fits, the children walk cleanly into StringPool, Spec and Type chunks
/// only, exactly one pool sits at each of the two declared offsets, every
/// child is well-formed in itself, type ids are nonzero and name a type
/// pool entry, same-id Type chunks agree on their entry count, and every
/// provided entry slot draws its key from inside the name pool.
#[verifier::opaque]
pub open spec fn package_chunk_wf(d: Seq<u8>) -> bool {
    let items = walk(d, le16(d, 2) as int);
    let toff = le32(d, 268);
    let noff = le32(d, 276);
    let tp = pool_data_at(d, items, toff);
    let np = pool_data_at(d, items, noff);
    &&& d.len() >= 284
    &&& le16(d, 2) <= d.len()
    &&& walk_clean(items)
    &&& package_kinds_ok(items)
    &&& toff != noff
    &&& forall|j: int|
        0 <= j < items.len() && (#[trigger] walk_item_kind(items, j)) == ChunkType::StringPool
            ==> walk_item_off(items, j) == toff || walk_item_off(items, j) == noff
    &&& count_pools_at(items, toff) == 1
    &&& count_pools_at(items, noff) == 1
    &&& forall|j: int|
        0 <= j < items.len() && (#[trigger] walk_item_kind(items, j)) == ChunkType::StringPool
            ==> pool_wf(walk_item_data(d, items, j))
    &&& forall|j: int|
        0 <= j < items.len() && (#[trigger] walk_item_kind(items, j)) == ChunkType::Spec
            ==> spec_chunk_wf(walk_item_data(d, items, j))
    &&& forall|j: int|
        0 <= j < items.len() && (#[trigger] walk_item_kind(items, j)) == ChunkType::Type
            ==> type_chunk_wf(walk_item_data(d, items, j)) && walk_item_data(d, items, j)[8]
            != 0 && (walk_item_data(d, items, j)[8] as int) <= pool_count(tp)
    &&& forall|t: u8, a: int, b: int|
        0 <= a < b < slots_of_id(d, items, t).len() ==> (#[trigger] slots_of_id(d, items, t)[a]).len()
            == (#[trigger] slots_of_id(d, items, t)[b]).len()
    &&& forall|t: u8, i: int|
        (slots_of_id(d, items, t).len() > 0 && 0 <= i < slots_of_id(d, items, t)[0].len() && (
        #[trigger] present_variants(slots_of_id(d, items, t), i)).len() > 0) ==> 0 <= cav_key(
            present_variants(slots_of_id(d, items, t), i)[0],
        ) < pool_count(np)
}

/// The model one well-formed Package chunk loads to: the exact id and
/// decoded name, the two pools' decoded content, and per type the exact
/// entry set: one entry per slot some configuration provides, its id the
/// slot index, its variants the providing configurations' values in chunk
/// order, its name the name-pool entry at its first variant's key.
#[verifier::opaque]
pub open spec fn package_model_ok(d: Seq<u8>, p: PackageV) -> bool {
    let items = walk(d, le16(d, 2) as int);
    &&& p.id == le32(d, 8) as u8
    &&& p.name == spec_package_name(d)
    &&& package_wf(p)
    &&& p.type_strings == spec_pool(pool_data_at(d, items, le32(d, 268)))
    &&& p.name_strings == spec_pool(pool_data_at(d, items, le32(d, 276)))
    &&& types_from_children(d, items, p.types)
    &&& children_have_types(d, items, p.types)
    &&& forall|a: int|
        0 <= a < p.types.len() ==> entries_assembled(
            slots_of_id(d, items, (#[trigger] p.types[a]).id),
            p.name_strings,
            p.types[a].entries,
        )
}

/// Well-formedness of the root Table chunk with bytes `d`: the fixed
/// header fits, the children walk cleanly into exactly one well-formed
/// value StringPool and well-formed Package chunks whose number matches
/// the declared package count.
#[verifier::opaque]
pub open spec fn table_chunk_ok_except_kinds(d: Seq<u8>) -> bool {
    let items = walk(d, le16(d, 2) as int);
    &&& d.len() >= 12
    &&& le16(d, 2) <= d.len()
    &&& walk_clean(items)
    &&& count_kind(items, ChunkType::StringPool) == 1
    &&& forall|j: int|
        0 <= j < items.len() && (#[trigger] walk_item_kind(items, j)) == ChunkType::StringPool
            ==> pool_wf(walk_item_data(d, items, j))
    &&& forall|j: int|
        0 <= j < items.len() && (#[trigger] walk_item_kind(items, j)) == ChunkType::Package
            ==> package_chunk_wf(walk_item_data(d, items, j))
    &&& count_kind(items, ChunkType::Package) == le32(d, 8)
}

/// Well-formedness of the root Table chunk: its children are StringPool
/// and Package chunks only, and everything else about it is in order.
pub open spec fn table_chunk_ok(d: Seq<u8>) -> bool {
    &&& table_chunk_ok_except_kinds(d)
    &&& table_kinds_ok(walk(d, le16(d, 2) as int))
}

/// Well-formedness of a whole input: its walk is exactly one Table chunk
/// spanning the input, and that chunk is well-formed.
pub open spec fn table_input_wf(bytes: Seq<u8>) -> bool {
    &&& walk(bytes, 0).len() == 1
    &&& (walk(bytes, 0)[0] matches Some((t, off, sz)) && t == ChunkType::Table && off == 0 && sz
        == bytes.len())
    &&& table_chunk_ok(bytes)
}

/// The bytes of the single value StringPool child of a Table chunk.
pub open spec fn value_pool_data(d: Seq<u8>) -> Seq<u8>
{
    let items = walk(d, le16(d, 2) as int);
    pool_data_at_any(d, items)
}

/// The bytes of the first StringPool item, at any offset.
pub open spec fn pool_data_at_any(
    d: Seq<u8>,
    items: Seq<Option<(ChunkType, int, int)>>,
) -> Seq<u8>
    decreases items.len(),
{
    if items.len() == 0 {
        Seq::empty()
    } else {
        match items[0] {
            Some((t, off, sz)) => if t == ChunkType::StringPool {
                d.subrange(off, off + sz)
            } else {
                pool_data_at_any(d, items.drop_first())
            },
            None => pool_data_at_any(d, items.drop_first()),
        }
    }
}

/// Once a pool sits in the prefix, appending items never changes which
/// one is first; before that, an appended pool becomes it.
proof fn lemma_pool_data_at_any_push(
    d: Seq<u8>,
    items: Seq<Option<(ChunkType, int, int)>>,
    x: Option<(ChunkType, int, int)>,
)
    ensures
        count_kind(items, ChunkType::StringPool) > 0 ==> pool_data_at_any(d, items.push(x))
            == pool_data_at_any(d, items),
        count_kind(items, ChunkType::StringPool) == 0 ==> pool_data_at_any(d, items.push(x))
            == (match x {
            Some((t, off, sz)) => if t == ChunkType::StringPool {
                d.subrange(off, off + sz)
            } else {
                Seq::empty()
            },
            None => Seq::<u8>::empty(),
        }),
    decreases items.len(),
{
    lemma_count_kind_nonneg(items, ChunkType::StringPool);
    if items.len() == 0 {
        assert(items.push(x).drop_first() =~= items);
        assert(items.push(x)[0] == x);
        assert(pool_data_at_any(d, items) == Seq::<u8>::empty());
        assert(count_kind(items, ChunkType::StringPool) == 0);
    } else {
        assert(items.push(x).drop_first() =~= items.drop_first().push(x));
        assert(items.push(x)[0] == items[0]);
        lemma_count_kind_nonneg(items.drop_first(), ChunkType::StringPool);
        lemma_pool_data_at_any_push(d, items.drop_first(), x);
    }
}

/// Whether one of `types` carries the id `id`.
pub open spec fn some_type_has_id(types: Seq<TypeV>, id: u8) -> bool {
    exists|a: int| 0 <= a < types.len() && (#[trigger] types[a]).id == id
}

/// Whether every Type chunk among the walk items contributed its id to
/// `types`: no Type child is dropped.
pub open spec fn children_have_types(
    d: Seq<u8>,
    items: Seq<Option<(ChunkType, int, int)>>,
    types: Seq<TypeV>,
) -> bool {
    forall|j: int|
        0 <= j < items.len() && #[trigger] walk_item_is_type(items, j) ==> some_type_has_id(
            types,
            walk_item_type_id(d, items, j),
        )
}

/// Whether walk item `j` is a chunk of kind `Type`.
pub open spec fn walk_item_is_type(items: Seq<Option<(ChunkType, int, int)>>, j: int) -> bool {
    items[j] matches Some((t, off, sz)) && t == ChunkType::Type
}

/// The type id carried by walk item `j` (a Type chunk): the byte right
/// after its chunk header.
pub open spec fn walk_item_type_id(
    d: Seq<u8>,
    items: Seq<Option<(ChunkType, int, int)>>,
    j: int,
) -> u8 {
    walk_item_data(d, items, j)[8]
}

/// How many items of a walk are chunks of kind `t`.
pub open spec fn count_kind(items: Seq<Option<(ChunkType, int, int)>>, t: ChunkType) -> int
    decreases items.len(),
{
    if items.len() == 0 {
        0
    } else {
        (match items[0] {
            Some((t0, off, sz)) => if t0 == t {
                1int
            } else {
                0int
            },
            None => 0int,
        }) + count_kind(items.drop_first(), t)
    }
}

/// Appending one item adds its kind to the count.
proof fn lemma_count_kind_push(
    items: Seq<Option<(ChunkType, int, int)>>,
    x: Option<(ChunkType, int, int)>,
    t: ChunkType,
)
    ensures
        count_kind(items.push(x), t) == count_kind(items, t) + (match x {
            Some((t0, off, sz)) => if t0 == t {
                1int
            } else {
                0int
            },
            None => 0int,
        }),
    decreases items.len(),
{
    if items.len() == 0 {
        assert(items.push(x).drop_first() =~= items);
    } else {
        assert(items.push(x).drop_first() =~= items.drop_first().push(x));
        lemma_count_kind_push(items.drop_first(), x, t);
    }
}

/// One type id's collected configuration variants during package parsing.
struct TypeGroup {
    id: u8,
    variants: Vec<Vec<Option<ConfigAndValue>>>,
}

/// Whether one of `groups` carries the id `id`.
spec fn some_group_has_id(groups: Seq<TypeGroup>, id: u8) -> bool {
    exists|a: int| 0 <= a < groups.len() && (#[trigger] groups[a]).id == id
}

/// Decodes a 128-unit zero-terminated name field.
#[verifier::loop_isolation(false)]
fn decode_name_field(field: &Vec<LittleEndianU16>) -> (r: String)
    requires
        field@.len() == 128,
    ensures
        r@ == utf16_lossy_of(take_until_zero(field@.map_values(|u: LittleEndianU16| u@))),
{
    let ghost full = field@.map_values(|u: LittleEndianU16| u@);
    let mut zlen: usize = 0;
    while zlen < 128 && field[zlen].value() != 0
        invariant
            zlen <= 128,
            field@.len() == 128,
            forall|k: int| 0 <= k < zlen ==> full[k] != 0,
        decreases 128 - zlen,
    {
        zlen = zlen + 1;
    }
    proof {
        lemma_take_until_zero(full, zlen as int);
    }
    let mut units: Vec<u16> = Vec::new();
    let mut j: usize = 0;
    while j < zlen
        invariant
            j <= zlen <= 128,
            field@.len() == 128,
            units@.len() == j,
            forall|k: int| 0 <= k < j ==> units@[k] == full[k],
        decreases zlen - j,
    {
        units.push(field[j].value());
        j = j + 1;
    }
    proof {
        assert(units@ =~= full.take(zlen as int));
    }
    decode_utf16_lossy(units.as_slice())
}

/// Success condition of the assembly: every group's type id names a
/// type-pool entry, and every provided slot's first variant draws its key
/// from inside the name pool.
spec fn assemble_ok(groups: Seq<TypeGroup>, ts: StringPoolV, ns: StringPoolV) -> bool {
    &&& forall|g: int|
        0 <= g < groups.len() ==> (#[trigger] groups[g]).id as int <= ts.strings.len()
    &&& forall|g: int, i: int|
        (0 <= g < groups.len() && 0 <= i < groups[g].variants@[0]@.len() && (
        #[trigger] present_variants(variants_views(groups[g].variants@), i)).len() > 0) ==> 0
            <= cav_key(present_variants(variants_views(groups[g].variants@), i)[0])
            < ns.strings.len()
}

/// The entry list of one loaded type is exactly the assembly of the slot
/// arrays `vv`: one entry per slot that at least one configuration
/// provides, its id the slot index, its variants the providing
/// configurations' values in order, its name the name-pool entry at its
/// first variant's key index.
pub open spec fn entries_assembled(
    vv: Seq<Seq<Option<ConfigAndValueV>>>,
    ns: StringPoolV,
    entries: Seq<EntryV>,
) -> bool {
    &&& vv.len() > 0
    &&& forall|i: int|
        0 <= i < vv[0].len() ==> ((#[trigger] present_variants(vv, i)).len() > 0 <==> exists|l: int|
            0 <= l < entries.len() && (#[trigger] entries[l]).id == i)
    &&& forall|l: int|
        0 <= l < entries.len() ==> {
            let en = #[trigger] entries[l];
            &&& en.id < vv[0].len()
            &&& present_variants(vv, en.id as int).len() > 0
            &&& en.values == present_variants(vv, en.id as int)
            &&& 0 <= cav_key(present_variants(vv, en.id as int)[0]) < ns.strings.len()
            &&& en.name == ns.strings[cav_key(present_variants(vv, en.id as int)[0])]
        }
}

/// Builds the loaded types from the grouped configuration variants: one
/// type per group, named after the type pool at `id - 1`, with one entry
/// per slot that at least one variant provides, named after the name pool
/// at the first variant's key index.  Succeeds exactly when every type id
/// names a type-pool entry and every provided slot's key lies inside the
/// name pool.
#[verifier::loop_isolation(false)]
#[verifier::rlimit(100)]
fn assemble_types(
    groups: &Vec<TypeGroup>,
    type_strings: &LoadedStringPool,
    name_strings: &LoadedStringPool,
) -> (r: Result<Vec<LoadedType>, Error>)
    requires
        forall|a: int| 0 <= a < groups@.len() ==> (#[trigger] groups@[a]).id >= 1,
        forall|a: int| 0 <= a < groups@.len() ==> (#[trigger] groups@[a]).variants@.len() > 0,
        forall|a: int, b: int|
            0 <= a < groups@.len() && 0 <= b < (#[trigger] groups@[a]).variants@.len()
                ==> (#[trigger] groups@[a].variants@[b])@.len() == groups@[a].variants@[0]@.len(),
        forall|a: int|
            0 <= a < groups@.len() ==> (#[trigger] groups@[a]).variants@[0]@.len() <= 0xffff,
    ensures
        r is Ok <==> assemble_ok(groups@, type_strings@, name_strings@),
        r matches Ok(types) ==> {
            &&& types@.len() == groups@.len()
            &&& forall|a: int| 0 <= a < types@.len() ==> (#[trigger] types@[a]).id == groups@[a].id
            &&& forall|a: int| 0 <= a < types@.len() ==> type_wf(#[trigger] types@[a]@)
            &&& forall|a: int|
                0 <= a < types@.len() ==> 1 <= (#[trigger] types@[a]@).id
                    <= type_strings@.strings.len() && types@[a]@.name
                    == type_strings@.strings[types@[a]@.id - 1]
            &&& forall|a: int|
                0 <= a < types@.len() ==> entries_assembled(
                    variants_views(groups@[a].variants@),
                    name_strings@,
                    (#[trigger] types@[a]@).entries,
                )
        },
        r is Err ==> r matches Err(Error::CorruptData(_)),
{
    let mut types: Vec<LoadedType> = Vec::new();
    let mut g: usize = 0;
    while g < groups.len()
        invariant
            g <= groups@.len(),
            types@.len() == g,
            forall|a: int| 0 <= a < g ==> (#[trigger] types@[a]).id == groups@[a].id,
            forall|a: int| 0 <= a < g ==> type_wf(#[trigger] types@[a]@),
            forall|a: int|
                0 <= a < g ==> 1 <= (#[trigger] types@[a]@).id <= type_strings@.strings.len()
                    && types@[a]@.name == type_strings@.strings[types@[a]@.id - 1],
            forall|a: int|
                0 <= a < g ==> entries_assembled(
                    variants_views(groups@[a].variants@),
                    name_strings@,
                    (#[trigger] types@[a]@).entries,
                ),
            forall|a: int|
                0 <= a < g ==> (#[trigger] groups@[a]).id as int <= type_strings@.strings.len(),
            forall|a: int, i: int|
                (0 <= a < g && 0 <= i < groups@[a].variants@[0]@.len() && (
                #[trigger] present_variants(variants_views(groups@[a].variants@), i)).len() > 0)
                    ==> 0 <= cav_key(
                    present_variants(variants_views(groups@[a].variants@), i)[0],
                ) < name_strings@.strings.len(),
        decreases groups@.len() - g,
    {
        let ghost vv = variants_views(groups@[g as int].variants@);
        let arity = groups[g].variants[0].len();
        let nvariants = groups[g].variants.len();
        let mut entries: Vec<LoadedEntry> = Vec::new();
        let mut i: usize = 0;
        while i < arity
            invariant
                i <= arity,
                arity <= 0xffff,
                g < groups@.len(),
                vv == variants_views(groups@[g as int].variants@),
                arity == groups@[g as int].variants@[0]@.len(),
                arity == vv[0].len(),
                vv.len() == groups@[g as int].variants@.len(),
                nvariants == groups@[g as int].variants@.len(),
                forall|a: int, b: int|
                    0 <= a < b < entries@.len() ==> (#[trigger] entries@[a]).id
                        < (#[trigger] entries@[b]).id,
                forall|a: int| 0 <= a < entries@.len() ==> (#[trigger] entries@[a]).id < i,
                forall|ii: int|
                    0 <= ii < i ==> ((#[trigger] present_variants(vv, ii)).len() > 0
                        <==> exists|l: int|
                        0 <= l < entries@.len() && (#[trigger] entries@[l]).id == ii),
                forall|l: int|
                    0 <= l < entries@.len() ==> {
                        let en = (#[trigger] entries@[l])@;
                        &&& en.id < arity
                        &&& present_variants(vv, en.id as int).len() > 0
                        &&& en.values == present_variants(vv, en.id as int)
                        &&& 0 <= cav_key(present_variants(vv, en.id as int)[0])
                            < name_strings@.strings.len()
                        &&& en.name == name_strings@.strings[cav_key(
                            present_variants(vv, en.id as int)[0],
                        )]
                    },
            decreases arity - i,
        {
            let mut vals: Vec<ConfigAndValue> = Vec::new();
            let mut v: usize = 0;
            proof {
                assert(vv.take(0) =~= Seq::<Seq<Option<ConfigAndValueV>>>::empty());
                assert(vals@.map_values(|cv: ConfigAndValue| cv@) =~= present_variants(
                    vv.take(0),
                    i as int,
                ));
            }
            while v < nvariants
                invariant
                    v <= nvariants,
                    i < arity,
                    g < groups@.len(),
                    vv == variants_views(groups@[g as int].variants@),
                    arity == groups@[g as int].variants@[0]@.len(),
                    vv.len() == groups@[g as int].variants@.len(),
                    nvariants == groups@[g as int].variants@.len(),
                    vals@.map_values(|cv: ConfigAndValue| cv@) == present_variants(
                        vv.take(v as int),
                        i as int,
                    ),
                decreases nvariants - v,
            {
                proof {
                    assert(vv.take(v + 1) =~= vv.take(v as int).push(vv[v as int]));
                    lemma_present_variants_push(vv.take(v as int), vv[v as int], i as int);
                    assert(vv[v as int] == groups@[g as int].variants@[v as int]@.map_values(
                        |o: Option<ConfigAndValue>| slot_view(o),
                    ));
                }
                match &groups[g].variants[v][i] {
                    Some(cv) => {
                        let copy = cv.clone();
                        vals.push(copy);
                        proof {
                            assert(vals@.map_values(|cv2: ConfigAndValue| cv2@) =~= present_variants(
                                vv.take(v + 1),
                                i as int,
                            ));
                        }
                    },
                    None => {
                        proof {
                            assert(vals@.map_values(|cv2: ConfigAndValue| cv2@) =~= present_variants(
                                vv.take(v + 1),
                                i as int,
                            ));
                        }
                    },
                }
                v = v + 1;
            }
            proof {
                assert(vv.take(nvariants as int) =~= vv);
            }
            let ghost pv_i = present_variants(vv, i as int);
            let ghost entries0 = entries@;
            proof {
                assert(pv_i.len() == vals@.map_values(|cv: ConfigAndValue| cv@).len());
                assert(pv_i.len() == vals@.len());
            }
            if vals.len() > 0 {
                let key = match &vals[0].1 {
                    LoadedValue::Single(e, _) => e.key_index.value(),
                    LoadedValue::Complex(m, _) => m.entry.key_index.value(),
                };
                proof {
                    assert(vals@.map_values(|cv: ConfigAndValue| cv@)[0] == vals@[0]@);
                    assert(cav_key(present_variants(vv, i as int)[0]) == key as int);
                }
                let ename = match name_strings.string_at(key as usize) {
                    Ok(s) => s,
                    Err(_) => {
                        proof {
                            assert(!assemble_ok(groups@, type_strings@, name_strings@));
                        }
                        return Err(Error::CorruptData(
                            "entry key outside name string pool".to_owned(),
                        ))
                    },
                };
                entries.push(LoadedEntry { id: i as u16, name: ename, values: vals });
            }
            proof {
                assert forall|ii: int|
                    0 <= ii < i + 1 implies ((#[trigger] present_variants(vv, ii)).len() > 0
                    <==> exists|l: int|
                    0 <= l < entries@.len() && (#[trigger] entries@[l]).id == ii) by {
                    if ii == i {
                        if pv_i.len() > 0 {
                            assert(entries@[entries@.len() - 1].id == ii);
                        } else {
                            if exists|l: int|
                                0 <= l < entries@.len() && (#[trigger] entries@[l]).id == ii {
                                let l1 = choose|l1: int|
                                    0 <= l1 < entries@.len() && (#[trigger] entries@[l1]).id
                                        == ii;
                                assert(entries@[l1].id < i);
                            }
                        }
                    } else {
                        if present_variants(vv, ii).len() > 0 {
                            let l0 = choose|l0: int|
                                0 <= l0 < entries0.len() && (#[trigger] entries0[l0]).id == ii;
                            assert(entries@[l0].id == ii);
                        }
                        if exists|l: int|
                            0 <= l < entries@.len() && (#[trigger] entries@[l]).id == ii {
                            let l1 = choose|l1: int|
                                0 <= l1 < entries@.len() && (#[trigger] entries@[l1]).id == ii;
                            if l1 < entries0.len() {
                                assert(entries0[l1].id == ii);
                            } else {
                                assert(entries@[l1].id == i);
                            }
                        }
                    }
                }
            }
            i = i + 1;
        }
        let id = groups[g].id;
        let tname = match type_strings.string_at((id - 1) as usize) {
            Ok(s) => s,
            Err(_) => {
                proof {
                    assert(!assemble_ok(groups@, type_strings@, name_strings@));
                }
                return Err(Error::CorruptData("type id outside type string pool".to_owned()))
            },
        };
        proof {
            let ev = entries@.map_values(|e: LoadedEntry| e@);
            assert forall|ii: int|
                0 <= ii < vv[0].len() implies ((#[trigger] present_variants(vv, ii)).len() > 0
                <==> (exists|l: int| 0 <= l < ev.len() && (#[trigger] ev[l]).id == ii)) by {
                if present_variants(vv, ii).len() > 0 {
                    let l0 = choose|l0: int|
                        0 <= l0 < entries@.len() && (#[trigger] entries@[l0]).id == ii;
                    assert(ev[l0].id == ii);
                }
                if exists|l: int| 0 <= l < ev.len() && (#[trigger] ev[l]).id == ii {
                    let l1 = choose|l1: int| 0 <= l1 < ev.len() && (#[trigger] ev[l1]).id == ii;
                    assert(entries@[l1].id == ii);
                    assert(present_variants(vv, ii).len() > 0);
                }
            }
            assert forall|l: int| 0 <= l < ev.len() implies {
                let en = #[trigger] ev[l];
                &&& en.id < vv[0].len()
                &&& present_variants(vv, en.id as int).len() > 0
                &&& en.values == present_variants(vv, en.id as int)
                &&& 0 <= cav_key(present_variants(vv, en.id as int)[0])
                    < name_strings@.strings.len()
                &&& en.name == name_strings@.strings[cav_key(
                    present_variants(vv, en.id as int)[0],
                )]
            } by {
                assert(ev[l] == entries@[l]@);
            }
            assert(entries_assembled(vv, name_strings@, ev));
        }
        types.push(LoadedType { id, name: tname, entries });
        g = g + 1;
    }
    Ok(types)
}


/// Shared hypotheses at the end of the package children loop: what the
/// loop invariants give about the collected groups, their witnesses, and
/// the two bound pools.
spec fn package_scan_done(
    d: Seq<u8>,
    items: Seq<Option<(ChunkType, int, int)>>,
    groups: Seq<TypeGroup>,
    wit: Seq<int>,
    tsv: StringPoolV,
    nsv: StringPoolV,
) -> bool {
    &&& items == walk(d, le16(d, 2) as int)
    &&& forall|a: int, b: int| 0 <= a < b < groups.len() ==> groups[a].id < groups[b].id
    &&& forall|a: int| 0 <= a < groups.len() ==> (#[trigger] groups[a]).id >= 1
    &&& forall|a: int| 0 <= a < groups.len() ==> (#[trigger] groups[a]).variants@.len() > 0
    &&& forall|a: int, b: int|
        0 <= a < groups.len() && 0 <= b < (#[trigger] groups[a]).variants@.len()
            ==> (#[trigger] groups[a].variants@[b])@.len() == groups[a].variants@[0]@.len()
    &&& wit.len() == groups.len()
    &&& forall|a: int|
        0 <= a < groups.len() ==> 0 <= #[trigger] wit[a] < items.len() && walk_item_is_type(
            items,
            wit[a],
        ) && walk_item_type_id(d, items, wit[a]) == groups[a].id
    &&& forall|j: int|
        0 <= j < items.len() && #[trigger] walk_item_is_type(items, j) ==> some_group_has_id(
            groups,
            walk_item_type_id(d, items, j),
        )
    &&& forall|a: int|
        0 <= a < groups.len() ==> variants_views((#[trigger] groups[a]).variants@)
            == slots_of_id(d, items, groups[a].id)
    &&& forall|t: u8|
        !some_group_has_id(groups, t) ==> #[trigger] slots_of_id(d, items, t) == Seq::<
            Seq<Option<ConfigAndValueV>>,
        >::empty()
    &&& tsv == spec_pool(pool_data_at(d, items, le32(d, 268)))
    &&& nsv == spec_pool(pool_data_at(d, items, le32(d, 276)))
}

/// The running state of the package children scan after `k` items: the
/// collected groups are sorted and uniform, each has a witness Type child,
/// every Type child seen so far contributed its id, and each group's
/// variants are exactly the slot arrays of its id's chunks seen so far.
spec fn scan_state_ok(
    d: Seq<u8>,
    items: Seq<Option<(ChunkType, int, int)>>,
    k: int,
    groups: Seq<TypeGroup>,
    wit: Seq<int>,
) -> bool {
    &&& forall|a: int, b: int| 0 <= a < b < groups.len() ==> groups[a].id < groups[b].id
    &&& forall|a: int| 0 <= a < groups.len() ==> (#[trigger] groups[a]).id >= 1
    &&& forall|a: int| 0 <= a < groups.len() ==> (#[trigger] groups[a]).variants@.len() > 0
    &&& forall|a: int, b: int|
        0 <= a < groups.len() && 0 <= b < (#[trigger] groups[a]).variants@.len()
            ==> (#[trigger] groups[a].variants@[b])@.len() == groups[a].variants@[0]@.len()
    &&& forall|a: int|
        0 <= a < groups.len() ==> (#[trigger] groups[a]).variants@[0]@.len() <= 0xffff
    &&& wit.len() == groups.len()
    &&& forall|a: int|
        0 <= a < groups.len() ==> 0 <= #[trigger] wit[a] < items.len() && walk_item_is_type(
            items,
            wit[a],
        ) && walk_item_type_id(d, items, wit[a]) == groups[a].id
    &&& forall|j: int|
        0 <= j < k && #[trigger] walk_item_is_type(items, j) ==> some_group_has_id(
            groups,
            walk_item_type_id(d, items, j),
        )
    &&& forall|a: int|
        0 <= a < groups.len() ==> variants_views((#[trigger] groups[a]).variants@)
            == slots_of_id(d, items.take(k), groups[a].id)
    &&& forall|t: u8|
        !some_group_has_id(groups, t) ==> #[trigger] slots_of_id(d, items.take(k), t) == Seq::<
            Seq<Option<ConfigAndValueV>>,
        >::empty()
}

/// When the children scanned cleanly but the assembly's success condition
/// fails, the chunk is not well-formed: the offending type id or entry
/// key violates the corresponding well-formedness conjunct.
proof fn lemma_package_assemble_err(
    d: Seq<u8>,
    items: Seq<Option<(ChunkType, int, int)>>,
    groups: Seq<TypeGroup>,
    wit: Seq<int>,
    tsv: StringPoolV,
    nsv: StringPoolV,
)
    requires
        package_scan_done(d, items, groups, wit, tsv, nsv),
        !assemble_ok(groups, tsv, nsv),
    ensures
        !package_chunk_wf(d),
{
    reveal(package_chunk_wf);
    reveal(spec_pool);
    let tp = pool_data_at(d, items, le32(d, 268));
    let np = pool_data_at(d, items, le32(d, 276));
    assert(tsv.strings.len() == pool_count(tp));
    assert(nsv.strings.len() == pool_count(np));
    if !(forall|g: int|
        0 <= g < groups.len() ==> (#[trigger] groups[g]).id as int <= tsv.strings.len()) {
        let g = choose|g: int|
            0 <= g < groups.len() && !((#[trigger] groups[g]).id as int <= tsv.strings.len());
        assert(walk_item_is_type(items, wit[g]));
        assert(walk_item_type_id(d, items, wit[g]) == groups[g].id);
        assert(walk_item_kind(items, wit[g]) == ChunkType::Type);
        assert(walk_item_data(d, items, wit[g])[8] == groups[g].id);
        assert(!package_chunk_wf(d));
    } else {
        let (g, i) = choose|g: int, i: int|
            0 <= g < groups.len() && 0 <= i < groups[g].variants@[0]@.len() && (
            #[trigger] present_variants(variants_views(groups[g].variants@), i)).len() > 0 && !(0
                <= cav_key(present_variants(variants_views(groups[g].variants@), i)[0])
                < nsv.strings.len());
        assert(variants_views(groups[g].variants@) == slots_of_id(d, items, groups[g].id));
        assert(slots_of_id(d, items, groups[g].id).len() > 0);
        assert(slots_of_id(d, items, groups[g].id)[0].len() == groups[g].variants@[0]@.len());
        assert(!package_chunk_wf(d));
    }
}

/// When the children scanned cleanly and the assembly succeeded, the
/// chunk is well-formed and the built package is exactly its model.
proof fn lemma_package_finish(
    d: Seq<u8>,
    items: Seq<Option<(ChunkType, int, int)>>,
    groups: Seq<TypeGroup>,
    wit: Seq<int>,
    p: PackageV,
)
    requires
        package_scan_done(d, items, groups, wit, p.type_strings, p.name_strings),
        d.len() >= 284,
        le16(d, 2) <= d.len(),
        walk_clean(items),
        package_kinds_ok(items),
        le32(d, 268) != le32(d, 276),
        forall|j: int|
            0 <= j < items.len() && (#[trigger] walk_item_kind(items, j))
                == ChunkType::StringPool ==> walk_item_off(items, j) == le32(d, 268)
                || walk_item_off(items, j) == le32(d, 276),
        count_pools_at(items, le32(d, 268)) == 1,
        count_pools_at(items, le32(d, 276)) == 1,
        forall|j: int|
            0 <= j < items.len() && (#[trigger] walk_item_kind(items, j))
                == ChunkType::StringPool ==> pool_wf(walk_item_data(d, items, j)),
        forall|j: int|
            0 <= j < items.len() && (#[trigger] walk_item_kind(items, j)) == ChunkType::Spec
                ==> spec_chunk_wf(walk_item_data(d, items, j)),
        forall|j: int|
            0 <= j < items.len() && (#[trigger] walk_item_kind(items, j)) == ChunkType::Type
                ==> type_chunk_wf(walk_item_data(d, items, j)) && walk_item_data(d, items, j)[8]
                != 0,
        assemble_ok(groups, p.type_strings, p.name_strings),
        p.id == le32(d, 8) as u8,
        p.name == spec_package_name(d),
        p.types.len() == groups.len(),
        forall|a: int| 0 <= a < p.types.len() ==> (#[trigger] p.types[a]).id == groups[a].id,
        forall|a: int| 0 <= a < p.types.len() ==> type_wf(#[trigger] p.types[a]),
        forall|a: int|
            0 <= a < p.types.len() ==> 1 <= (#[trigger] p.types[a]).id
                <= p.type_strings.strings.len() && p.types[a].name
                == p.type_strings.strings[p.types[a].id - 1],
        forall|a: int|
            0 <= a < p.types.len() ==> entries_assembled(
                variants_views(groups[a].variants@),
                p.name_strings,
                (#[trigger] p.types[a]).entries,
            ),
    ensures
        package_chunk_wf(d),
        package_model_ok(d, p),
        package_wf(p),
{
    reveal(package_chunk_wf);
    reveal(package_model_ok);
    reveal(spec_pool);
    let tp = pool_data_at(d, items, le32(d, 268));
    let np = pool_data_at(d, items, le32(d, 276));
    assert(p.type_strings.strings.len() == pool_count(tp));
    assert(p.name_strings.strings.len() == pool_count(np));
    assert forall|j: int|
        0 <= j < items.len() && (#[trigger] walk_item_kind(items, j)) == ChunkType::Type
        implies type_chunk_wf(walk_item_data(d, items, j)) && walk_item_data(d, items, j)[8]
        != 0 && (walk_item_data(d, items, j)[8] as int) <= pool_count(tp) by {
        assert(walk_item_is_type(items, j));
        assert(some_group_has_id(groups, walk_item_type_id(d, items, j)));
        let g = choose|g: int|
            0 <= g < groups.len() && (#[trigger] groups[g]).id == walk_item_type_id(d, items, j);
        assert(groups[g].id as int <= p.type_strings.strings.len());
    }
    assert forall|t: u8, a: int, b: int|
        0 <= a < b < slots_of_id(d, items, t).len() implies (#[trigger] slots_of_id(
        d,
        items,
        t,
    )[a]).len() == (#[trigger] slots_of_id(d, items, t)[b]).len() by {
        if some_group_has_id(groups, t) {
            let g = choose|g: int| 0 <= g < groups.len() && (#[trigger] groups[g]).id == t;
            assert(variants_views(groups[g].variants@) == slots_of_id(d, items, t));
            assert(slots_of_id(d, items, t)[a].len() == groups[g].variants@[a]@.len());
            assert(slots_of_id(d, items, t)[b].len() == groups[g].variants@[b]@.len());
        } else {
            assert(slots_of_id(d, items, t).len() == 0);
        }
    }
    assert forall|t: u8, i: int|
        (slots_of_id(d, items, t).len() > 0 && 0 <= i < slots_of_id(d, items, t)[0].len() && (
        #[trigger] present_variants(slots_of_id(d, items, t), i)).len() > 0) implies 0
        <= cav_key(present_variants(slots_of_id(d, items, t), i)[0]) < pool_count(np) by {
        if some_group_has_id(groups, t) {
            let g = choose|g: int| 0 <= g < groups.len() && (#[trigger] groups[g]).id == t;
            assert(variants_views(groups[g].variants@) == slots_of_id(d, items, t));
            assert(slots_of_id(d, items, t)[0].len() == groups[g].variants@[0]@.len());
        } else {
            assert(slots_of_id(d, items, t).len() == 0);
        }
    }
    assert(package_chunk_wf(d));
    assert(package_wf(p));
    assert forall|a: int|
        0 <= a < p.types.len() implies 0 <= #[trigger] wit[a] < items.len()
            && walk_item_is_type(items, wit[a]) && walk_item_type_id(d, items, wit[a])
            == p.types[a].id by {
        assert(p.types[a].id == groups[a].id);
    }
    lemma_types_from_children(d, items, p.types, wit);
    assert forall|id0: u8|
        some_group_has_id(groups, id0) implies some_type_has_id(p.types, id0) by {
        let a0 = choose|a0: int| 0 <= a0 < groups.len() && (#[trigger] groups[a0]).id == id0;
        assert(p.types[a0].id == groups[a0].id);
    }
    assert forall|j: int|
        0 <= j < items.len() && #[trigger] walk_item_is_type(items, j) implies some_type_has_id(
        p.types,
        walk_item_type_id(d, items, j),
    ) by {
        assert(some_group_has_id(groups, walk_item_type_id(d, items, j)));
    }
    assert(children_have_types(d, items, p.types));
    assert forall|a: int| 0 <= a < p.types.len() implies entries_assembled(
        slots_of_id(d, items, (#[trigger] p.types[a]).id),
        p.name_strings,
        p.types[a].entries,
    ) by {
        assert(p.types[a].id == groups[a].id);
        assert(variants_views(groups[a].variants@) == slots_of_id(d, items, groups[a].id));
    }
    assert(package_model_ok(d, p));
}

impl LoadedTable {
    /// Decodes one StringPool chunk.
    fn parse_stringpool(chunk: Chunk) -> (r: Result<LoadedStringPool, Error>)
        ensures
            match chunk {
                Chunk::StringPool(cd) => {
                    &&& (r is Ok <==> pool_wf(cd.data@))
                    &&& (r matches Ok(sp) ==> sp@ == spec_pool(cd.data@))
                    &&& (r is Err ==> r matches Err(Error::CorruptData(_)))
                },
                _ => r matches Err(Error::UnexpectedChunk),
            },
    {
        LoadedStringPool::from_chunk(chunk)
    }

    /// Folds one Type chunk's slot array into the per-id groups, keeping
    /// them sorted by id: appended to its id's group when the entry counts
    /// agree, inserted as a new group otherwise; a differing entry count
    /// for an already-seen id is fatal.
    #[verifier::rlimit(100)]
    fn ingest_type_chunk(
        groups: &mut Vec<TypeGroup>,
        id: u8,
        values: Vec<Option<ConfigAndValue>>,
        Ghost(d): Ghost<Seq<u8>>,
        Ghost(items): Ghost<Seq<Option<(ChunkType, int, int)>>>,
        Ghost(k): Ghost<int>,
        Ghost(wit_in): Ghost<Seq<int>>,
    ) -> (r: Result<Ghost<Seq<int>>, Error>)
        requires
            scan_state_ok(d, items, k, old(groups)@, wit_in),
            items == walk(d, le16(d, 2) as int),
            0 <= k < items.len(),
            walk_item_is_type(items, k),
            walk_item_type_id(d, items, k) == id,
            id != 0,
            values@.map_values(|o: Option<ConfigAndValue>| slot_view(o)) == spec_type_slots(
                walk_item_data(d, items, k),
            ),
            values@.len() <= 0xffff,
        ensures
            r matches Ok(w) ==> scan_state_ok(d, items, k + 1, final(groups)@, w@),
            r is Err ==> (r matches Err(Error::CorruptData(_))) && !package_chunk_wf(d),
    {
        proof {
            assert(items.take(k + 1) =~= items.take(k).push(items[k]));
            assert forall|t: u8|
                t != id implies #[trigger] slots_of_id(d, items.take(k + 1), t) == slots_of_id(
                d,
                items.take(k),
                t,
            ) by {
                lemma_slots_of_id_push(d, items.take(k), items[k], t);
                assert(slots_of_id(d, items.take(k + 1), t) =~= slots_of_id(
                    d,
                    items.take(k),
                    t,
                ));
            }
            lemma_slots_of_id_push(d, items.take(k), items[k], id);
            assert(slots_of_id(d, items.take(k + 1), id) =~= slots_of_id(
                d,
                items.take(k),
                id,
            ).push(spec_type_slots(walk_item_data(d, items, k))));
        }
        let ghost mut wit = wit_in;
            let mut pos: usize = 0;
            while pos < groups.len() && groups[pos].id < id
                invariant
                    pos <= groups@.len(),
                    forall|a: int| 0 <= a < pos ==> (#[trigger] groups@[a]).id < id,
                decreases groups@.len() - pos,
            {
                pos = pos + 1;
            }
            let ghost old_groups = groups@;
            let ghost old_wit = wit;
            if pos < groups.len() && groups[pos].id == id {
                let mut grp = groups.remove(pos);
                if grp.variants[0].len() != values.len() {
                    proof {
                        reveal(package_chunk_wf);
                        let slots = slots_of_id(d, items.take(k + 1), id);
                        lemma_slots_of_id_prefix(d, items, k + 1, id);
                        assert(slots_of_id(d, items, id)[0].len() != slots_of_id(
                            d,
                            items,
                            id,
                        )[slots.len() - 1].len());
                        assert(!package_chunk_wf(d));
                    }
                    return Err(Error::CorruptData(
                        "entry count differs across configurations".to_owned(),
                    ));
                }
                grp.variants.push(values);
                groups.insert(pos, grp);
                proof {
                    assert(groups@ =~= old_groups.update(
                        pos as int,
                        groups@[pos as int],
                    ));
                    assert(groups@[pos as int].id == id);
                    assert forall|a: int| 0 <= a < groups@.len() implies 0
                        <= #[trigger] wit[a] < items.len() && walk_item_is_type(
                        items,
                        wit[a],
                    ) && walk_item_type_id(d, items, wit[a]) == groups@[a].id by {
                        assert(groups@[a].id == old_groups[a].id);
                    }
                    assert forall|id0: u8|
                        some_group_has_id(old_groups, id0) implies some_group_has_id(
                        groups@,
                        id0,
                    ) by {
                        let a0 = choose|a0: int|
                            0 <= a0 < old_groups.len() && (#[trigger] old_groups[
                            a0
                        ]).id == id0;
                        assert(groups@[a0].id == old_groups[a0].id);
                    }
                    assert forall|id0: u8|
                        some_group_has_id(groups@, id0) implies some_group_has_id(
                        old_groups,
                        id0,
                    ) by {
                        let a0 = choose|a0: int|
                            0 <= a0 < groups@.len() && (#[trigger] groups@[a0]).id
                                == id0;
                        assert(old_groups[a0].id == groups@[a0].id);
                    }
                    assert(some_group_has_id(groups@, id));
                    assert forall|a: int| 0 <= a < groups@.len() implies variants_views(
                        (#[trigger] groups@[a]).variants@,
                    ) == slots_of_id(d, items.take(k + 1), groups@[a].id) by {
                        if a == pos as int {
                            assert(variants_views(groups@[a].variants@) =~= variants_views(
                                old_groups[a].variants@,
                            ).push(
                                values@.map_values(
                                    |o: Option<ConfigAndValue>| slot_view(o),
                                ),
                            ));
                        } else {
                            assert(groups@[a] == old_groups[a]);
                            assert(groups@[a].id != id);
                        }
                    }
                }
            } else {
                proof {
                    assert forall|a: int| 0 <= a < old_groups.len() implies (
                    #[trigger] old_groups[a]).id != id by {
                        if a < pos as int {
                            assert(old_groups[a].id < id);
                        } else {
                            assert(old_groups[pos as int].id >= id);
                            assert(old_groups[pos as int].id != id);
                        }
                    }
                    assert(!some_group_has_id(old_groups, id));
                    assert(slots_of_id(d, items.take(k), id) == Seq::<
                        Seq<Option<ConfigAndValueV>>,
                    >::empty());
                }
                let mut variants: Vec<Vec<Option<ConfigAndValue>>> = Vec::new();
                variants.push(values);
                groups.insert(pos, TypeGroup { id, variants });
                proof {
                    assert(groups@ =~= old_groups.insert(
                        pos as int,
                        groups@[pos as int],
                    ));
                    assert(groups@[pos as int].id == id);
                    wit = old_wit.insert(pos as int, k);
                    old_wit.insert_ensures(pos as int, k);
                    old_groups.insert_ensures(pos as int, groups@[pos as int]);
                    assert forall|a: int| 0 <= a < groups@.len() implies 0
                        <= #[trigger] wit[a] < items.len() && walk_item_is_type(
                        items,
                        wit[a],
                    ) && walk_item_type_id(d, items, wit[a]) == groups@[a].id by {
                        if a < pos as int {
                            assert(wit[a] == old_wit[a]);
                            assert(groups@[a] == old_groups[a]);
                        } else if a == pos as int {
                            assert(wit[a] == k);
                            assert(k < items.len());
                            assert(walk_item_is_type(items, k));
                        } else {
                            assert(wit[a] == old_wit[a - 1]);
                            assert(groups@[a] == old_groups[a - 1]);
                        }
                    }
                    assert forall|id0: u8|
                        some_group_has_id(old_groups, id0) implies some_group_has_id(
                        groups@,
                        id0,
                    ) by {
                        let a0 = choose|a0: int|
                            0 <= a0 < old_groups.len() && (#[trigger] old_groups[
                            a0
                        ]).id == id0;
                        let a1: int = if a0 < pos as int {
                            a0
                        } else {
                            a0 + 1
                        };
                        assert(groups@[a1].id == old_groups[a0].id);
                    }
                    assert forall|id0: u8|
                        id0 != id && some_group_has_id(
                            groups@,
                            id0,
                        ) implies some_group_has_id(old_groups, id0) by {
                        let a0 = choose|a0: int|
                            0 <= a0 < groups@.len() && (#[trigger] groups@[a0]).id
                                == id0;
                        let a1: int = if a0 < pos as int {
                            a0
                        } else {
                            a0 - 1
                        };
                        assert(old_groups[a1].id == groups@[a0].id);
                    }
                    assert(some_group_has_id(groups@, id));
                    assert forall|a: int| 0 <= a < groups@.len() implies variants_views(
                        (#[trigger] groups@[a]).variants@,
                    ) == slots_of_id(d, items.take(k + 1), groups@[a].id) by {
                        if a == pos as int {
                            assert(variants_views(groups@[a].variants@) =~= Seq::<
                                Seq<Option<ConfigAndValueV>>,
                            >::empty().push(
                                values@.map_values(
                                    |o: Option<ConfigAndValue>| slot_view(o),
                                ),
                            ));
                            assert(slots_of_id(d, items.take(k + 1), id) =~= Seq::<
                                Seq<Option<ConfigAndValueV>>,
                            >::empty().push(
                                spec_type_slots(walk_item_data(d, items, k)),
                            ));
                        } else if a < pos as int {
                            assert(groups@[a] == old_groups[a]);
                            assert(groups@[a].id != id);
                        } else {
                            assert(groups@[a] == old_groups[a - 1]);
                            assert(groups@[a].id != id);
                        }
                    }
                }
            }

        Ok(Ghost(wit))
    }

    /// Finishes a package whose children scanned cleanly: assembles the
    /// types and builds the package value.  Succeeds exactly when the
    /// chunk is well-formed, and then returns exactly its model.
    fn finish_package(
        pid32: u32,
        name: String,
        type_strings: LoadedStringPool,
        name_strings: LoadedStringPool,
        groups: Vec<TypeGroup>,
        Ghost(d): Ghost<Seq<u8>>,
        Ghost(items): Ghost<Seq<Option<(ChunkType, int, int)>>>,
        Ghost(wit): Ghost<Seq<int>>,
    ) -> (r: Result<LoadedPackage, Error>)
        requires
            package_scan_done(d, items, groups@, wit, type_strings@, name_strings@),
            forall|a: int|
                0 <= a < groups@.len() ==> (#[trigger] groups@[a]).variants@[0]@.len() <= 0xffff,
            d.len() >= 284,
            le16(d, 2) <= d.len(),
            walk_clean(items),
            package_kinds_ok(items),
            le32(d, 268) != le32(d, 276),
            forall|j: int|
                0 <= j < items.len() && (#[trigger] walk_item_kind(items, j))
                    == ChunkType::StringPool ==> walk_item_off(items, j) == le32(d, 268)
                    || walk_item_off(items, j) == le32(d, 276),
            count_pools_at(items, le32(d, 268)) == 1,
            count_pools_at(items, le32(d, 276)) == 1,
            forall|j: int|
                0 <= j < items.len() && (#[trigger] walk_item_kind(items, j))
                    == ChunkType::StringPool ==> pool_wf(walk_item_data(d, items, j)),
            forall|j: int|
                0 <= j < items.len() && (#[trigger] walk_item_kind(items, j)) == ChunkType::Spec
                    ==> spec_chunk_wf(walk_item_data(d, items, j)),
            forall|j: int|
                0 <= j < items.len() && (#[trigger] walk_item_kind(items, j)) == ChunkType::Type
                    ==> type_chunk_wf(walk_item_data(d, items, j)) && walk_item_data(
                    d,
                    items,
                    j,
                )[8] != 0,
            pid32 == le32(d, 8),
            name@ == spec_package_name(d),
        ensures
            r is Ok <==> package_chunk_wf(d),
            r matches Ok(p) ==> package_model_ok(d, p@) && package_wf(p@),
            r is Err ==> r matches Err(Error::CorruptData(_)),
    {
        let types = match assemble_types(&groups, &type_strings, &name_strings) {
            Ok(t) => t,
            Err(e) => {
                proof {
                    lemma_package_assemble_err(
                        d,
                        items,
                        groups@,
                        wit,
                        type_strings@,
                        name_strings@,
                    );
                }
                return Err(e)
            },
        };
        let pid = (pid32 & 0xff) as u8;
        proof {
            assert(pid == pid32 as u8) by (bit_vector)
                requires pid == (pid32 & 0xff) as u8;
        }
        let package = LoadedPackage {
            id: pid,
            name,
            type_strings,
            name_strings,
            types,
        };
        proof {
            lemma_package_finish(d, items, groups@, wit, package@);
        }
        Ok(package)
    }

    /// Parses one Package chunk: decodes the zero-terminated package name,
    /// binds the two string pools found at the declared chunk-relative
    /// offsets, validates Spec chunks, groups Type chunks by type id, and
    /// materializes each type's entries across its configuration variants.
    ///
    /// Succeeds exactly when the chunk is well-formed
    /// (`package_chunk_wf`), and then loads exactly the model
    /// `package_model_ok` describes.  `UnexpectedChunk` arises only from a
    /// chunk variant in a position it is not permitted; every other
    /// failure is `CorruptData`.
    #[verifier::rlimit(100)]
    fn parse_package(chunk: Chunk) -> (r: Result<LoadedPackage, Error>)
        ensures
            match chunk {
                Chunk::Package(cd) => {
                    &&& (r is Ok <==> package_chunk_wf(cd.data@))
                    &&& (r matches Ok(p) ==> package_model_ok(cd.data@, p@) && package_wf(p@))
                    &&& (r is Err ==> (r matches Err(Error::CorruptData(_)) || r matches Err(
                        Error::UnexpectedChunk,
                    )))
                    &&& (r matches Err(Error::UnexpectedChunk) ==> !(walk_clean(
                        walk(cd.data@, le16(cd.data@, 2) as int),
                    ) && package_kinds_ok(walk(cd.data@, le16(cd.data@, 2) as int))))
                },
                _ => r matches Err(Error::UnexpectedChunk),
            },
    {
        let details = match chunk.as_package() {
            Ok(det) => det,
            Err(e) => {
                proof {
                    reveal(package_chunk_wf);
                }
                return Err(e)
            },
        };
        let it_opt = chunk.iter();
        let cd = match chunk {
            Chunk::Package(cd) => cd,
            _ => { return Err(Error::UnexpectedChunk) },
        };
        let ghost d = cd.data@;

        let name = decode_name_field(&details.name);
        proof {
            assert(details.name@.map_values(|u: LittleEndianU16| u@) =~= Seq::new(
                128,
                |j: int| le16(d, 12 + 2 * j),
            ));
        }

        let types_off = details.types_string_buffer_offset.value();
        let names_off = details.names_string_buffer_offset.value();

        let mut type_strings: Option<LoadedStringPool> = None;
        let mut name_strings: Option<LoadedStringPool> = None;
        let mut groups: Vec<TypeGroup> = Vec::new();
        let ghost items = walk(d, le16(d, 2) as int);
        let ghost mut k: int = 0;
        let ghost mut wit: Seq<int> = Seq::empty();

        let mut it = match it_opt {
            Some(it) => it,
            None => {
                proof {
                    reveal(package_chunk_wf);
                    assert(!(le16(d, 2) <= d.len()));
                }
                return Err(Error::CorruptData("cannot iterate over package".to_owned()))
            },
        };
        loop
            invariant
                chunk matches Chunk::Package(cd0) && cd0.data@ == d,
                it.spec_data() == d,
                items == walk(d, le16(d, 2) as int),
                d.len() >= 284,
                le16(d, 2) <= d.len(),
                0 <= k <= items.len(),
                it.remaining() == items.skip(k),
                forall|j: int| 0 <= j < k ==> (#[trigger] items[j]) is Some,
                forall|j: int|
                    0 <= j < k ==> (#[trigger] walk_item_kind(items, j)) == ChunkType::StringPool
                        || walk_item_kind(items, j) == ChunkType::Spec || walk_item_kind(items, j)
                        == ChunkType::Type,
                types_off == le32(d, 268),
                names_off == le32(d, 276),
                types_off == names_off ==> name_strings is None,
                count_pools_at(items.take(k), types_off) == (if type_strings is Some {
                    1int
                } else {
                    0int
                }),
                types_off != names_off ==> count_pools_at(items.take(k), names_off) == (
                if name_strings is Some {
                    1int
                } else {
                    0int
                }),
                forall|j: int|
                    0 <= j < k && (#[trigger] walk_item_kind(items, j)) == ChunkType::StringPool
                        ==> walk_item_off(items, j) == types_off || walk_item_off(items, j)
                        == names_off,
                forall|j: int|
                    0 <= j < k && (#[trigger] walk_item_kind(items, j)) == ChunkType::StringPool
                        ==> pool_wf(walk_item_data(d, items, j)),
                forall|j: int|
                    0 <= j < k && (#[trigger] walk_item_kind(items, j)) == ChunkType::Spec
                        ==> spec_chunk_wf(walk_item_data(d, items, j)),
                forall|j: int|
                    0 <= j < k && (#[trigger] walk_item_kind(items, j)) == ChunkType::Type
                        ==> type_chunk_wf(walk_item_data(d, items, j)) && walk_item_data(
                        d,
                        items,
                        j,
                    )[8] != 0,
                type_strings matches Some(sp) ==> sp@ == spec_pool(
                    pool_data_at(d, items.take(k), types_off),
                ),
                name_strings matches Some(sp) ==> sp@ == spec_pool(
                    pool_data_at(d, items.take(k), names_off),
                ),
                scan_state_ok(d, items, k, groups@, wit),
            ensures
                k == items.len(),
            decreases items.len() - k,
        {
            let next = it.next();
            let child = match next {
                None => { break },
                Some(c) => c,
            };
            proof {
                assert(items.skip(k).len() > 0);
                assert(items.skip(k)[0] == items[k]);
                assert(items.skip(k).skip(1) =~= items.skip(k + 1));
                assert(items.take(k + 1) =~= items.take(k).push(items[k]));
                lemma_count_pools_at_push(items.take(k), items[k], types_off);
                lemma_count_pools_at_push(items.take(k), items[k], names_off);
                lemma_pool_data_at_push(d, items.take(k), items[k], types_off);
                lemma_pool_data_at_push(d, items.take(k), items[k], names_off);
            }
            match child {
                Chunk::StringPool(ccd) => {
                    proof {
                        assert(!walk_item_is_type(items, k));
                        assert forall|t: u8| #[trigger] slots_of_id(d, items.take(k + 1), t)
                            == slots_of_id(d, items.take(k), t) by {
                            lemma_slots_of_id_push(d, items.take(k), items[k], t);
                            assert(slots_of_id(d, items.take(k + 1), t) =~= slots_of_id(
                                d,
                                items.take(k),
                                t,
                            ));
                        }
                    }
                    let offset = ccd.offset;
                    let pool_chunk = Chunk::StringPool(ccd);
                    proof {
                        assert(walk_item_off(items, k) == offset);
                        assert(walk_item_kind(items, k) == ChunkType::StringPool);
                    }
                    if (offset as u64) == (types_off as u64) {
                        if type_strings.is_some() {
                            proof {
                                reveal(package_chunk_wf);
                                lemma_count_pools_at_prefix(items, k + 1, types_off);
                                assert(!package_chunk_wf(d));
                            }
                            return Err(Error::CorruptData("multiple type string pools".to_owned()));
                        }
                        let sp = match Self::parse_stringpool(pool_chunk) {
                            Ok(sp) => sp,
                            Err(e) => {
                                proof {
                                    reveal(package_chunk_wf);
                                    assert(!pool_wf(walk_item_data(d, items, k)));
                                    assert(!package_chunk_wf(d));
                                }
                                return Err(e)
                            },
                        };
                        type_strings = Some(sp);
                    } else if (offset as u64) == (names_off as u64) {
                        if name_strings.is_some() {
                            proof {
                                reveal(package_chunk_wf);
                                lemma_count_pools_at_prefix(items, k + 1, names_off);
                                assert(!package_chunk_wf(d));
                            }
                            return Err(Error::CorruptData("multiple name string pools".to_owned()));
                        }
                        let sp = match Self::parse_stringpool(pool_chunk) {
                            Ok(sp) => sp,
                            Err(e) => {
                                proof {
                                    reveal(package_chunk_wf);
                                    assert(!pool_wf(walk_item_data(d, items, k)));
                                    assert(!package_chunk_wf(d));
                                }
                                return Err(e)
                            },
                        };
                        name_strings = Some(sp);
                    } else {
                        proof {
                            reveal(package_chunk_wf);
                            assert(walk_item_off(items, k) != types_off && walk_item_off(
                                items,
                                k,
                            ) != names_off);
                            assert(!package_chunk_wf(d));
                        }
                        return Err(Error::CorruptData("unexpected string pool in package".to_owned()));
                    }
                },
                Chunk::Spec(_) => {
                    proof {
                        assert(!walk_item_is_type(items, k));
                        assert forall|t: u8| #[trigger] slots_of_id(d, items.take(k + 1), t)
                            == slots_of_id(d, items.take(k), t) by {
                            lemma_slots_of_id_push(d, items.take(k), items[k], t);
                            assert(slots_of_id(d, items.take(k + 1), t) =~= slots_of_id(
                                d,
                                items.take(k),
                                t,
                            ));
                        }
                    }
                    match Self::parse_spec(child) {
                        Ok(_) => {},
                        Err(e) => {
                            proof {
                                reveal(package_chunk_wf);
                                assert(!spec_chunk_wf(walk_item_data(d, items, k)));
                                assert(!package_chunk_wf(d));
                            }
                            return Err(e)
                        },
                    }
                },
                Chunk::Type(_) => {
                    proof {
                        assert(walk_item_is_type(items, k));
                    }
                    let id = match child.as_type() {
                        Ok(t) => t.id.value(),
                        Err(e) => {
                            proof {
                                reveal(package_chunk_wf);
                                assert(!type_chunk_wf(walk_item_data(d, items, k)));
                                assert(!package_chunk_wf(d));
                            }
                            return Err(e)
                        },
                    };
                    proof {
                        assert(walk_item_type_id(d, items, k) == id);
                    }
                    if id == 0 {
                        proof {
                            reveal(package_chunk_wf);
                            assert(!package_chunk_wf(d));
                        }
                        return Err(Error::CorruptData("type id must be nonzero".to_owned()));
                    }
                    let values = match Self::parse_type(child) {
                        Ok(v) => v,
                        Err(e) => {
                            proof {
                                reveal(package_chunk_wf);
                                assert(!type_chunk_wf(walk_item_data(d, items, k)));
                                assert(!package_chunk_wf(d));
                            }
                            return Err(e)
                        },
                    };
                    proof {
                        assert(type_chunk_wf(walk_item_data(d, items, k)));
                        assert(values@.len() == values@.map_values(
                            |o: Option<ConfigAndValue>| slot_view(o),
                        ).len());
                        assert(spec_type_slots(walk_item_data(d, items, k)).len() == le32(
                            walk_item_data(d, items, k),
                            12,
                        ));
                        assert(values@.len() <= 0xffff);
                    }
                    let w = match Self::ingest_type_chunk(
                        &mut groups,
                        id,
                        values,
                        Ghost(d),
                        Ghost(items),
                        Ghost(k),
                        Ghost(wit),
                    ) {
                        Ok(w) => w,
                        Err(e) => { return Err(e) },
                    };
                    proof {
                        wit = w@;
                    }
                },
                _ => {
                    proof {
                        match items[k] {
                            None => {
                                assert(!walk_clean(items));
                            },
                            Some((t, off, sz)) => {
                                assert(walk_item_kind(items, k) == t);
                                assert(t == ChunkType::Table || t == ChunkType::Package);
                                assert(!package_kinds_ok(items));
                            },
                        }
                        reveal(package_chunk_wf);
                        assert(!package_chunk_wf(d));
                    }
                    return Err(Error::UnexpectedChunk);
                },
            }
            proof {
                k = k + 1;
            }
        }

        proof {
            assert(items.take(items.len() as int) =~= items);
        }
        let type_strings = match type_strings {
            Some(s) => s,
            None => {
                proof {
                    reveal(package_chunk_wf);
                    assert(count_pools_at(items, types_off) == 0);
                    assert(!package_chunk_wf(d));
                }
                return Err(Error::CorruptData("missing type string pool in package".to_owned()))
            },
        };
        let name_strings = match name_strings {
            Some(s) => s,
            None => {
                proof {
                    reveal(package_chunk_wf);
                    if types_off != names_off {
                        assert(count_pools_at(items, names_off) == 0);
                    }
                    assert(!package_chunk_wf(d));
                }
                return Err(Error::CorruptData("missing name string pool in package".to_owned()))
            },
        };

        Self::finish_package(
            details.id.value(),
            name,
            type_strings,
            name_strings,
            groups,
            Ghost(d),
            Ghost(items),
            Ghost(wit),
        )
    }
}


impl LoadedTable {
    /// Parses the children of the root Table chunk: exactly one value
    /// string pool and the Package children, which must match the declared
    /// package count.  Succeeds exactly when the chunk is well-formed
    /// (`table_chunk_ok`); each loaded package is the model of the
    /// corresponding Package child, in walk order.  `UnexpectedChunk`
    /// arises only from a chunk variant in a position it is not permitted.
    #[verifier::loop_isolation(false)]
    #[verifier::rlimit(100)]
    fn parse_table(chunk: Chunk) -> (r: Result<(LoadedStringPool, Vec<LoadedPackage>), Error>)
        ensures
            match chunk {
                Chunk::Table(cd) => {
                    &&& (r is Ok <==> table_chunk_ok(cd.data@))
                    &&& (r matches Ok(pair) ==> {
                        let d = cd.data@;
                        let items = walk(d, le16(d, 2) as int);
                        &&& d.len() >= 12
                        &&& pair.1@.len() == le32(d, 8)
                        &&& pair.1@.len() == count_kind(items, ChunkType::Package)
                        &&& pair.0@ == spec_pool(pool_data_at_any(d, items))
                        &&& (forall|a: int|
                            0 <= a < pair.1@.len() ==> package_wf(#[trigger] pair.1@[a]@))
                        &&& (forall|a: int|
                            0 <= a < pair.1@.len() ==> package_model_ok(
                                nth_package_data(d, items, a),
                                (#[trigger] pair.1@[a])@,
                            ))
                    })
                    &&& (r is Err ==> (r matches Err(Error::CorruptData(_)) || r matches Err(
                        Error::UnexpectedChunk,
                    )))
                    &&& ((table_chunk_ok_except_kinds(cd.data@) && !table_kinds_ok(
                        walk(cd.data@, le16(cd.data@, 2) as int),
                    )) ==> r matches Err(Error::UnexpectedChunk))
                },
                _ => r matches Err(Error::UnexpectedChunk),
            },
    {
        let details = match chunk.as_table() {
            Ok(det) => det,
            Err(e) => {
                proof {
                    reveal(table_chunk_ok_except_kinds);
                }
                return Err(e)
            },
        };
        let it_opt = chunk.iter();
        let cd = match chunk {
            Chunk::Table(cd) => cd,
            _ => { return Err(Error::UnexpectedChunk) },
        };
        let ghost d = cd.data@;
        let ghost items = walk(d, le16(d, 2) as int);
        let ghost mut k: int = 0;

        let mut it = match it_opt {
            Some(it) => it,
            None => {
                proof {
                    reveal(table_chunk_ok_except_kinds);
                    assert(!(le16(d, 2) <= d.len()));
                }
                return Err(Error::CorruptData("cannot iterate over table".to_owned()))
            },
        };
        let mut packages: Vec<LoadedPackage> = Vec::new();
        let mut value_strings: Option<LoadedStringPool> = None;
        loop
            invariant
                it.spec_data() == d,
                0 <= k <= items.len(),
                it.remaining() == items.skip(k),
                forall|j: int| 0 <= j < k ==> (#[trigger] items[j]) is Some,
                forall|j: int|
                    0 <= j < k ==> (#[trigger] walk_item_kind(items, j)) == ChunkType::StringPool
                        || walk_item_kind(items, j) == ChunkType::Package,
                count_kind(items.take(k), ChunkType::StringPool) == (if value_strings is Some {
                    1int
                } else {
                    0int
                }),
                forall|j: int|
                    0 <= j < k && (#[trigger] walk_item_kind(items, j)) == ChunkType::StringPool
                        ==> pool_wf(walk_item_data(d, items, j)),
                value_strings matches Some(sp) ==> sp@ == spec_pool(
                    pool_data_at_any(d, items.take(k)),
                ),
                packages@.len() == count_kind(items.take(k), ChunkType::Package),
                forall|j: int|
                    0 <= j < k && (#[trigger] walk_item_kind(items, j)) == ChunkType::Package
                        ==> package_chunk_wf(walk_item_data(d, items, j)),
                forall|a: int| 0 <= a < packages@.len() ==> package_wf(#[trigger] packages@[a]@),
                forall|a: int|
                    0 <= a < packages@.len() ==> package_model_ok(
                        nth_package_data(d, items.take(k), a),
                        (#[trigger] packages@[a])@,
                    ),
            decreases items.len() - k,
        {
            let next = it.next();
            let child = match next {
                None => { break },
                Some(c) => c,
            };
            proof {
                assert(items.skip(k).len() > 0);
                assert(items.skip(k)[0] == items[k]);
                assert(items.skip(k).skip(1) =~= items.skip(k + 1));
                assert(items.take(k + 1) =~= items.take(k).push(items[k]));
                lemma_count_kind_push(items.take(k), items[k], ChunkType::Package);
                lemma_count_kind_push(items.take(k), items[k], ChunkType::StringPool);
                lemma_pool_data_at_any_push(d, items.take(k), items[k]);
                lemma_count_kind_nonneg(items.take(k), ChunkType::Package);
            }
            match child {
                Chunk::StringPool(_) => {
                    proof {
                        assert forall|a: int|
                            0 <= a < packages@.len() implies nth_package_data(
                            d,
                            items.take(k + 1),
                            a,
                        ) == nth_package_data(d, items.take(k), a) by {
                            lemma_nth_package_data_push(d, items.take(k), items[k], a);
                        }
                    }
                    if value_strings.is_some() {
                        proof {
                            reveal(table_chunk_ok_except_kinds);
                            lemma_count_kind_prefix(items, k + 1, ChunkType::StringPool);
                            assert(!table_chunk_ok_except_kinds(d));
                        }
                        return Err(Error::CorruptData("multiple string pools in table".to_owned()));
                    }
                    let sp = match Self::parse_stringpool(child) {
                        Ok(sp) => sp,
                        Err(e) => {
                            proof {
                                reveal(table_chunk_ok_except_kinds);
                                assert(!pool_wf(walk_item_data(d, items, k)));
                                assert(!table_chunk_ok_except_kinds(d));
                            }
                            return Err(e)
                        },
                    };
                    value_strings = Some(sp);
                },
                Chunk::Package(_) => {
                    proof {
                        assert forall|a: int|
                            0 <= a < packages@.len() implies nth_package_data(
                            d,
                            items.take(k + 1),
                            a,
                        ) == nth_package_data(d, items.take(k), a) by {
                            lemma_nth_package_data_push(d, items.take(k), items[k], a);
                        }
                        lemma_nth_package_data_push(
                            d,
                            items.take(k),
                            items[k],
                            count_kind(items.take(k), ChunkType::Package),
                        );
                    }
                    let p = match Self::parse_package(child) {
                        Ok(p) => p,
                        Err(e) => {
                            proof {
                                reveal(table_chunk_ok_except_kinds);
                                assert(!package_chunk_wf(walk_item_data(d, items, k)));
                                assert(!table_chunk_ok_except_kinds(d));
                            }
                            return Err(e)
                        },
                    };
                    packages.push(p);
                },
                _ => {
                    proof {
                        match items[k] {
                            None => {
                                reveal(table_chunk_ok_except_kinds);
                                assert(!walk_clean(items));
                                assert(!table_chunk_ok_except_kinds(d));
                            },
                            Some((t, off, sz)) => {
                                assert(walk_item_kind(items, k) == t);
                                assert(t == ChunkType::Table || t == ChunkType::Spec || t
                                    == ChunkType::Type);
                                assert(!table_kinds_ok(items));
                            },
                        }
                        assert(!table_chunk_ok(d));
                    }
                    return Err(Error::UnexpectedChunk);
                },
            }
            proof {
                k = k + 1;
            }
        }

        proof {
            assert(items.take(items.len() as int) =~= items);
        }
        let value_strings = match value_strings {
            Some(s) => s,
            None => {
                proof {
                    reveal(table_chunk_ok_except_kinds);
                    assert(count_kind(items, ChunkType::StringPool) == 0);
                    assert(!table_chunk_ok_except_kinds(d));
                }
                return Err(Error::CorruptData("missing string pool in table".to_owned()))
            },
        };
        let declared = details.package_count.value();
        if packages.len() as u64 != declared as u64 {
            proof {
                reveal(table_chunk_ok_except_kinds);
                assert(!table_chunk_ok_except_kinds(d));
            }
            return Err(Error::CorruptData("package count mismatch".to_owned()));
        }
        proof {
            reveal(table_chunk_ok_except_kinds);
            assert(table_chunk_ok_except_kinds(d));
            assert(table_kinds_ok(items));
            assert(table_chunk_ok(d));
        }
        Ok((value_strings, packages))
    }

    /// Parses a resource table from raw bytes.
    ///
    /// Succeeds exactly when the walk of `bytes` is a single well-formed
    /// Table chunk spanning the whole input (`table_input_wf`): nothing at
    /// all is `CorruptData("no data to traverse")`, a first item of any
    /// other kind is `CorruptData("not a table chunk")`, any item after
    /// the table is `CorruptData("trailing data after table")`.  On
    /// success the model holds exactly the declared number of packages,
    /// each the model of its Package chunk, and the value pool decoded
    /// from the table's single StringPool child.  The parse is total: no
    /// input makes it panic.
    #[verifier::rlimit(100)]
    pub fn parse(bytes: &[u8]) -> (r: Result<LoadedTable, Error>)
        ensures
            r is Ok <==> table_input_wf(bytes@),
            r is Err ==> (r matches Err(Error::CorruptData(_)) || r matches Err(
                Error::UnexpectedChunk,
            )),
            bytes@.len() == 0 ==> (r matches Err(Error::CorruptData(m)) && m@
                == "no data to traverse"@),
            (bytes@.len() > 0 && !(walk(bytes@, 0)[0] matches Some((t, off, sz)) && t
                == ChunkType::Table)) ==> (r matches Err(Error::CorruptData(m)) && m@
                == "not a table chunk"@),
            (walk(bytes@, 0).len() >= 2 && (walk(bytes@, 0)[0] matches Some((t, off, sz)) && t
                == ChunkType::Table)) ==> (r matches Err(Error::CorruptData(m)) && m@
                == "trailing data after table"@),
            r matches Ok(t) ==> {
                let items = walk(bytes@, le16(bytes@, 2) as int);
                &&& bytes@.len() >= 12
                &&& t@.packages.len() == le32(bytes@, 8)
                &&& t@.packages.len() == count_kind(items, ChunkType::Package)
                &&& t@.value_strings == spec_pool(value_pool_data(bytes@))
                &&& table_wf(t@)
                &&& forall|a: int|
                    0 <= a < t@.packages.len() ==> package_model_ok(
                        nth_package_data(bytes@, items, a),
                        #[trigger] t@.packages[a],
                    )
            },
    {
        let mut it = ChunkIterator::new(bytes);
        let first = it.next();
        let chunk = match first {
            Some(Chunk::Table(cdata)) => Chunk::Table(cdata),
            Some(c) => {
                proof {
                    assert(!(walk(bytes@, 0)[0] matches Some((t, off, sz)) && t
                        == ChunkType::Table));
                }
                return Err(Error::CorruptData("not a table chunk".to_owned()));
            },
            None => { return Err(Error::CorruptData("no data to traverse".to_owned())) },
        };
        match it.next() {
            Some(_) => {
                return Err(Error::CorruptData("trailing data after table".to_owned()));
            },
            None => {},
        }
        proof {
            assert(walk(bytes@, 0).len() == 1);
            assert(bytes@.subrange(0, bytes@.len() as int) =~= bytes@);
        }
        let pair = match Self::parse_table(chunk) {
            Ok(pair) => pair,
            Err(e) => { return Err(e) },
        };
        let table = LoadedTable { value_strings: pair.0, packages: pair.1 };
        proof {
            assert(table_input_wf(bytes@));
            assert forall|a: int| 0 <= a < table@.packages.len() implies package_wf(
                #[trigger] table@.packages[a],
            ) by {
                assert(table@.packages[a] == pair.1@[a]@);
            }
        }
        Ok(table)
    }
}


/// Whether a sequence of packed identifiers is strictly increasing.
pub open spec fn strictly_ascending(s: Seq<u32>) -> bool {
    forall|i: int, j: int| 0 <= i < j < s.len() ==> s[i] < s[j]
}

/// The identifiers of one type's entries, element by element.
proof fn lemma_entries_block(package_id: u8, type_id: u8, entries: Seq<EntryV>)
    ensures
        entries_resids(package_id, type_id, entries).len() == entries.len(),
        forall|k: int|
            0 <= k < entries.len() ==> #[trigger] entries_resids(package_id, type_id, entries)[k]
                == pack_resid(package_id, type_id, entries[k].id),
    decreases entries.len(),
{
    if entries.len() > 0 {
        lemma_entries_block(package_id, type_id, entries.drop_first());
        assert forall|k: int| 0 <= k < entries.len() implies #[trigger] entries_resids(
            package_id,
            type_id,
            entries,
        )[k] == pack_resid(package_id, type_id, entries[k].id) by {
            if k > 0 {
                assert(entries.drop_first()[k - 1] == entries[k]);
                assert(entries_resids(package_id, type_id, entries)[k] == entries_resids(
                    package_id,
                    type_id,
                    entries.drop_first(),
                )[k - 1]);
            }
        }
    }
}

/// The identifiers of a run of types: each has the given package id and
/// the type id of one of the types, and the run is strictly ascending
/// when the types are well-formed and sorted.
proof fn lemma_types_block(package_id: u8, types: Seq<TypeV>)
    requires
        forall|a: int| 0 <= a < types.len() ==> type_wf(#[trigger] types[a]),
        forall|a: int, b: int| 0 <= a < b < types.len() ==> types[a].id < types[b].id,
    ensures
        forall|k: int|
            0 <= k < types_resids(package_id, types).len() ==> resid_package(
                #[trigger] types_resids(package_id, types)[k],
            ) == package_id,
        forall|k: int|
            0 <= k < types_resids(package_id, types).len() ==> exists|a: int|
                0 <= a < types.len() && resid_type(
                    #[trigger] types_resids(package_id, types)[k],
                ) == types[a].id,
        strictly_ascending(types_resids(package_id, types)),
    decreases types.len(),
{
    if types.len() > 0 {
        let head = entries_resids(package_id, types[0].id, types[0].entries);
        let tail = types_resids(package_id, types.drop_first());
        lemma_entries_block(package_id, types[0].id, types[0].entries);
        lemma_types_block(package_id, types.drop_first());
        assert forall|k: int| 0 <= k < head.len() implies resid_package(head[k]) == package_id
            && resid_type(head[k]) == types[0].id by {
            lemma_resid_round_trip(package_id, types[0].id, types[0].entries[k].id, 0);
        }
        // Within the head block: ascending entry ids pack to ascending
        // identifiers.
        assert forall|i: int, j: int| 0 <= i < j < head.len() implies head[i] < head[j] by {
            lemma_resid_round_trip(package_id, types[0].id, types[0].entries[i].id, 0);
            lemma_resid_round_trip(package_id, types[0].id, types[0].entries[j].id, 0);
            lemma_resid_order(head[i], head[j]);
        }
        // Tail elements carry strictly larger type ids than the head.
        assert forall|i: int, j: int|
            0 <= i < head.len() && 0 <= j < tail.len() implies head[i] < tail[j] by {
            let a = choose|a: int|
                0 <= a < types.drop_first().len() && resid_type(tail[j]) == types.drop_first()[
                    a
                ].id;
            assert(types.drop_first()[a] == types[a + 1]);
            assert(types[0].id < types[a + 1].id);
            lemma_resid_order(head[i], tail[j]);
        }
        let whole = types_resids(package_id, types);
        assert(whole == head + tail);
        assert forall|k: int| 0 <= k < whole.len() implies resid_package(#[trigger] whole[k])
            == package_id by {
            if k >= head.len() {
                assert(whole[k] == tail[k - head.len()]);
            }
        }
        assert forall|k: int| 0 <= k < whole.len() implies exists|a: int|
            0 <= a < types.len() && resid_type(#[trigger] whole[k]) == types[a].id by {
            if k < head.len() {
                assert(resid_type(whole[k]) == types[0].id);
            } else {
                assert(whole[k] == tail[k - head.len()]);
                let a = choose|a: int|
                    0 <= a < types.drop_first().len() && resid_type(tail[k - head.len()])
                        == types.drop_first()[a].id;
                assert(types.drop_first()[a] == types[a + 1]);
                assert(resid_type(whole[k]) == types[a + 1].id);
            }
        }
        assert forall|i: int, j: int| 0 <= i < j < whole.len() implies whole[i] < whole[j] by {
            if j < head.len() {
                assert(whole[i] == head[i] && whole[j] == head[j]);
            } else if i >= head.len() {
                assert(whole[i] == tail[i - head.len()] && whole[j] == tail[j - head.len()]);
            } else {
                assert(whole[i] == head[i] && whole[j] == tail[j - head.len()]);
            }
        }
    }
}

/// The identifiers of a run of packages: strictly ascending when every
/// package is well-formed and package ids are strictly ascending.
proof fn lemma_packages_block(packages: Seq<PackageV>)
    requires
        forall|a: int| 0 <= a < packages.len() ==> package_wf(#[trigger] packages[a]),
        forall|a: int, b: int|
            0 <= a < b < packages.len() ==> packages[a].id < packages[b].id,
    ensures
        forall|k: int|
            0 <= k < table_resids(packages).len() ==> exists|a: int|
                0 <= a < packages.len() && resid_package(#[trigger] table_resids(packages)[k])
                    == packages[a].id,
        strictly_ascending(table_resids(packages)),
    decreases packages.len(),
{
    if packages.len() > 0 {
        let head = types_resids(packages[0].id, packages[0].types);
        let tail = table_resids(packages.drop_first());
        lemma_types_block(packages[0].id, packages[0].types);
        lemma_packages_block(packages.drop_first());
        assert forall|i: int, j: int|
            0 <= i < head.len() && 0 <= j < tail.len() implies head[i] < tail[j] by {
            let a = choose|a: int|
                0 <= a < packages.drop_first().len() && resid_package(tail[j])
                    == packages.drop_first()[a].id;
            assert(packages.drop_first()[a] == packages[a + 1]);
            assert(packages[0].id < packages[a + 1].id);
            lemma_resid_order(head[i], tail[j]);
        }
        let whole = table_resids(packages);
        assert(whole == head + tail);
        assert forall|k: int| 0 <= k < whole.len() implies exists|a: int|
            0 <= a < packages.len() && resid_package(#[trigger] whole[k]) == packages[a].id by {
            if k < head.len() {
                assert(resid_package(whole[k]) == packages[0].id);
            } else {
                assert(whole[k] == tail[k - head.len()]);
                let a = choose|a: int|
                    0 <= a < packages.drop_first().len() && resid_package(tail[k - head.len()])
                        == packages.drop_first()[a].id;
                assert(packages.drop_first()[a] == packages[a + 1]);
                assert(resid_package(whole[k]) == packages[a + 1].id);
            }
        }
        assert forall|i: int, j: int| 0 <= i < j < whole.len() implies whole[i] < whole[j] by {
            if j < head.len() {
                assert(whole[i] == head[i] && whole[j] == head[j]);
            } else if i >= head.len() {
                assert(whole[i] == tail[i - head.len()] && whole[j] == tail[j - head.len()]);
            } else {
                assert(whole[i] == head[i] && whole[j] == tail[j - head.len()]);
            }
        }
    }
}

/// The identifier enumeration yields each identifier at most once and in
/// strictly ascending order, which by the monotonicity of the packing is
/// exactly ascending lexicographic `(package-id, type-id, entry-id)`
/// order.  This holds of every well-formed table whose packages stand in
/// strictly ascending package-id order; packages are kept in file order,
/// so a table whose packages are stored out of order is not covered.
pub proof fn lemma_resid_iter_ascending(t: TableV)
    requires
        table_wf(t),
        forall|a: int, b: int|
            0 <= a < b < t.packages.len() ==> t.packages[a].id < t.packages[b].id,
    ensures
        strictly_ascending(table_resids(t.packages)),
        forall|i: int, j: int|
            0 <= i < j < table_resids(t.packages).len() ==> resid_lex_lt(
                #[trigger] table_resids(t.packages)[i],
                #[trigger] table_resids(t.packages)[j],
            ),
{
    lemma_packages_block(t.packages);
    assert forall|i: int, j: int|
        0 <= i < j < table_resids(t.packages).len() implies resid_lex_lt(
        #[trigger] table_resids(t.packages)[i],
        #[trigger] table_resids(t.packages)[j],
    ) by {
        lemma_resid_order(table_resids(t.packages)[i], table_resids(t.packages)[j]);
    }
}

/// Whether the names and ids in a table are unambiguous: package names
/// and ids are pairwise distinct, and within each package so are type
/// names and ids, and within each type entry names and ids.
pub open spec fn table_unambiguous(t: TableV) -> bool {
    &&& forall|a: int, b: int|
        0 <= a < b < t.packages.len() ==> t.packages[a].name != t.packages[b].name
            && t.packages[a].id != t.packages[b].id
    &&& forall|a: int, i: int, j: int|
        0 <= a < t.packages.len() && 0 <= i < j < t.packages[a].types.len()
            ==> (#[trigger] t.packages[a].types[i]).name
            != (#[trigger] t.packages[a].types[j]).name && t.packages[a].types[i].id
            != t.packages[a].types[j].id
    &&& forall|a: int, b: int, i: int, j: int|
        0 <= a < t.packages.len() && 0 <= b < t.packages[a].types.len() && 0 <= i < j
            < t.packages[a].types[b].entries.len() ==> (#[trigger] t.packages[a].types[
            b
        ].entries[i]).name != (#[trigger] t.packages[a].types[b].entries[j]).name
            && t.packages[a].types[b].entries[i].id != t.packages[a].types[b].entries[j].id
}

/// Round trip from names to identifier and back: in an unambiguous table,
/// whenever a name triple resolves to an identifier, looking that
/// identifier up returns the same triple.
pub proof fn lemma_name_to_id_round_trip(
    t: TableV,
    package_name: Seq<char>,
    typ_name: Seq<char>,
    entry_name: Seq<char>,
    id: u32,
)
    requires
        table_unambiguous(t),
        spec_resid_for_name(t, package_name, typ_name, entry_name) == Some(id),
    ensures
        spec_name_for_resid(t, id) == Some((package_name, typ_name, entry_name)),
{
    let ppred = |pk: PackageV| pk.name == package_name;
    lemma_find_first_props(t.packages, ppred);
    let pk = find_first(t.packages, ppred)->Some_0;
    let a = choose|a: int| 0 <= a < t.packages.len() && t.packages[a] == pk;
    let tpred = |tv: TypeV| tv.name == typ_name;
    lemma_find_first_props(pk.types, tpred);
    let tv = find_first(pk.types, tpred)->Some_0;
    let b = choose|b: int| 0 <= b < pk.types.len() && pk.types[b] == tv;
    let epred = |ev: EntryV| ev.name == entry_name;
    lemma_find_first_props(tv.entries, epred);
    let ev = find_first(tv.entries, epred)->Some_0;
    let c = choose|c: int| 0 <= c < tv.entries.len() && tv.entries[c] == ev;
    assert(id == pack_resid(pk.id, tv.id, ev.id));
    lemma_resid_round_trip(pk.id, tv.id, ev.id, 0);
    let pidpred = |pk2: PackageV| pk2.id == resid_package(id);
    assert forall|j: int| 0 <= j < t.packages.len() && j != a implies !pidpred(
        #[trigger] t.packages[j],
    ) by {
        if j < a {
            assert(t.packages[j].id != t.packages[a].id);
        } else {
            assert(t.packages[a].id != t.packages[j].id);
        }
    }
    lemma_find_first_at(t.packages, pidpred, a);
    let tidpred = |tv2: TypeV| tv2.id == resid_type(id);
    assert forall|j: int| 0 <= j < pk.types.len() && j != b implies !tidpred(
        #[trigger] pk.types[j],
    ) by {
        if j < b {
            assert(t.packages[a].types[j].id != t.packages[a].types[b].id);
        } else {
            assert(t.packages[a].types[b].id != t.packages[a].types[j].id);
        }
    }
    lemma_find_first_at(pk.types, tidpred, b);
    let eidpred = |ev2: EntryV| ev2.id == resid_entry(id);
    assert forall|j: int| 0 <= j < tv.entries.len() && j != c implies !eidpred(
        #[trigger] tv.entries[j],
    ) by {
        if j < c {
            assert(t.packages[a].types[b].entries[j].id != t.packages[a].types[b].entries[c].id);
        } else {
            assert(t.packages[a].types[b].entries[c].id != t.packages[a].types[b].entries[j].id);
        }
    }
    lemma_find_first_at(tv.entries, eidpred, c);
}

/// Round trip from identifier to names and back: in an unambiguous table,
/// whenever an identifier resolves to a name triple, looking that triple
/// up returns the same identifier.
pub proof fn lemma_id_to_name_round_trip(
    t: TableV,
    id: u32,
    package_name: Seq<char>,
    typ_name: Seq<char>,
    entry_name: Seq<char>,
)
    requires
        table_unambiguous(t),
        spec_name_for_resid(t, id) == Some((package_name, typ_name, entry_name)),
    ensures
        spec_resid_for_name(t, package_name, typ_name, entry_name) == Some(id),
{
    let pidpred = |pk: PackageV| pk.id == resid_package(id);
    lemma_find_first_props(t.packages, pidpred);
    let pk = find_first(t.packages, pidpred)->Some_0;
    let a = choose|a: int| 0 <= a < t.packages.len() && t.packages[a] == pk;
    let tidpred = |tv: TypeV| tv.id == resid_type(id);
    lemma_find_first_props(pk.types, tidpred);
    let tv = find_first(pk.types, tidpred)->Some_0;
    let b = choose|b: int| 0 <= b < pk.types.len() && pk.types[b] == tv;
    let eidpred = |ev: EntryV| ev.id == resid_entry(id);
    lemma_find_first_props(tv.entries, eidpred);
    let ev = find_first(tv.entries, eidpred)->Some_0;
    let c = choose|c: int| 0 <= c < tv.entries.len() && tv.entries[c] == ev;
    lemma_resid_round_trip(resid_package(id), resid_type(id), resid_entry(id), id);
    assert(pack_resid(pk.id, tv.id, ev.id) == id);
    let ppred = |pk2: PackageV| pk2.name == package_name;
    assert forall|j: int| 0 <= j < t.packages.len() && j != a implies !ppred(
        #[trigger] t.packages[j],
    ) by {
        if j < a {
            assert(t.packages[j].name != t.packages[a].name);
        } else {
            assert(t.packages[a].name != t.packages[j].name);
        }
    }
    lemma_find_first_at(t.packages, ppred, a);
    let tpred = |tv2: TypeV| tv2.name == typ_name;
    assert forall|j: int| 0 <= j < pk.types.len() && j != b implies !tpred(
        #[trigger] pk.types[j],
    ) by {
        if j < b {
            assert(t.packages[a].types[j].name != t.packages[a].types[b].name);
        } else {
            assert(t.packages[a].types[b].name != t.packages[a].types[j].name);
        }
    }
    lemma_find_first_at(pk.types, tpred, b);
    let epred = |ev2: EntryV| ev2.name == entry_name;
    assert forall|j: int| 0 <= j < tv.entries.len() && j != c implies !epred(
        #[trigger] tv.entries[j],
    ) by {
        if j < c {
            assert(t.packages[a].types[b].entries[j].name != t.packages[a].types[b].entries[
                c
            ].name);
        } else {
            assert(t.packages[a].types[b].entries[c].name != t.packages[a].types[b].entries[
                j
            ].name);
        }
    }
    lemma_find_first_at(tv.entries, epred, c);
}


} // verus!
