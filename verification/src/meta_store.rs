//! Schema and index metadata layout over the ordered store.
//!
//! The metastore owns three column families within a database: one for
//! schema records, one for schema-version pointer records, and one for
//! index declarations. Its authoritative in-memory model is the list of
//! collections it has written; the invariant ties each column family's
//! contents exactly to that list.

use vstd::prelude::*;
use crate::bytes::{dec_bytes, lemma_dec_bytes_val, bytes_eq, bytes_concat, u64_to_dec};
use crate::kv::{Kv, DBError, put_spec, find_spec, sorted_strict, lemma_put, lemma_put_members,
    lemma_find_contains, clone_bytes};
use crate::codec::{Collection, CollectionView, Schema, SchemaView, SchemaVersion,
    SchemaVersionView, Index, IndexView, enc_schema, enc_index, enc_schema_version,
    enc_collection, valid_collection, valid_schema, valid_schema_version, valid_index,
    encode_schema, encode_index, encode_schema_version, encode_collection};
use crate::schema;
use crate::db::CoreError;

verus! {

/// No byte of `s` is the separator `:`.
pub open spec fn colon_free(s: Seq<u8>) -> bool {
    forall|i: int| 0 <= i < s.len() ==> #[trigger] s[i] != 58
}

/// The storage key `<fqn>:<version>`.
pub open spec fn skey(fqn: Seq<u8>, ver: u64) -> Seq<u8> {
    fqn + seq![58u8] + dec_bytes(ver as nat)
}

/// For one version, the storage key determines the collection name.
pub proof fn lemma_skey_injective(f1: Seq<u8>, f2: Seq<u8>, ver: u64)
    requires
        skey(f1, ver) == skey(f2, ver),
    ensures
        f1 == f2,
{
    assert(skey(f1, ver).len() == f1.len() + 1 + dec_bytes(ver as nat).len());
    assert(skey(f2, ver).len() == f2.len() + 1 + dec_bytes(ver as nat).len());
    assert(f1.len() == f2.len());
    assert(f1 =~= f2) by {
        assert forall|i: int| 0 <= i < f1.len() implies f1[i] == f2[i] by {
            assert(skey(f1, ver)[i] == f1[i]);
            assert(skey(f2, ver)[i] == f2[i]);
        }
    }
}

/// An index with the version suffix appended to its schema id.
pub open spec fn rewritten_index(x: IndexView, ver: u64) -> IndexView {
    IndexView {
        index_id: x.index_id,
        schema_id: x.schema_id + seq![58u8] + dec_bytes(ver as nat),
        field_name: x.field_name,
        index_type: x.index_type,
    }
}

/// A collection with every index's schema id rewritten for `ver`.
pub open spec fn rewritten(cv: CollectionView, ver: u64) -> CollectionView {
    CollectionView {
        name: cv.name,
        full_name: cv.full_name,
        descriptor: cv.descriptor,
        fields: cv.fields,
        indexes: Seq::new(cv.indexes.len(), |i: int| rewritten_index(cv.indexes[i], ver)),
    }
}

/// The schema record stored for a collection at `ver`.
pub open spec fn schema_rec(cv: CollectionView, ver: u64) -> SchemaView {
    SchemaView {
        schema_id: cv.full_name,
        schema_version: ver,
        schema_definition: enc_collection(cv),
    }
}

/// The version-pointer record stored for a collection's first version.
pub open spec fn version_rec(cv: CollectionView, ver: u64) -> SchemaVersionView {
    SchemaVersionView { schema_id: cv.full_name, version_number: ver, is_current: true }
}

/// The latest collection in `cols` named `fqn`, if any.
pub open spec fn find_col(cols: Seq<CollectionView>, fqn: Seq<u8>) -> Option<CollectionView>
    decreases cols.len(),
{
    if cols.len() == 0 {
        None
    } else if cols.last().full_name == fqn {
        Some(cols.last())
    } else {
        find_col(cols.drop_last(), fqn)
    }
}

/// The schema column family holding exactly the records of `cols` at `ver`.
pub open spec fn schema_entries(cols: Seq<CollectionView>, ver: u64) -> Seq<(Seq<u8>, Seq<u8>)>
    decreases cols.len(),
{
    if cols.len() == 0 {
        Seq::empty()
    } else {
        put_spec(
            schema_entries(cols.drop_last(), ver),
            skey(cols.last().full_name, ver),
            enc_schema(schema_rec(cols.last(), ver)),
        )
    }
}

/// The schema-versions column family holding one current pointer per
/// collection of `cols`, all at version `ver`.
pub open spec fn version_entries(cols: Seq<CollectionView>, ver: u64) -> Seq<(Seq<u8>, Seq<u8>)>
    decreases cols.len(),
{
    if cols.len() == 0 {
        Seq::empty()
    } else {
        put_spec(
            version_entries(cols.drop_last(), ver),
            skey(cols.last().full_name, ver),
            enc_schema_version(version_rec(cols.last(), ver)),
        )
    }
}

/// One collection's index rows folded onto `s`.
pub open spec fn index_puts(s: Seq<(Seq<u8>, Seq<u8>)>, xs: Seq<IndexView>) -> Seq<
    (Seq<u8>, Seq<u8>),
>
    decreases xs.len(),
{
    if xs.len() == 0 {
        s
    } else {
        put_spec(index_puts(s, xs.drop_last()), xs.last().index_id, enc_index(xs.last()))
    }
}

/// The index column family holding the rewritten index rows of `cols`.
pub open spec fn index_entries(cols: Seq<CollectionView>, ver: u64) -> Seq<(Seq<u8>, Seq<u8>)>
    decreases cols.len(),
{
    if cols.len() == 0 {
        Seq::empty()
    } else {
        index_puts(index_entries(cols.drop_last(), ver), cols.last().indexes)
    }
}

pub proof fn lemma_schema_entries_sorted(cols: Seq<CollectionView>, ver: u64)
    ensures
        sorted_strict(schema_entries(cols, ver)),
        sorted_strict(version_entries(cols, ver)),
    decreases cols.len(),
{
    if cols.len() > 0 {
        lemma_schema_entries_sorted(cols.drop_last(), ver);
        lemma_put(
            schema_entries(cols.drop_last(), ver),
            skey(cols.last().full_name, ver),
            enc_schema(schema_rec(cols.last(), ver)),
        );
        lemma_put(
            version_entries(cols.drop_last(), ver),
            skey(cols.last().full_name, ver),
            enc_schema_version(version_rec(cols.last(), ver)),
        );
    }
}

pub proof fn lemma_index_puts_sorted(s: Seq<(Seq<u8>, Seq<u8>)>, xs: Seq<IndexView>)
    requires
        sorted_strict(s),
    ensures
        sorted_strict(index_puts(s, xs)),
    decreases xs.len(),
{
    if xs.len() > 0 {
        lemma_index_puts_sorted(s, xs.drop_last());
        lemma_put(index_puts(s, xs.drop_last()), xs.last().index_id, enc_index(xs.last()));
    }
}

pub proof fn lemma_index_entries_sorted(cols: Seq<CollectionView>, ver: u64)
    ensures
        sorted_strict(index_entries(cols, ver)),
    decreases cols.len(),
{
    if cols.len() > 0 {
        lemma_index_entries_sorted(cols.drop_last(), ver);
        lemma_index_puts_sorted(index_entries(cols.drop_last(), ver), cols.last().indexes);
    }
}

/// Looking up a schema record is looking up the collection list.
pub proof fn lemma_find_schema_entries(cols: Seq<CollectionView>, ver: u64, fqn: Seq<u8>)
    ensures
        find_spec(schema_entries(cols, ver), skey(fqn, ver)) == (match find_col(cols, fqn) {
            Some(cv) => Some(enc_schema(schema_rec(cv, ver))),
            None => None::<Seq<u8>>,
        }),
    decreases cols.len(),
{
    if cols.len() == 0 {
    } else {
        lemma_schema_entries_sorted(cols.drop_last(), ver);
        lemma_put(
            schema_entries(cols.drop_last(), ver),
            skey(cols.last().full_name, ver),
            enc_schema(schema_rec(cols.last(), ver)),
        );
        if cols.last().full_name == fqn {
        } else {
            assert(skey(cols.last().full_name, ver) != skey(fqn, ver)) by {
                if skey(cols.last().full_name, ver) == skey(fqn, ver) {
                    lemma_skey_injective(cols.last().full_name, fqn, ver);
                }
            }
            lemma_find_schema_entries(cols.drop_last(), ver, fqn);
        }
    }
}

/// Membership in the schema column family: exactly the latest record of
/// each named collection.
pub proof fn lemma_schema_entries_members(cols: Seq<CollectionView>, ver: u64)
    ensures
        forall|e: (Seq<u8>, Seq<u8>)| #[trigger] schema_entries(cols, ver).contains(e) <==> (
        exists|fqn: Seq<u8>|
            #[trigger] find_col(cols, fqn) matches Some(cv) && e == (
                skey(fqn, ver),
                enc_schema(schema_rec(cv, ver)),
            )),
    decreases cols.len(),
{
    let s = schema_entries(cols, ver);
    if cols.len() == 0 {
        assert forall|e: (Seq<u8>, Seq<u8>)| !(#[trigger] s.contains(e)) by {
            assert(s.len() == 0);
        }
    } else {
        let pre = cols.drop_last();
        let last = cols.last();
        lemma_schema_entries_members(pre, ver);
        lemma_schema_entries_sorted(pre, ver);
        lemma_put_members(
            schema_entries(pre, ver),
            skey(last.full_name, ver),
            enc_schema(schema_rec(last, ver)),
        );
        assert forall|e: (Seq<u8>, Seq<u8>)| #[trigger] s.contains(e) implies (exists|
            fqn: Seq<u8>,
        |
            #[trigger] find_col(cols, fqn) matches Some(cv) && e == (
                skey(fqn, ver),
                enc_schema(schema_rec(cv, ver)),
            )) by {
            if e == (skey(last.full_name, ver), enc_schema(schema_rec(last, ver))) {
                assert(find_col(cols, last.full_name) == Some(last));
            } else {
                assert(schema_entries(pre, ver).contains(e) && e.0 != skey(last.full_name, ver));
                let fqn = choose|fqn: Seq<u8>|
                    #[trigger] find_col(pre, fqn) matches Some(cv) && e == (
                        skey(fqn, ver),
                        enc_schema(schema_rec(cv, ver)),
                    );
                assert(fqn != last.full_name) by {
                    if fqn == last.full_name {
                        assert(e.0 == skey(last.full_name, ver));
                    }
                }
                assert(find_col(cols, fqn) == find_col(pre, fqn));
            }
        }
        assert forall|fqn: Seq<u8>| #[trigger] find_col(cols, fqn) is Some implies s.contains(
            (skey(fqn, ver), enc_schema(schema_rec(find_col(cols, fqn)->Some_0, ver))),
        ) by {
            let cv = find_col(cols, fqn)->Some_0;
            if fqn == last.full_name {
                assert(cv == last);
            } else {
                assert(find_col(pre, fqn) == Some(cv));
                assert(schema_entries(pre, ver).contains(
                    (skey(fqn, ver), enc_schema(schema_rec(cv, ver))),
                ));
                assert(skey(fqn, ver) != skey(last.full_name, ver)) by {
                    if skey(fqn, ver) == skey(last.full_name, ver) {
                        lemma_skey_injective(fqn, last.full_name, ver);
                    }
                }
            }
        }
    }
}

} // verus!

verus! {

/// Column family names for schema, index, schema-version and user
/// metadata, and the name of the default database.
pub struct Config {
    pub schema_cf_name: Vec<u8>,
    pub index_cf_name: Vec<u8>,
    pub schema_versions_cf_name: Vec<u8>,
    pub user_cf_name: Vec<u8>,
    pub default_db: String,
}

impl Config {
    pub fn clone_cfg(&self) -> (r: Config)
        ensures
            r.schema_cf_name@ == self.schema_cf_name@,
            r.index_cf_name@ == self.index_cf_name@,
            r.schema_versions_cf_name@ == self.schema_versions_cf_name@,
            r.user_cf_name@ == self.user_cf_name@,
            r.default_db@ == self.default_db@,
    {
        Config {
            schema_cf_name: clone_bytes(&self.schema_cf_name),
            index_cf_name: clone_bytes(&self.index_cf_name),
            schema_versions_cf_name: clone_bytes(&self.schema_versions_cf_name),
            user_cf_name: clone_bytes(&self.user_cf_name),
            default_db: self.default_db.clone(),
        }
    }
}

/// Schema and index metadata over three column families, with the list
/// of collections written so far as its authoritative model.
pub struct MetaStore {
    pub(crate) schema_versions: Vec<u8>,
    pub(crate) index: Vec<u8>,
    pub(crate) schema: Vec<u8>,
    pub(crate) schema_config: schema::Config,
    collections: Vec<Collection>,
}

impl MetaStore {
    /// The collections stored, in creation order, with rewritten indexes.
    pub closed spec fn cols(self) -> Seq<CollectionView> {
        Seq::new(self.collections@.len(), |i: int| self.collections@[i]@)
    }

    pub closed spec fn versioned(self) -> bool {
        self.schema_config.enable_versioning
    }

    /// The version under which schema records are stored.
    pub closed spec fn store_ver(self) -> u64 {
        if self.schema_config.enable_versioning {
            1u64
        } else {
            self.schema_config.default_version
        }
    }

    pub closed spec fn schema_cf(self) -> Seq<u8> {
        self.schema@
    }

    pub closed spec fn index_cf(self) -> Seq<u8> {
        self.index@
    }

    pub closed spec fn versions_cf(self) -> Seq<u8> {
        self.schema_versions@
    }

    /// Every stored collection is valid, named without the separator,
    /// and each column family holds exactly the records of the model.
    pub open spec fn inv(self, kv: Kv) -> bool {
        &&& kv.wf()
        &&& kv.has_cf(self.schema_cf())
        &&& kv.has_cf(self.index_cf())
        &&& kv.has_cf(self.versions_cf())
        &&& self.schema_cf() != self.index_cf()
        &&& self.schema_cf() != self.versions_cf()
        &&& self.index_cf() != self.versions_cf()
        &&& forall|i: int|
            0 <= i < self.cols().len() ==> valid_collection(#[trigger] self.cols()[i])
                && colon_free(self.cols()[i].full_name) && enc_collection(
                self.cols()[i],
            ).len() <= u64::MAX
        &&& kv.cf_at(self.schema_cf()) == schema_entries(self.cols(), self.store_ver())
        &&& kv.cf_at(self.index_cf()) == index_entries(self.cols(), self.store_ver())
        &&& if self.versioned() {
            kv.cf_at(self.versions_cf()) == version_entries(self.cols(), self.store_ver())
        } else {
            kv.cf_at(self.versions_cf()) == Seq::<(Seq<u8>, Seq<u8>)>::empty()
        }
        &&& self.versioned() ==> unique_fqns(self.cols())
    }

    /// Nothing exists yet: `create_user` is reserved.
    pub fn create_user(&self) -> (r: Result<(), CoreError>)
        ensures
            r is Ok,
    {
        Ok(())
    }
}

/// The views of a vector of collections, in order.
pub open spec fn collections_view(s: Seq<Collection>) -> Seq<CollectionView> {
    Seq::new(s.len(), |i: int| s[i]@)
}

/// The condition under which materialization succeeds: the three family
/// names are pairwise distinct, every collection name is free of the
/// key separator, and (when versioning is on) no name repeats.
pub open spec fn buildable(
    schema_name: Seq<u8>,
    index_name: Seq<u8>,
    versions_name: Seq<u8>,
    versioned: bool,
    cols: Seq<CollectionView>,
) -> bool {
    &&& schema_name != index_name
    &&& schema_name != versions_name
    &&& index_name != versions_name
    &&& forall|i: int| 0 <= i < cols.len() ==> colon_free((#[trigger] cols[i]).full_name)
    &&& versioned ==> unique_fqns(cols)
}

/// No two collections share a full name.
pub open spec fn unique_fqns(cols: Seq<CollectionView>) -> bool {
    forall|i: int, j: int|
        0 <= i < j < cols.len() ==> (#[trigger] cols[i].full_name) != (
        #[trigger] cols[j].full_name)
}

/// Is `s` free of the separator byte?
pub fn check_colon_free(s: &Vec<u8>) -> (r: bool)
    ensures
        r == colon_free(s@),
{
    let mut i: usize = 0;
    while i < s.len()
        invariant
            i <= s@.len(),
            forall|j: int| 0 <= j < i ==> #[trigger] s@[j] != 58,
        decreases s@.len() - i,
    {
        if s[i] == 58 {
            return false;
        }
        i += 1;
    }
    true
}

/// A vector's length always fits the machine word.
pub proof fn lemma_vec_len_bound<T>(v: &Vec<T>)
    ensures
        v@.len() <= usize::MAX,
        v@.len() <= u64::MAX,
{
    broadcast use vstd::std_specs::vec::axiom_spec_len;

    assert(vstd::std_specs::vec::spec_vec_len(v) == v@.len());
    assert(usize::MAX <= u64::MAX);
}

/// Every view backed by in-memory vectors is a valid record.
pub proof fn lemma_collection_valid(c: &Collection)
    ensures
        valid_collection(c@),
{
    lemma_vec_len_bound(&c.name);
    lemma_vec_len_bound(&c.full_name);
    lemma_vec_len_bound(&c.descriptor);
    lemma_vec_len_bound(&c.fields);
    lemma_vec_len_bound(&c.indexes);
    assert forall|i: int| 0 <= i < c@.fields.len() implies crate::codec::valid_field(
        #[trigger] c@.fields[i],
    ) by {
        assert(c@.fields[i] == c.fields@[i]@);
        lemma_vec_len_bound(&c.fields@[i].name);
    }
    assert forall|i: int| 0 <= i < c@.indexes.len() implies valid_index(
        #[trigger] c@.indexes[i],
    ) by {
        assert(c@.indexes[i] == c.indexes@[i]@);
        lemma_vec_len_bound(&c.indexes@[i].index_id);
        lemma_vec_len_bound(&c.indexes@[i].schema_id);
        lemma_vec_len_bound(&c.indexes@[i].field_name);
    }
}

} // verus!

verus! {

/// Membership in the schema-versions column family: exactly the current
/// pointer of each named collection.
pub proof fn lemma_version_entries_members(cols: Seq<CollectionView>, ver: u64)
    ensures
        forall|e: (Seq<u8>, Seq<u8>)| #[trigger] version_entries(cols, ver).contains(e) <==> (
        exists|fqn: Seq<u8>|
            #[trigger] find_col(cols, fqn) matches Some(cv) && e == (
                skey(fqn, ver),
                enc_schema_version(version_rec(cv, ver)),
            )),
    decreases cols.len(),
{
    let s = version_entries(cols, ver);
    if cols.len() == 0 {
        assert forall|e: (Seq<u8>, Seq<u8>)| !(#[trigger] s.contains(e)) by {
            assert(s.len() == 0);
        }
    } else {
        let pre = cols.drop_last();
        let last = cols.last();
        lemma_version_entries_members(pre, ver);
        lemma_schema_entries_sorted(pre, ver);
        lemma_put_members(
            version_entries(pre, ver),
            skey(last.full_name, ver),
            enc_schema_version(version_rec(last, ver)),
        );
        assert forall|e: (Seq<u8>, Seq<u8>)| #[trigger] s.contains(e) implies (exists|
            fqn: Seq<u8>,
        |
            #[trigger] find_col(cols, fqn) matches Some(cv) && e == (
                skey(fqn, ver),
                enc_schema_version(version_rec(cv, ver)),
            )) by {
            if e == (skey(last.full_name, ver), enc_schema_version(version_rec(last, ver))) {
                assert(find_col(cols, last.full_name) == Some(last));
            } else {
                assert(version_entries(pre, ver).contains(e) && e.0 != skey(
                    last.full_name,
                    ver,
                ));
                let fqn = choose|fqn: Seq<u8>|
                    #[trigger] find_col(pre, fqn) matches Some(cv) && e == (
                        skey(fqn, ver),
                        enc_schema_version(version_rec(cv, ver)),
                    );
                assert(fqn != last.full_name) by {
                    if fqn == last.full_name {
                        assert(e.0 == skey(last.full_name, ver));
                    }
                }
                assert(find_col(cols, fqn) == find_col(pre, fqn));
            }
        }
        assert forall|fqn: Seq<u8>| #[trigger] find_col(cols, fqn) is Some implies s.contains(
            (skey(fqn, ver), enc_schema_version(version_rec(find_col(cols, fqn)->Some_0, ver))),
        ) by {
            let cv = find_col(cols, fqn)->Some_0;
            if fqn == last.full_name {
                assert(cv == last);
            } else {
                assert(find_col(pre, fqn) == Some(cv));
                assert(version_entries(pre, ver).contains(
                    (skey(fqn, ver), enc_schema_version(version_rec(cv, ver))),
                ));
                assert(skey(fqn, ver) != skey(last.full_name, ver)) by {
                    if skey(fqn, ver) == skey(last.full_name, ver) {
                        lemma_skey_injective(fqn, last.full_name, ver);
                    }
                }
            }
        }
    }
}

/// Two encodings of version rows agree only if the rows agree.
pub proof fn lemma_enc_sv_injective(r1: SchemaVersionView, r2: SchemaVersionView)
    requires
        valid_schema_version(r1),
        valid_schema_version(r2),
        enc_schema_version(r1) == enc_schema_version(r2),
    ensures
        r1 == r2,
{
    let buf = enc_schema_version(r1);
    crate::codec::lemma_sv_parts(buf, r1);
    crate::codec::lemma_sv_parts(buf, r2);
    assert(r1.schema_id.len() == r2.schema_id.len());
    assert(r1.schema_id == r2.schema_id);
    crate::codec::lemma_pow256_8();
    assert(r1.version_number == r2.version_number);
    assert(r1.is_current == r2.is_current);
}

/// At any time, at most one version row per collection is current: two
/// rows of the schema-versions family that are both current for the
/// same collection are one and the same entry.
pub proof fn lemma_at_most_one_current(
    cols: Seq<CollectionView>,
    ver: u64,
    e1: (Seq<u8>, Seq<u8>),
    e2: (Seq<u8>, Seq<u8>),
    r1: SchemaVersionView,
    r2: SchemaVersionView,
)
    requires
        forall|i: int| 0 <= i < cols.len() ==> (#[trigger] cols[i].full_name).len() <= u64::MAX,
        version_entries(cols, ver).contains(e1),
        version_entries(cols, ver).contains(e2),
        valid_schema_version(r1),
        valid_schema_version(r2),
        e1.1 == enc_schema_version(r1),
        e2.1 == enc_schema_version(r2),
        r1.is_current,
        r2.is_current,
        r1.schema_id == r2.schema_id,
    ensures
        e1 == e2,
{
    lemma_version_entries_members(cols, ver);
    let f1 = choose|fqn: Seq<u8>|
        #[trigger] find_col(cols, fqn) matches Some(cv) && e1 == (
            skey(fqn, ver),
            enc_schema_version(version_rec(cv, ver)),
        );
    let f2 = choose|fqn: Seq<u8>|
        #[trigger] find_col(cols, fqn) matches Some(cv) && e2 == (
            skey(fqn, ver),
            enc_schema_version(version_rec(cv, ver)),
        );
    let c1 = find_col(cols, f1)->Some_0;
    let c2 = find_col(cols, f2)->Some_0;
    lemma_find_col_index(cols, f1);
    lemma_find_col_index(cols, f2);
    lemma_vrec_valid(c1, ver);
    lemma_vrec_valid(c2, ver);
    lemma_enc_sv_injective(r1, version_rec(c1, ver));
    lemma_enc_sv_injective(r2, version_rec(c2, ver));
    lemma_find_col_name(cols, f1);
    lemma_find_col_name(cols, f2);
    assert(f1 == r1.schema_id);
    assert(f2 == r2.schema_id);
}

/// A found collection stands somewhere in the list.
pub proof fn lemma_find_col_index(cols: Seq<CollectionView>, fqn: Seq<u8>)
    ensures
        find_col(cols, fqn) matches Some(cv) ==> exists|i: int|
            0 <= i < cols.len() && #[trigger] cols[i] == cv,
    decreases cols.len(),
{
    if cols.len() > 0 {
        if cols.last().full_name == fqn {
            assert(cols[cols.len() - 1] == cols.last());
        } else {
            lemma_find_col_index(cols.drop_last(), fqn);
            if find_col(cols.drop_last(), fqn) is Some {
                let cv = find_col(cols.drop_last(), fqn)->Some_0;
                let i = choose|i: int| 0 <= i < cols.drop_last().len() && #[trigger] cols.drop_last()[i] == cv;
                assert(cols[i] == cv);
            }
        }
    }
}

pub proof fn lemma_find_col_name(cols: Seq<CollectionView>, fqn: Seq<u8>)
    ensures
        find_col(cols, fqn) matches Some(cv) ==> cv.full_name == fqn,
    decreases cols.len(),
{
    if cols.len() > 0 && cols.last().full_name != fqn {
        lemma_find_col_name(cols.drop_last(), fqn);
    }
}

pub proof fn lemma_vrec_valid(cv: CollectionView, ver: u64)
    requires
        cv.full_name.len() <= u64::MAX,
    ensures
        valid_schema_version(version_rec(cv, ver)),
{
}

impl MetaStore {
    pub fn is_versioned(&self) -> (r: bool)
        ensures
            r == self.versioned(),
    {
        self.schema_config.enable_versioning
    }

    pub fn schema_cf_bytes(&self) -> (r: Vec<u8>)
        ensures
            r@ == self.schema_cf(),
    {
        clone_bytes(&self.schema)
    }

    pub fn versions_cf_bytes(&self) -> (r: Vec<u8>)
        ensures
            r@ == self.versions_cf(),
    {
        clone_bytes(&self.schema_versions)
    }

    pub fn store_version(&self) -> (r: u64)
        ensures
            r == self.store_ver(),
    {
        if self.schema_config.enable_versioning {
            1u64
        } else {
            self.schema_config.default_version
        }
    }

    /// Find the latest stored collection named `fqn`, if any.
    fn find_collection_at(&self, fqn: &Vec<u8>) -> (r: Option<usize>)
        ensures
            match r {
                Some(i) => i < self.collections@.len() && find_col(self.cols(), fqn@) == Some(
                    self.cols()[i as int],
                ),
                None => find_col(self.cols(), fqn@) is None,
            },
    {
        let mut i: usize = self.collections.len();
        proof {
            assert(self.cols().take(i as int) =~= self.cols());
        }
        while i > 0
            invariant
                i <= self.collections@.len(),
                find_col(self.cols(), fqn@) == find_col(self.cols().take(i as int), fqn@),
            decreases i,
        {
            i -= 1;
            proof {
                assert(self.cols().take(i + 1).last() == self.cols()[i as int]);
                assert(self.cols().take(i + 1).drop_last() =~= self.cols().take(i as int));
            }
            if bytes_eq(&self.collections[i].full_name, fqn) {
                assert(self.cols()[i as int].full_name == fqn@);
                return Some(i);
            }
            assert(self.cols()[i as int].full_name != fqn@);
        }
        assert(self.cols().take(0) =~= Seq::<CollectionView>::empty());
        None
    }

    /// Rewrite the collection's index schema ids with the version suffix
    /// and write its schema record, index rows, and (in versioned mode)
    /// its current-version pointer row.
    fn store_collection(&mut self, kv: &mut Kv, c: Collection) -> (r: Schema)
        requires
            old(self).inv(*old(kv)),
            colon_free(c@.full_name),
            old(self).versioned() ==> find_col(old(self).cols(), c@.full_name) is None,
        ensures
            final(self).inv(*final(kv)),
            final(self).schema_cf() == old(self).schema_cf(),
            final(self).index_cf() == old(self).index_cf(),
            final(self).versions_cf() == old(self).versions_cf(),
            final(self).versioned() == old(self).versioned(),
            final(self).store_ver() == old(self).store_ver(),
            final(self).cols() == old(self).cols().push(
                rewritten(c@, old(self).store_ver()),
            ),
            r@ == schema_rec(rewritten(c@, old(self).store_ver()), old(self).store_ver()),
            forall|n: Seq<u8>| #[trigger] final(kv).has_cf(n) == old(kv).has_cf(n),
            forall|n: Seq<u8>|
                n != old(self).schema_cf() && n != old(self).index_cf() && n != old(
                    self,
                ).versions_cf() && old(kv).has_cf(n) ==> #[trigger] final(kv).cf_at(n) == old(
                    kv,
                ).cf_at(n),
    {
        let ver = self.store_version();
        let ghost oldcols = self.cols();
        let ghost oldkv = *kv;
        // Rewrite the index schema ids.
        let mut rw_indexes: Vec<Index> = Vec::new();
        let mut i: usize = 0;
        while i < c.indexes.len()
            invariant
                i <= c.indexes@.len(),
                ver == self.store_ver(),
                rw_indexes@.len() == i,
                forall|j: int|
                    0 <= j < i ==> (#[trigger] rw_indexes@[j])@ == rewritten_index(
                        c.indexes@[j]@,
                        ver,
                    ),
            decreases c.indexes@.len() - i,
        {
            let x = &c.indexes[i];
            let rx = Index {
                index_id: clone_bytes(&x.index_id),
                schema_id: crate::db::make_schema_key(&x.schema_id, &ver),
                field_name: clone_bytes(&x.field_name),
                index_type: x.index_type,
            };
            rw_indexes.push(rx);
            i += 1;
        }
        let rw = Collection {
            name: c.name,
            full_name: c.full_name,
            descriptor: c.descriptor,
            fields: c.fields,
            indexes: rw_indexes,
        };
        proof {
            assert(rw@ =~= rewritten(c@, ver)) by {
                assert(rw@.fields =~= c@.fields);
                assert(rw@.indexes =~= rewritten(c@, ver).indexes);
            }
            lemma_collection_valid(&rw);
        }
        let def = encode_collection(&rw);
        let schema = Schema {
            schema_id: clone_bytes(&rw.full_name),
            schema_version: ver,
            schema_definition: def,
        };
        let key = crate::db::make_schema_key(&rw.full_name, &ver);
        let enc = encode_schema(&schema);
        let put1 = kv.put(&self.schema, key, enc);
        match put1 {
            Ok(()) => {},
            Err(_) => {
                proof {
                    assert(false);
                }
            },
        }
        proof {
            assert(kv.cf_at(self.schema@) == put_spec(
                schema_entries(oldcols, ver),
                skey(rw@.full_name, ver),
                enc_schema(schema_rec(rw@, ver)),
            ));
        }
        // Write the index rows.
        let ghost base_index = kv.cf_at(self.index@);
        let mut k: usize = 0;
        while k < rw.indexes.len()
            invariant
                k <= rw.indexes@.len(),
                kv.wf(),
                ver == self.store_ver(),
                kv.has_cf(self.index@),
                kv.cf_at(self.index@) == index_puts(
                    index_entries(oldcols, ver),
                    rw@.indexes.take(k as int),
                ),
                forall|n: Seq<u8>| #[trigger] kv.has_cf(n) == old(kv).has_cf(n),
                forall|n: Seq<u8>|
                    n != self.index@ && kv.has_cf(n) ==> #[trigger] kv.cf_at(n) == (
                    if n == self.schema@ {
                        put_spec(
                            schema_entries(oldcols, ver),
                            skey(rw@.full_name, ver),
                            enc_schema(schema_rec(rw@, ver)),
                        )
                    } else {
                        oldkv.cf_at(n)
                    }),
            decreases rw.indexes@.len() - k,
        {
            proof {
                assert(rw@.indexes.take(k + 1).drop_last() =~= rw@.indexes.take(k as int));
                assert(rw@.indexes.take(k + 1).last() == rw@.indexes[k as int]);
            }
            let x = &rw.indexes[k];
            let xid = clone_bytes(&x.index_id);
            let xenc = encode_index(x);
            let put2 = kv.put(&self.index, xid, xenc);
            match put2 {
                Ok(()) => {},
                Err(_) => {
                    proof {
                        assert(false);
                    }
                },
            }
            k += 1;
        }
        proof {
            assert(rw@.indexes.take(rw.indexes@.len() as int) =~= rw@.indexes);
        }
        // In versioned mode, record the current version pointer.
        if self.schema_config.enable_versioning {
            let vrow = SchemaVersion {
                schema_id: clone_bytes(&rw.full_name),
                version_number: ver,
                is_current: true,
            };
            let vkey = crate::db::make_schema_key(&rw.full_name, &ver);
            let venc = encode_schema_version(&vrow);
            let put3 = kv.put(&self.schema_versions, vkey, venc);
            match put3 {
                Ok(()) => {},
                Err(_) => {
                    proof {
                        assert(false);
                    }
                },
            }
        }
        let ghost oldself = *self;
        self.collections.push(rw);
        proof {
            assert(self.cols() =~= oldcols.push(rewritten(c@, ver)));
            assert(self.cols().drop_last() =~= oldcols);
            assert(final(self).inv(*final(kv))) by {
                assert forall|ii: int| 0 <= ii < self.cols().len() implies valid_collection(
                    #[trigger] self.cols()[ii],
                ) && colon_free(self.cols()[ii].full_name) && enc_collection(
                    self.cols()[ii],
                ).len() <= u64::MAX by {
                    if ii < oldcols.len() {
                        assert(self.cols()[ii] == oldcols[ii]);
                    } else {
                        assert(self.cols()[ii] == rewritten(c@, ver));
                        lemma_vec_len_bound(&schema.schema_definition);
                        assert(schema@.schema_definition == enc_collection(rewritten(c@, ver)));
                    }
                }
                assert(kv.cf_at(self.schema@) == schema_entries(self.cols(), ver));
                assert(kv.cf_at(self.index@) == index_entries(self.cols(), ver));
                if self.schema_config.enable_versioning {
                    assert(kv.cf_at(self.schema_versions@) == version_entries(self.cols(), ver));
                    assert(unique_fqns(self.cols())) by {
                        assert forall|a: int, b: int| 0 <= a < b < self.cols().len() implies (
                        #[trigger] self.cols()[a].full_name) != (
                        #[trigger] self.cols()[b].full_name) by {
                            if b < oldcols.len() {
                                assert(oldcols[a] == self.cols()[a]);
                                assert(oldcols[b] == self.cols()[b]);
                            } else {
                                assert(self.cols()[b] == rewritten(c@, ver));
                                if self.cols()[a].full_name == c@.full_name {
                                    lemma_find_col_some(oldcols, a);
                                }
                            }
                        }
                    }
                } else {
                    assert(kv.cf_at(self.schema_versions@) =~= Seq::<(Seq<u8>, Seq<u8>)>::empty());
                }
            }
        }
        schema
    }
}

/// A name present at an index is found by `find_col`.
pub proof fn lemma_find_col_some(cols: Seq<CollectionView>, i: int)
    requires
        0 <= i < cols.len(),
    ensures
        find_col(cols, cols[i].full_name) is Some,
    decreases cols.len(),
{
    if cols.last().full_name == cols[i].full_name {
    } else {
        assert(i < cols.len() - 1);
        assert(cols.drop_last()[i] == cols[i]);
        lemma_find_col_some(cols.drop_last(), i);
    }
}

} // verus!

verus! {

impl MetaStore {
    /// The schema stored for a collection, rebuilt from the latest
    /// record written for it. In versioned mode, lookup by version is
    /// not yet supported and always fails.
    pub fn get_schema(&self, kv: &Kv, collection: &Vec<u8>) -> (r: Result<Schema, CoreError>)
        requires
            self.inv(*kv),
        ensures
            self.versioned() ==> r is Err,
            !self.versioned() ==> match r {
                Ok(s) => find_col(self.cols(), collection@) matches Some(cv) && s@ == schema_rec(
                    cv,
                    self.store_ver(),
                ),
                Err(e) => find_col(self.cols(), collection@) is None && (
                e matches CoreError::SchemaNotExists(n) && n@ == collection@),
            },
    {
        if self.schema_config.enable_versioning {
            return Err(CoreError::Internal(msg_bytes("versioned schema lookup is not supported")));
        }
        let ver = self.store_version();
        match self.find_collection_at(collection) {
            Some(i) => {
                let c = &self.collections[i];
                let s = Schema {
                    schema_id: clone_bytes(&c.full_name),
                    schema_version: ver,
                    schema_definition: encode_collection(c),
                };
                proof {
                    lemma_find_col_name(self.cols(), collection@);
                }
                Ok(s)
            },
            None => {
                // The store agrees with the model: the record is absent.
                let key = crate::db::make_schema_key(collection, &ver);
                proof {
                    lemma_find_schema_entries(self.cols(), ver, collection@);
                }
                match kv.get(&self.schema, &key) {
                    Ok(None) => Err(CoreError::SchemaNotExists(clone_bytes(collection))),
                    Ok(Some(v)) => {
                        // Unreachable: the lookup above proved absence.
                        match crate::codec::decode_schema(&v) {
                            Some(s) => Ok(s),
                            None => Err(CoreError::SchemaNotExists(clone_bytes(collection))),
                        }
                    },
                    Err(_) => Err(CoreError::SchemaNotExists(clone_bytes(collection))),
                }
            },
        }
    }

    /// Write the schema of a new collection. In versioned mode an
    /// existing collection cannot be updated yet and fails; names
    /// holding the separator are rejected.
    pub fn create_schema(&mut self, kv: &mut Kv, collection_schema: Collection) -> (r: Result<
        Schema,
        CoreError,
    >)
        requires
            old(self).inv(*old(kv)),
        ensures
            final(self).inv(*final(kv)),
            final(self).schema_cf() == old(self).schema_cf(),
            final(self).index_cf() == old(self).index_cf(),
            final(self).versions_cf() == old(self).versions_cf(),
            final(self).versioned() == old(self).versioned(),
            final(self).store_ver() == old(self).store_ver(),
            forall|n: Seq<u8>| #[trigger] final(kv).has_cf(n) == old(kv).has_cf(n),
            forall|n: Seq<u8>|
                n != old(self).schema_cf() && n != old(self).index_cf() && n != old(
                    self,
                ).versions_cf() && old(kv).has_cf(n) ==> #[trigger] final(kv).cf_at(n) == old(
                    kv,
                ).cf_at(n),
            match r {
                Ok(s) => {
                    &&& colon_free(collection_schema@.full_name)
                    &&& (old(self).versioned() ==> find_col(
                        old(self).cols(),
                        collection_schema@.full_name,
                    ) is None)
                    &&& final(self).cols() == old(self).cols().push(
                        rewritten(collection_schema@, old(self).store_ver()),
                    )
                    &&& s@ == schema_rec(
                        rewritten(collection_schema@, old(self).store_ver()),
                        old(self).store_ver(),
                    )
                },
                Err(_) => {
                    &&& (!colon_free(collection_schema@.full_name) || (old(self).versioned()
                        && find_col(old(self).cols(), collection_schema@.full_name) is Some))
                    &&& *final(self) == *old(self)
                    &&& *final(kv) == *old(kv)
                },
            },
    {
        if !check_colon_free(&collection_schema.full_name) {
            return Err(CoreError::Internal(msg_bytes("invalid collection name")));
        }
        if self.schema_config.enable_versioning {
            match self.find_collection_at(&collection_schema.full_name) {
                Some(_) => {
                    // The schema update path is not yet defined.
                    return Err(
                        CoreError::Internal(msg_bytes("versioned schema update is not supported")),
                    );
                },
                None => {},
            }
        }
        Ok(self.store_collection(kv, collection_schema))
    }
}

/// The UTF-8 bytes of a failure message.
fn msg_bytes(s: &str) -> (r: Vec<u8>)
    ensures
        r@.len() == vstd::utf8::encode_utf8(s@).len(),
{
    vstd::string::StrSliceExecFns::as_bytes_vec(s)
}

impl Config {
    /// Materialize the metadata of the given collections: write each
    /// one's records into the (freshly created, still empty) metadata
    /// column families.
    pub fn build(self, kv: &mut Kv, collections: Vec<Collection>, schema: schema::Config) -> (r:
        Result<MetaStore, CoreError>)
        requires
            old(kv).wf(),
            old(kv).has_cf(self.schema_cf_name@),
            old(kv).has_cf(self.index_cf_name@),
            old(kv).has_cf(self.schema_versions_cf_name@),
            old(kv).cf_at(self.schema_cf_name@) == Seq::<(Seq<u8>, Seq<u8>)>::empty(),
            old(kv).cf_at(self.index_cf_name@) == Seq::<(Seq<u8>, Seq<u8>)>::empty(),
            old(kv).cf_at(self.schema_versions_cf_name@) == Seq::<(Seq<u8>, Seq<u8>)>::empty(),
        ensures
            final(kv).wf(),
            forall|n: Seq<u8>| #[trigger] final(kv).has_cf(n) == old(kv).has_cf(n),
            forall|n: Seq<u8>|
                n != self.schema_cf_name@ && n != self.index_cf_name@ && n
                    != self.schema_versions_cf_name@ && old(kv).has_cf(n)
                    ==> #[trigger] final(kv).cf_at(n) == old(kv).cf_at(n),
            match r {
                Ok(ms) => {
                    &&& ms.inv(*final(kv))
                    &&& ms.schema_cf() == self.schema_cf_name@
                    &&& ms.index_cf() == self.index_cf_name@
                    &&& ms.versions_cf() == self.schema_versions_cf_name@
                    &&& ms.versioned() == schema.enable_versioning
                    &&& ms.cols().len() == collections@.len()
                    &&& forall|i: int|
                        0 <= i < collections@.len() ==> #[trigger] ms.cols()[i] == rewritten(
                            collections@[i]@,
                            ms.store_ver(),
                        )
                },
                Err(_) => true,
            },
            buildable(
                self.schema_cf_name@,
                self.index_cf_name@,
                self.schema_versions_cf_name@,
                schema.enable_versioning,
                collections_view(collections@),
            ) ==> r is Ok,
    {
        if bytes_eq(&self.schema_cf_name, &self.index_cf_name) || bytes_eq(
            &self.schema_cf_name,
            &self.schema_versions_cf_name,
        ) || bytes_eq(&self.index_cf_name, &self.schema_versions_cf_name) {
            return Err(CoreError::Internal(msg_bytes("column family name collision")));
        }
        // Validate every collection up front so that the write loop
        // below cannot fail part-way through.
        let mut names_ok = true;
        let mut v: usize = 0;
        while v < collections.len()
            invariant
                v <= collections@.len(),
                names_ok ==> forall|j: int|
                    0 <= j < v ==> colon_free((#[trigger] collections@[j])@.full_name),
                !names_ok ==> exists|j: int|
                    0 <= j < collections@.len() && !colon_free(
                        (#[trigger] collections@[j])@.full_name,
                    ),
            decreases collections@.len() - v,
        {
            if !check_colon_free(&collections[v].full_name) {
                names_ok = false;
                assert(!colon_free(collections@[v as int]@.full_name));
            }
            v += 1;
        }
        let mut fresh_ok = true;
        if schema.enable_versioning {
            let mut a: usize = 0;
            while a < collections.len()
                invariant
                    a <= collections@.len(),
                    fresh_ok ==> forall|x: int, y: int|
                        0 <= x < y < collections@.len() && y < a ==> (
                        #[trigger] collections@[x])@.full_name != (
                        #[trigger] collections@[y])@.full_name,
                    !fresh_ok ==> exists|x: int, y: int|
                        0 <= x < y < collections@.len() && (
                        #[trigger] collections@[x])@.full_name == (
                        #[trigger] collections@[y])@.full_name,
                decreases collections@.len() - a,
            {
                let mut b: usize = 0;
                while b < a
                    invariant
                        b <= a < collections@.len(),
                        fresh_ok ==> forall|x: int, y: int|
                            0 <= x < y < collections@.len() && y < a ==> (
                            #[trigger] collections@[x])@.full_name != (
                            #[trigger] collections@[y])@.full_name,
                        fresh_ok ==> forall|x: int|
                            0 <= x < b ==> (#[trigger] collections@[x])@.full_name
                                != collections@[a as int]@.full_name,
                        !fresh_ok ==> exists|x: int, y: int|
                            0 <= x < y < collections@.len() && (
                            #[trigger] collections@[x])@.full_name == (
                            #[trigger] collections@[y])@.full_name,
                    decreases a - b,
                {
                    if bytes_eq(&collections[b].full_name, &collections[a].full_name) {
                        fresh_ok = false;
                        assert(collections@[b as int]@.full_name
                            == collections@[a as int]@.full_name);
                    }
                    b += 1;
                }
                a += 1;
            }
        }
        if !names_ok || !fresh_ok {
            proof {
                let cv = collections_view(collections@);
                if !names_ok {
                    let j = choose|j: int|
                        0 <= j < collections@.len() && !colon_free(
                            (#[trigger] collections@[j])@.full_name,
                        );
                    assert(cv[j].full_name == collections@[j]@.full_name);
                    assert(!colon_free(cv[j].full_name));
                }
                if !fresh_ok {
                    let (x, y) = choose|x: int, y: int|
                        0 <= x < y < collections@.len() && (
                        #[trigger] collections@[x])@.full_name == (
                        #[trigger] collections@[y])@.full_name;
                    assert(cv[x].full_name == collections@[x]@.full_name);
                    assert(cv[y].full_name == collections@[y]@.full_name);
                    assert(!unique_fqns(cv));
                }
            }
            return Err(CoreError::Internal(msg_bytes("invalid or duplicate collection name")));
        }
        let versioned = schema.enable_versioning;
        let mut ms = MetaStore {
            schema_versions: self.schema_versions_cf_name,
            index: self.index_cf_name,
            schema: self.schema_cf_name,
            schema_config: schema,
            collections: Vec::new(),
        };
        proof {
            assert(ms.cols() =~= Seq::<CollectionView>::empty());
            assert(schema_entries(ms.cols(), ms.store_ver()) =~= Seq::<(Seq<u8>, Seq<u8>)>::empty());
            assert(index_entries(ms.cols(), ms.store_ver()) =~= Seq::<(Seq<u8>, Seq<u8>)>::empty());
            assert(version_entries(ms.cols(), ms.store_ver()) =~= Seq::<(Seq<u8>, Seq<u8>)>::empty());
        }
        let ghost kv0 = *old(kv);
        proof {
            assert(kv0 == *kv);
        }
        let mut rest = collections;
        let mut done: usize = 0;
        let ghost allviews = collections_view(rest@);
        proof {
            lemma_vec_len_bound(&rest);
        }
        while rest.len() > 0
            invariant
                allviews.len() <= usize::MAX,
                done + rest@.len() == allviews.len(),
                ms.inv(*kv),
                ms.schema@ == self.schema_cf_name@,
                ms.index@ == self.index_cf_name@,
                ms.schema_versions@ == self.schema_versions_cf_name@,
                ms.versioned() == versioned,
                ms.cols().len() == done,
                forall|i: int|
                    0 <= i < done ==> #[trigger] ms.cols()[i] == rewritten(
                        allviews[i],
                        ms.store_ver(),
                    ),
                forall|i: int|
                    0 <= i < rest@.len() ==> (#[trigger] rest@[i])@ == allviews[done + i],
                forall|i: int| 0 <= i < allviews.len() ==> colon_free((#[trigger] allviews[i]).full_name),
                versioned ==> forall|x: int, y: int|
                    0 <= x < y < allviews.len() ==> (#[trigger] allviews[x]).full_name != (
                    #[trigger] allviews[y]).full_name,
                forall|n: Seq<u8>| #[trigger] kv.has_cf(n) == kv0.has_cf(n),
                forall|n: Seq<u8>|
                    n != ms.schema@ && n != ms.index@ && n != ms.schema_versions@ && kv0.has_cf(
                        n,
                    ) ==> #[trigger] kv.cf_at(n) == kv0.cf_at(n),
            decreases rest@.len(),
        {
            let c = rest.remove(0);
            proof {
                if versioned && find_col(ms.cols(), c@.full_name) is Some {
                    lemma_find_col_index(ms.cols(), c@.full_name);
                    let i = choose|i: int|
                        0 <= i < ms.cols().len() && #[trigger] ms.cols()[i] == find_col(
                            ms.cols(),
                            c@.full_name,
                        )->Some_0;
                    lemma_find_col_name(ms.cols(), c@.full_name);
                    assert(ms.cols()[i] == rewritten(allviews[i], ms.store_ver()));
                    assert(allviews[i].full_name == c@.full_name);
                    assert(false);
                }
            }
            match ms.create_schema(kv, c) {
                Ok(_) => {},
                Err(e) => {
                    // Validation above rules out every failure reason.
                    proof {
                        assert(false);
                    }
                    return Err(e);
                },
            }
            done += 1;
        }
        Ok(ms)
    }
}

} // verus!
