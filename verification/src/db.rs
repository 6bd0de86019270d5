//! Per-database record storage: key construction and parsing, and the
//! database instance over the ordered store.

use vstd::prelude::*;
use crate::bytes::{dec_bytes, all_digits, digits_val, lemma_dec_bytes_val, bytes_concat,
    parse_dec_u64, u64_to_dec, bytes_eq, lemma_digits_val_monotone};
use crate::meta_store::{skey, colon_free};
pub use crate::kv::DBError;

verus! {

/// Core-layer failures of record and schema operations.
#[derive(Debug, Clone, PartialEq, Eq)]
pub enum CoreError {
    /// No schema is stored for the named collection.
    SchemaNotExists(Vec<u8>),
    /// A record with this key already exists in the collection.
    KeyAlreadyExists(Vec<u8>, Vec<u8>),
    /// An internal invariant of the store was broken by the request.
    Internal(Vec<u8>),
}

/// The position of the first `:` in `key`, if any.
pub open spec fn first_colon(key: Seq<u8>) -> Option<int>
    decreases key.len(),
{
    if key.len() == 0 {
        None
    } else if key[0] == 58 {
        Some(0)
    } else {
        match first_colon(key.skip(1)) {
            Some(i) => Some(i + 1),
            None => None,
        }
    }
}

/// `key` split at its only colon: defined when the key holds exactly one.
pub open spec fn split2(key: Seq<u8>) -> Option<(Seq<u8>, Seq<u8>)> {
    match first_colon(key) {
        None => None,
        Some(i) => {
            if colon_free(key.skip(i + 1)) {
                Some((key.take(i), key.skip(i + 1)))
            } else {
                None
            }
        },
    }
}

pub proof fn lemma_first_colon_range(key: Seq<u8>)
    ensures
        match first_colon(key) {
            Some(i) => 0 <= i < key.len() && key[i] == 58 && colon_free(key.take(i)),
            None => colon_free(key),
        },
    decreases key.len(),
{
    if key.len() == 0 {
    } else if key[0] == 58 {
        assert(colon_free(key.take(0)));
    } else {
        lemma_first_colon_range(key.skip(1));
        match first_colon(key.skip(1)) {
            Some(i) => {
                assert(key.skip(1)[i] == key[i + 1]);
                assert(colon_free(key.take(i + 1))) by {
                    assert forall|j: int| 0 <= j < i + 1 implies #[trigger] key.take(i + 1)[j]
                        != 58 by {
                        if j > 0 {
                            assert(key.skip(1).take(i)[j - 1] == key[j]);
                        }
                    }
                }
            },
            None => {
                assert forall|j: int| 0 <= j < key.len() implies #[trigger] key[j] != 58 by {
                    if j > 0 {
                        assert(key.skip(1)[j - 1] == key[j]);
                    }
                }
            },
        }
    }
}

/// The storage key of a colon-free name splits back into its parts.
pub proof fn lemma_split2_skey(fqn: Seq<u8>, ver: u64)
    requires
        colon_free(fqn),
    ensures
        split2(skey(fqn, ver)) == Some((fqn, dec_bytes(ver as nat))),
    decreases fqn.len(),
{
    let k = skey(fqn, ver);
    lemma_dec_bytes_val(ver as nat);
    if fqn.len() == 0 {
        assert(k[0] == 58);
        assert(first_colon(k) == Some(0int));
        assert(k.skip(1) =~= dec_bytes(ver as nat));
        assert(colon_free(k.skip(1))) by {
            assert forall|j: int| 0 <= j < k.skip(1).len() implies #[trigger] k.skip(1)[j]
                != 58 by {
                assert(48 <= dec_bytes(ver as nat)[j] <= 57);
            }
        }
        assert(k.take(0) =~= fqn);
    } else {
        assert(k[0] == fqn[0]);
        assert(k[0] != 58);
        let k2 = skey(fqn.skip(1), ver);
        assert(k.skip(1) =~= k2);
        assert(colon_free(fqn.skip(1))) by {
            assert forall|j: int| 0 <= j < fqn.skip(1).len() implies #[trigger] fqn.skip(1)[j]
                != 58 by {
                assert(fqn.skip(1)[j] == fqn[j + 1]);
            }
        }
        lemma_split2_skey(fqn.skip(1), ver);
        let i2 = first_colon(k2)->Some_0;
        lemma_first_colon_range(k2);
        assert(k2.take(i2) == fqn.skip(1));
        assert(k2.take(i2).len() == i2);
        assert(i2 == fqn.len() - 1);
        assert(first_colon(k) == Some(i2 + 1));
        assert(k.skip(1).skip(i2 + 1) =~= k.skip(i2 + 2));
        assert(k2.skip(i2 + 1) == k.skip(1).skip(i2 + 1));
        assert(k.skip(i2 + 2) =~= dec_bytes(ver as nat));
        assert(colon_free(k.skip(i2 + 2))) by {
            assert forall|j: int| 0 <= j < k.skip(i2 + 2).len() implies #[trigger] k.skip(
                i2 + 2,
            )[j] != 58 by {
                assert(48 <= dec_bytes(ver as nat)[j] <= 57);
            }
        }
        assert(k.take(i2 + 1) =~= fqn) by {
            assert forall|j: int| 0 <= j < i2 + 1 implies #[trigger] k.take(i2 + 1)[j]
                == fqn[j] by {
                assert(k[j] == (fqn + seq![58u8] + dec_bytes(ver as nat))[j]);
            }
        }
    }
}

/// Build the storage key `<schema_id>:<version>`.
pub fn make_schema_key(schema_id: &Vec<u8>, version: &u64) -> (r: Vec<u8>)
    ensures
        r@ == skey(schema_id@, *version),
{
    let mut sep: Vec<u8> = Vec::new();
    sep.push(58u8);
    let head = bytes_concat(schema_id, &sep);
    let tail = u64_to_dec(*version);
    let r = bytes_concat(&head, &tail);
    assert(r@ =~= skey(schema_id@, *version));
    r
}

/// Find the first colon of `key`, if any.
fn find_colon(key: &Vec<u8>) -> (r: Option<usize>)
    ensures
        match r {
            Some(i) => first_colon(key@) == Some(i as int),
            None => first_colon(key@) is None,
        },
{
    let mut i: usize = 0;
    while i < key.len()
        invariant
            i <= key@.len(),
            forall|j: int| 0 <= j < i ==> #[trigger] key@[j] != 58,
        decreases key@.len() - i,
    {
        if key[i] == 58 {
            proof {
                lemma_first_colon_skip(key@, i as int);
            }
            return Some(i);
        }
        i += 1;
    }
    proof {
        lemma_first_colon_none(key@);
    }
    None
}

/// If the bytes before `i` hold no colon and `key[i]` is one, the first
/// colon is at `i`.
pub proof fn lemma_first_colon_skip(key: Seq<u8>, i: int)
    requires
        0 <= i < key.len(),
        key[i] == 58,
        forall|j: int| 0 <= j < i ==> #[trigger] key[j] != 58,
    ensures
        first_colon(key) == Some(i),
    decreases i,
{
    if i == 0 {
    } else {
        assert forall|j: int| 0 <= j < i - 1 implies #[trigger] key.skip(1)[j] != 58 by {
            assert(key.skip(1)[j] == key[j + 1]);
        }
        assert(key.skip(1)[i - 1] == key[i]);
        lemma_first_colon_skip(key.skip(1), i - 1);
    }
}

pub proof fn lemma_first_colon_none(key: Seq<u8>)
    requires
        colon_free(key),
    ensures
        first_colon(key) is None,
    decreases key.len(),
{
    if key.len() > 0 {
        assert forall|j: int| 0 <= j < key.skip(1).len() implies #[trigger] key.skip(1)[j]
            != 58 by {
            assert(key.skip(1)[j] == key[j + 1]);
        }
        lemma_first_colon_none(key.skip(1));
    }
}

/// Split a storage key into its collection name and version number.
/// Fails unless the key holds exactly one colon followed by a decimal
/// version that fits in 64 bits.
pub fn parse_schema_version_id(key: &Vec<u8>) -> (r: Result<(Vec<u8>, u64), CoreError>)
    ensures
        match r {
            Ok((id, v)) => split2(key@) matches Some(p) && p.0 == id@ && all_digits(p.1)
                && p.1.len() > 0 && digits_val(p.1) == v as nat,
            Err(_) => split2(key@) matches Some(p) ==> (!all_digits(p.1) || p.1.len() == 0
                || digits_val(p.1) > u64::MAX),
        },
{
    let i = match find_colon(key) {
        None => {
            return Err(CoreError::Internal(key_parse_message()));
        },
        Some(i) => i,
    };
    proof {
        lemma_first_colon_range(key@);
    }
    assert(i < key.len());
    // The suffix must hold no further colon.
    let mut j: usize = i + 1;
    let mut suffix: Vec<u8> = Vec::new();
    while j < key.len()
        invariant
            i < j <= key@.len(),
            first_colon(key@) == Some(i as int),
            suffix@ == key@.subrange(i + 1, j as int),
            colon_free(suffix@),
        decreases key@.len() - j,
    {
        if key[j] == 58 {
            proof {
                assert(key@.skip(i + 1)[j - i - 1] == key@[j as int]);
                assert(!colon_free(key@.skip(i + 1)));
            }
            return Err(CoreError::Internal(key_parse_message()));
        }
        suffix.push(key[j]);
        assert(suffix@ =~= key@.subrange(i + 1, j + 1));
        j += 1;
    }
    proof {
        assert(suffix@ =~= key@.skip(i + 1));
        lemma_first_colon_range(key@);
    }
    let v = match parse_dec_u64(&suffix) {
        None => {
            return Err(CoreError::Internal(key_parse_message()));
        },
        Some(v) => v,
    };
    let mut id: Vec<u8> = Vec::new();
    let mut m: usize = 0;
    while m < i
        invariant
            m <= i <= key@.len(),
            id@ == key@.take(m as int),
        decreases i - m,
    {
        id.push(key[m]);
        assert(id@ =~= key@.take(m + 1));
        m += 1;
    }
    assert(id@ =~= key@.take(i as int));
    Ok((id, v))
}

/// Split a storage key and return only the collection name part.
pub fn parse_schema_id_from_key(key: &Vec<u8>) -> (r: Result<Vec<u8>, CoreError>)
    ensures
        match r {
            Ok(id) => split2(key@) matches Some(p) && p.0 == id@ && all_digits(p.1) && p.1.len()
                > 0 && digits_val(p.1) <= u64::MAX,
            Err(_) => split2(key@) matches Some(p) ==> (!all_digits(p.1) || p.1.len() == 0
                || digits_val(p.1) > u64::MAX),
        },
{
    match parse_schema_version_id(key) {
        Ok((id, _)) => Ok(id),
        Err(e) => Err(e),
    }
}

/// The UTF-8 bytes of a failure message.
fn msg_bytes(s: &str) -> (r: Vec<u8>)
    ensures
        r@.len() == vstd::utf8::encode_utf8(s@).len(),
{
    vstd::string::StrSliceExecFns::as_bytes_vec(s)
}

/// The message carried by key-parse failures.
fn key_parse_message() -> (r: Vec<u8>)
    ensures
        r@.len() > 0,
{
    let mut r: Vec<u8> = Vec::new();
    // "bad key"
    r.push(98u8);
    r.push(97u8);
    r.push(100u8);
    r.push(32u8);
    r.push(107u8);
    r.push(101u8);
    r.push(121u8);
    r
}

} // verus!

use crate::kv::{Kv, put_spec, find_spec, filter_prefix_spec, pairs_view, clone_bytes};
use crate::meta_store::{MetaStore, find_col, rewritten, schema_rec};
use crate::codec::{Collection, CollectionView, Schema, Index, IndexView, enc_collection,
    valid_collection, INDEX_TYPE_KEY, decode_collection};
use crate::pool::{Pool, collections_spec, decoded_key_field, build_collections,
    extract_key_field};
use crate::api::Any;
use crate::schema;
use vstd::string::StringExecFns;

verus! {

/// The position of the first occurrence of `b` in `s`, if any.
pub open spec fn first_at(s: Seq<u8>, b: u8) -> Option<int>
    decreases s.len(),
{
    if s.len() == 0 {
        None
    } else if s[0] == b {
        Some(0)
    } else {
        match first_at(s.skip(1), b) {
            Some(i) => Some(i + 1),
            None => None,
        }
    }
}

pub proof fn lemma_first_at(s: Seq<u8>, b: u8)
    ensures
        match first_at(s, b) {
            Some(i) => 0 <= i < s.len() && s[i] == b && (forall|j: int|
                0 <= j < i ==> #[trigger] s[j] != b),
            None => forall|j: int| 0 <= j < s.len() ==> #[trigger] s[j] != b,
        },
    decreases s.len(),
{
    if s.len() > 0 && s[0] != b {
        lemma_first_at(s.skip(1), b);
        match first_at(s.skip(1), b) {
            Some(i) => {
                assert(s.skip(1)[i] == s[i + 1]);
                assert forall|j: int| 0 <= j < i + 1 implies #[trigger] s[j] != b by {
                    if j > 0 {
                        assert(s.skip(1)[j - 1] == s[j]);
                    }
                }
            },
            None => {
                assert forall|j: int| 0 <= j < s.len() implies #[trigger] s[j] != b by {
                    if j > 0 {
                        assert(s.skip(1)[j - 1] == s[j]);
                    }
                }
            },
        }
    }
}

pub proof fn lemma_first_at_found(s: Seq<u8>, b: u8, i: int)
    requires
        0 <= i < s.len(),
        s[i] == b,
        forall|j: int| 0 <= j < i ==> #[trigger] s[j] != b,
    ensures
        first_at(s, b) == Some(i),
    decreases i,
{
    if i > 0 {
        assert forall|j: int| 0 <= j < i - 1 implies #[trigger] s.skip(1)[j] != b by {
            assert(s.skip(1)[j] == s[j + 1]);
        }
        assert(s.skip(1)[i - 1] == s[i]);
        lemma_first_at_found(s.skip(1), b, i - 1);
    }
}

pub fn find_at(v: &Vec<u8>, from: usize, b: u8) -> (r: Option<usize>)
    requires
        from <= v@.len(),
    ensures
        match r {
            Some(i) => from <= i && first_at(v@.skip(from as int), b) == Some(i - from),
            None => first_at(v@.skip(from as int), b) is None,
        },
{
    let mut i: usize = from;
    while i < v.len()
        invariant
            from <= i <= v@.len(),
            forall|j: int| from <= j < i ==> #[trigger] v@[j] != b,
        decreases v@.len() - i,
    {
        if v[i] == b {
            proof {
                assert(v@.skip(from as int)[i - from] == v@[i as int]);
                assert forall|j: int| 0 <= j < i - from implies #[trigger] v@.skip(
                    from as int,
                )[j] != b by {
                    assert(v@.skip(from as int)[j] == v@[from + j]);
                }
                lemma_first_at_found(v@.skip(from as int), b, i - from);
            }
            return Some(i);
        }
        i += 1;
    }
    proof {
        lemma_first_at(v@.skip(from as int), b);
        if first_at(v@.skip(from as int), b) is Some {
            let k = first_at(v@.skip(from as int), b)->Some_0;
            assert(v@.skip(from as int)[k] == v@[from + k]);
        }
    }
    None
}

/// The fully qualified type name carried by a type URL: the segment
/// between the first slash and the next (or the end).
pub open spec fn url_fqn(url: Seq<u8>) -> Option<Seq<u8>> {
    match first_at(url, 47) {
        None => None,
        Some(i) => {
            let rest = url.skip(i + 1);
            match first_at(rest, 47) {
                None => Some(rest),
                Some(j) => Some(rest.take(j)),
            }
        },
    }
}

/// Extract the type name from a type URL.
pub fn parse_type_url(url: &Vec<u8>) -> (r: Option<Vec<u8>>)
    ensures
        match r {
            Some(f) => url_fqn(url@) == Some(f@),
            None => url_fqn(url@) is None,
        },
{
    proof {
        assert(url@.skip(0) =~= url@);
    }
    let i = match find_at(url, 0, 47) {
        None => {
            return None;
        },
        Some(i) => i,
    };
    proof {
        lemma_first_at(url@, 47);
    }
    assert(i < url.len());
    let rest_start = i + 1;
    let end = match find_at(url, rest_start, 47) {
        None => url.len(),
        Some(j) => j,
    };
    proof {
        lemma_first_at(url@.skip(rest_start as int), 47);
    }
    assert(rest_start <= end && end <= url.len());
    let mut f: Vec<u8> = Vec::new();
    assert(url@.subrange(rest_start as int, rest_start as int) =~= Seq::<u8>::empty());
    let mut k: usize = rest_start;
    while k < end
        invariant
            rest_start <= k <= end <= url@.len(),
            f@ == url@.subrange(rest_start as int, k as int),
        decreases end - k,
    {
        f.push(url[k]);
        assert(f@ =~= url@.subrange(rest_start as int, k + 1));
        k += 1;
    }
    proof {
        let rest = url@.skip(rest_start as int);
        match first_at(rest, 47) {
            None => {
                assert(f@ =~= rest);
            },
            Some(j) => {
                assert(f@ =~= rest.take(j));
            },
        }
    }
    Some(f)
}

/// The byte name of the records column family.
pub open spec fn default_cf_name() -> Seq<u8> {
    seq![100u8, 101u8, 102u8, 97u8, 117u8, 108u8, 116u8]
}

/// Build the records column family name, `default` in ASCII.
pub fn default_cf() -> (r: Vec<u8>)
    ensures
        r@ == default_cf_name(),
{
    let mut r: Vec<u8> = Vec::new();
    r.push(100u8);
    r.push(101u8);
    r.push(102u8);
    r.push(97u8);
    r.push(117u8);
    r.push(108u8);
    r.push(116u8);
    assert(r@ =~= default_cf_name());
    r
}

/// The fixed prefix of every record type URL, `type.googleapis.com/`.
pub open spec fn type_url_prefix() -> Seq<u8> {
    seq![
        116u8, 121u8, 112u8, 101u8, 46u8, 103u8, 111u8, 111u8, 103u8, 108u8, 101u8, 97u8,
        112u8, 105u8, 115u8, 46u8, 99u8, 111u8, 109u8, 47u8,
    ]
}

/// Build the type URL of a collection: the fixed prefix plus its name.
pub fn make_type_url(fqn: &Vec<u8>) -> (r: Vec<u8>)
    ensures
        r@ == type_url_prefix() + fqn@,
{
    let mut p: Vec<u8> = Vec::new();
    p.push(116u8);
    p.push(121u8);
    p.push(112u8);
    p.push(101u8);
    p.push(46u8);
    p.push(103u8);
    p.push(111u8);
    p.push(111u8);
    p.push(103u8);
    p.push(108u8);
    p.push(101u8);
    p.push(97u8);
    p.push(112u8);
    p.push(105u8);
    p.push(115u8);
    p.push(46u8);
    p.push(99u8);
    p.push(111u8);
    p.push(109u8);
    p.push(47u8);
    assert(p@ =~= type_url_prefix());
    crate::bytes::bytes_concat(&p, fqn)
}

/// The first declared key index, if any.
pub open spec fn key_index_of(indexes: Seq<IndexView>) -> Option<IndexView>
    decreases indexes.len(),
{
    if indexes.len() == 0 {
        None
    } else if indexes[0].index_type == INDEX_TYPE_KEY {
        Some(indexes[0])
    } else {
        key_index_of(indexes.skip(1))
    }
}

/// Store tuning and layout configuration of one database.
pub struct Config {
    pub db_path: String,
    pub cache_size: usize,
    pub max_open_files: i32,
    pub descriptor_file_name: String,
}

impl Config {
    pub fn clone_cfg(&self) -> (r: Config)
        ensures
            r.db_path@ == self.db_path@,
            r.cache_size == self.cache_size,
            r.max_open_files == self.max_open_files,
            r.descriptor_file_name@ == self.descriptor_file_name@,
    {
        Config {
            db_path: self.db_path.clone(),
            cache_size: self.cache_size,
            max_open_files: self.max_open_files,
            descriptor_file_name: self.descriptor_file_name.clone(),
        }
    }
}

/// One database: its ordered store, metadata, and descriptor pool.
pub struct RocksDb {
    kv: Kv,
    pub name: String,
    pub path: String,
    meta_store: MetaStore,
    pool: Pool,
}

/// The column family names for a collection's declared indexes,
/// pre-created for future secondary-index use.
pub fn parse_collection_to_cf(collection: &Collection) -> (r: Vec<Vec<u8>>)
    ensures
        r@.len() == collection@.indexes.len(),
        forall|i: int|
            0 <= i < r@.len() ==> (#[trigger] r@[i])@ == collection@.indexes[i].index_id,
{
    let mut r: Vec<Vec<u8>> = Vec::new();
    let mut i: usize = 0;
    while i < collection.indexes.len()
        invariant
            i <= collection.indexes@.len(),
            r@.len() == i,
            forall|j: int|
                0 <= j < i ==> (#[trigger] r@[j])@ == collection@.indexes[j].index_id,
        decreases collection.indexes@.len() - i,
    {
        r.push(clone_bytes(&collection.indexes[i].index_id));
        assert(collection@.indexes[i as int] == collection.indexes@[i as int]@);
        i += 1;
    }
    r
}

impl RocksDb {
    /// The record entries of the `default` column family.
    pub closed spec fn records(self) -> Seq<(Seq<u8>, Seq<u8>)> {
        self.kv.cf_at(default_cf_name())
    }

    /// Whether a column family of the given name exists in the store.
    pub closed spec fn has_family(self, n: Seq<u8>) -> bool {
        self.kv.has_cf(n)
    }

    pub closed spec fn name_spec(self) -> Seq<char> {
        self.name@
    }

    pub closed spec fn path_spec(self) -> Seq<char> {
        self.path@
    }

    /// The collections stored in the metadata, creation order.
    pub closed spec fn cols(self) -> Seq<CollectionView> {
        self.meta_store.cols()
    }

    pub closed spec fn pool_raw(self) -> Seq<u8> {
        self.pool.raw_spec()
    }

    pub closed spec fn pool_model(self) -> Seq<crate::pool::MessageEntryView> {
        self.pool.entries_spec()
    }

    pub closed spec fn store_ver(self) -> u64 {
        self.meta_store.store_ver()
    }

    pub closed spec fn versioned(self) -> bool {
        self.meta_store.versioned()
    }

    /// The on-disk path of this database, for listings.
    pub fn path_string(&self) -> (r: String)
        ensures
            r@ == self.path_spec(),
    {
        self.path.clone()
    }

    /// Whether this database stores versioned schemas.
    pub fn is_versioned(&self) -> (r: bool)
        ensures
            r == self.versioned(),
    {
        self.meta_store.is_versioned()
    }

    pub closed spec fn wf(self) -> bool {
        &&& self.kv.wf()
        &&& self.meta_store.inv(self.kv)
        &&& self.kv.has_cf(default_cf_name())
        &&& default_cf_name() != self.meta_store.schema_cf()
        &&& default_cf_name() != self.meta_store.index_cf()
        &&& default_cf_name() != self.meta_store.versions_cf()
        &&& self.pool.wf()
    }
}

} // verus!

verus! {

/// The condition under which opening an instance succeeds: the records
/// family name collides with no metadata family, and the metadata of
/// the pool's collections can be materialized.
pub open spec fn instance_buildable(
    schema_name: Seq<u8>,
    index_name: Seq<u8>,
    versions_name: Seq<u8>,
    versioned: bool,
    cols: Seq<CollectionView>,
) -> bool {
    &&& default_cf_name() != schema_name
    &&& default_cf_name() != index_name
    &&& default_cf_name() != versions_name
    &&& crate::meta_store::buildable(schema_name, index_name, versions_name, versioned, cols)
}

impl Config {
    /// Open a fresh database instance: create the base and per-index
    /// column families and materialize the pool's collections through
    /// the metastore.
    pub fn build(
        self,
        name: String,
        meta_store: crate::meta_store::Config,
        schema: schema::Config,
        pool: Pool,
    ) -> (r: Result<RocksDb, CoreError>)
        requires
            pool.wf(),
        ensures
            match r {
                Ok(db) => {
                    &&& db.wf()
                    &&& db.name_spec() == name@
                    &&& db.pool_raw() == pool.raw_spec()
                    &&& db.pool_model() == pool.entries_spec()
                    &&& db.versioned() == schema.enable_versioning
                    &&& db.records() == Seq::<(Seq<u8>, Seq<u8>)>::empty()
                    &&& db.cols().len() == collections_spec(pool.entries_spec()).len()
                    &&& forall|i: int|
                        0 <= i < db.cols().len() ==> #[trigger] db.cols()[i] == rewritten(
                            collections_spec(pool.entries_spec())[i],
                            db.store_ver(),
                        )
                    &&& db.path_spec() == self.db_path@ + "/"@ + name@
                    &&& forall|i: int, j: int|
                        0 <= i < db.cols().len() && 0 <= j < db.cols()[i].indexes.len()
                            ==> db.has_family((#[trigger] db.cols()[i].indexes[j]).index_id)
                },
                Err(_) => true,
            },
            instance_buildable(
                meta_store.schema_cf_name@,
                meta_store.index_cf_name@,
                meta_store.schema_versions_cf_name@,
                schema.enable_versioning,
                collections_spec(pool.entries_spec()),
            ) ==> r is Ok,
    {
        let mut kv = Kv::new();
        let dname = default_cf();
        if crate::bytes::bytes_eq(&dname, &meta_store.schema_cf_name) || crate::bytes::bytes_eq(
            &dname,
            &meta_store.index_cf_name,
        ) || crate::bytes::bytes_eq(&dname, &meta_store.schema_versions_cf_name) {
            return Err(CoreError::Internal(msg_bytes("column family name collision")));
        }
        let ghost sname = meta_store.schema_cf_name@;
        let ghost iname = meta_store.index_cf_name@;
        let ghost vname = meta_store.schema_versions_cf_name@;
        kv.create_cf(dname);
        kv.create_cf(clone_bytes(&meta_store.schema_cf_name));
        kv.create_cf(clone_bytes(&meta_store.index_cf_name));
        kv.create_cf(clone_bytes(&meta_store.schema_versions_cf_name));
        let collections = build_collections(&pool);
        let ghost colviews = Seq::new(collections@.len(), |i: int| collections@[i]@);
        proof {
            assert(colviews =~= collections_spec(pool.entries_spec()));
            assert(colviews =~= crate::meta_store::collections_view(collections@));
        }
        // Pre-create the per-index shadow column families. Creation is
        // idempotent and never disturbs an existing family's entries.
        let mut ci: usize = 0;
        while ci < collections.len()
            invariant
                ci <= collections@.len(),
                kv.wf(),
                colviews == Seq::new(collections@.len(), |i: int| collections@[i]@),
                kv.has_cf(default_cf_name()) && kv.has_cf(sname) && kv.has_cf(iname)
                    && kv.has_cf(vname),
                kv.cf_at(default_cf_name()) == Seq::<(Seq<u8>, Seq<u8>)>::empty(),
                kv.cf_at(sname) == Seq::<(Seq<u8>, Seq<u8>)>::empty(),
                kv.cf_at(iname) == Seq::<(Seq<u8>, Seq<u8>)>::empty(),
                kv.cf_at(vname) == Seq::<(Seq<u8>, Seq<u8>)>::empty(),
                forall|a: int, j: int|
                    0 <= a < ci && 0 <= j < colviews[a].indexes.len() ==> kv.has_cf(
                        (#[trigger] colviews[a].indexes[j]).index_id,
                    ),
            decreases collections@.len() - ci,
        {
            let cfs = parse_collection_to_cf(&collections[ci]);
            let mut cj: usize = 0;
            while cj < cfs.len()
                invariant
                    cj <= cfs@.len(),
                    ci < collections@.len(),
                    kv.wf(),
                    colviews == Seq::new(collections@.len(), |i: int| collections@[i]@),
                    cfs@.len() == colviews[ci as int].indexes.len(),
                    forall|j: int|
                        0 <= j < cfs@.len() ==> (#[trigger] cfs@[j])@
                            == colviews[ci as int].indexes[j].index_id,
                    kv.has_cf(default_cf_name()) && kv.has_cf(sname) && kv.has_cf(iname)
                        && kv.has_cf(vname),
                    kv.cf_at(default_cf_name()) == Seq::<(Seq<u8>, Seq<u8>)>::empty(),
                    kv.cf_at(sname) == Seq::<(Seq<u8>, Seq<u8>)>::empty(),
                    kv.cf_at(iname) == Seq::<(Seq<u8>, Seq<u8>)>::empty(),
                    kv.cf_at(vname) == Seq::<(Seq<u8>, Seq<u8>)>::empty(),
                    forall|a: int, j: int|
                        0 <= a < ci && 0 <= j < colviews[a].indexes.len() ==> kv.has_cf(
                            (#[trigger] colviews[a].indexes[j]).index_id,
                        ),
                    forall|j: int|
                        0 <= j < cj ==> kv.has_cf(
                            (#[trigger] colviews[ci as int].indexes[j]).index_id,
                        ),
                decreases cfs@.len() - cj,
            {
                kv.create_cf(clone_bytes(&cfs[cj]));
                cj += 1;
            }
            ci += 1;
        }
        let ms = match meta_store.build(&mut kv, collections, schema) {
            Ok(ms) => ms,
            Err(e) => {
                // Validation cannot fail when the configuration is buildable.
                proof {
                    if crate::meta_store::buildable(sname, iname, vname,
                        schema.enable_versioning, colviews) {
                        assert(false);
                    }
                }
                return Err(e);
            },
        };
        let mut path = self.db_path;
        path.append("/");
        path.append(name.as_str());
        let db = RocksDb { kv, name, path, meta_store: ms, pool };
        proof {
            assert forall|i: int, j: int|
                0 <= i < db.cols().len() && 0 <= j < db.cols()[i].indexes.len() implies db.has_family(
                (#[trigger] db.cols()[i].indexes[j]).index_id,
            ) by {
                assert(db.cols()[i] == rewritten(colviews[i], db.store_ver()));
                assert(db.cols()[i].indexes[j].index_id == colviews[i].indexes[j].index_id);
            }
        }
        Ok(db)
    }
}

impl RocksDb {
    /// The schema stored for a collection; see the metastore.
    pub fn get_schema(&self, collection: &Vec<u8>) -> (r: Result<Schema, CoreError>)
        requires
            self.wf(),
        ensures
            self.versioned() ==> r is Err,
            !self.versioned() ==> match r {
                Ok(s) => find_col(self.cols(), collection@) matches Some(cv) && s@ == schema_rec(
                    cv,
                    self.store_ver(),
                ),
                Err(e) => find_col(self.cols(), collection@) is None && (
                e matches CoreError::SchemaNotExists(n) && n@ == collection@),
            },
    {
        self.meta_store.get_schema(&self.kv, collection)
    }

    /// Declare a collection with a single key field and store its
    /// schema. Records are stored at the store's own version.
    pub fn create_schema(&mut self, collection: Vec<u8>, key: Vec<u8>, version: u64) -> (r:
        Result<Schema, CoreError>)
        requires
            old(self).wf(),
        ensures
            final(self).wf(),
            final(self).name_spec() == old(self).name_spec(),
            final(self).path_spec() == old(self).path_spec(),
            final(self).records() == old(self).records(),
            final(self).pool_raw() == old(self).pool_raw(),
            final(self).pool_model() == old(self).pool_model(),
            final(self).versioned() == old(self).versioned(),
            final(self).store_ver() == old(self).store_ver(),
            match r {
                Ok(s) => final(self).cols() == old(self).cols().push(
                    rewritten(single_key_collection(collection@, key@), old(self).store_ver()),
                ) && s@ == schema_rec(
                    rewritten(single_key_collection(collection@, key@), old(self).store_ver()),
                    old(self).store_ver(),
                ),
                Err(_) => *final(self) == *old(self),
            },
            crate::meta_store::colon_free(collection@) && (old(self).versioned() ==> find_col(
                old(self).cols(),
                collection@,
            ) is None) ==> r is Ok,
    {
        let mut sep: Vec<u8> = Vec::new();
        sep.push(58u8);
        let head = crate::bytes::bytes_concat(&collection, &sep);
        let index_id = crate::bytes::bytes_concat(&head, &key);
        let idx = Index {
            index_id,
            schema_id: clone_bytes(&collection),
            field_name: key,
            index_type: INDEX_TYPE_KEY,
        };
        let mut indexes: Vec<Index> = Vec::new();
        indexes.push(idx);
        let c = Collection {
            name: clone_bytes(&collection),
            full_name: collection,
            descriptor: Vec::new(),
            fields: Vec::new(),
            indexes,
        };
        proof {
            assert(c@ =~= single_key_collection(c.full_name@, c.indexes@[0].field_name@)) by {
                assert(c@.fields =~= Seq::<crate::codec::FieldView>::empty());
                assert(c@.indexes =~= seq![c.indexes@[0]@]);
            }
        }
        let _ = version;
        let r = self.meta_store.create_schema(&mut self.kv, c);
        match r {
            Ok(s) => Ok(s),
            Err(e) => Err(e),
        }
    }

    /// The stored collection record of a named collection.
    pub fn get_collection(&self, collection: &Vec<u8>) -> (r: Result<Collection, CoreError>)
        requires
            self.wf(),
        ensures
            self.versioned() ==> r is Err,
            !self.versioned() ==> match r {
                Ok(c) => find_col(self.cols(), collection@) == Some(c@),
                Err(_) => find_col(self.cols(), collection@) is None,
            },
    {
        let s = match self.meta_store.get_schema(&self.kv, collection) {
            Ok(s) => s,
            Err(e) => {
                return Err(e);
            },
        };
        proof {
            if !self.versioned() {
                let cv = find_col(self.cols(), collection@)->Some_0;
                crate::meta_store::lemma_find_col_index(self.cols(), collection@);
                let i = choose|i: int|
                    0 <= i < self.cols().len() && #[trigger] self.cols()[i] == cv;
                assert(valid_collection(cv) && enc_collection(cv).len() <= u64::MAX);
                assert(crate::codec::valid_schema(s@));
            }
        }
        match decode_collection(&s.schema_definition) {
            Some(c) => Ok(c),
            None => Err(CoreError::SchemaNotExists(clone_bytes(collection))),
        }
    }

    /// Point lookup of a record by its storage key; the raw stored bytes
    /// are returned wrapped with the collection's type URL.
    pub fn get(&self, collection: &Vec<u8>, key: &Vec<u8>) -> (r: Result<Any, CoreError>)
        requires
            self.wf(),
        ensures
            match r {
                Ok(a) => find_spec(self.records(), key@) == Some(a.value@) && a.type_url@
                    == type_url_prefix() + collection@,
                Err(_) => find_spec(self.records(), key@) is None,
            },
    {
        let cf = default_cf();
        match self.kv.get(&cf, key) {
            Ok(Some(v)) => Ok(Any { type_url: make_type_url(collection), value: v }),
            Ok(None) => Err(CoreError::Internal(msg_bytes("record not found"))),
            Err(_) => Err(CoreError::Internal(msg_bytes("record not found"))),
        }
    }

    /// All records of a collection, in ascending key order: exactly the
    /// entries of the records family under the prefix `<fqn>:`.
    pub fn list(&self, collection: &Vec<u8>) -> (r: Result<Vec<Any>, CoreError>)
        requires
            self.wf(),
        ensures
            match r {
                Ok(v) => {
                    let f = filter_prefix_spec(self.records(), collection@ + seq![58u8]);
                    &&& v@.len() == f.len()
                    &&& forall|i: int|
                        0 <= i < v@.len() ==> (#[trigger] v@[i]).value@ == f[i].1 && v@[i].type_url@
                            == type_url_prefix() + collection@
                },
                Err(_) => false,
            },
    {
        let cf = default_cf();
        let mut sep: Vec<u8> = Vec::new();
        sep.push(58u8);
        let prefix = crate::bytes::bytes_concat(collection, &sep);
        assert(prefix@ =~= collection@ + seq![58u8]);
        let entries = match self.kv.scan_prefix(&cf, &prefix) {
            Ok(es) => es,
            Err(_) => {
                proof {
                    assert(false);
                }
                Vec::new()
            },
        };
        let mut out: Vec<Any> = Vec::new();
        let ghost f = filter_prefix_spec(self.records(), collection@ + seq![58u8]);
        let mut i: usize = 0;
        while i < entries.len()
            invariant
                i <= entries@.len(),
                pairs_view(entries@) == f,
                out@.len() == i,
                forall|k: int|
                    0 <= k < i ==> (#[trigger] out@[k]).value@ == f[k].1 && out@[k].type_url@
                        == type_url_prefix() + collection@,
            decreases entries@.len() - i,
        {
            assert(pairs_view(entries@)[i as int] == (entries@[i as int].0@, entries@[i as int].1@));
            let a = Any {
                type_url: make_type_url(collection),
                value: clone_bytes(&entries[i].1),
            };
            out.push(a);
            i += 1;
        }
        assert(out@.len() == f.len());
        Ok(out)
    }
}

/// A collection holding one declared key index and nothing else.
pub open spec fn single_key_collection(fqn: Seq<u8>, key: Seq<u8>) -> CollectionView {
    CollectionView {
        name: fqn,
        full_name: fqn,
        descriptor: Seq::empty(),
        fields: Seq::empty(),
        indexes: seq![
            IndexView {
                index_id: fqn + seq![58u8] + key,
                schema_id: fqn,
                field_name: key,
                index_type: INDEX_TYPE_KEY,
            },
        ],
    }
}

} // verus!

verus! {

impl RocksDb {
    /// The storage key an insert of this message would use, when every
    /// step of the key derivation succeeds: the type name out of the
    /// URL, the collection's declared key index, and the rendered value
    /// of that field, joined as `<fqn>:<key>`.
    pub open spec fn derived_key(self, url: Seq<u8>, value: Seq<u8>) -> Option<Seq<u8>> {
        match url_fqn(url) {
            None => None,
            Some(fqn) => match find_col(self.cols(), fqn) {
                None => None,
                Some(cv) => match key_index_of(cv.indexes) {
                    None => None,
                    Some(idx) => match decoded_key_field(
                        self.pool_raw(),
                        fqn,
                        idx.field_name,
                        value,
                    ) {
                        None => None,
                        Some(kb) => Some(fqn + seq![58u8] + kb),
                    },
                },
            },
        }
    }

    /// Insert a record. The key is derived from the message's declared
    /// key field; inserting an existing key fails and changes nothing.
    pub fn insert(&mut self, message: Any) -> (r: Result<Vec<u8>, CoreError>)
        requires
            old(self).wf(),
        ensures
            final(self).wf(),
            final(self).name_spec() == old(self).name_spec(),
            final(self).path_spec() == old(self).path_spec(),
            final(self).cols() == old(self).cols(),
            final(self).pool_raw() == old(self).pool_raw(),
            final(self).pool_model() == old(self).pool_model(),
            final(self).versioned() == old(self).versioned(),
            final(self).store_ver() == old(self).store_ver(),
            match r {
                Ok(c) => {
                    &&& !old(self).versioned()
                    &&& url_fqn(message.type_url@) == Some(c@)
                    &&& old(self).derived_key(message.type_url@, message.value@) matches Some(k)
                        && find_spec(old(self).records(), k) is None && final(self).records()
                        == put_spec(old(self).records(), k, message.value@)
                },
                Err(e) => *final(self) == *old(self) && (match e {
                    CoreError::KeyAlreadyExists(c2, kk) => {
                        &&& !old(self).versioned()
                        &&& url_fqn(message.type_url@) == Some(c2@)
                        &&& old(self).derived_key(message.type_url@, message.value@) matches Some(
                            k,
                        ) && kk@ == k && find_spec(old(self).records(), k) is Some
                    },
                    CoreError::SchemaNotExists(n) => {
                        &&& url_fqn(message.type_url@) == Some(n@)
                        &&& (old(self).versioned() || find_col(old(self).cols(), n@) is None)
                    },
                    CoreError::Internal(_) => url_fqn(message.type_url@) is None || (!old(
                        self,
                    ).versioned() && (match url_fqn(message.type_url@) {
                        Some(fqn) => find_col(old(self).cols(), fqn) matches Some(cv) && (match
                            key_index_of(cv.indexes) {
                            None => true,
                            Some(idx) => decoded_key_field(
                                old(self).pool_raw(),
                                fqn,
                                idx.field_name,
                                message.value@,
                            ) is None,
                        }),
                        None => false,
                    })),
                }),
            },
    {
        let fqn = match parse_type_url(&message.type_url) {
            None => {
                return Err(CoreError::Internal(msg_bytes("invalid type url")));
            },
            Some(f) => f,
        };
        let col = match self.get_collection(&fqn) {
            Err(_) => {
                return Err(CoreError::SchemaNotExists(fqn));
            },
            Ok(c) => c,
        };
        // Find the declared key index.
        let ghost idxs = col@.indexes;
        let mut ki: usize = 0;
        let mut found = false;
        proof {
            assert(idxs.skip(0) =~= idxs);
        }
        while !found && ki < col.indexes.len()
            invariant
                ki <= col.indexes@.len(),
                idxs == col@.indexes,
                !found ==> key_index_of(idxs) == key_index_of(idxs.skip(ki as int)),
                found ==> ki < col.indexes@.len() && key_index_of(idxs) == Some(
                    idxs[ki as int],
                ) && idxs[ki as int].index_type == INDEX_TYPE_KEY,
            decreases col.indexes@.len() - ki, (if found { 0int } else { 1int }),
        {
            proof {
                assert(idxs.skip(ki as int)[0] == idxs[ki as int]);
                assert(idxs.skip(ki as int).skip(1) =~= idxs.skip(ki + 1));
                assert(idxs[ki as int] == col.indexes@[ki as int]@);
            }
            if col.indexes[ki].index_type == INDEX_TYPE_KEY {
                found = true;
            } else {
                ki += 1;
            }
        }
        if !found {
            assert(idxs.skip(col.indexes@.len() as int).len() == 0);
            return Err(CoreError::Internal(msg_bytes("collection has no key index")));
        }
        let field = clone_bytes(&col.indexes[ki].field_name);
        let raw = self.pool.raw_bytes();
        let kb = match extract_key_field(&raw, &fqn, &field, &message.value) {
            None => {
                return Err(CoreError::Internal(msg_bytes("key field not decodable")));
            },
            Some(k) => k,
        };
        let mut sep: Vec<u8> = Vec::new();
        sep.push(58u8);
        let head = crate::bytes::bytes_concat(&fqn, &sep);
        let key = crate::bytes::bytes_concat(&head, &kb);
        assert(key@ =~= fqn@ + seq![58u8] + kb@);
        let cf = default_cf();
        match self.kv.get(&cf, &key) {
            Ok(Some(_)) => Err(CoreError::KeyAlreadyExists(fqn, key)),
            Ok(None) => {
                let put_r = self.kv.put(&cf, key, message.value);
                match put_r {
                    Ok(()) => {},
                    Err(_) => {
                        proof {
                            assert(false);
                        }
                    },
                }
                Ok(fqn)
            },
            Err(_) => {
                proof {
                    assert(false);
                }
                Err(CoreError::Internal(msg_bytes("record store missing")))
            },
        }
    }
}

} // verus!

verus! {

/// The pair `e` is the stored schema record of some collection of `cols`.
pub open spec fn schema_entry_for(
    cols: Seq<CollectionView>,
    ver: u64,
    e: (Vec<u8>, Vec<u8>),
) -> bool {
    exists|fqn: Seq<u8>|
        #[trigger] find_col(cols, fqn) matches Some(cv) && e.0@ == skey(fqn, ver) && e.1@
            == crate::codec::enc_schema(schema_rec(cv, ver))
}

/// Entry keys are pairwise distinct.
pub open spec fn distinct_keys(s: Seq<(Vec<u8>, Vec<u8>)>) -> bool {
    forall|a: int, b: int| 0 <= a < b < s.len() ==> (#[trigger] s[a]).0@ != (#[trigger] s[b]).0@
}

/// Every named collection of `cols` has an entry keyed by its storage key.
pub open spec fn keys_complete(
    cols: Seq<CollectionView>,
    ver: u64,
    s: Seq<(Vec<u8>, Vec<u8>)>,
) -> bool {
    forall|fqn: Seq<u8>|
        #[trigger] find_col(cols, fqn) is Some ==> exists|k: int|
            0 <= k < s.len() && (#[trigger] s[k]).0@ == skey(fqn, ver)
}

/// A sorted scan yields pairwise distinct keys.
pub proof fn lemma_sorted_distinct(s: Seq<(Vec<u8>, Vec<u8>)>)
    requires
        crate::kv::sorted_strict(pairs_view(s)),
    ensures
        distinct_keys(s),
{
    assert forall|a: int, b: int| 0 <= a < b < s.len() implies (#[trigger] s[a]).0@ != (
    #[trigger] s[b]).0@ by {
        assert(pairs_view(s)[a] == (s[a].0@, s[a].1@));
        assert(pairs_view(s)[b] == (s[b].0@, s[b].1@));
        assert(crate::bytes::lex_lt(pairs_view(s)[a].0, pairs_view(s)[b].0));
        crate::bytes::lemma_lex_trichotomy(s[a].0@, s[b].0@);
    }
}

/// A key contained in the scanned model stands at some index.
pub proof fn lemma_key_present(s: Seq<(Vec<u8>, Vec<u8>)>, k: Seq<u8>)
    requires
        exists|e: (Seq<u8>, Seq<u8>)| #[trigger] pairs_view(s).contains(e) && e.0 == k,
    ensures
        exists|i: int| 0 <= i < s.len() && (#[trigger] s[i]).0@ == k,
{
    let e = choose|e: (Seq<u8>, Seq<u8>)| #[trigger] pairs_view(s).contains(e) && e.0 == k;
    let i = choose|i: int| 0 <= i < pairs_view(s).len() && pairs_view(s)[i] == e;
    assert(pairs_view(s)[i] == (s[i].0@, s[i].1@));
    assert(s[i].0@ == k);
}

impl RocksDb {
    /// Collect the stored schema records by scanning the schema family.
    fn collect_unversioned(&self, ver: u64) -> (r: Vec<(Vec<u8>, Vec<u8>)>)
        requires
            self.wf(),
            !self.versioned(),
            ver == self.store_ver(),
        ensures
            forall|k: int|
                0 <= k < r@.len() ==> schema_entry_for(self.cols(), ver, #[trigger] r@[k]),
            distinct_keys(r@),
            keys_complete(self.cols(), ver, r@),
    {
        let empty_prefix: Vec<u8> = Vec::new();
        let sname = self.meta_store.schema_cf_bytes();
        let es = match self.kv.scan_prefix(&sname, &empty_prefix) {
            Ok(es) => es,
            Err(_) => {
                proof {
                    assert(false);
                }
                Vec::new()
            },
        };
        proof {
            crate::kv::lemma_filter_empty_prefix(self.kv.cf_at(self.meta_store.schema_cf()));
            crate::meta_store::lemma_schema_entries_sorted(self.cols(), ver);
            lemma_sorted_distinct(es@);
            crate::meta_store::lemma_schema_entries_members(self.cols(), ver);
            assert forall|k: int| 0 <= k < es@.len() implies schema_entry_for(
                self.cols(),
                ver,
                #[trigger] es@[k],
            ) by {
                assert(pairs_view(es@)[k] == (es@[k].0@, es@[k].1@));
                assert(crate::meta_store::schema_entries(self.cols(), ver).contains(
                    pairs_view(es@)[k],
                ));
                let fqn = choose|fqn: Seq<u8>|
                    #[trigger] find_col(self.cols(), fqn) matches Some(cv) && pairs_view(es@)[k]
                        == (skey(fqn, ver), crate::codec::enc_schema(schema_rec(cv, ver)));
                assert(find_col(self.cols(), fqn) matches Some(cv) && es@[k].0@ == skey(fqn, ver)
                    && es@[k].1@ == crate::codec::enc_schema(schema_rec(cv, ver)));
            }
            assert forall|fqn: Seq<u8>| #[trigger] find_col(self.cols(), fqn) is Some
                implies exists|k: int|
                0 <= k < es@.len() && (#[trigger] es@[k]).0@ == skey(fqn, ver) by {
                let cv = find_col(self.cols(), fqn)->Some_0;
                assert(crate::meta_store::schema_entries(self.cols(), ver).contains(
                    (skey(fqn, ver), crate::codec::enc_schema(schema_rec(cv, ver))),
                ));
                lemma_key_present(es@, skey(fqn, ver));
            }
        }
        es
    }

    /// Collect the stored schema records by walking the current version
    /// pointers and reading each schema.
    #[verifier::rlimit(100)]
    fn collect_versioned(&self, ver: u64) -> (r: Result<Vec<(Vec<u8>, Vec<u8>)>, CoreError>)
        requires
            self.wf(),
            self.versioned(),
            ver == self.store_ver(),
        ensures
            match r {
                Ok(s) => {
                    &&& forall|k: int|
                        0 <= k < s@.len() ==> schema_entry_for(self.cols(), ver, #[trigger] s@[k])
                    &&& distinct_keys(s@)
                    &&& keys_complete(self.cols(), ver, s@)
                },
                Err(_) => false,
            },
    {
        let empty_prefix: Vec<u8> = Vec::new();
        let sname = self.meta_store.schema_cf_bytes();
        let vname = self.meta_store.versions_cf_bytes();
        let vrows = match self.kv.scan_prefix(&vname, &empty_prefix) {
            Ok(es) => es,
            Err(_) => {
                proof {
                    assert(false);
                }
                Vec::new()
            },
        };
        proof {
            crate::kv::lemma_filter_empty_prefix(self.kv.cf_at(self.meta_store.versions_cf()));
            crate::meta_store::lemma_schema_entries_sorted(self.cols(), ver);
            lemma_sorted_distinct(vrows@);
        }
        let mut schemas: Vec<(Vec<u8>, Vec<u8>)> = Vec::new();
        let mut vi: usize = 0;
        while vi < vrows.len()
            invariant
                vi <= vrows@.len(),
                self.wf(),
                self.versioned(),
                ver == self.store_ver(),
                pairs_view(vrows@) == crate::meta_store::version_entries(self.cols(), ver),
                distinct_keys(vrows@),
                sname@ == self.meta_store.schema_cf(),
                schemas@.len() == vi,
                forall|k: int|
                    0 <= k < vi ==> schema_entry_for(self.cols(), ver, #[trigger] schemas@[k]),
                forall|k: int| 0 <= k < vi ==> (#[trigger] schemas@[k]).0@ == vrows@[k].0@,
            decreases vrows@.len() - vi,
        {
            proof {
                assert(pairs_view(vrows@)[vi as int] == (
                    vrows@[vi as int].0@,
                    vrows@[vi as int].1@,
                ));
                crate::meta_store::lemma_version_entries_members(self.cols(), ver);
                assert(crate::meta_store::version_entries(self.cols(), ver).contains(
                    pairs_view(vrows@)[vi as int],
                ));
            }
            let ghost fqn_g = choose|fqn: Seq<u8>|
                #[trigger] find_col(self.cols(), fqn) matches Some(cv) && pairs_view(
                    vrows@,
                )[vi as int] == (
                    skey(fqn, ver),
                    crate::codec::enc_schema_version(crate::meta_store::version_rec(cv, ver)),
                );
            let ghost cv_g = find_col(self.cols(), fqn_g)->Some_0;
            proof {
                crate::meta_store::lemma_find_col_index(self.cols(), fqn_g);
                let ii = choose|ii: int|
                    0 <= ii < self.cols().len() && #[trigger] self.cols()[ii] == cv_g;
                crate::meta_store::lemma_find_col_name(self.cols(), fqn_g);
                assert(crate::codec::valid_schema_version(
                    crate::meta_store::version_rec(cv_g, ver),
                ));
            }
            let row = match crate::codec::decode_schema_version(&vrows[vi].1) {
                Some(rw) => rw,
                None => {
                    proof {
                        assert(false);
                    }
                    return Err(CoreError::Internal(msg_bytes("metadata record not decodable")));
                },
            };
            assert(row@ == crate::meta_store::version_rec(cv_g, ver));
            if row.is_current {
                let skey_bytes = make_schema_key(&row.schema_id, &row.version_number);
                proof {
                    crate::meta_store::lemma_find_schema_entries(self.cols(), ver, fqn_g);
                }
                let sv = match self.kv.get(&sname, &skey_bytes) {
                    Ok(Some(v)) => v,
                    Ok(None) => {
                        proof {
                            assert(false);
                        }
                        return Err(CoreError::Internal(msg_bytes("metadata record missing")));
                    },
                    Err(_) => {
                        proof {
                            assert(false);
                        }
                        return Err(CoreError::Internal(msg_bytes("metadata record missing")));
                    },
                };
                schemas.push((skey_bytes, sv));
                proof {
                    assert(schemas@.last().0@ == skey(fqn_g, ver));
                    assert(schemas@.last().1@ == crate::codec::enc_schema(
                        schema_rec(cv_g, ver),
                    ));
                    assert(schema_entry_for(self.cols(), ver, schemas@.last()));
                }
            } else {
                proof {
                    assert(false);
                }
            }
            vi += 1;
        }
        proof {
            assert forall|fqn: Seq<u8>| #[trigger] find_col(self.cols(), fqn) is Some
                implies exists|k: int|
                0 <= k < schemas@.len() && (#[trigger] schemas@[k]).0@ == skey(fqn, ver) by {
                let cv = find_col(self.cols(), fqn)->Some_0;
                crate::meta_store::lemma_version_entries_members(self.cols(), ver);
                assert(crate::meta_store::version_entries(self.cols(), ver).contains(
                    (
                        skey(fqn, ver),
                        crate::codec::enc_schema_version(
                            crate::meta_store::version_rec(cv, ver),
                        ),
                    ),
                ));
                lemma_key_present(vrows@, skey(fqn, ver));
                let k = choose|k: int|
                    0 <= k < vrows@.len() && (#[trigger] vrows@[k]).0@ == skey(fqn, ver);
                assert(schemas@[k].0@ == vrows@[k].0@);
            }
        }
        Ok(schemas)
    }

    /// List the stored collections: one entry per collection name, each
    /// decoded back from its stored schema record. In versioned mode
    /// the listing walks the current version pointers first.
    pub fn get_collections(&self) -> (r: Result<Vec<Collection>, CoreError>)
        requires
            self.wf(),
        ensures
            match r {
                Ok(out) => {
                    &&& forall|i: int|
                        0 <= i < out@.len() ==> find_col(
                            self.cols(),
                            (#[trigger] out@[i])@.full_name,
                        ) == Some(out@[i]@)
                    &&& forall|fqn: Seq<u8>|
                        #[trigger] find_col(self.cols(), fqn) is Some ==> exists|i: int|
                            0 <= i < out@.len() && (#[trigger] out@[i])@.full_name == fqn
                    &&& forall|i: int, j: int|
                        0 <= i < j < out@.len() ==> (#[trigger] out@[i])@.full_name != (
                        #[trigger] out@[j])@.full_name
                },
                Err(_) => false,
            },
    {
        let ver = self.meta_store.store_version();
        let entries = if self.meta_store.is_versioned() {
            match self.collect_versioned(ver) {
                Ok(es) => es,
                Err(e) => {
                    proof {
                        assert(false);
                    }
                    return Err(e);
                },
            }
        } else {
            self.collect_unversioned(ver)
        };
        // Decode each stored schema record into its collection.
        let ghost cols_g = self.cols();
        let mut out: Vec<Collection> = Vec::new();
        let mut i: usize = 0;
        while i < entries.len()
            invariant
                i <= entries@.len(),
                self.wf(),
                cols_g == self.cols(),
                ver == self.store_ver(),
                forall|k: int|
                    0 <= k < entries@.len() ==> schema_entry_for(
                        cols_g,
                        ver,
                        #[trigger] entries@[k],
                    ),
                distinct_keys(entries@),
                keys_complete(cols_g, ver, entries@),
                out@.len() == i,
                forall|k: int|
                    0 <= k < i ==> find_col(cols_g, (#[trigger] out@[k])@.full_name) == Some(
                        out@[k]@,
                    ) && entries@[k].0@ == skey(out@[k]@.full_name, ver),
            decreases entries@.len() - i,
        {
            let ghost fqn_g = choose|fqn: Seq<u8>|
                #[trigger] find_col(cols_g, fqn) matches Some(cv) && entries@[i as int].0@
                    == skey(fqn, ver) && entries@[i as int].1@ == crate::codec::enc_schema(
                    schema_rec(cv, ver),
                );
            let ghost cv_g = find_col(cols_g, fqn_g)->Some_0;
            proof {
                crate::meta_store::lemma_find_col_index(cols_g, fqn_g);
                let ii = choose|ii: int| 0 <= ii < cols_g.len() && #[trigger] cols_g[ii] == cv_g;
                crate::meta_store::lemma_find_col_name(cols_g, fqn_g);
                assert(valid_collection(cv_g) && enc_collection(cv_g).len() <= u64::MAX);
                assert(crate::codec::valid_schema(schema_rec(cv_g, ver)));
            }
            let s = match crate::codec::decode_schema(&entries[i].1) {
                Some(s) => s,
                None => {
                    proof {
                        assert(false);
                    }
                    return Err(CoreError::Internal(msg_bytes("metadata record not decodable")));
                },
            };
            assert(s@ == schema_rec(cv_g, ver));
            let c = match decode_collection(&s.schema_definition) {
                Some(c) => c,
                None => {
                    proof {
                        assert(false);
                    }
                    return Err(CoreError::Internal(msg_bytes("metadata record not decodable")));
                },
            };
            assert(c@ == cv_g);
            out.push(c);
            i += 1;
        }
        proof {
            assert forall|a: int, b: int| 0 <= a < b < out@.len() implies (
            #[trigger] out@[a])@.full_name != (#[trigger] out@[b])@.full_name by {
                if out@[a]@.full_name == out@[b]@.full_name {
                    assert(entries@[a].0@ == entries@[b].0@);
                }
            }
            assert forall|fqn: Seq<u8>| #[trigger] find_col(self.cols(), fqn) is Some
                implies exists|i: int|
                0 <= i < out@.len() && (#[trigger] out@[i])@.full_name == fqn by {
                let k = choose|k: int|
                    0 <= k < entries@.len() && (#[trigger] entries@[k]).0@ == skey(fqn, ver);
                crate::meta_store::lemma_skey_injective(out@[k]@.full_name, fqn, ver);
                assert(out@[k]@.full_name == fqn);
            }
        }
        Ok(out)
    }
}

} // verus!

verus! {

impl RocksDb {
    /// The records family is sorted with unique keys.
    pub proof fn lemma_records_sorted(self)
        requires
            self.wf(),
        ensures
            crate::kv::sorted_strict(self.records()),
    {
        self.kv.lemma_cf_sorted(default_cf_name());
    }
}

/// A successful insert is visible to a get: after the records gain the
/// derived key, a point lookup at that key returns exactly the inserted
/// bytes, so the stored record round-trips byte-equal.
pub proof fn lemma_insert_then_get(
    records: Seq<(Seq<u8>, Seq<u8>)>,
    k: Seq<u8>,
    v: Seq<u8>,
)
    requires
        crate::kv::sorted_strict(records),
    ensures
        find_spec(put_spec(records, k, v), k) == Some(v),
{
    crate::kv::lemma_put(records, k, v);
}

/// Two inserts for the same key cannot both succeed: after the first
/// one the key is present, and an insert whose derived key is present
/// returns the key-exists failure, never success.
pub proof fn lemma_duplicate_insert(
    records: Seq<(Seq<u8>, Seq<u8>)>,
    k: Seq<u8>,
    v: Seq<u8>,
)
    requires
        crate::kv::sorted_strict(records),
    ensures
        find_spec(put_spec(records, k, v), k) is Some,
        !(find_spec(put_spec(records, k, v), k) is None),
{
    crate::kv::lemma_put(records, k, v);
}

/// A listing returns exactly the records under the collection's own
/// prefix: every returned pair is stored under the prefix, and every
/// stored pair under the prefix is returned; no foreign collection's
/// records appear.
pub proof fn lemma_list_exactly_prefix(records: Seq<(Seq<u8>, Seq<u8>)>, fqn: Seq<u8>)
    ensures
        forall|e: (Seq<u8>, Seq<u8>)|
            #[trigger] filter_prefix_spec(records, fqn + seq![58u8]).contains(e) <==> (
            records.contains(e) && crate::bytes::is_prefix(fqn + seq![58u8], e.0)),
{
    crate::kv::lemma_filter_prefix_members(records, fqn + seq![58u8]);
}

} // verus!

verus! {

impl RocksDb {
    /// Dump every record entry, in ascending key order, for persistence
    /// at shutdown.
    pub fn export_records(&self) -> (r: Vec<(Vec<u8>, Vec<u8>)>)
        requires
            self.wf(),
        ensures
            pairs_view(r@) == self.records(),
    {
        let cf = default_cf();
        let empty_prefix: Vec<u8> = Vec::new();
        match self.kv.scan_prefix(&cf, &empty_prefix) {
            Ok(es) => {
                proof {
                    crate::kv::lemma_filter_empty_prefix(self.records());
                }
                es
            },
            Err(_) => {
                proof {
                    assert(false);
                }
                Vec::new()
            },
        }
    }

    /// Reinstate one dumped record, as boot does when it restores a
    /// record snapshot from disk.
    pub fn restore_record(&mut self, key: Vec<u8>, value: Vec<u8>)
        requires
            old(self).wf(),
        ensures
            final(self).wf(),
            final(self).records() == put_spec(old(self).records(), key@, value@),
            final(self).name_spec() == old(self).name_spec(),
            final(self).path_spec() == old(self).path_spec(),
            final(self).cols() == old(self).cols(),
            final(self).pool_raw() == old(self).pool_raw(),
            final(self).pool_model() == old(self).pool_model(),
            final(self).versioned() == old(self).versioned(),
            final(self).store_ver() == old(self).store_ver(),
    {
        let cf = default_cf();
        let put_r = self.kv.put(&cf, key, value);
        match put_r {
            Ok(()) => {},
            Err(_) => {
                proof {
                    assert(false);
                }
            },
        }
    }
}

/// The records after reinstating a dumped list, first entry first.
pub open spec fn restored_records(
    s: Seq<(Seq<u8>, Seq<u8>)>,
    entries: Seq<(Seq<u8>, Seq<u8>)>,
) -> Seq<(Seq<u8>, Seq<u8>)>
    decreases entries.len(),
{
    if entries.len() == 0 {
        s
    } else {
        put_spec(restored_records(s, entries.drop_last()), entries.last().0, entries.last().1)
    }
}

} // verus!
