//! The database engine facade: a registry of named databases, routing
//! admin and record operations to the right instance, and the user
//! records the auth subsystem checks against.

use vstd::prelude::*;
use crate::db::{self, RocksDb, CoreError};
use crate::meta_store;
use crate::schema;
use crate::pool::{Pool, pool_entries, collections_spec};
use crate::codec::{Collection, CollectionView};
use crate::api::{Any, ApiOp, Op, OpStatus, Database, CreateDatabaseResponse,
    ListDatabasesResponse, CreateCollectionResponse};
use crate::kv::clone_bytes;

verus! {

/// Operation-level failures, each naming what was asked for.
#[derive(Debug)]
pub enum OpError {
    DatabaseAlreadyExists(String),
    DatabaseNotFound(String),
    CollectionNotFound(Vec<u8>, String),
    KeyAlreadyExists(CoreError),
    CollectionAlreadyExists(String, Vec<u8>),
    UserNotFound(String),
}

/// Engine-level failures: an operation error or an internal fault.
#[derive(Debug)]
pub enum EngineError {
    Internal(Vec<u8>),
    OpError(OpError),
}

/// The engine names its build through this trait.
pub trait Metadata {
    fn version(&self) -> &'static str;
}

/// The latest database registered under `n`, if any.
pub open spec fn find_db(s: Seq<(Seq<char>, RocksDb)>, n: Seq<char>) -> Option<RocksDb>
    decreases s.len(),
{
    if s.len() == 0 {
        None
    } else if s.last().0 == n {
        Some(s.last().1)
    } else {
        find_db(s.drop_last(), n)
    }
}

/// The registry of databases and the credentials known to the engine.
pub struct ProtolithDbEngine {
    pub db_config: db::Config,
    pub meta_store_config: meta_store::Config,
    pub schema_config: schema::Config,
    dbs: Vec<(String, RocksDb)>,
    users: Vec<(String, String)>,
}

impl ProtolithDbEngine {
    /// The registered databases, in registration order.
    pub closed spec fn dbs_model(self) -> Seq<(Seq<char>, RocksDb)> {
        Seq::new(self.dbs@.len(), |i: int| (self.dbs@[i].0@, self.dbs@[i].1))
    }

    /// The known user credentials.
    pub closed spec fn users_model(self) -> Seq<(Seq<char>, Seq<char>)> {
        Seq::new(self.users@.len(), |i: int| (self.users@[i].0@, self.users@[i].1@))
    }

    pub open spec fn has_db(self, n: Seq<char>) -> bool {
        find_db(self.dbs_model(), n) is Some
    }

    /// The root directory databases live under.
    pub closed spec fn db_path_spec(self) -> Seq<char> {
        self.db_config.db_path@
    }

    /// Whether a pool with these collections can be materialized under
    /// this engine's configuration.
    pub closed spec fn cfg_buildable(self, cols: Seq<CollectionView>) -> bool {
        crate::db::instance_buildable(
            self.meta_store_config.schema_cf_name@,
            self.meta_store_config.index_cf_name@,
            self.meta_store_config.schema_versions_cf_name@,
            self.schema_config.enable_versioning,
            cols,
        )
    }

    /// Every registered database is internally consistent and names are
    /// registered at most once.
    pub closed spec fn wf(self) -> bool {
        &&& forall|i: int| 0 <= i < self.dbs@.len() ==> (#[trigger] self.dbs@[i].1).wf()
        &&& forall|i: int, j: int|
            0 <= i < j < self.dbs@.len() ==> (#[trigger] self.dbs@[i].0@) != (
            #[trigger] self.dbs@[j].0@)
    }

    /// A fresh engine with no databases and no users.
    pub fn new(
        db_config: db::Config,
        meta_store_config: meta_store::Config,
        schema_config: schema::Config,
    ) -> (r: ProtolithDbEngine)
        ensures
            r.wf(),
            r.dbs_model() == Seq::<(Seq<char>, RocksDb)>::empty(),
            r.users_model() == Seq::<(Seq<char>, Seq<char>)>::empty(),
    {
        let r = ProtolithDbEngine {
            db_config,
            meta_store_config,
            schema_config,
            dbs: Vec::new(),
            users: Vec::new(),
        };
        proof {
            assert(r.dbs_model() =~= Seq::<(Seq<char>, RocksDb)>::empty());
            assert(r.users_model() =~= Seq::<(Seq<char>, Seq<char>)>::empty());
        }
        r
    }

    fn find_db_at(&self, name: &String) -> (r: Option<usize>)
        requires
            self.wf(),
        ensures
            match r {
                Some(i) => i < self.dbs@.len() && self.dbs_model()[i as int].0 == name@
                    && find_db(self.dbs_model(), name@) == Some(self.dbs_model()[i as int].1),
                None => find_db(self.dbs_model(), name@) is None,
            },
    {
        let ghost m = self.dbs_model();
        let mut i: usize = self.dbs.len();
        proof {
            assert(m.take(i as int) =~= m);
        }
        while i > 0
            invariant
                i <= self.dbs@.len(),
                m == self.dbs_model(),
                self.wf(),
                find_db(m, name@) == find_db(m.take(i as int), name@),
            decreases i,
        {
            i -= 1;
            proof {
                assert(m.take(i + 1).last() == m[i as int]);
                assert(m.take(i + 1).drop_last() =~= m.take(i as int));
            }
            if self.dbs[i].0.eq(name) {
                return Some(i);
            }
        }
        assert(m.take(0) =~= Seq::<(Seq<char>, RocksDb)>::empty());
        None
    }

    /// Register a new database built from a descriptor set. Fails if the
    /// name is taken or the descriptor set does not decode.
    pub fn create_database(&mut self, name: String, fd_descriptor: Vec<u8>) -> (r: Result<
        CreateDatabaseResponse,
        EngineError,
    >)
        requires
            old(self).wf(),
        ensures
            final(self).wf(),
            final(self).users_model() == old(self).users_model(),
            match r {
                Ok(resp) => {
                    &&& !old(self).has_db(name@)
                    &&& resp.name@ == name@
                    &&& final(self).dbs_model().len() == old(self).dbs_model().len() + 1
                    &&& forall|i: int|
                        0 <= i < old(self).dbs_model().len()
                            ==> #[trigger] final(self).dbs_model()[i] == old(self).dbs_model()[i]
                    &&& final(self).dbs_model().last().0 == name@
                    &&& resp.op matches Some(op) && op.status is Success && op.op is Create
                    &&& {
                        let db = final(self).dbs_model().last().1;
                        &&& db.records() == Seq::<(Seq<u8>, Seq<u8>)>::empty()
                        &&& db.path_spec() == old(self).db_path_spec() + "/"@ + name@
                        &&& pool_entries(fd_descriptor@) matches Some(es) && db.cols().len()
                            == collections_spec(es).len() && (forall|i: int|
                            0 <= i < db.cols().len() ==> #[trigger] db.cols()[i]
                                == meta_store::rewritten(
                                collections_spec(es)[i],
                                db.store_ver(),
                            ))
                    }
                },
                Err(EngineError::OpError(OpError::DatabaseAlreadyExists(n))) => old(self).has_db(
                    name@,
                ) && n@ == name@ && *final(self) == *old(self),
                Err(_) => *final(self) == *old(self),
            },
            old(self).has_db(name@) ==> (r matches Err(EngineError::OpError(
                OpError::DatabaseAlreadyExists(n),
            )) && n@ == name@),
            (!old(self).has_db(name@) && (pool_entries(fd_descriptor@) matches Some(es)
                && old(self).cfg_buildable(collections_spec(es)))) ==> r is Ok,
    {
        match self.find_db_at(&name) {
            Some(_) => {
                return Err(EngineError::OpError(OpError::DatabaseAlreadyExists(name)));
            },
            None => {},
        }
        let pool = match Pool::decode_pool(fd_descriptor) {
            Some(p) => p,
            None => {
                return Err(EngineError::Internal(text_bytes("invalid descriptor set")));
            },
        };
        let db = match self.db_config.clone_cfg().build(
            name.clone(),
            self.meta_store_config.clone_cfg(),
            self.schema_config.clone_cfg(),
            pool,
        ) {
            Ok(db) => db,
            Err(_) => {
                // A buildable configuration cannot reach this arm.
                proof {
                    if self.cfg_buildable(collections_spec(pool_entries(fd_descriptor@)->Some_0)) {
                        assert(false);
                    }
                }
                return Err(EngineError::Internal(text_bytes("database build failed")));
            },
        };
        let ghost oldm = self.dbs_model();
        let resp_name = name.clone();
        self.dbs.push((name, db));
        proof {
            assert(self.dbs_model() =~= oldm.push(
                (self.dbs@.last().0@, self.dbs@.last().1),
            ));
            assert(final(self).wf()) by {
                assert forall|i: int| 0 <= i < self.dbs@.len() implies (
                #[trigger] self.dbs@[i].1).wf() by {
                    if i < oldm.len() {
                        assert(self.dbs@[i] == old(self).dbs@[i]);
                    }
                }
                assert forall|i: int, j: int| 0 <= i < j < self.dbs@.len() implies (
                #[trigger] self.dbs@[i].0@) != (#[trigger] self.dbs@[j].0@) by {
                    if j < oldm.len() {
                        assert(self.dbs@[i] == old(self).dbs@[i]);
                        assert(self.dbs@[j] == old(self).dbs@[j]);
                    } else {
                        if i < oldm.len() && self.dbs@[i].0@ == self.dbs@[j].0@ {
                            assert(old(self).dbs@[i] == self.dbs@[i]);
                            lemma_find_db_some(oldm, i);
                        }
                    }
                }
            }
        }
        let description = crate::bytes::bytes_concat(
            &text_bytes("created database "),
            &text_bytes(resp_name.as_str()),
        );
        Ok(
            CreateDatabaseResponse {
                name: resp_name,
                op: Some(ApiOp { op: Op::Create, description, status: OpStatus::Success }),
            },
        )
    }
}

/// A name present at an index is found in the registry.
pub proof fn lemma_find_db_some(s: Seq<(Seq<char>, RocksDb)>, i: int)
    requires
        0 <= i < s.len(),
    ensures
        find_db(s, s[i].0) is Some,
    decreases s.len(),
{
    if s.last().0 == s[i].0 {
    } else {
        assert(i < s.len() - 1);
        assert(s.drop_last()[i] == s[i]);
        lemma_find_db_some(s.drop_last(), i);
    }
}

/// The UTF-8 bytes of a status or description text.
fn text_bytes(s: &str) -> (r: Vec<u8>)
    ensures
        r@ == crate::env::env_bytes(s@),
{
    vstd::string::StrSliceExecFns::as_bytes_vec(s)
}

} // verus!

verus! {

/// Replacing the entry at `i` with one under the same name moves every
/// lookup of that name to the new database and no other.
pub proof fn lemma_find_db_update(s: Seq<(Seq<char>, RocksDb)>, i: int, db2: RocksDb)
    requires
        0 <= i < s.len(),
        forall|a: int, b: int| 0 <= a < b < s.len() ==> (#[trigger] s[a].0) != (#[trigger] s[b].0),
    ensures
        find_db(s.update(i, (s[i].0, db2)), s[i].0) == Some(db2),
        forall|n: Seq<char>|
            n != s[i].0 ==> #[trigger] find_db(s.update(i, (s[i].0, db2)), n) == find_db(s, n),
        forall|a: int, b: int|
            0 <= a < b < s.update(i, (s[i].0, db2)).len() ==> (#[trigger] s.update(
                i,
                (s[i].0, db2),
            )[a].0) != (#[trigger] s.update(i, (s[i].0, db2))[b].0),
    decreases s.len(),
{
    let t = s.update(i, (s[i].0, db2));
    assert forall|a: int, b: int| 0 <= a < b < t.len() implies (#[trigger] t[a].0) != (
    #[trigger] t[b].0) by {
        assert(t[a].0 == s[a].0);
        assert(t[b].0 == s[b].0);
    }
    if i == s.len() - 1 {
        assert(t.last() == (s[i].0, db2));
        assert(t.drop_last() =~= s.drop_last());
        assert forall|n: Seq<char>| n != s[i].0 implies #[trigger] find_db(t, n) == find_db(
            s,
            n,
        ) by {
            assert(find_db(t, n) == find_db(t.drop_last(), n));
            assert(find_db(s, n) == find_db(s.drop_last(), n));
        }
    } else {
        assert(t.last() == s.last());
        assert(t.drop_last() =~= s.drop_last().update(i, (s[i].0, db2)));
        assert(s.drop_last()[i] == s[i]);
        assert forall|a: int, b: int| 0 <= a < b < s.drop_last().len() implies (
        #[trigger] s.drop_last()[a].0) != (#[trigger] s.drop_last()[b].0) by {
            assert(s.drop_last()[a] == s[a]);
            assert(s.drop_last()[b] == s[b]);
        }
        lemma_find_db_update(s.drop_last(), i, db2);
        assert(s[i].0 != s.last().0);
        assert(find_db(t, s[i].0) == find_db(t.drop_last(), s[i].0));
        assert forall|n: Seq<char>| n != s[i].0 implies #[trigger] find_db(t, n) == find_db(
            s,
            n,
        ) by {
            if n == s.last().0 {
            } else {
                assert(find_db(t, n) == find_db(t.drop_last(), n));
                assert(find_db(s, n) == find_db(s.drop_last(), n));
            }
        }
    }
}

impl Metadata for ProtolithDbEngine {
    fn version(&self) -> &'static str {
        "0.1.0"
    }
}

impl ProtolithDbEngine {
    /// List every database with its collections. Each listing holds
    /// exactly the collection set of its database.
    pub fn list_databases(&self) -> (r: Result<ListDatabasesResponse, EngineError>)
        requires
            self.wf(),
        ensures
            match r {
                Ok(resp) => {
                    &&& resp.databases@.len() == self.dbs_model().len()
                    &&& forall|i: int|
                        0 <= i < resp.databases@.len() ==> {
                            let d = #[trigger] resp.databases@[i];
                            let db = self.dbs_model()[i].1;
                            &&& d.name@ == self.dbs_model()[i].0
                            &&& d.path@ == db.path_spec()
                            &&& forall|k: int|
                                0 <= k < d.collections@.len()
                                    ==> crate::meta_store::find_col(
                                    db.cols(),
                                    (#[trigger] d.collections@[k])@.full_name,
                                ) == Some(d.collections@[k]@)
                            &&& forall|fqn: Seq<u8>|
                                #[trigger] crate::meta_store::find_col(db.cols(), fqn) is Some
                                    ==> exists|k: int|
                                    0 <= k < d.collections@.len() && (
                                    #[trigger] d.collections@[k])@.full_name == fqn
                            &&& forall|k: int, m: int|
                                0 <= k < m < d.collections@.len() ==> (
                                #[trigger] d.collections@[k])@.full_name != (
                                #[trigger] d.collections@[m])@.full_name
                        }
                },
                Err(_) => false,
            },
    {
        let mut out: Vec<Database> = Vec::new();
        let mut i: usize = 0;
        while i < self.dbs.len()
            invariant
                i <= self.dbs@.len(),
                self.wf(),
                out@.len() == i,
                forall|k: int|
                    0 <= k < i ==> {
                        let d = #[trigger] out@[k];
                        let db = self.dbs_model()[k].1;
                        &&& d.name@ == self.dbs_model()[k].0
                        &&& d.path@ == db.path_spec()
                        &&& forall|c: int|
                            0 <= c < d.collections@.len() ==> crate::meta_store::find_col(
                                db.cols(),
                                (#[trigger] d.collections@[c])@.full_name,
                            ) == Some(d.collections@[c]@)
                        &&& forall|fqn: Seq<u8>|
                            #[trigger] crate::meta_store::find_col(db.cols(), fqn) is Some
                                ==> exists|c: int|
                                0 <= c < d.collections@.len() && (
                                #[trigger] d.collections@[c])@.full_name == fqn
                        &&& forall|c: int, m: int|
                            0 <= c < m < d.collections@.len() ==> (
                            #[trigger] d.collections@[c])@.full_name != (
                            #[trigger] d.collections@[m])@.full_name
                    },
            decreases self.dbs@.len() - i,
        {
            let entry = &self.dbs[i];
            assert(self.dbs_model()[i as int] == (entry.0@, entry.1));
            let collections = match entry.1.get_collections() {
                Ok(cs) => cs,
                Err(_) => {
                    proof {
                        assert(false);
                    }
                    Vec::new()
                },
            };
            let d = Database {
                name: entry.0.clone(),
                collections,
                path: entry.1.path_string(),
            };
            out.push(d);
            i += 1;
        }
        Ok(ListDatabasesResponse { databases: out })
    }

    /// Create a collection in a database; fails if the database is
    /// missing or the collection already declared.
    pub fn create_collection(
        &mut self,
        database: String,
        collection: Vec<u8>,
        key: Vec<u8>,
        version: u64,
    ) -> (r: Result<CreateCollectionResponse, EngineError>)
        requires
            old(self).wf(),
        ensures
            final(self).wf(),
            final(self).users_model() == old(self).users_model(),
            match r {
                Ok(resp) => {
                    &&& (find_db(old(self).dbs_model(), database@) matches Some(db)
                        && !db.versioned() && crate::meta_store::find_col(
                        db.cols(),
                        collection@,
                    ) is None && (find_db(final(self).dbs_model(), database@) matches Some(db2)
                        && db2.cols() == db.cols().push(
                        crate::meta_store::rewritten(
                            crate::db::single_key_collection(collection@, key@),
                            db.store_ver(),
                        ),
                    ) && db2.records() == db.records()))
                    &&& forall|n: Seq<char>|
                        n != database@ ==> #[trigger] find_db(final(self).dbs_model(), n)
                            == find_db(old(self).dbs_model(), n)
                    &&& resp.database@ == database@
                    &&& resp.name@ == collection@
                },
                Err(EngineError::OpError(OpError::DatabaseNotFound(n))) => n@ == database@
                    && find_db(old(self).dbs_model(), database@) is None
                    && final(self).dbs_model() == old(self).dbs_model(),
                Err(EngineError::OpError(OpError::CollectionAlreadyExists(n, c))) => n@
                    == database@ && c@ == collection@ && (find_db(
                    old(self).dbs_model(),
                    database@,
                ) matches Some(db) && (db.versioned() || crate::meta_store::find_col(
                    db.cols(),
                    collection@,
                ) is Some)) && final(self).dbs_model() == old(self).dbs_model(),
                Err(_) => final(self).dbs_model() == old(self).dbs_model(),
            },
            find_db(old(self).dbs_model(), database@) is None ==> (r matches Err(
                EngineError::OpError(OpError::DatabaseNotFound(n)),
            ) && n@ == database@),
            (find_db(old(self).dbs_model(), database@) matches Some(db) && !db.versioned()
                && crate::meta_store::find_col(db.cols(), collection@) is Some) ==> (r matches Err(
                EngineError::OpError(OpError::CollectionAlreadyExists(n, c)),
            ) && n@ == database@ && c@ == collection@),
            (find_db(old(self).dbs_model(), database@) matches Some(db) && db.versioned())
                ==> r matches Err(EngineError::Internal(_)),
            (find_db(old(self).dbs_model(), database@) matches Some(db) && !db.versioned()
                && crate::meta_store::find_col(db.cols(), collection@) is None
                && crate::meta_store::colon_free(collection@)) ==> r is Ok,
    {
        let i = match self.find_db_at(&database) {
            None => {
                return Err(EngineError::OpError(OpError::DatabaseNotFound(database)));
            },
            Some(i) => i,
        };
        let ghost oldm = self.dbs_model();
        let mut entry = self.dbs.remove(i);
        // Fail if the collection is already declared.
        let existing = entry.1.get_collection(&collection);
        match existing {
            Ok(_) => {
                self.dbs.insert(i, entry);
                proof {
                    assert(self.dbs@ =~= old(self).dbs@);
                    assert(self.dbs_model() =~= old(self).dbs_model());
                }
                return Err(
                    EngineError::OpError(OpError::CollectionAlreadyExists(database, collection)),
                );
            },
            Err(_) => {},
        }
        if entry.1.is_versioned() {
            self.dbs.insert(i, entry);
            proof {
                assert(self.dbs@ =~= old(self).dbs@);
                assert(self.dbs_model() =~= old(self).dbs_model());
            }
            return Err(
                EngineError::Internal(text_bytes("versioned schema update is not supported")),
            );
        }
        let resp_db = database.clone();
        let resp_col = clone_bytes(&collection);
        let created = entry.1.create_schema(collection, key, version);
        self.dbs.insert(i, entry);
        proof {
            assert(self.dbs@ =~= old(self).dbs@.update(
                i as int,
                (self.dbs@[i as int].0, self.dbs@[i as int].1),
            ));
            assert(self.dbs_model() =~= oldm.update(
                i as int,
                (oldm[i as int].0, self.dbs@[i as int].1),
            ));
            lemma_find_db_update(oldm, i as int, self.dbs@[i as int].1);
            assert(final(self).wf()) by {
                assert forall|a: int| 0 <= a < self.dbs@.len() implies (
                #[trigger] self.dbs@[a].1).wf() by {
                    if a != i {
                        assert(self.dbs@[a] == old(self).dbs@[a]);
                    }
                }
                assert forall|a: int, b: int| 0 <= a < b < self.dbs@.len() implies (
                #[trigger] self.dbs@[a].0@) != (#[trigger] self.dbs@[b].0@) by {
                    assert(self.dbs@[a].0@ == oldm[a].0);
                    assert(self.dbs@[b].0@ == oldm[b].0);
                }
            }
        }
        match created {
            Ok(_) => {
                let description = crate::bytes::bytes_concat(
                    &text_bytes("created collection in "),
                    &text_bytes(resp_db.as_str()),
                );
                Ok(
                    CreateCollectionResponse {
                        database: resp_db,
                        name: resp_col,
                        op: Some(
                            ApiOp { op: Op::Create, description, status: OpStatus::Success },
                        ),
                    },
                )
            },
            Err(_) => Err(EngineError::Internal(text_bytes("invalid collection name"))),
        }
    }
}

} // verus!

verus! {

impl ProtolithDbEngine {
    /// Insert a record into the named database.
    pub fn insert(&mut self, database: String, message: Any) -> (r: Result<Vec<u8>, EngineError>)
        requires
            old(self).wf(),
        ensures
            final(self).wf(),
            final(self).users_model() == old(self).users_model(),
            forall|n: Seq<char>|
                n != database@ ==> #[trigger] find_db(final(self).dbs_model(), n) == find_db(
                    old(self).dbs_model(),
                    n,
                ),
            match r {
                Ok(c) => (find_db(old(self).dbs_model(), database@) matches Some(db)
                    && !db.versioned() && crate::db::url_fqn(message.type_url@) == Some(c@)
                    && (db.derived_key(message.type_url@, message.value@) matches Some(k)
                    && crate::kv::find_spec(db.records(), k) is None && (find_db(
                    final(self).dbs_model(),
                    database@,
                ) matches Some(db2) && db2.records() == crate::kv::put_spec(
                    db.records(),
                    k,
                    message.value@,
                ) && db2.cols() == db.cols()))),
                Err(EngineError::OpError(OpError::DatabaseNotFound(n))) => n@ == database@
                    && find_db(old(self).dbs_model(), database@) is None
                    && final(self).dbs_model() == old(self).dbs_model(),
                Err(EngineError::OpError(OpError::KeyAlreadyExists(ce))) => (find_db(
                    old(self).dbs_model(),
                    database@,
                ) matches Some(db) && (ce matches CoreError::KeyAlreadyExists(c2, kk)
                    && db.derived_key(message.type_url@, message.value@) matches Some(k) && kk@
                    == k && crate::kv::find_spec(db.records(), k) is Some)
                    && find_db(final(self).dbs_model(), database@) == Some(db)),
                Err(EngineError::OpError(OpError::CollectionNotFound(c2, n))) => (n@ == database@
                    && (find_db(old(self).dbs_model(), database@) matches Some(db) && (
                db.versioned() || (crate::db::url_fqn(message.type_url@) matches Some(f) && f
                    == c2@ && crate::meta_store::find_col(db.cols(), f) is None)) && find_db(
                    final(self).dbs_model(),
                    database@,
                ) == Some(db))),
                Err(_) => true,
            },
            r is Err ==> final(self).dbs_model() == old(self).dbs_model(),
            find_db(old(self).dbs_model(), database@) is None ==> (r matches Err(
                EngineError::OpError(OpError::DatabaseNotFound(n)),
            ) && n@ == database@),
            (find_db(old(self).dbs_model(), database@) matches Some(db) && !db.versioned() && (
            db.derived_key(message.type_url@, message.value@) matches Some(k)
                && crate::kv::find_spec(db.records(), k) is Some)) ==> r matches Err(
                EngineError::OpError(OpError::KeyAlreadyExists(_)),
            ),
            (find_db(old(self).dbs_model(), database@) matches Some(db) && (crate::db::url_fqn(
                message.type_url@,
            ) matches Some(f) && (db.versioned() || crate::meta_store::find_col(
                db.cols(),
                f,
            ) is None))) ==> r matches Err(EngineError::OpError(OpError::CollectionNotFound(_, _))),
            (find_db(old(self).dbs_model(), database@) matches Some(db) && !db.versioned() && (
            db.derived_key(message.type_url@, message.value@) matches Some(k)
                && crate::kv::find_spec(db.records(), k) is None)) ==> r is Ok,
    {
        let i = match self.find_db_at(&database) {
            None => {
                return Err(EngineError::OpError(OpError::DatabaseNotFound(database)));
            },
            Some(i) => i,
        };
        let ghost oldm = self.dbs_model();
        let mut entry = self.dbs.remove(i);
        let res = entry.1.insert(message);
        self.dbs.insert(i, entry);
        proof {
            assert(self.dbs@ =~= old(self).dbs@.update(
                i as int,
                (self.dbs@[i as int].0, self.dbs@[i as int].1),
            ));
            assert(self.dbs_model() =~= oldm.update(
                i as int,
                (oldm[i as int].0, self.dbs@[i as int].1),
            ));
            lemma_find_db_update(oldm, i as int, self.dbs@[i as int].1);
            assert(final(self).wf()) by {
                assert forall|a: int| 0 <= a < self.dbs@.len() implies (
                #[trigger] self.dbs@[a].1).wf() by {
                    if a != i {
                        assert(self.dbs@[a] == old(self).dbs@[a]);
                    }
                }
                assert forall|a: int, b: int| 0 <= a < b < self.dbs@.len() implies (
                #[trigger] self.dbs@[a].0@) != (#[trigger] self.dbs@[b].0@) by {
                    assert(self.dbs@[a].0@ == oldm[a].0);
                    assert(self.dbs@[b].0@ == oldm[b].0);
                }
            }
        }
        proof {
            if !(res is Ok) {
                assert(self.dbs_model() =~= oldm);
            }
        }
        match res {
            Ok(c) => Ok(c),
            Err(CoreError::KeyAlreadyExists(c2, kk)) => Err(
                EngineError::OpError(OpError::KeyAlreadyExists(CoreError::KeyAlreadyExists(c2, kk))),
            ),
            Err(CoreError::SchemaNotExists(n)) => Err(
                EngineError::OpError(OpError::CollectionNotFound(n, database)),
            ),
            Err(CoreError::Internal(m)) => Err(EngineError::Internal(m)),
        }
    }

    /// Read a record by key from the named database.
    pub fn get(&self, database: String, collection: Vec<u8>, key: &Vec<u8>) -> (r: Result<
        Any,
        EngineError,
    >)
        requires
            self.wf(),
        ensures
            match r {
                Ok(a) => (find_db(self.dbs_model(), database@) matches Some(db)
                    && crate::kv::find_spec(db.records(), key@) == Some(a.value@) && a.type_url@
                    == crate::db::type_url_prefix() + collection@),
                Err(EngineError::OpError(OpError::DatabaseNotFound(n))) => n@ == database@
                    && find_db(self.dbs_model(), database@) is None,
                Err(EngineError::OpError(OpError::CollectionNotFound(c2, n))) => (c2@
                    == collection@ && n@ == database@ && (find_db(
                    self.dbs_model(),
                    database@,
                ) matches Some(db) && (db.versioned() || crate::meta_store::find_col(
                    db.cols(),
                    collection@,
                ) is None))),
                Err(_) => (find_db(self.dbs_model(), database@) matches Some(db)
                    && crate::kv::find_spec(db.records(), key@) is None),
            },
    {
        let i = match self.find_db_at(&database) {
            None => {
                return Err(EngineError::OpError(OpError::DatabaseNotFound(database)));
            },
            Some(i) => i,
        };
        let entry = &self.dbs[i];
        assert(self.dbs_model()[i as int] == (entry.0@, entry.1));
        match entry.1.get_schema(&collection) {
            Ok(_) => {},
            Err(_) => {
                return Err(
                    EngineError::OpError(OpError::CollectionNotFound(collection, database)),
                );
            },
        }
        match entry.1.get(&collection, key) {
            Ok(a) => Ok(a),
            Err(_) => Err(EngineError::Internal(text_bytes("record not found"))),
        }
    }

    /// List every record of a collection in the named database.
    pub fn list(&self, database: String, collection: Vec<u8>) -> (r: Result<
        Vec<Any>,
        EngineError,
    >)
        requires
            self.wf(),
        ensures
            match r {
                Ok(v) => (find_db(self.dbs_model(), database@) matches Some(db) && {
                    let f = crate::kv::filter_prefix_spec(db.records(), collection@ + seq![58u8]);
                    &&& v@.len() == f.len()
                    &&& forall|i: int|
                        0 <= i < v@.len() ==> (#[trigger] v@[i]).value@ == f[i].1
                            && v@[i].type_url@ == crate::db::type_url_prefix() + collection@
                }),
                Err(EngineError::OpError(OpError::DatabaseNotFound(n))) => n@ == database@
                    && find_db(self.dbs_model(), database@) is None,
                Err(_) => false,
            },
    {
        let i = match self.find_db_at(&database) {
            None => {
                return Err(EngineError::OpError(OpError::DatabaseNotFound(database)));
            },
            Some(i) => i,
        };
        let entry = &self.dbs[i];
        assert(self.dbs_model()[i as int] == (entry.0@, entry.1));
        match entry.1.list(&collection) {
            Ok(v) => Ok(v),
            Err(_) => {
                proof {
                    assert(false);
                }
                Err(EngineError::Internal(text_bytes("record store missing")))
            },
        }
    }

    /// Remove a database from the registry. The caller tears down any
    /// on-disk state afterwards.
    pub fn destroy_db(&mut self, db_name: &String) -> (r: Result<(), String>)
        requires
            old(self).wf(),
        ensures
            final(self).wf(),
            final(self).users_model() == old(self).users_model(),
            match r {
                Ok(()) => old(self).has_db(db_name@) && !final(self).has_db(db_name@) && (forall|
                    n: Seq<char>,
                |
                    n != db_name@ ==> #[trigger] find_db(final(self).dbs_model(), n) == find_db(
                        old(self).dbs_model(),
                        n,
                    )) && final(self).dbs_model().len() == old(self).dbs_model().len() - 1,
                Err(_) => !old(self).has_db(db_name@) && final(self).dbs_model() == old(
                    self,
                ).dbs_model(),
            },
    {
        let i = match self.find_db_at(db_name) {
            None => {
                return Err(String::from_str("database not found"));
            },
            Some(i) => i,
        };
        let ghost oldm = self.dbs_model();
        let _removed = self.dbs.remove(i);
        proof {
            assert(self.dbs_model() =~= oldm.remove(i as int));
            lemma_find_db_remove(oldm, i as int);
            assert(final(self).wf()) by {
                assert forall|a: int| 0 <= a < self.dbs@.len() implies (
                #[trigger] self.dbs@[a].1).wf() by {
                    if a < i {
                        assert(self.dbs@[a] == old(self).dbs@[a]);
                    } else {
                        assert(self.dbs@[a] == old(self).dbs@[a + 1]);
                    }
                }
                assert forall|a: int, b: int| 0 <= a < b < self.dbs@.len() implies (
                #[trigger] self.dbs@[a].0@) != (#[trigger] self.dbs@[b].0@) by {
                    assert(self.dbs_model()[a] == oldm.remove(i as int)[a]);
                    assert(self.dbs_model()[b] == oldm.remove(i as int)[b]);
                    if b < i {
                        assert(self.dbs@[a] == old(self).dbs@[a]);
                        assert(self.dbs@[b] == old(self).dbs@[b]);
                    } else if a < i {
                        assert(self.dbs@[a] == old(self).dbs@[a]);
                        assert(self.dbs@[b] == old(self).dbs@[b + 1]);
                    } else {
                        assert(self.dbs@[a] == old(self).dbs@[a + 1]);
                        assert(self.dbs@[b] == old(self).dbs@[b + 1]);
                    }
                }
            }
        }
        Ok(())
    }

    /// The names of every registered database, in order.
    pub fn database_names(&self) -> (r: Vec<String>)
        ensures
            r@.len() == self.dbs_model().len(),
            forall|i: int| 0 <= i < r@.len() ==> (#[trigger] r@[i])@ == self.dbs_model()[i].0,
    {
        let mut r: Vec<String> = Vec::new();
        let mut i: usize = 0;
        while i < self.dbs.len()
            invariant
                i <= self.dbs@.len(),
                r@.len() == i,
                forall|j: int| 0 <= j < i ==> (#[trigger] r@[j])@ == self.dbs_model()[j].0,
            decreases self.dbs@.len() - i,
        {
            r.push(self.dbs[i].0.clone());
            assert(self.dbs_model()[i as int] == (self.dbs@[i as int].0@, self.dbs@[i as int].1));
            i += 1;
        }
        r
    }

    /// The collections of one named database.
    pub fn get_databse_collections(&self, db_name: &String) -> (r: Result<
        Vec<Collection>,
        EngineError,
    >)
        requires
            self.wf(),
        ensures
            match r {
                Ok(out) => (find_db(self.dbs_model(), db_name@) matches Some(db) && {
                    &&& forall|i: int|
                        0 <= i < out@.len() ==> crate::meta_store::find_col(
                            db.cols(),
                            (#[trigger] out@[i])@.full_name,
                        ) == Some(out@[i]@)
                    &&& forall|fqn: Seq<u8>|
                        #[trigger] crate::meta_store::find_col(db.cols(), fqn) is Some
                            ==> exists|i: int|
                            0 <= i < out@.len() && (#[trigger] out@[i])@.full_name == fqn
                }),
                Err(_) => find_db(self.dbs_model(), db_name@) is None,
            },
    {
        let i = match self.find_db_at(db_name) {
            None => {
                return Err(
                    EngineError::OpError(OpError::DatabaseNotFound(db_name.clone())),
                );
            },
            Some(i) => i,
        };
        let entry = &self.dbs[i];
        assert(self.dbs_model()[i as int] == (entry.0@, entry.1));
        match entry.1.get_collections() {
            Ok(out) => Ok(out),
            Err(_) => {
                proof {
                    assert(false);
                }
                Err(EngineError::Internal(text_bytes("record store missing")))
            },
        }
    }

    /// Record a user credential; idempotent for an existing pair.
    pub fn create_user(&mut self, username: String, password: String) -> (r: Result<(), EngineError>)
        requires
            old(self).wf(),
        ensures
            final(self).wf(),
            final(self).dbs_model() == old(self).dbs_model(),
            r is Ok,
            final(self).users_model() == (if old(self).users_model().contains(
                (username@, password@),
            ) {
                old(self).users_model()
            } else {
                old(self).users_model().push((username@, password@))
            }),
    {
        if self.check_user(&username, &password) {
            proof {
                assert(self.dbs_model() =~= old(self).dbs_model());
            }
            return Ok(());
        }
        let ghost oldu = self.users_model();
        self.users.push((username, password));
        proof {
            assert(self.users_model() =~= oldu.push(
                (self.users@.last().0@, self.users@.last().1@),
            ));
            assert(self.dbs_model() =~= old(self).dbs_model());
        }
        Ok(())
    }

    /// Is this exact credential pair known?
    pub fn check_user(&self, username: &String, password: &String) -> (r: bool)
        ensures
            r == self.users_model().contains((username@, password@)),
    {
        let mut i: usize = 0;
        while i < self.users.len()
            invariant
                i <= self.users@.len(),
                forall|j: int| 0 <= j < i ==> (#[trigger] self.users_model()[j]) != (
                    username@,
                    password@,
                ),
            decreases self.users@.len() - i,
        {
            assert(self.users_model()[i as int] == (
                self.users@[i as int].0@,
                self.users@[i as int].1@,
            ));
            if self.users[i].0.eq(username) && self.users[i].1.eq(password) {
                assert(self.users_model().contains((username@, password@)));
                return true;
            }
            i += 1;
        }
        proof {
            if self.users_model().contains((username@, password@)) {
                let j = choose|j: int|
                    0 <= j < self.users_model().len() && self.users_model()[j] == (
                        username@,
                        password@,
                    );
            }
        }
        false
    }
}

/// Removing the entry at `i` removes only that name from lookups.
pub proof fn lemma_find_db_remove(s: Seq<(Seq<char>, RocksDb)>, i: int)
    requires
        0 <= i < s.len(),
        forall|a: int, b: int| 0 <= a < b < s.len() ==> (#[trigger] s[a].0) != (#[trigger] s[b].0),
    ensures
        find_db(s.remove(i), s[i].0) is None,
        forall|n: Seq<char>|
            n != s[i].0 ==> #[trigger] find_db(s.remove(i), n) == find_db(s, n),
    decreases s.len(),
{
    let t = s.remove(i);
    if i == s.len() - 1 {
        assert(t =~= s.drop_last());
        assert forall|a: int| 0 <= a < s.drop_last().len() implies (
        #[trigger] s.drop_last()[a].0) != s[i].0 by {
            assert(s.drop_last()[a] == s[a]);
        }
        lemma_find_db_absent(s.drop_last(), s[i].0);
        assert forall|n: Seq<char>| n != s[i].0 implies #[trigger] find_db(t, n) == find_db(
            s,
            n,
        ) by {
            assert(find_db(s, n) == find_db(s.drop_last(), n));
        }
    } else {
        assert(t.last() == s.last());
        assert(t.drop_last() =~= s.drop_last().remove(i));
        assert(s.drop_last()[i] == s[i]);
        assert forall|a: int, b: int| 0 <= a < b < s.drop_last().len() implies (
        #[trigger] s.drop_last()[a].0) != (#[trigger] s.drop_last()[b].0) by {
            assert(s.drop_last()[a] == s[a]);
            assert(s.drop_last()[b] == s[b]);
        }
        lemma_find_db_remove(s.drop_last(), i);
        assert(s[i].0 != s.last().0);
        assert(find_db(t, s[i].0) == find_db(t.drop_last(), s[i].0));
        assert forall|n: Seq<char>| n != s[i].0 implies #[trigger] find_db(t, n) == find_db(
            s,
            n,
        ) by {
            if n == s.last().0 {
            } else {
                assert(find_db(t, n) == find_db(t.drop_last(), n));
                assert(find_db(s, n) == find_db(s.drop_last(), n));
            }
        }
    }
}

/// A name different from every entry's name is not found.
pub proof fn lemma_find_db_absent(s: Seq<(Seq<char>, RocksDb)>, n: Seq<char>)
    requires
        forall|a: int| 0 <= a < s.len() ==> (#[trigger] s[a].0) != n,
    ensures
        find_db(s, n) is None,
    decreases s.len(),
{
    if s.len() > 0 {
        assert forall|a: int| 0 <= a < s.drop_last().len() implies (
        #[trigger] s.drop_last()[a].0) != n by {
            assert(s.drop_last()[a] == s[a]);
        }
        lemma_find_db_absent(s.drop_last(), n);
    }
}

} // verus!

verus! {

/// Registry names are registered at most once.
pub proof fn lemma_wf_unique_names(e: ProtolithDbEngine)
    requires
        e.wf(),
    ensures
        forall|i: int, j: int|
            0 <= i < j < e.dbs_model().len() ==> (#[trigger] e.dbs_model()[i].0) != (
            #[trigger] e.dbs_model()[j].0),
{
    assert forall|i: int, j: int| 0 <= i < j < e.dbs_model().len() implies (
    #[trigger] e.dbs_model()[i].0) != (#[trigger] e.dbs_model()[j].0) by {
        assert(e.dbs_model()[i].0 == e.dbs@[i].0@);
        assert(e.dbs_model()[j].0 == e.dbs@[j].0@);
    }
}

/// The listed database `d` holds a collection named `fqn`.
pub open spec fn listed_has(d: crate::api::Database, fqn: Seq<u8>) -> bool {
    exists|k: int|
        0 <= k < d.collections@.len() && (#[trigger] d.collections@[k])@.full_name == fqn
}

/// The descriptor entries hold an annotated message named `fqn`.
pub open spec fn annotated_has(es: Seq<crate::pool::MessageEntryView>, fqn: Seq<u8>) -> bool {
    exists|m: int|
        0 <= m < es.len() && (#[trigger] es[m]).is_collection && es[m].full_name == fqn
}

/// After a database is created under a fresh name, a listing of the new
/// state holds exactly one entry named so, and that entry's collection
/// names are exactly the messages of the submitted descriptor set that
/// carry the collection annotation.
pub proof fn lemma_create_then_list(
    pre: ProtolithDbEngine,
    post: ProtolithDbEngine,
    n: Seq<char>,
    fds: Seq<u8>,
    resp: crate::api::ListDatabasesResponse,
)
    requires
        pre.wf(),
        post.wf(),
        // What a successful create ensures of the new state.
        !pre.has_db(n),
        post.dbs_model().len() == pre.dbs_model().len() + 1,
        forall|i: int|
            0 <= i < pre.dbs_model().len() ==> #[trigger] post.dbs_model()[i]
                == pre.dbs_model()[i],
        post.dbs_model().last().0 == n,
        pool_entries(fds) matches Some(es) && {
            let db = post.dbs_model().last().1;
            &&& db.cols().len() == collections_spec(es).len()
            &&& db.path_spec() == pre.db_path_spec() + "/"@ + n
            &&& forall|i: int|
                0 <= i < db.cols().len() ==> #[trigger] db.cols()[i] == meta_store::rewritten(
                    collections_spec(es)[i],
                    db.store_ver(),
                )
        },
        // What listing the new state ensures.
        resp.databases@.len() == post.dbs_model().len(),
        forall|i: int|
            0 <= i < resp.databases@.len() ==> (#[trigger] resp.databases@[i]).name@
                == post.dbs_model()[i].0 && resp.databases@[i].path@
                == post.dbs_model()[i].1.path_spec(),
        forall|i: int, fqn: Seq<u8>|
            0 <= i < resp.databases@.len() ==> ((#[trigger] meta_store::find_col(
                post.dbs_model()[i].1.cols(),
                fqn,
            )) is Some ==> exists|k: int|
                0 <= k < resp.databases@[i].collections@.len() && (
                #[trigger] resp.databases@[i].collections@[k])@.full_name == fqn),
        forall|i: int, k: int|
            0 <= i < resp.databases@.len() && 0 <= k < resp.databases@[i].collections@.len()
                ==> meta_store::find_col(
                post.dbs_model()[i].1.cols(),
                (#[trigger] resp.databases@[i].collections@[k])@.full_name,
            ) == Some(resp.databases@[i].collections@[k]@),
    ensures
        // Exactly one listed database carries the new name, rooted at
        // its own directory under the database root.
        exists|j: int|
            0 <= j < resp.databases@.len() && (#[trigger] resp.databases@[j]).name@ == n,
        resp.databases@[resp.databases@.len() - 1].name@ == n,
        resp.databases@[resp.databases@.len() - 1].path@ == pre.db_path_spec() + "/"@ + n,
        forall|a: int, b: int|
            0 <= a < b < resp.databases@.len() && (#[trigger] resp.databases@[a]).name@ == n
                ==> (#[trigger] resp.databases@[b]).name@ != n,
        // Its collection names are the annotated messages of the set.
        forall|fqn: Seq<u8>|
            #[trigger] listed_has(
                resp.databases@[resp.databases@.len() - 1],
                fqn,
            ) <==> annotated_has(pool_entries(fds)->Some_0, fqn),
{
    let model = post.dbs_model();
    let last = model.len() - 1;
    assert(resp.databases@[last].name@ == n);
    lemma_wf_unique_names(post);
    assert forall|a: int, b: int|
        0 <= a < b < resp.databases@.len() && (#[trigger] resp.databases@[a]).name@ == n
        implies (#[trigger] resp.databases@[b]).name@ != n by {
        if resp.databases@[b].name@ == n {
            assert(model[a].0 == n && model[b].0 == n);
        }
    }
    let es = pool_entries(fds)->Some_0;
    let db = model.last().1;
    let j = resp.databases@.len() - 1;
    assert forall|fqn: Seq<u8>|
        #[trigger] listed_has(resp.databases@[j], fqn) <==> annotated_has(es, fqn) by {
        assert(model[j].1 == db);
        crate::pool::lemma_collections_spec_names(es, fqn);
        // Collection names survive the index rewrite.
        assert forall|i: int| 0 <= i < db.cols().len() implies (#[trigger] db.cols()[i]).full_name
            == collections_spec(es)[i].full_name by {}
        if exists|k: int|
            0 <= k < resp.databases@[j].collections@.len() && (
            #[trigger] resp.databases@[j].collections@[k])@.full_name == fqn {
            let k = choose|k: int|
                0 <= k < resp.databases@[j].collections@.len() && (
                #[trigger] resp.databases@[j].collections@[k])@.full_name == fqn;
            assert(meta_store::find_col(db.cols(), fqn) is Some);
            meta_store::lemma_find_col_index(db.cols(), fqn);
            meta_store::lemma_find_col_name(db.cols(), fqn);
            let i = choose|i: int|
                0 <= i < db.cols().len() && #[trigger] db.cols()[i] == meta_store::find_col(
                    db.cols(),
                    fqn,
                )->Some_0;
            assert(collections_spec(es)[i].full_name == fqn);
        }
        if exists|m: int|
            0 <= m < es.len() && (#[trigger] es[m]).is_collection && es[m].full_name == fqn {
            let i = choose|i: int|
                0 <= i < collections_spec(es).len() && (
                #[trigger] collections_spec(es)[i]).full_name == fqn;
            assert(db.cols()[i].full_name == fqn);
            meta_store::lemma_find_col_some(db.cols(), i);
            assert(meta_store::find_col(db.cols(), fqn) is Some);
        }
    }
}

} // verus!

verus! {

impl ProtolithDbEngine {
    /// Dump every record of the named database, ascending by key.
    pub fn export_records(&self, database: &String) -> (r: Result<
        Vec<(Vec<u8>, Vec<u8>)>,
        EngineError,
    >)
        requires
            self.wf(),
        ensures
            match r {
                Ok(es) => (find_db(self.dbs_model(), database@) matches Some(db)
                    && crate::kv::pairs_view(es@) == db.records()),
                Err(_) => find_db(self.dbs_model(), database@) is None,
            },
    {
        let i = match self.find_db_at(database) {
            None => {
                return Err(EngineError::OpError(OpError::DatabaseNotFound(database.clone())));
            },
            Some(i) => i,
        };
        let entry = &self.dbs[i];
        assert(self.dbs_model()[i as int] == (entry.0@, entry.1));
        Ok(entry.1.export_records())
    }

    /// Reinstate dumped records into the named database, as boot does
    /// when it restores a record snapshot from disk.
    pub fn restore_records(&mut self, database: &String, entries: Vec<(Vec<u8>, Vec<u8>)>) -> (r:
        Result<(), EngineError>)
        requires
            old(self).wf(),
        ensures
            final(self).wf(),
            final(self).users_model() == old(self).users_model(),
            forall|n: Seq<char>|
                n != database@ ==> #[trigger] find_db(final(self).dbs_model(), n) == find_db(
                    old(self).dbs_model(),
                    n,
                ),
            match r {
                Ok(()) => (find_db(old(self).dbs_model(), database@) matches Some(db) && (find_db(
                    final(self).dbs_model(),
                    database@,
                ) matches Some(db2) && db2.records() == crate::db::restored_records(
                    db.records(),
                    crate::kv::pairs_view(entries@),
                ) && db2.cols() == db.cols())),
                Err(_) => find_db(old(self).dbs_model(), database@) is None
                    && final(self).dbs_model() == old(self).dbs_model(),
            },
    {
        let i = match self.find_db_at(database) {
            None => {
                return Err(EngineError::OpError(OpError::DatabaseNotFound(database.clone())));
            },
            Some(i) => i,
        };
        let ghost oldm = self.dbs_model();
        let ghost entv = crate::kv::pairs_view(entries@);
        let mut entry = self.dbs.remove(i);
        let ghost db0 = entry.1;
        let mut rest = entries;
        let mut done: usize = 0;
        proof {
            assert(entv.take(0) =~= Seq::<(Seq<u8>, Seq<u8>)>::empty());
            crate::meta_store::lemma_vec_len_bound(&rest);
        }
        while rest.len() > 0
            invariant
                done + rest@.len() == entv.len(),
                entv.len() <= usize::MAX,
                entry.1.wf(),
                entry.1.records() == crate::db::restored_records(
                    db0.records(),
                    entv.take(done as int),
                ),
                entry.1.cols() == db0.cols(),
                entry.1.name_spec() == db0.name_spec(),
                entry.1.path_spec() == db0.path_spec(),
                entry.1.pool_raw() == db0.pool_raw(),
                entry.1.pool_model() == db0.pool_model(),
                entry.1.versioned() == db0.versioned(),
                entry.1.store_ver() == db0.store_ver(),
                entry.0@ == oldm[i as int].0,
                forall|k: int|
                    0 <= k < rest@.len() ==> (#[trigger] crate::kv::pairs_view(rest@)[k])
                        == entv[done + k],
            decreases rest@.len(),
        {
            proof {
                assert(crate::kv::pairs_view(rest@)[0] == (rest@[0].0@, rest@[0].1@));
                assert(entv.take(done + 1).drop_last() =~= entv.take(done as int));
                assert(entv.take(done + 1).last() == entv[done as int]);
            }
            let ghost restv0 = rest@;
            let (k, v) = rest.remove(0);
            proof {
                assert forall|m: int| 0 <= m < rest@.len() implies (
                #[trigger] crate::kv::pairs_view(rest@)[m]) == entv[done + 1 + m] by {
                    assert(rest@[m] == restv0[m + 1]);
                    assert(crate::kv::pairs_view(restv0)[m + 1] == (
                        restv0[m + 1].0@,
                        restv0[m + 1].1@,
                    ));
                }
            }
            entry.1.restore_record(k, v);
            done += 1;
        }
        proof {
            assert(entv.take(done as int) =~= entv);
        }
        self.dbs.insert(i, entry);
        proof {
            assert(self.dbs@ =~= old(self).dbs@.update(
                i as int,
                (self.dbs@[i as int].0, self.dbs@[i as int].1),
            ));
            assert(self.dbs_model() =~= oldm.update(
                i as int,
                (oldm[i as int].0, self.dbs@[i as int].1),
            ));
            lemma_find_db_update(oldm, i as int, self.dbs@[i as int].1);
            assert(final(self).wf()) by {
                assert forall|a: int| 0 <= a < self.dbs@.len() implies (
                #[trigger] self.dbs@[a].1).wf() by {
                    if a != i {
                        assert(self.dbs@[a] == old(self).dbs@[a]);
                    }
                }
                assert forall|a: int, b: int| 0 <= a < b < self.dbs@.len() implies (
                #[trigger] self.dbs@[a].0@) != (#[trigger] self.dbs@[b].0@) by {
                    assert(self.dbs@[a].0@ == oldm[a].0);
                    assert(self.dbs@[b].0@ == oldm[b].0);
                }
            }
        }
        Ok(())
    }
}

} // verus!
