//! Application-level state: the assembled configuration, the session
//! records persisted across restarts, the boot-time database discovery
//! rule, and the shutdown plan.

use vstd::prelude::*;
use crate::{admin, auth, db, meta_store, schema};
use crate::engine::ProtolithDbEngine;
use crate::env::Addr;
use crate::bytes::bytes_eq;

verus! {

/// One persisted session: who, and when it was last seen (milliseconds
/// since the epoch).
pub struct Session {
    pub user_id: String,
    pub last_accessed: u64,
}

/// The whole application configuration.
pub struct Config {
    pub db: db::Config,
    pub admin: admin::Config,
    pub auth: auth::Config,
    pub meta_store: meta_store::Config,
    pub schema: schema::Config,
    pub addr: Addr,
    pub default_database: (String, String),
    pub destroy_on_shutdown: bool,
    pub shutdown_grace_period: u64,
}

/// The engine sentinel file `IDENTITY`.
pub open spec fn identity_file() -> Seq<u8> {
    seq![73u8, 68u8, 69u8, 78u8, 84u8, 73u8, 84u8, 89u8]
}

/// The engine sentinel file `CURRENT`.
pub open spec fn current_file() -> Seq<u8> {
    seq![67u8, 85u8, 82u8, 82u8, 69u8, 78u8, 84u8]
}

pub open spec fn names_contain(names: Seq<Vec<u8>>, f: Seq<u8>) -> bool {
    exists|i: int| 0 <= i < names.len() && (#[trigger] names[i])@ == f
}

/// A directory is a database exactly when it holds both engine
/// sentinel files.
pub fn is_database_dir(file_names: &Vec<Vec<u8>>) -> (r: bool)
    ensures
        r == (names_contain(file_names@, identity_file()) && names_contain(
            file_names@,
            current_file(),
        )),
{
    let identity: Vec<u8> = vec![73u8, 68u8, 69u8, 78u8, 84u8, 73u8, 84u8, 89u8];
    let current: Vec<u8> = vec![67u8, 85u8, 82u8, 82u8, 69u8, 78u8, 84u8];
    proof {
        assert(identity@ =~= identity_file());
        assert(current@ =~= current_file());
    }
    let mut has_identity = false;
    let mut has_current = false;
    let mut i: usize = 0;
    while i < file_names.len()
        invariant
            i <= file_names@.len(),
            identity@ == identity_file(),
            current@ == current_file(),
            has_identity == exists|j: int|
                0 <= j < i && (#[trigger] file_names@[j])@ == identity_file(),
            has_current == exists|j: int|
                0 <= j < i && (#[trigger] file_names@[j])@ == current_file(),
        decreases file_names@.len() - i,
    {
        if bytes_eq(&file_names[i], &identity) {
            has_identity = true;
        }
        if bytes_eq(&file_names[i], &current) {
            has_current = true;
        }
        i += 1;
    }
    has_identity && has_current
}

/// What to do after the drain completes.
pub enum ShutdownAction {
    /// Destroy every named database, then remove their directories.
    DestroyAll(Vec<String>),
    /// Persist the session table.
    SaveSessions,
}

/// Decide the shutdown behaviour: destroy everything, or keep the data
/// and save the sessions.
pub fn shutdown_plan(destroy_on_shutdown: bool, engine: &ProtolithDbEngine) -> (r:
    ShutdownAction)
    ensures
        destroy_on_shutdown ==> (r matches ShutdownAction::DestroyAll(names) && names@.len()
            == engine.dbs_model().len() && (forall|i: int|
            0 <= i < names@.len() ==> (#[trigger] names@[i])@ == engine.dbs_model()[i].0)),
        !destroy_on_shutdown ==> r is SaveSessions,
{
    if destroy_on_shutdown {
        ShutdownAction::DestroyAll(engine.database_names())
    } else {
        ShutdownAction::SaveSessions
    }
}

impl ProtolithDbEngine {
    /// Destroy every database: afterwards the registry is empty.
    pub fn destroy_all(&mut self)
        requires
            old(self).wf(),
        ensures
            final(self).wf(),
            final(self).dbs_model().len() == 0,
            forall|n: Seq<char>| !(#[trigger] final(self).has_db(n)),
    {
        loop
            invariant
                self.wf(),
            ensures
                self.wf(),
                self.dbs_model().len() == 0,
            decreases self.dbs_model().len(),
        {
            let names = self.database_names();
            if names.len() == 0 {
                break;
            }
            proof {
                crate::engine::lemma_find_db_some(self.dbs_model(), 0);
            }
            let res = self.destroy_db(&names[0]);
            match res {
                Ok(()) => {},
                Err(_) => {
                    proof {
                        assert(false);
                    }
                },
            }
        }
        proof {
            assert forall|nm: Seq<char>| !(#[trigger] self.has_db(nm)) by {
                assert(crate::engine::find_db(self.dbs_model(), nm) is None);
            }
        }
    }
}

} // verus!
