//! The auth subsystem: user login against the engine's credentials and
//! the in-memory session table, minting one fresh opaque token per
//! successful login.

use vstd::prelude::*;
use crate::engine::ProtolithDbEngine;
use crate::meta_store;
use crate::kv::clone_bytes;
use crate::bytes::{dec_bytes, u64_to_dec, bytes_eq, bytes_concat};

verus! {

/// Login failed: the named user is not known.
#[derive(Debug, Clone, PartialEq, Eq)]
pub enum AuthError {
    UserNotExists(String),
}

/// Auth configuration: the metastore names and the boot credentials.
pub struct Config {
    pub meta_store: meta_store::Config,
    pub user: String,
    pub password: String,
}

/// One live session: who logged in.
pub struct Session {
    pub username: String,
}

impl Session {
    pub fn clone_session(&self) -> (r: Session)
        ensures
            r.username@ == self.username@,
    {
        Session { username: self.username.clone() }
    }
}

/// The token prefix, `session-` in ASCII.
pub open spec fn token_prefix() -> Seq<u8> {
    seq![115u8, 101u8, 115u8, 115u8, 105u8, 111u8, 110u8, 45u8]
}

/// The token minted for the `n`-th login.
pub open spec fn token_of(n: u64) -> Seq<u8> {
    token_prefix() + dec_bytes(n as nat)
}

/// The latest session registered under `t`, if any.
pub open spec fn find_session(s: Seq<(Seq<u8>, Seq<char>)>, t: Seq<u8>) -> Option<Seq<char>>
    decreases s.len(),
{
    if s.len() == 0 {
        None
    } else if s.last().0 == t {
        Some(s.last().1)
    } else {
        find_session(s.drop_last(), t)
    }
}

/// The session table and the counter behind fresh tokens.
pub struct ProtolithAuth {
    sessions: Vec<(Vec<u8>, Session)>,
    counter: u64,
}

impl ProtolithAuth {
    /// Token to username, in registration order.
    pub closed spec fn sessions_model(self) -> Seq<(Seq<u8>, Seq<char>)> {
        Seq::new(self.sessions@.len(), |i: int| (self.sessions@[i].0@, self.sessions@[i].1.username@))
    }

    pub closed spec fn counter_spec(self) -> u64 {
        self.counter
    }

    pub fn new() -> (r: ProtolithAuth)
        ensures
            r.sessions_model() == Seq::<(Seq<u8>, Seq<char>)>::empty(),
            r.counter_spec() == 0,
    {
        let r = ProtolithAuth { sessions: Vec::new(), counter: 0 };
        proof {
            assert(r.sessions_model() =~= Seq::<(Seq<u8>, Seq<char>)>::empty());
        }
        r
    }

    /// Register a session under a token.
    pub fn create_session(&mut self, session_id: Vec<u8>, username: String)
        ensures
            final(self).sessions_model() == old(self).sessions_model().push(
                (session_id@, username@),
            ),
            final(self).counter_spec() == old(self).counter_spec(),
    {
        let ghost oldm = self.sessions_model();
        self.sessions.push((session_id, Session { username }));
        proof {
            assert(self.sessions_model() =~= oldm.push(
                (self.sessions@.last().0@, self.sessions@.last().1.username@),
            ));
        }
    }

    /// Look a session up by its token.
    pub fn get_session(&self, session: &Vec<u8>) -> (r: Option<Session>)
        ensures
            match r {
                Some(s) => find_session(self.sessions_model(), session@) == Some(s.username@),
                None => find_session(self.sessions_model(), session@) is None,
            },
    {
        let ghost m = self.sessions_model();
        let mut i: usize = self.sessions.len();
        proof {
            assert(m.take(i as int) =~= m);
        }
        while i > 0
            invariant
                i <= self.sessions@.len(),
                m == self.sessions_model(),
                find_session(m, session@) == find_session(m.take(i as int), session@),
            decreases i,
        {
            i -= 1;
            proof {
                assert(m.take(i + 1).last() == m[i as int]);
                assert(m.take(i + 1).drop_last() =~= m.take(i as int));
                assert(m[i as int] == (self.sessions@[i as int].0@, self.sessions@[i as int].1.username@));
            }
            if bytes_eq(&self.sessions[i].0, session) {
                return Some(self.sessions[i].1.clone_session());
            }
        }
        assert(m.take(0) =~= Seq::<(Seq<u8>, Seq<char>)>::empty());
        None
    }

    /// A snapshot of every session, in registration order.
    pub fn sessions(&self) -> (r: Vec<(Vec<u8>, Session)>)
        ensures
            r@.len() == self.sessions_model().len(),
            forall|i: int|
                0 <= i < r@.len() ==> ((#[trigger] r@[i]).0@, r@[i].1.username@)
                    == self.sessions_model()[i],
    {
        let mut r: Vec<(Vec<u8>, Session)> = Vec::new();
        let mut i: usize = 0;
        while i < self.sessions.len()
            invariant
                i <= self.sessions@.len(),
                r@.len() == i,
                forall|j: int|
                    0 <= j < i ==> ((#[trigger] r@[j]).0@, r@[j].1.username@)
                        == self.sessions_model()[j],
            decreases self.sessions@.len() - i,
        {
            let e = &self.sessions[i];
            r.push((clone_bytes(&e.0), e.1.clone_session()));
            assert(self.sessions_model()[i as int] == (
                self.sessions@[i as int].0@,
                self.sessions@[i as int].1.username@,
            ));
            i += 1;
        }
        r
    }

    /// Replace the whole session table, as boot does when it restores a
    /// snapshot from disk.
    pub fn set_sessions(&mut self, sessions: Vec<(Vec<u8>, Session)>)
        ensures
            final(self).sessions_model().len() == sessions@.len(),
            forall|i: int|
                0 <= i < sessions@.len() ==> #[trigger] final(self).sessions_model()[i] == (
                    sessions@[i].0@,
                    sessions@[i].1.username@,
                ),
            final(self).counter_spec() == old(self).counter_spec(),
    {
        self.sessions = sessions;
    }

    /// Check the credentials against the engine; on success mint a
    /// fresh token, register the session, and return the token. The
    /// counter behind the tokens saturates at the machine limit.
    pub fn login_user(&mut self, engine: &ProtolithDbEngine, username: String, password: String)
        -> (r: Result<Vec<u8>, AuthError>)
        ensures
            match r {
                Ok(t) => {
                    &&& engine.users_model().contains((username@, password@))
                    &&& t@ == token_of(old(self).counter_spec())
                    &&& final(self).sessions_model() == old(self).sessions_model().push(
                        (t@, username@),
                    )
                    &&& final(self).counter_spec() == (if old(self).counter_spec() < u64::MAX {
                        (old(self).counter_spec() + 1) as u64
                    } else {
                        old(self).counter_spec()
                    })
                },
                Err(AuthError::UserNotExists(n)) => {
                    &&& !engine.users_model().contains((username@, password@))
                    &&& n@ == username@
                    &&& *final(self) == *old(self)
                },
            },
    {
        if !engine.check_user(&username, &password) {
            return Err(AuthError::UserNotExists(username));
        }
        let n = self.counter;
        if n < u64::MAX {
            self.counter = n + 1;
        }
        let mut prefix: Vec<u8> = Vec::new();
        prefix.push(115u8);
        prefix.push(101u8);
        prefix.push(115u8);
        prefix.push(115u8);
        prefix.push(105u8);
        prefix.push(111u8);
        prefix.push(110u8);
        prefix.push(45u8);
        assert(prefix@ =~= token_prefix());
        let digits = u64_to_dec(n);
        let token = bytes_concat(&prefix, &digits);
        let out = clone_bytes(&token);
        self.create_session(token, username);
        Ok(out)
    }

    /// Record a boot credential in the engine; idempotent.
    pub fn create_user(
        &self,
        engine: &mut ProtolithDbEngine,
        username: String,
        password: String,
    ) -> (r: Result<Session, AuthError>)
        requires
            old(engine).wf(),
        ensures
            final(engine).wf(),
            final(engine).dbs_model() == old(engine).dbs_model(),
            final(engine).users_model().contains((username@, password@)),
            r matches Ok(s) && s.username@ == username@,
    {
        let uname = username.clone();
        let ghost u = username@;
        let ghost p = password@;
        let cr = engine.create_user(username, password);
        proof {
            if !old(engine).users_model().contains((u, p)) {
                assert(final(engine).users_model().last() == (u, p));
            }
        }
        match cr {
            Ok(()) => Ok(Session { username: uname }),
            Err(_) => {
                proof {
                    assert(false);
                }
                Ok(Session { username: uname })
            },
        }
    }
}

/// The auth service wrapper around the session table.
pub struct Auth {
    pub auth: ProtolithAuth,
}

impl Auth {
    pub fn get_session(&self, session: &Vec<u8>) -> (r: Option<Session>)
        ensures
            match r {
                Some(s) => find_session(self.auth.sessions_model(), session@) == Some(
                    s.username@,
                ),
                None => find_session(self.auth.sessions_model(), session@) is None,
            },
    {
        self.auth.get_session(session)
    }

    pub fn sessions(&self) -> (r: Vec<(Vec<u8>, Session)>)
        ensures
            r@.len() == self.auth.sessions_model().len(),
            forall|i: int|
                0 <= i < r@.len() ==> ((#[trigger] r@[i]).0@, r@[i].1.username@)
                    == self.auth.sessions_model()[i],
    {
        self.auth.sessions()
    }

    pub fn set_sessions(&mut self, sessions: Vec<(Vec<u8>, Session)>)
        ensures
            final(self).auth.sessions_model().len() == sessions@.len(),
            forall|i: int|
                0 <= i < sessions@.len() ==> #[trigger] final(self).auth.sessions_model()[i] == (
                    sessions@[i].0@,
                    sessions@[i].1.username@,
                ),
    {
        self.auth.set_sessions(sessions);
    }
}

impl Config {
    /// Build the auth service: record the boot credential and start
    /// with an empty session table.
    pub fn build(self, engine: &mut ProtolithDbEngine) -> (r: Result<Auth, AuthError>)
        requires
            old(engine).wf(),
        ensures
            final(engine).wf(),
            final(engine).dbs_model() == old(engine).dbs_model(),
            final(engine).users_model().contains((self.user@, self.password@)),
            r matches Ok(a) && a.auth.sessions_model() == Seq::<(Seq<u8>, Seq<char>)>::empty()
                && a.auth.counter_spec() == 0,
    {
        let auth = ProtolithAuth::new();
        let _ = auth.create_user(engine, self.user, self.password);
        Ok(Auth { auth })
    }
}

} // verus!
