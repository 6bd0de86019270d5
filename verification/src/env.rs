//! Configuration loading from environment-style string variables: the
//! variable names, the per-value parsers, and the assembly of the whole
//! application configuration with its defaults.

use vstd::prelude::*;
use vstd::string::{StrSliceExecFns, StringSliceAdditionalSpecFns};
use crate::bytes::{all_digits, digits_val, parse_dec_u64, bytes_eq};
use crate::db::first_at;
use crate::kv::clone_bytes;
use crate::{db, meta_store, schema};

verus! {

/// Errors produced when loading a configuration.
#[derive(Debug, Clone, PartialEq, Eq)]
pub enum EnvError {
    InvalidEnvVar,
    NoRocksDbPath,
}

/// Errors of the individual value parsers.
#[derive(Debug, Clone, PartialEq, Eq)]
pub enum ParseError {
    NotADuration,
    NotABool,
    NotAnInteger,
    NotAnAddr,
}

/// The strings used to build a configuration.
pub trait Strings {
    fn get(&self, key: &str) -> Result<Option<String>, EnvError>;
}

/// A snapshot of the environment: variable names and values, handed in
/// by the process edge.
pub struct Env {
    pub vars: Vec<(String, String)>,
}

impl Env {
    /// Name-to-value, first match wins.
    pub closed spec fn vars_model(self) -> Seq<(Seq<char>, Seq<char>)> {
        Seq::new(self.vars@.len(), |i: int| (self.vars@[i].0@, self.vars@[i].1@))
    }

    /// Look a variable up by name.
    pub fn lookup(&self, key: &str) -> (r: Option<String>)
        ensures
            match r {
                Some(v) => lookup_spec(self.vars_model(), key@) == Some(v@),
                None => lookup_spec(self.vars_model(), key@) is None,
            },
    {
        let ghost m = self.vars_model();
        let key_s = key.to_owned();
        let mut i: usize = 0;
        proof {
            assert(m.skip(0) =~= m);
        }
        while i < self.vars.len()
            invariant
                i <= self.vars@.len(),
                m == self.vars_model(),
                key_s@ == key@,
                lookup_spec(m, key@) == lookup_spec(m.skip(i as int), key@),
            decreases self.vars@.len() - i,
        {
            proof {
                assert(m.skip(i as int)[0] == m[i as int]);
                assert(m.skip(i as int).skip(1) =~= m.skip(i + 1));
                assert(m[i as int] == (self.vars@[i as int].0@, self.vars@[i as int].1@));
            }
            if self.vars[i].0.eq(&key_s) {
                return Some(self.vars[i].1.clone());
            }
            i += 1;
        }
        assert(m.skip(i as int).len() == 0);
        None
    }
}

/// The first value stored under `k`, if any.
pub open spec fn lookup_spec(s: Seq<(Seq<char>, Seq<char>)>, k: Seq<char>) -> Option<Seq<char>>
    decreases s.len(),
{
    if s.len() == 0 {
        None
    } else if s[0].0 == k {
        Some(s[0].1)
    } else {
        lookup_spec(s.skip(1), k)
    }
}

impl Strings for Env {
    fn get(&self, key: &str) -> Result<Option<String>, EnvError> {
        Ok(self.lookup(key))
    }
}

/// The ASCII bytes of `true`.
pub open spec fn true_bytes() -> Seq<u8> {
    seq![116u8, 114u8, 117u8, 101u8]
}

/// The ASCII bytes of `false`.
pub open spec fn false_bytes() -> Seq<u8> {
    seq![102u8, 97u8, 108u8, 115u8, 101u8]
}

/// Parse a boolean: exactly `true` or `false`.
pub fn parse_bool(s: &str) -> (r: Result<bool, ParseError>)
    ensures
        match r {
            Ok(b) => (b ==> s.spec_bytes() == true_bytes()) && (!b ==> s.spec_bytes()
                == false_bytes()),
            Err(_) => s.spec_bytes() != true_bytes() && s.spec_bytes() != false_bytes(),
        },
{
    let b = s.as_bytes_vec();
    let t: Vec<u8> = vec![116u8, 114u8, 117u8, 101u8];
    let f: Vec<u8> = vec![102u8, 97u8, 108u8, 115u8, 101u8];
    proof {
        assert(t@ =~= true_bytes());
        assert(f@ =~= false_bytes());
    }
    if bytes_eq(&b, &t) {
        Ok(true)
    } else if bytes_eq(&b, &f) {
        Ok(false)
    } else {
        Err(ParseError::NotABool)
    }
}

/// Parse an unsigned decimal number.
pub fn parse_number(s: &str) -> (r: Result<u64, ParseError>)
    ensures
        match r {
            Ok(n) => s.spec_bytes().len() > 0 && all_digits(s.spec_bytes()) && digits_val(
                s.spec_bytes(),
            ) == n as nat,
            Err(_) => s.spec_bytes().len() == 0 || !all_digits(s.spec_bytes()) || digits_val(
                s.spec_bytes(),
            ) > u64::MAX,
        },
{
    let b = s.as_bytes_vec();
    match parse_dec_u64(&b) {
        Some(n) => Ok(n),
        None => Err(ParseError::NotAnInteger),
    }
}

/// Accept a string value as itself.
pub fn parse_string(s: &str) -> (r: Result<String, ParseError>)
    ensures
        r matches Ok(v) && v@ == s@,
{
    Ok(s.to_owned())
}

/// Accept a filesystem path value as a string.
pub fn parse_pathbuf(s: &str) -> (r: Result<String, ParseError>)
    ensures
        r matches Ok(v) && v@ == s@,
{
    Ok(s.to_owned())
}

/// A listen address `host:port`: one colon, a non-empty host, and a
/// port that fits sixteen bits.
pub struct Addr {
    pub host: Vec<u8>,
    pub port: u16,
}

/// Parse a listen address.
pub fn parse_socket_addr(s: &str) -> (r: Result<Addr, ParseError>)
    ensures
        match r {
            Ok(a) => (crate::db::split2(s.spec_bytes()) matches Some(p) && a.host@ == p.0
                && a.host@.len() > 0 && all_digits(p.1) && p.1.len() > 0 && digits_val(p.1)
                == a.port as nat),
            Err(_) => crate::db::split2(s.spec_bytes()) matches Some(p) ==> (p.0.len() == 0
                || !all_digits(p.1) || p.1.len() == 0 || digits_val(p.1) > 0xffff),
        },
{
    let b = s.as_bytes_vec();
    let (host, port64) = match crate::db::parse_schema_version_id(&b) {
        Ok(hp) => hp,
        Err(_) => {
            return Err(ParseError::NotAnAddr);
        },
    };
    if host.len() == 0 || port64 > 0xffff {
        return Err(ParseError::NotAnAddr);
    }
    Ok(Addr { host, port: port64 as u16 })
}

/// Parse a duration with an optional unit suffix into milliseconds.
/// A bare number is only valid when it is zero; `ms`, `s`, `m`, `h`
/// and `d` scale as expected. Overflow fails.
pub fn parse_duration(s: &str) -> (r: Result<u64, ParseError>)
    ensures
        match r {
            Ok(ms) => duration_spec(s.spec_bytes()) == Some(ms),
            Err(_) => duration_spec(s.spec_bytes()) is None,
        },
{
    let b = s.as_bytes_vec();
    // Split the digits from the unit suffix.
    let mut i: usize = 0;
    loop
        invariant
            i <= b@.len(),
            forall|j: int| 0 <= j < i ==> 48 <= #[trigger] b@[j] <= 57,
        ensures
            i <= b@.len(),
            forall|j: int| 0 <= j < i ==> 48 <= #[trigger] b@[j] <= 57,
            i == b@.len() || !(48 <= b@[i as int] <= 57),
        decreases b@.len() - i,
    {
        if i >= b.len() {
            break;
        }
        let c = b[i];
        if c < 48 || c > 57 {
            break;
        }
        i += 1;
    }
    let mut digits: Vec<u8> = Vec::new();
    let mut k: usize = 0;
    while k < i
        invariant
            k <= i <= b@.len(),
            digits@ == b@.take(k as int),
        decreases i - k,
    {
        digits.push(b[k]);
        assert(digits@ =~= b@.take(k + 1));
        k += 1;
    }
    assert(digits@ =~= b@.take(i as int));
    let mut suffix: Vec<u8> = Vec::new();
    let mut m: usize = i;
    while m < b.len()
        invariant
            i <= m <= b@.len(),
            suffix@ == b@.subrange(i as int, m as int),
        decreases b@.len() - m,
    {
        suffix.push(b[m]);
        assert(suffix@ =~= b@.subrange(i as int, m + 1));
        m += 1;
    }
    assert(suffix@ =~= b@.skip(i as int));
    proof {
        if i < b@.len() {
            assert(!(48 <= b@[i as int] <= 57));
        }
        assert(b@ =~= digits@ + suffix@);
        lemma_duration_split(b@, i as int);
    }
    let val = match parse_dec_u64(&digits) {
        None => {
            return Err(ParseError::NotADuration);
        },
        Some(v) => v,
    };
    let factor: u64 = if suffix.len() == 0 {
        if val == 0 {
            return Ok(0);
        }
        return Err(ParseError::NotADuration);
    } else if suffix.len() == 2 && suffix[0] == 109 && suffix[1] == 115 {
        assert(suffix@ =~= seq![109u8, 115u8]);
        1
    } else if suffix.len() == 1 && suffix[0] == 115 {
        assert(suffix@ =~= seq![115u8]);
        1000
    } else if suffix.len() == 1 && suffix[0] == 109 {
        assert(suffix@ =~= seq![109u8]);
        60000
    } else if suffix.len() == 1 && suffix[0] == 104 {
        assert(suffix@ =~= seq![104u8]);
        3600000
    } else if suffix.len() == 1 && suffix[0] == 100 {
        assert(suffix@ =~= seq![100u8]);
        86400000
    } else {
        proof {
            if suffix@ == seq![109u8, 115u8] {
                assert(suffix@[0] == 109 && suffix@[1] == 115 && suffix@.len() == 2);
            }
            if suffix@ == seq![115u8] {
                assert(suffix@[0] == 115 && suffix@.len() == 1);
            }
            if suffix@ == seq![109u8] {
                assert(suffix@[0] == 109 && suffix@.len() == 1);
            }
            if suffix@ == seq![104u8] {
                assert(suffix@[0] == 104 && suffix@.len() == 1);
            }
            if suffix@ == seq![100u8] {
                assert(suffix@[0] == 100 && suffix@.len() == 1);
            }
        }
        return Err(ParseError::NotADuration);
    };
    assert(unit_of(suffix@) == Some(factor));
    if val > u64::MAX / factor {
        proof {
            assert(val * factor > u64::MAX) by (nonlinear_arith)
                requires val > u64::MAX / factor && factor >= 1 && factor <= 86400000;
        }
        return Err(ParseError::NotADuration);
    }
    proof {
        assert(val * factor <= u64::MAX) by (nonlinear_arith)
            requires val <= u64::MAX / factor && factor >= 1;
    }
    Ok(val * factor)
}

/// The millisecond factor of a unit suffix, if it is one.
pub open spec fn unit_of(suffix: Seq<u8>) -> Option<u64> {
    if suffix == seq![109u8, 115u8] {
        Some(1u64)
    } else if suffix == seq![115u8] {
        Some(1000u64)
    } else if suffix == seq![109u8] {
        Some(60000u64)
    } else if suffix == seq![104u8] {
        Some(3600000u64)
    } else if suffix == seq![100u8] {
        Some(86400000u64)
    } else {
        None
    }
}

/// The length of the leading digit run of `b`.
pub open spec fn digit_run(b: Seq<u8>) -> int
    decreases b.len(),
{
    if b.len() == 0 || !(48 <= b[0] <= 57) {
        0
    } else {
        1 + digit_run(b.skip(1))
    }
}

/// The milliseconds a duration string denotes, if it is well formed:
/// a non-empty digit run, then a unit suffix (or nothing, for zero).
pub open spec fn duration_spec(b: Seq<u8>) -> Option<u64> {
    let i = digit_run(b);
    let digits = b.take(i);
    let suffix = b.skip(i);
    if digits.len() == 0 || digits_val(digits) > u64::MAX {
        None
    } else if suffix.len() == 0 {
        if digits_val(digits) == 0 {
            Some(0u64)
        } else {
            None
        }
    } else {
        match unit_of(suffix) {
            None => None,
            Some(f) => {
                if digits_val(digits) * f > u64::MAX {
                    None
                } else {
                    Some((digits_val(digits) * f) as u64)
                }
            },
        }
    }
}

/// Where the scan stops is exactly the leading digit run.
pub proof fn lemma_duration_split(b: Seq<u8>, i: int)
    requires
        0 <= i <= b.len(),
        forall|j: int| 0 <= j < i ==> 48 <= #[trigger] b[j] <= 57,
        i < b.len() ==> !(48 <= b[i] <= 57),
    ensures
        digit_run(b) == i,
    decreases i,
{
    if i == 0 {
    } else {
        assert forall|j: int| 0 <= j < i - 1 implies 48 <= #[trigger] b.skip(1)[j] <= 57 by {
            assert(b.skip(1)[j] == b[j + 1]);
        }
        if i < b.len() {
            assert(b.skip(1)[i - 1] == b[i]);
        }
        lemma_duration_split(b.skip(1), i - 1);
    }
}

} // verus!

verus! {

// Environment variables to look at when loading the configuration.
pub const ENV_DB_PATH: &'static str = "PROTOLITH_DB_PATH";

pub const ENV_DB_MAX_OPEN_FILES: &'static str = "PROTOLITH_DB_MAX_OPEN_FILES";

pub const ENV_DB_CACHE_SIZE: &'static str = "PROTOLITH_DB_CACHE_SIZE";

pub const ENV_METASTORE_INDEX_NAME: &'static str = "PROTOLITH_METASTORE_INDEX_NAME";

pub const ENV_METASTORE_SCHEMA_NAME: &'static str = "PROTOLITH_METASTORE_SCHEMA_NAME";

pub const ENV_METASTORE_VERSION_NAME: &'static str = "PROTOLITH_METASTORE_VERSION_NAME";

pub const ENV_METASTORE_USER: &'static str = "PROTOLITH_METASTORE_USER";

pub const ENV_SCHEMA_DEFAULT_VERSION: &'static str = "PROTOLITH_SCHEMA_DEFAULT_VERSION";

pub const ENV_SCHEMA_ENABLE_VERSIONING: &'static str = "PROTOLITH_SCHEMA_VERSIONING";

pub const ENV_ADDR: &'static str = "PROTOLITH_ADDR";

pub const ENV_USER: &'static str = "PROTOLITH_USER";

pub const ENV_PASS: &'static str = "PROTOLITH_PASS";

pub const ENV_SHUTDOWN_GRACE_PERIOD: &'static str = "PROTOLITH_SHUTDOWN_GRACE_PERIOD";

pub const ENV_DATABASE: &'static str = "PROTOLITH_DATABASE";

pub const ENV_DB_DROP_ON_SHUTDOWN: &'static str = "PROTOLITH_DESTROY_ON_SHUTDOWN";

pub const ENV_DB_DESCRIPTOR_FILE_NAME: &'static str = "PROTOLITH_DB_DESCRIPTOR_NAME";

pub const ENV_DEFAULT_DB_DESCRIPTOR_PATH: &'static str = "PROTOLITH_DEFAULT_DB_DESCRIPTOR";

/// The UTF-8 bytes of an environment value.
pub open spec fn env_bytes(v: Seq<char>) -> Seq<u8> {
    vstd::utf8::encode_utf8(v)
}

/// A boolean variable with a default; `None` marks an invalid value.
pub open spec fn bool_field(
    env: Seq<(Seq<char>, Seq<char>)>,
    name: Seq<char>,
    d: bool,
) -> Option<bool> {
    match lookup_spec(env, name) {
        None => Some(d),
        Some(v) => {
            if env_bytes(v) == true_bytes() {
                Some(true)
            } else if env_bytes(v) == false_bytes() {
                Some(false)
            } else {
                None
            }
        },
    }
}

/// A numeric variable with a default; `None` marks an invalid value.
pub open spec fn num_field(
    env: Seq<(Seq<char>, Seq<char>)>,
    name: Seq<char>,
    d: u64,
) -> Option<u64> {
    match lookup_spec(env, name) {
        None => Some(d),
        Some(v) => {
            let b = env_bytes(v);
            if b.len() > 0 && all_digits(b) && digits_val(b) <= u64::MAX {
                Some(digits_val(b) as u64)
            } else {
                None
            }
        },
    }
}

/// A string variable with a default; never invalid.
pub open spec fn str_field(
    env: Seq<(Seq<char>, Seq<char>)>,
    name: Seq<char>,
    d: Seq<char>,
) -> Seq<char> {
    match lookup_spec(env, name) {
        None => d,
        Some(v) => v,
    }
}

/// A duration variable with a default in milliseconds.
pub open spec fn dur_field(
    env: Seq<(Seq<char>, Seq<char>)>,
    name: Seq<char>,
    d: u64,
) -> Option<u64> {
    match lookup_spec(env, name) {
        None => Some(d),
        Some(v) => duration_spec(env_bytes(v)),
    }
}

} // verus!

verus! {

/// Every variable is either absent or holds a value its parser takes:
/// with the root path present, loading the configuration succeeds.
pub open spec fn config_wellformed(env: Seq<(Seq<char>, Seq<char>)>) -> bool {
    &&& lookup_spec(env, ENV_DB_PATH@) is Some
    &&& num_field(env, ENV_DB_CACHE_SIZE@, 53687091200u64) matches Some(n) && n <= usize::MAX
    &&& num_field(env, ENV_DB_MAX_OPEN_FILES@, 1000u64) matches Some(n) && n <= i32::MAX
    &&& num_field(env, ENV_SCHEMA_DEFAULT_VERSION@, 1u64) is Some
    &&& bool_field(env, ENV_SCHEMA_ENABLE_VERSIONING@, false) is Some
    &&& bool_field(env, ENV_DB_DROP_ON_SHUTDOWN@, false) is Some
    &&& dur_field(env, ENV_SHUTDOWN_GRACE_PERIOD@, 120000u64) is Some
    &&& match lookup_spec(env, ENV_ADDR@) {
        None => true,
        Some(v) => crate::db::split2(env_bytes(v)) matches Some(p) && p.0.len() > 0
            && all_digits(p.1) && p.1.len() > 0 && digits_val(p.1) <= 0xffff,
    }
}

/// The loaded configuration's relation to the environment: every field
/// is the parsed variable or its documented default.
pub open spec fn config_matches(env: Seq<(Seq<char>, Seq<char>)>, c: crate::app::Config) -> bool {
    &&& lookup_spec(env, ENV_DB_PATH@) matches Some(p) && c.db.db_path@ == p
    &&& num_field(env, ENV_DB_CACHE_SIZE@, 53687091200u64) == Some(c.db.cache_size as u64)
    &&& num_field(env, ENV_DB_MAX_OPEN_FILES@, 1000u64) == Some(c.db.max_open_files as u64)
    &&& c.db.descriptor_file_name@ == str_field(env, ENV_DB_DESCRIPTOR_FILE_NAME@, "DESCRIPTOR"@)
    &&& c.meta_store.index_cf_name@ == env_bytes(
        str_field(env, ENV_METASTORE_INDEX_NAME@, "index"@),
    )
    &&& c.meta_store.schema_cf_name@ == env_bytes(
        str_field(env, ENV_METASTORE_SCHEMA_NAME@, "schema"@),
    )
    &&& c.meta_store.schema_versions_cf_name@ == env_bytes(
        str_field(env, ENV_METASTORE_VERSION_NAME@, "schema_versions"@),
    )
    &&& c.meta_store.user_cf_name@ == env_bytes(str_field(env, ENV_METASTORE_USER@, "user"@))
    &&& c.meta_store.default_db@ == str_field(env, ENV_DATABASE@, "protolith"@)
    &&& num_field(env, ENV_SCHEMA_DEFAULT_VERSION@, 1u64) == Some(c.schema.default_version)
    &&& bool_field(env, ENV_SCHEMA_ENABLE_VERSIONING@, false) == Some(
        c.schema.enable_versioning,
    )
    &&& bool_field(env, ENV_DB_DROP_ON_SHUTDOWN@, false) == Some(c.destroy_on_shutdown)
    &&& dur_field(env, ENV_SHUTDOWN_GRACE_PERIOD@, 120000u64) == Some(c.shutdown_grace_period)
    &&& c.default_database.0@ == str_field(env, ENV_DATABASE@, "protolith"@)
    &&& c.default_database.1@ == str_field(
        env,
        ENV_DEFAULT_DB_DESCRIPTOR_PATH@,
        "/usr/src/bin/protolith-db/descriptor.bin"@,
    )
    &&& c.auth.user@ == str_field(env, ENV_USER@, "protolith"@)
    &&& c.auth.password@ == str_field(env, ENV_PASS@, "protolith"@)
    &&& match lookup_spec(env, ENV_ADDR@) {
        None => c.addr.host@ == seq![48u8, 46u8, 48u8, 46u8, 48u8, 46u8, 48u8] && c.addr.port
            == 5678,
        Some(v) => crate::db::split2(env_bytes(v)) matches Some(p) && c.addr.host@ == p.0
            && digits_val(p.1) == c.addr.port as nat,
    }
}

/// Load the whole application configuration from the environment
/// snapshot, filling in the documented defaults. The database root
/// path is the one variable that must be present.
#[verifier::rlimit(100)]
pub fn parse_config(strings: &Env) -> (r: Result<crate::app::Config, EnvError>)
    ensures
        config_wellformed(strings.vars_model()) ==> r is Ok,
        r matches Ok(c) ==> config_matches(strings.vars_model(), c),
        r matches Err(EnvError::NoRocksDbPath) <==> lookup_spec(
            strings.vars_model(),
            ENV_DB_PATH@,
        ) is None,
{
    let db_path = match strings.lookup(ENV_DB_PATH) {
        None => {
            return Err(EnvError::NoRocksDbPath);
        },
        Some(p) => p,
    };
    let cache_size_u64 = match strings.lookup(ENV_DB_CACHE_SIZE) {
        None => 53687091200u64,
        Some(v) => match parse_number(v.as_str()) {
            Ok(n) => n,
            Err(_) => {
                return Err(EnvError::InvalidEnvVar);
            },
        },
    };
    if cache_size_u64 > usize::MAX as u64 {
        return Err(EnvError::InvalidEnvVar);
    }
    let max_open_u64 = match strings.lookup(ENV_DB_MAX_OPEN_FILES) {
        None => 1000u64,
        Some(v) => match parse_number(v.as_str()) {
            Ok(n) => n,
            Err(_) => {
                return Err(EnvError::InvalidEnvVar);
            },
        },
    };
    if max_open_u64 > i32::MAX as u64 {
        return Err(EnvError::InvalidEnvVar);
    }
    let descriptor_file_name = match strings.lookup(ENV_DB_DESCRIPTOR_FILE_NAME) {
        None => String::from_str("DESCRIPTOR"),
        Some(v) => v,
    };
    let index_cf_name = match strings.lookup(ENV_METASTORE_INDEX_NAME) {
        None => String::from_str("index"),
        Some(v) => v,
    };
    let schema_cf_name = match strings.lookup(ENV_METASTORE_SCHEMA_NAME) {
        None => String::from_str("schema"),
        Some(v) => v,
    };
    let versions_cf_name = match strings.lookup(ENV_METASTORE_VERSION_NAME) {
        None => String::from_str("schema_versions"),
        Some(v) => v,
    };
    let user_cf_name = match strings.lookup(ENV_METASTORE_USER) {
        None => String::from_str("user"),
        Some(v) => v,
    };
    let database = match strings.lookup(ENV_DATABASE) {
        None => String::from_str("protolith"),
        Some(v) => v,
    };
    let default_version = match strings.lookup(ENV_SCHEMA_DEFAULT_VERSION) {
        None => 1u64,
        Some(v) => match parse_number(v.as_str()) {
            Ok(n) => n,
            Err(_) => {
                return Err(EnvError::InvalidEnvVar);
            },
        },
    };
    let enable_versioning = match strings.lookup(ENV_SCHEMA_ENABLE_VERSIONING) {
        None => false,
        Some(v) => match parse_bool(v.as_str()) {
            Ok(b) => b,
            Err(_) => {
                return Err(EnvError::InvalidEnvVar);
            },
        },
    };
    let destroy_on_shutdown = match strings.lookup(ENV_DB_DROP_ON_SHUTDOWN) {
        None => false,
        Some(v) => match parse_bool(v.as_str()) {
            Ok(b) => b,
            Err(_) => {
                return Err(EnvError::InvalidEnvVar);
            },
        },
    };
    let shutdown_grace_period = match strings.lookup(ENV_SHUTDOWN_GRACE_PERIOD) {
        None => 120000u64,
        Some(v) => match parse_duration(v.as_str()) {
            Ok(ms) => ms,
            Err(_) => {
                return Err(EnvError::InvalidEnvVar);
            },
        },
    };
    let addr = match strings.lookup(ENV_ADDR) {
        None => {
            let host: Vec<u8> = vec![48u8, 46u8, 48u8, 46u8, 48u8, 46u8, 48u8];
            Addr { host, port: 5678 }
        },
        Some(v) => match parse_socket_addr(v.as_str()) {
            Ok(a) => a,
            Err(_) => {
                return Err(EnvError::InvalidEnvVar);
            },
        },
    };
    let descriptor_path = match strings.lookup(ENV_DEFAULT_DB_DESCRIPTOR_PATH) {
        None => String::from_str("/usr/src/bin/protolith-db/descriptor.bin"),
        Some(v) => v,
    };
    let user = match strings.lookup(ENV_USER) {
        None => String::from_str("protolith"),
        Some(v) => v,
    };
    let password = match strings.lookup(ENV_PASS) {
        None => String::from_str("protolith"),
        Some(v) => v,
    };
    let meta_store = meta_store::Config {
        schema_cf_name: schema_cf_name.as_str().as_bytes_vec(),
        index_cf_name: index_cf_name.as_str().as_bytes_vec(),
        schema_versions_cf_name: versions_cf_name.as_str().as_bytes_vec(),
        user_cf_name: user_cf_name.as_str().as_bytes_vec(),
        default_db: database.clone(),
    };
    let auth_cfg = crate::auth::Config {
        meta_store: meta_store.clone_cfg(),
        user,
        password,
    };
    Ok(
        crate::app::Config {
            db: db::Config {
                db_path,
                cache_size: cache_size_u64 as usize,
                max_open_files: max_open_u64 as i32,
                descriptor_file_name,
            },
            admin: crate::admin::Config {},
            auth: auth_cfg,
            meta_store,
            schema: schema::Config { enable_versioning, default_version },
            addr,
            default_database: (database, descriptor_path),
            destroy_on_shutdown,
            shutdown_grace_period,
        },
    )
}

impl Env {
    /// Load the whole configuration from this environment snapshot.
    pub fn try_config(&self) -> (r: Result<crate::app::Config, EnvError>)
        ensures
            config_wellformed(self.vars_model()) ==> r is Ok,
            r matches Ok(c) ==> config_matches(self.vars_model(), c),
            r matches Err(EnvError::NoRocksDbPath) <==> lookup_spec(
                self.vars_model(),
                ENV_DB_PATH@,
            ) is None,
    {
        parse_config(self)
    }
}

/// Look a variable up and parse it; absence is not an error, an
/// unparseable value is.
pub fn parse<T, F: Fn(&str) -> Result<T, ParseError>>(
    strings: &Env,
    name: &str,
    p: F,
) -> (r: Result<Option<T>, EnvError>)
    requires
        forall|s: &str| #[trigger] p.requires((s,)),
    ensures
        r matches Ok(Some(t)) ==> (exists|s: &str|
            #![trigger s@]
            lookup_spec(strings.vars_model(), name@) == Some(s@) && p.ensures((s,), Ok(t))),
        r matches Ok(None) ==> lookup_spec(strings.vars_model(), name@) is None,
        r is Err ==> (exists|s: &str|
            #![trigger s@]
            lookup_spec(strings.vars_model(), name@) == Some(s@) && (exists|e: ParseError|
                #[trigger] p.ensures((s,), Err(e)))),
{
    match strings.lookup(name) {
        None => Ok(None),
        Some(v) => {
            let s = v.as_str();
            match p(s) {
                Ok(t) => {
                    proof {
                        assert(p.ensures((s,), Ok(t)));
                        assert(lookup_spec(strings.vars_model(), name@) == Some(s@));
                        assert(exists|s2: &str|
                            #![trigger s2@]
                            lookup_spec(strings.vars_model(), name@) == Some(s2@) && p.ensures(
                                (s2,),
                                Ok(t),
                            ));
                    }
                    Ok(Some(t))
                },
                Err(e) => {
                    proof {
                        assert(p.ensures((s,), Err(e)));
                    }
                    Err(EnvError::InvalidEnvVar)
                },
            }
        },
    }
}

/// Look the database root path up; it must be present.
pub fn parse_rocks_db_path(s: &Env, base: &str) -> (r: Result<String, EnvError>)
    ensures
        match r {
            Ok(p) => lookup_spec(s.vars_model(), base@) == Some(p@),
            Err(_) => lookup_spec(s.vars_model(), base@) is None,
        },
{
    match s.lookup(base) {
        None => Err(EnvError::NoRocksDbPath),
        Some(p) => Ok(p),
    }
}

} // verus!

verus! {

/// `v` with every leading and trailing double-quote removed.
pub open spec fn trim_quotes(v: Seq<u8>) -> Seq<u8>
    decreases v.len(),
{
    if v.len() > 0 && v[0] == 34 {
        trim_quotes(v.skip(1))
    } else if v.len() > 0 && v.last() == 34 {
        trim_quotes(v.drop_last())
    } else {
        v
    }
}

/// The attribute pair of one line: the text before the first `=`, and
/// the quote-trimmed text after it. A line without `=` has none.
pub open spec fn attr_of_line(l: Seq<u8>) -> Option<(Seq<u8>, Seq<u8>)> {
    match first_at(l, 61) {
        None => None,
        Some(i) => Some((l.take(i), trim_quotes(l.skip(i + 1)))),
    }
}

/// The attribute pairs of a newline-separated attribute listing.
pub open spec fn attrs_spec(s: Seq<u8>) -> Seq<(Seq<u8>, Seq<u8>)>
    decreases s.len(),
{
    match first_at(s, 10) {
        None => match attr_of_line(s) {
            None => Seq::empty(),
            Some(p) => seq![p],
        },
        Some(i) => {
            if 0 <= i < s.len() {
                (match attr_of_line(s.take(i)) {
                    None => Seq::empty(),
                    Some(p) => seq![p],
                }) + attrs_spec(s.skip(i + 1))
            } else {
                Seq::empty()
            }
        },
    }
}

/// The quote-trim of a range whose outside is all quotes and whose
/// inside starts and ends with none.
pub proof fn lemma_trim_range(v: Seq<u8>, lo: int, hi: int)
    requires
        0 <= lo <= hi <= v.len(),
        forall|j: int| 0 <= j < lo ==> #[trigger] v[j] == 34,
        forall|j: int| hi <= j < v.len() ==> #[trigger] v[j] == 34,
        lo < hi ==> v[lo] != 34 && v[hi - 1] != 34,
    ensures
        trim_quotes(v) == v.subrange(lo, hi),
    decreases v.len(),
{
    if lo > 0 {
        assert(v[0] == 34);
        let w = v.skip(1);
        assert forall|j: int| 0 <= j < lo - 1 implies #[trigger] w[j] == 34 by {
            assert(w[j] == v[j + 1]);
        }
        assert forall|j: int| hi - 1 <= j < w.len() implies #[trigger] w[j] == 34 by {
            assert(w[j] == v[j + 1]);
        }
        if lo < hi {
            assert(w[lo - 1] == v[lo]);
            assert(w[hi - 2] == v[hi - 1]);
        }
        lemma_trim_range(w, lo - 1, hi - 1);
        assert(w.subrange(lo - 1, hi - 1) =~= v.subrange(lo, hi));
    } else if hi < v.len() {
        assert(v.last() == 34);
        if v.len() > 0 && v[0] == 34 {
            assert(lo < hi ==> v[lo] != 34);
            assert(lo == hi);
            assert(trim_quotes(v) == trim_quotes(v.skip(1)));
            let w = v.skip(1);
            assert forall|j: int| 0 <= j < w.len() implies #[trigger] w[j] == 34 by {
                assert(w[j] == v[j + 1]);
            }
            lemma_trim_range(w, 0, 0);
            assert(w.subrange(0, 0) =~= v.subrange(lo, hi));
        } else {
            let w = v.drop_last();
            assert forall|j: int| hi <= j < w.len() implies #[trigger] w[j] == 34 by {
                assert(w[j] == v[j]);
            }
            if lo < hi {
                assert(w[lo] == v[lo]);
                assert(w[hi - 1] == v[hi - 1]);
            }
            lemma_trim_range(w, lo, hi);
            assert(w.subrange(lo, hi) =~= v.subrange(lo, hi));
        }
    } else {
        assert(trim_quotes(v) == v) by {
            if v.len() > 0 && v[0] == 34 {
                assert(lo == hi && lo == 0);
                assert(v[0] == 34);
                assert(hi <= 0 < v.len());
            }
        }
        assert(v.subrange(0, v.len() as int) =~= v);
    }
}

/// Trim double quotes from both ends of a byte string.
pub fn trim_quote_bytes(v: &Vec<u8>) -> (r: Vec<u8>)
    ensures
        r@ == trim_quotes(v@),
{
    let mut lo: usize = 0;
    let mut hi: usize = v.len();
    while lo < hi && v[lo] == 34
        invariant
            0 <= lo <= hi <= v@.len(),
            hi == v@.len(),
            forall|j: int| 0 <= j < lo ==> #[trigger] v@[j] == 34,
        decreases hi - lo,
    {
        lo += 1;
    }
    while hi > lo && v[hi - 1] == 34
        invariant
            0 <= lo <= hi <= v@.len(),
            forall|j: int| 0 <= j < lo ==> #[trigger] v@[j] == 34,
            forall|j: int| hi <= j < v@.len() ==> #[trigger] v@[j] == 34,
            lo < v@.len() && lo > 0 ==> v@[lo as int] != 34,
            lo < hi && lo > 0 ==> v@[lo as int] != 34,
            lo > 0 ==> (lo < v@.len() ==> v@[lo as int] != 34),
        decreases hi - lo,
    {
        hi -= 1;
    }
    let mut r: Vec<u8> = Vec::new();
    let mut k: usize = lo;
    while k < hi
        invariant
            lo <= k <= hi <= v@.len(),
            r@ == v@.subrange(lo as int, k as int),
        decreases hi - k,
    {
        r.push(v[k]);
        assert(r@ =~= v@.subrange(lo as int, k + 1));
        k += 1;
    }
    assert(r@ =~= v@.subrange(lo as int, hi as int));
    proof {
        lemma_trim_range(v@, lo as int, hi as int);
    }
    r
}

/// Split one `key=value` line at its first `=`, trimming the value.
fn split_attr_line(line: &Vec<u8>) -> (r: Option<(Vec<u8>, Vec<u8>)>)
    ensures
        match r {
            Some(p) => attr_of_line(line@) == Some((p.0@, p.1@)),
            None => attr_of_line(line@) is None,
        },
{
    proof {
        assert(line@.skip(0) =~= line@);
    }
    match crate::db::find_at(line, 0, 61) {
        None => None,
        Some(eq) => {
            proof {
                crate::db::lemma_first_at(line@, 61);
            }
            assert(eq < line.len());
            let mut keyb: Vec<u8> = Vec::new();
            let mut m: usize = 0;
            while m < eq
                invariant
                    m <= eq <= line@.len(),
                    keyb@ == line@.take(m as int),
                decreases eq - m,
            {
                keyb.push(line[m]);
                assert(keyb@ =~= line@.take(m + 1));
                m += 1;
            }
            assert(keyb@ =~= line@.take(eq as int));
            let mut valb: Vec<u8> = Vec::new();
            let mut w: usize = eq + 1;
            while w < line.len()
                invariant
                    eq + 1 <= w <= line@.len(),
                    valb@ == line@.subrange(eq + 1, w as int),
                decreases line@.len() - w,
            {
                valb.push(line[w]);
                assert(valb@ =~= line@.subrange(eq + 1, w + 1));
                w += 1;
            }
            assert(valb@ =~= line@.skip(eq + 1));
            let trimmed = trim_quote_bytes(&valb);
            Some((keyb, trimmed))
        },
    }
}

/// Parse `key=value` attribute lines into pairs; values keep their
/// text with any enclosing double quotes removed, as they arrive from
/// file-mounted metadata.
pub fn convert_attributes_string_to_map(attributes: String) -> (r: Vec<(Vec<u8>, Vec<u8>)>)
    ensures
        crate::kv::pairs_view(r@) == attrs_spec(env_bytes(attributes@)),
{
    let b = attributes.as_str().as_bytes_vec();
    let ghost whole = b@;
    let mut out: Vec<(Vec<u8>, Vec<u8>)> = Vec::new();
    let mut pos: usize = 0;
    let mut done = false;
    proof {
        assert(whole.skip(0) =~= whole);
        assert(crate::kv::pairs_view(out@) + attrs_spec(whole) =~= attrs_spec(whole));
    }
    while !done
        invariant
            pos <= b@.len(),
            b@ == whole,
            whole == env_bytes(attributes@),
            !done ==> attrs_spec(whole) == crate::kv::pairs_view(out@) + attrs_spec(
                whole.skip(pos as int),
            ),
            done ==> attrs_spec(whole) == crate::kv::pairs_view(out@),
        decreases b@.len() - pos + 1, (if done { 0int } else { 1int }),
    {
        let ghost rest = whole.skip(pos as int);
        let ghost outv0 = crate::kv::pairs_view(out@);
        let line_end = match crate::db::find_at(&b, pos, 10) {
            None => b.len(),
            Some(i) => i,
        };
        proof {
            crate::db::lemma_first_at(rest, 10);
            if first_at(rest, 10) is Some {
                let li = first_at(rest, 10)->Some_0;
                assert(rest[li] == whole[pos + li]);
            }
        }
        // The current line.
        let mut line: Vec<u8> = Vec::new();
        let mut k: usize = pos;
        while k < line_end
            invariant
                pos <= k <= line_end <= b@.len(),
                line@ == b@.subrange(pos as int, k as int),
            decreases line_end - k,
        {
            line.push(b[k]);
            assert(line@ =~= b@.subrange(pos as int, k + 1));
            k += 1;
        }
        assert(line@ =~= whole.subrange(pos as int, line_end as int));
        proof {
            match first_at(rest, 10) {
                None => {
                    assert(line@ =~= rest);
                },
                Some(li) => {
                    assert(line@ =~= rest.take(li));
                },
            }
        }
        // Split the line at its first `=`.
        match split_attr_line(&line) {
            None => {},
            Some(pair) => {
                out.push(pair);
                proof {
                    assert(crate::kv::pairs_view(out@) =~= outv0.push(
                        (out@.last().0@, out@.last().1@),
                    ));
                }
            },
        }
        // Advance past the newline, or finish.
        match crate::db::find_at(&b, pos, 10) {
            None => {
                proof {
                    let ov = crate::kv::pairs_view(out@);
                    match attr_of_line(rest) {
                        None => {
                            assert(attrs_spec(rest) =~= Seq::<(Seq<u8>, Seq<u8>)>::empty());
                            assert(ov =~= outv0);
                            assert(outv0 + attrs_spec(rest) =~= ov);
                        },
                        Some(p) => {
                            assert(attrs_spec(rest) =~= seq![p]);
                            assert(outv0 + attrs_spec(rest) =~= ov);
                        },
                    }
                }
                done = true;
            },
            Some(nl) => {
                proof {
                    let ov = crate::kv::pairs_view(out@);
                    let li = first_at(rest, 10)->Some_0;
                    assert(whole.skip(pos as int).skip(li + 1) =~= whole.skip(pos + li + 1));
                    match attr_of_line(rest.take(li)) {
                        None => {
                            assert(ov =~= outv0);
                            assert(attrs_spec(rest) =~= attrs_spec(rest.skip(li + 1)));
                        },
                        Some(p) => {
                            assert(attrs_spec(rest) =~= seq![p] + attrs_spec(rest.skip(li + 1)));
                            assert(ov =~= outv0.push(p));
                        },
                    }
                    assert(outv0 + attrs_spec(rest) =~= ov + attrs_spec(whole.skip(nl + 1)));
                }
                assert(nl < b.len());
                pos = nl + 1;
            },
        }
    }
    out
}

} // verus!
