//! The request-pipeline decisions of the RPC services: building a
//! storage key from a dynamically typed scalar, and mapping engine
//! failures to their wire status. The transport around them only
//! moves bytes.

use vstd::prelude::*;
use crate::api::ScalarValue;
use crate::bytes::{dec_bytes, u64_to_dec, bytes_concat};
use crate::db::CoreError;
use crate::engine::{EngineError, OpError};
use crate::env::trim_quotes;
use crate::kv::clone_bytes;

verus! {

/// The ASCII decimal rendering of a signed number.
pub open spec fn int_dec(n: int) -> Seq<u8> {
    if n < 0 {
        seq![45u8] + dec_bytes((-n) as nat)
    } else {
        dec_bytes(n as nat)
    }
}

/// Render a signed number in ASCII decimal.
pub fn i64_to_dec(n: i64) -> (r: Vec<u8>)
    ensures
        r@ == int_dec(n as int),
{
    if n >= 0 {
        u64_to_dec(n as u64)
    } else {
        // Carry the magnitude through unsigned space to keep the
        // smallest value representable.
        let mag: u64 = ((-(n + 1)) as u64) + 1;
        assert(mag as nat == -(n as int));
        let mut out: Vec<u8> = Vec::new();
        out.push(45u8);
        let digits = u64_to_dec(mag);
        let r = bytes_concat(&out, &digits);
        assert(r@ =~= int_dec(n as int));
        r
    }
}

/// The storage key a read request names: the collection, the
/// separator, and the scalar rendered by the key construction rules.
/// Numbers are decimal with no separators; strings are taken verbatim
/// after shedding enclosing double quotes.
pub open spec fn key_of_value(collection: Seq<u8>, key: ScalarValue) -> Seq<u8> {
    collection + seq![58u8] + (match key {
        ScalarValue::Uint(n) => dec_bytes(n as nat),
        ScalarValue::Int(n) => int_dec(n as int),
        ScalarValue::Text(t) => trim_quotes(t@),
    })
}

/// Build the storage key for a get request.
pub fn key_for(collection: &Vec<u8>, key: &ScalarValue) -> (r: Vec<u8>)
    ensures
        r@ == key_of_value(collection@, *key),
{
    let rendered: Vec<u8> = match key {
        ScalarValue::Uint(n) => u64_to_dec(*n),
        ScalarValue::Int(n) => i64_to_dec(*n),
        ScalarValue::Text(t) => crate::env::trim_quote_bytes(t),
    };
    let mut sep: Vec<u8> = Vec::new();
    sep.push(58u8);
    let head = bytes_concat(collection, &sep);
    let r = bytes_concat(&head, &rendered);
    assert(r@ =~= key_of_value(collection@, *key));
    r
}

/// The wire status of a response, with its message payload.
pub enum Status {
    AlreadyExists(Vec<u8>),
    NotFound(Vec<u8>),
    Unauthenticated(Vec<u8>),
    InvalidArgument(Vec<u8>),
    Internal(Vec<u8>),
}

/// Map an engine failure to its wire status: every taken or duplicate
/// name is already-exists, every missing one is not-found, and the
/// rest is internal.
pub fn status_of_engine_error(e: &EngineError) -> (r: Status)
    ensures
        match e {
            EngineError::OpError(OpError::DatabaseAlreadyExists(_)) => r is AlreadyExists,
            EngineError::OpError(OpError::CollectionAlreadyExists(_, _)) => r is AlreadyExists,
            EngineError::OpError(OpError::KeyAlreadyExists(_)) => r is AlreadyExists,
            EngineError::OpError(OpError::DatabaseNotFound(_)) => r is NotFound,
            EngineError::OpError(OpError::CollectionNotFound(_, _)) => r is NotFound,
            EngineError::OpError(OpError::UserNotFound(_)) => r is NotFound,
            EngineError::Internal(_) => r is Internal,
        },
{
    match e {
        EngineError::OpError(OpError::DatabaseAlreadyExists(n)) => Status::AlreadyExists(
            string_bytes(n),
        ),
        EngineError::OpError(OpError::CollectionAlreadyExists(n, c)) => {
            let mut sep: Vec<u8> = Vec::new();
            sep.push(32u8);
            let head = bytes_concat(&string_bytes(n), &sep);
            Status::AlreadyExists(bytes_concat(&head, c))
        },
        EngineError::OpError(OpError::KeyAlreadyExists(ce)) => match ce {
            CoreError::KeyAlreadyExists(c, k) => {
                let mut sep: Vec<u8> = Vec::new();
                sep.push(58u8);
                let head = bytes_concat(c, &sep);
                Status::AlreadyExists(bytes_concat(&head, k))
            },
            CoreError::SchemaNotExists(n) => Status::AlreadyExists(clone_bytes(n)),
            CoreError::Internal(m) => Status::AlreadyExists(clone_bytes(m)),
        },
        EngineError::OpError(OpError::DatabaseNotFound(n)) => Status::NotFound(string_bytes(n)),
        EngineError::OpError(OpError::CollectionNotFound(c, _)) => Status::NotFound(
            clone_bytes(c),
        ),
        EngineError::OpError(OpError::UserNotFound(n)) => Status::NotFound(string_bytes(n)),
        EngineError::Internal(m) => Status::Internal(clone_bytes(m)),
    }
}

/// The UTF-8 bytes of a name, for a status message.
fn string_bytes(s: &String) -> (r: Vec<u8>)
    ensures
        r@ == crate::env::env_bytes(s@),
{
    vstd::string::StrSliceExecFns::as_bytes_vec(s.as_str())
}

/// The message carried by an insert request without a payload.
pub open spec fn missing_payload_message() -> Seq<char> {
    "Must pass a valid Any type message"@
}

/// An insert request that carries no message is rejected as an invalid
/// argument before the engine is asked.
pub fn check_insert_payload(data: &Option<crate::api::Any>) -> (r: Result<(), Status>)
    ensures
        r is Ok <==> data is Some,
        r matches Err(s) ==> (s matches Status::InvalidArgument(m) && m@
            == crate::env::env_bytes(missing_payload_message())),
{
    match data {
        Some(_) => Ok(()),
        None => Err(
            Status::InvalidArgument(text_of("Must pass a valid Any type message")),
        ),
    }
}

/// Map an auth failure to its wire status: an unknown user is not-found.
pub fn status_of_auth_error(e: &crate::auth::AuthError) -> (r: Status)
    ensures
        e matches crate::auth::AuthError::UserNotExists(n) ==> (r matches Status::NotFound(m)
            && m@ == crate::env::env_bytes(n@)),
{
    match e {
        crate::auth::AuthError::UserNotExists(n) => Status::NotFound(string_bytes(n)),
    }
}

/// The UTF-8 bytes of a status text.
fn text_of(s: &str) -> (r: Vec<u8>)
    ensures
        r@ == crate::env::env_bytes(s@),
{
    vstd::string::StrSliceExecFns::as_bytes_vec(s)
}

} // verus!
