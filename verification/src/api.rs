//! Plain data types of the RPC surface: dynamically typed messages,
//! scalar key values, operation results and response bodies.

use vstd::prelude::*;
use crate::codec::Collection;

verus! {

/// A dynamically typed message: a type URL naming its collection and the
/// raw wire-encoded bytes of the record.
pub struct Any {
    pub type_url: Vec<u8>,
    pub value: Vec<u8>,
}

impl Any {
    pub fn clone_any(&self) -> (r: Any)
        ensures
            r.type_url@ == self.type_url@,
            r.value@ == self.value@,
    {
        Any {
            type_url: crate::kv::clone_bytes(&self.type_url),
            value: crate::kv::clone_bytes(&self.value),
        }
    }
}

/// A dynamically typed scalar key: an unsigned or signed integer in
/// decimal, or a string.
pub enum ScalarValue {
    Uint(u64),
    Int(i64),
    Text(Vec<u8>),
}

/// The kind of an operation reported in a response.
pub enum Op {
    Create,
    List,
    Insert,
    Get,
}

/// Whether an operation succeeded.
pub enum OpStatus {
    Success,
    Failure,
}

/// An operation result attached to a response.
pub struct ApiOp {
    pub op: Op,
    pub description: Vec<u8>,
    pub status: OpStatus,
}

/// One database in a listing: its name, its collections and its path.
pub struct Database {
    pub name: String,
    pub collections: Vec<Collection>,
    pub path: String,
}

pub struct CreateDatabaseResponse {
    pub name: String,
    pub op: Option<ApiOp>,
}

pub struct ListDatabasesResponse {
    pub databases: Vec<Database>,
}

pub struct CreateCollectionResponse {
    pub database: String,
    pub name: Vec<u8>,
    pub op: Option<ApiOp>,
}

pub struct InsertResponse {
    pub collection: Vec<u8>,
    pub op: Option<ApiOp>,
}

pub struct GetResponse {
    pub collection: Vec<u8>,
    pub data: Option<Any>,
}

pub struct ListResponse {
    pub collection: Vec<u8>,
    pub data: Vec<Any>,
    pub op: Option<ApiOp>,
}

pub struct LoginRequest {
    pub username: String,
    pub password: String,
}

pub struct LoginResponse {
    pub session: String,
}

} // verus!
