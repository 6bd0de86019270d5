//! End-to-end scenarios through the engine, auth and gate layers,
//! driven by a hand-encoded descriptor set carrying the collection and
//! key annotations.

use protolith::api::Any;
use protolith::auth;
use protolith::db;
use protolith::engine::{EngineError, OpError, ProtolithDbEngine};
use protolith::layer::{session_gate, GateDecision};
use protolith::app::{shutdown_plan, ShutdownAction};
use protolith::meta_store;
use protolith::schema;
use protolith::db::CoreError;

// --- minimal protobuf wire encoding helpers ---

fn varint(mut n: u64) -> Vec<u8> {
    let mut out = Vec::new();
    loop {
        let b = (n & 0x7f) as u8;
        n >>= 7;
        if n == 0 {
            out.push(b);
            break;
        }
        out.push(b | 0x80);
    }
    out
}

fn tag(field: u32, wire: u32) -> Vec<u8> {
    varint(((field << 3) | wire) as u64)
}

fn field_varint(field: u32, v: u64) -> Vec<u8> {
    let mut out = tag(field, 0);
    out.extend(varint(v));
    out
}

fn field_bytes(field: u32, b: &[u8]) -> Vec<u8> {
    let mut out = tag(field, 2);
    out.extend(varint(b.len() as u64));
    out.extend_from_slice(b);
    out
}

fn field_str(field: u32, s: &str) -> Vec<u8> {
    field_bytes(field, s.as_bytes())
}

// FieldDescriptorProto: name=1, extendee=2, number=3, label=4, type=5
fn fdp(name: &str, number: u64, label: u64, ftype: u64, extendee: Option<&str>, options: Option<&[u8]>) -> Vec<u8> {
    let mut out = field_str(1, name);
    if let Some(e) = extendee {
        out.extend(field_str(2, e));
    }
    out.extend(field_varint(3, number));
    out.extend(field_varint(4, label));
    out.extend(field_varint(5, ftype));
    if let Some(o) = options {
        out.extend(field_bytes(8, o));
    }
    out
}

// DescriptorProto: name=1, field=2, extension_range=5, options=7
fn message(name: &str, fields: &[Vec<u8>], ext_range: bool, options: Option<&[u8]>) -> Vec<u8> {
    let mut out = field_str(1, name);
    for f in fields {
        out.extend(field_bytes(2, f));
    }
    if ext_range {
        let mut range = field_varint(1, 1000);
        range.extend(field_varint(2, 536870912));
        out.extend(field_bytes(5, &range));
    }
    if let Some(o) = options {
        out.extend(field_bytes(7, o));
    }
    out
}

// FileDescriptorProto: name=1, package=2, dependency=3, message_type=4, extension=7
fn file(name: &str, package: &str, deps: &[&str], messages: &[Vec<u8>], extensions: &[Vec<u8>]) -> Vec<u8> {
    let mut out = field_str(1, name);
    out.extend(field_str(2, package));
    for d in deps {
        out.extend(field_str(3, d));
    }
    for m in messages {
        out.extend(field_bytes(4, m));
    }
    for e in extensions {
        out.extend(field_bytes(7, e));
    }
    out
}

/// A descriptor set declaring `shop.v1.Item { string id [key]; string name; }`
/// and `shop.v1.Itemized { string sid [key]; string data; }`, both carrying
/// the collection annotation, together with the annotation extensions and a
/// stub of the well-known options types they extend.
fn shop_descriptor_set() -> Vec<u8> {
    // Stub google/protobuf/descriptor.proto with extendable options types.
    let descriptor_stub = file(
        "google/protobuf/descriptor.proto",
        "google.protobuf",
        &[],
        &[
            message("MessageOptions", &[], true, None),
            message("FieldOptions", &[], true, None),
        ],
        &[],
    );
    // The annotation extensions: collection on messages, key on fields.
    let annotations = file(
        "protolith/annotation/v1/annotation.proto",
        "protolith.annotation.v1",
        &["google/protobuf/descriptor.proto"],
        &[],
        &[
            fdp("collection", 50000, 1, 8, Some(".google.protobuf.MessageOptions"), None),
            fdp("key", 50001, 1, 8, Some(".google.protobuf.FieldOptions"), None),
        ],
    );
    // MessageOptions bytes carrying `collection = true`.
    let collection_opt = field_varint(50000, 1);
    // FieldOptions bytes carrying `key = true`.
    let key_opt = field_varint(50001, 1);
    let shop = file(
        "shop/v1/shop.proto",
        "shop.v1",
        &["google/protobuf/descriptor.proto", "protolith/annotation/v1/annotation.proto"],
        &[
            message(
                "Item",
                &[
                    fdp("id", 1, 1, 9, None, Some(&key_opt)),
                    fdp("name", 2, 1, 9, None, None),
                ],
                false,
                Some(&collection_opt),
            ),
            message(
                "Itemized",
                &[
                    fdp("sid", 1, 1, 9, None, Some(&key_opt)),
                    fdp("data", 2, 1, 9, None, None),
                ],
                false,
                Some(&collection_opt),
            ),
        ],
        &[],
    );
    let mut set = Vec::new();
    set.extend(field_bytes(1, &descriptor_stub));
    set.extend(field_bytes(1, &annotations));
    set.extend(field_bytes(1, &shop));
    set
}

/// The wire bytes of `shop.v1.Item { id, name }`.
fn item_bytes(id: &str, name: &str) -> Vec<u8> {
    let mut out = field_str(1, id);
    out.extend(field_str(2, name));
    out
}

fn test_engine() -> ProtolithDbEngine {
    ProtolithDbEngine::new(
        db::Config {
            db_path: "/tmp/x".to_string(),
            cache_size: 1024,
            max_open_files: 100,
            descriptor_file_name: "DESCRIPTOR".to_string(),
        },
        meta_store::Config {
            schema_cf_name: b"schema".to_vec(),
            index_cf_name: b"index".to_vec(),
            schema_versions_cf_name: b"schema_versions".to_vec(),
            user_cf_name: b"user".to_vec(),
            default_db: "protolith".to_string(),
        },
        schema::Config { enable_versioning: false, default_version: 1 },
    )
}

fn item_any(id: &str, name: &str) -> Any {
    Any {
        type_url: b"type.googleapis.com/shop.v1.Item".to_vec(),
        value: item_bytes(id, name),
    }
}

#[test]
fn test_create_and_list_databases() {
    let mut engine = test_engine();
    let resp = engine.create_database("shop".to_string(), shop_descriptor_set()).unwrap();
    assert_eq!(resp.name, "shop".to_string());
    let list = engine.list_databases().unwrap();
    assert_eq!(list.databases.len(), 1);
    assert_eq!(list.databases[0].name, "shop".to_string());
    assert_eq!(list.databases[0].path, "/tmp/x/shop".to_string());
    let mut names: Vec<Vec<u8>> = list.databases[0]
        .collections
        .iter()
        .map(|c| c.full_name.clone())
        .collect();
    names.sort();
    assert_eq!(names, vec![b"shop.v1.Item".to_vec(), b"shop.v1.Itemized".to_vec()]);
    // A second create under the same name is refused.
    let again = engine.create_database("shop".to_string(), shop_descriptor_set());
    assert!(matches!(
        again,
        Err(EngineError::OpError(OpError::DatabaseAlreadyExists(_)))
    ));
}

#[test]
fn test_create_empty_descriptor_set() {
    let mut engine = test_engine();
    engine.create_database("empty".to_string(), Vec::new()).unwrap();
    let list = engine.list_databases().unwrap();
    assert_eq!(list.databases.len(), 1);
    assert_eq!(list.databases[0].collections.len(), 0);
}

#[test]
fn test_insert_then_get_round_trip() {
    let mut engine = test_engine();
    engine.create_database("shop".to_string(), shop_descriptor_set()).unwrap();
    let c = engine.insert("shop".to_string(), item_any("a", "apple")).unwrap();
    assert_eq!(c, b"shop.v1.Item".to_vec());
    let got = engine
        .get("shop".to_string(), b"shop.v1.Item".to_vec(), &b"shop.v1.Item:a".to_vec())
        .unwrap();
    assert_eq!(got.value, item_bytes("a", "apple"));
    assert_eq!(got.type_url, b"type.googleapis.com/shop.v1.Item".to_vec());
}

#[test]
fn test_duplicate_insert_fails() {
    let mut engine = test_engine();
    engine.create_database("shop".to_string(), shop_descriptor_set()).unwrap();
    engine.insert("shop".to_string(), item_any("a", "apple")).unwrap();
    let again = engine.insert("shop".to_string(), item_any("a", "apricot"));
    match again {
        Err(EngineError::OpError(OpError::KeyAlreadyExists(CoreError::KeyAlreadyExists(
            collection,
            key,
        )))) => {
            assert_eq!(collection, b"shop.v1.Item".to_vec());
            assert_eq!(key, b"shop.v1.Item:a".to_vec());
        }
        other => panic!("expected a key-exists failure, got {:?}", other.is_ok()),
    }
}

#[test]
fn test_list_prefix_isolation() {
    let mut engine = test_engine();
    engine.create_database("shop".to_string(), shop_descriptor_set()).unwrap();
    engine.insert("shop".to_string(), item_any("a", "apple")).unwrap();
    let other = Any {
        type_url: b"type.googleapis.com/shop.v1.Itemized".to_vec(),
        value: item_bytes("z", "zed"),
    };
    engine.insert("shop".to_string(), other).unwrap();
    let items = engine.list("shop".to_string(), b"shop.v1.Item".to_vec()).unwrap();
    assert_eq!(items.len(), 1);
    assert_eq!(items[0].value, item_bytes("a", "apple"));
    let itemized = engine.list("shop".to_string(), b"shop.v1.Itemized".to_vec()).unwrap();
    assert_eq!(itemized.len(), 1);
    assert_eq!(itemized[0].value, item_bytes("z", "zed"));
}

#[test]
fn test_insert_unknown_database_and_collection() {
    let mut engine = test_engine();
    engine.create_database("shop".to_string(), shop_descriptor_set()).unwrap();
    let missing_db = engine.insert("none".to_string(), item_any("a", "apple"));
    assert!(matches!(
        missing_db,
        Err(EngineError::OpError(OpError::DatabaseNotFound(_)))
    ));
    let unknown = Any {
        type_url: b"type.googleapis.com/shop.v1.Unknown".to_vec(),
        value: item_bytes("a", "apple"),
    };
    let missing_col = engine.insert("shop".to_string(), unknown);
    assert!(matches!(
        missing_col,
        Err(EngineError::OpError(OpError::CollectionNotFound(_, _)))
    ));
}

#[test]
fn test_login_and_session_gate() {
    let mut engine = test_engine();
    let auth_cfg = auth::Config {
        meta_store: meta_store::Config {
            schema_cf_name: b"schema".to_vec(),
            index_cf_name: b"index".to_vec(),
            schema_versions_cf_name: b"schema_versions".to_vec(),
            user_cf_name: b"user".to_vec(),
            default_db: "protolith".to_string(),
        },
        user: "protolith".to_string(),
        password: "protolith".to_string(),
    };
    let mut auth = auth_cfg.build(&mut engine).unwrap();
    // A wrong credential is refused.
    let bad = auth.auth.login_user(&engine, "protolith".to_string(), "wrong".to_string());
    assert!(matches!(bad, Err(auth::AuthError::UserNotExists(_))));
    // Login mints a token that is then honoured on any path.
    let token = auth
        .auth
        .login_user(&engine, "protolith".to_string(), "protolith".to_string())
        .unwrap();
    let list_path = b"/protolith.services.v1.AdminService/ListDatabases".to_vec();
    assert!(matches!(session_gate(&list_path, &token, &auth), GateDecision::Pass));
    // No session header, or a token never issued, is rejected.
    assert!(matches!(
        session_gate(&list_path, &b"unknown".to_vec(), &auth),
        GateDecision::Reject
    ));
    assert!(matches!(
        session_gate(&list_path, &b"session-999".to_vec(), &auth),
        GateDecision::Reject
    ));
    // The login path passes without any session.
    let login_path = b"/protolith.services.v1.AuthService/Login".to_vec();
    assert!(matches!(
        session_gate(&login_path, &b"unknown".to_vec(), &auth),
        GateDecision::Pass
    ));
}

#[test]
fn test_destroy_on_shutdown() {
    let mut engine = test_engine();
    engine.create_database("one".to_string(), Vec::new()).unwrap();
    engine.create_database("two".to_string(), Vec::new()).unwrap();
    match shutdown_plan(true, &engine) {
        ShutdownAction::DestroyAll(names) => {
            assert_eq!(names, vec!["one".to_string(), "two".to_string()]);
        }
        ShutdownAction::SaveSessions => panic!("expected destruction"),
    }
    engine.destroy_all();
    assert_eq!(engine.list_databases().unwrap().databases.len(), 0);
    // Without the flag the sessions are saved instead.
    assert!(matches!(shutdown_plan(false, &engine), ShutdownAction::SaveSessions));
}

#[test]
fn test_session_persistence_across_restart() {
    let mut engine = test_engine();
    let auth_cfg = auth::Config {
        meta_store: meta_store::Config {
            schema_cf_name: b"schema".to_vec(),
            index_cf_name: b"index".to_vec(),
            schema_versions_cf_name: b"schema_versions".to_vec(),
            user_cf_name: b"user".to_vec(),
            default_db: "protolith".to_string(),
        },
        user: "protolith".to_string(),
        password: "protolith".to_string(),
    };
    let mut auth1 = auth_cfg.build(&mut engine).unwrap();
    let token = auth1
        .auth
        .login_user(&engine, "protolith".to_string(), "protolith".to_string())
        .unwrap();
    // Snapshot the sessions, restart, restore, and the token still works.
    let snapshot = auth1.sessions();
    let mut auth2 = auth::Auth { auth: auth::ProtolithAuth::new() };
    assert!(auth2.get_session(&token).is_none());
    auth2.set_sessions(snapshot);
    let restored = auth2.get_session(&token).expect("session survives restart");
    assert_eq!(restored.username, "protolith".to_string());
}

#[test]
fn test_create_collection_explicitly() {
    let mut engine = test_engine();
    engine.create_database("plain".to_string(), Vec::new()).unwrap();
    let resp = engine
        .create_collection(
            "plain".to_string(),
            b"notes.v1.Note".to_vec(),
            b"id".to_vec(),
            1,
        )
        .unwrap();
    assert_eq!(resp.name, b"notes.v1.Note".to_vec());
    let list = engine.list_databases().unwrap();
    assert_eq!(list.databases[0].collections.len(), 1);
    assert_eq!(list.databases[0].collections[0].full_name, b"notes.v1.Note".to_vec());
    let again = engine.create_collection(
        "plain".to_string(),
        b"notes.v1.Note".to_vec(),
        b"id".to_vec(),
        1,
    );
    assert!(matches!(
        again,
        Err(EngineError::OpError(OpError::CollectionAlreadyExists(_, _)))
    ));
}

#[test]
fn test_versioned_mode_listing() {
    let mut engine = ProtolithDbEngine::new(
        db::Config {
            db_path: "/tmp/x".to_string(),
            cache_size: 1024,
            max_open_files: 100,
            descriptor_file_name: "DESCRIPTOR".to_string(),
        },
        meta_store::Config {
            schema_cf_name: b"schema".to_vec(),
            index_cf_name: b"index".to_vec(),
            schema_versions_cf_name: b"schema_versions".to_vec(),
            user_cf_name: b"user".to_vec(),
            default_db: "protolith".to_string(),
        },
        schema::Config { enable_versioning: true, default_version: 1 },
    );
    engine.create_database("shop".to_string(), shop_descriptor_set()).unwrap();
    // The current-version pointers drive the listing.
    let list = engine.list_databases().unwrap();
    assert_eq!(list.databases.len(), 1);
    let mut names: Vec<Vec<u8>> = list.databases[0]
        .collections
        .iter()
        .map(|c| c.full_name.clone())
        .collect();
    names.sort();
    assert_eq!(names, vec![b"shop.v1.Item".to_vec(), b"shop.v1.Itemized".to_vec()]);
    // Versioned schema lookup by version is not supported yet.
    let got = engine.get("shop".to_string(), b"shop.v1.Item".to_vec(), &b"k".to_vec());
    assert!(matches!(
        got,
        Err(EngineError::OpError(OpError::CollectionNotFound(_, _)))
    ));
}

#[test]
fn test_fresh_tokens_are_distinct() {
    let mut engine = test_engine();
    let auth_cfg = auth::Config {
        meta_store: meta_store::Config {
            schema_cf_name: b"schema".to_vec(),
            index_cf_name: b"index".to_vec(),
            schema_versions_cf_name: b"schema_versions".to_vec(),
            user_cf_name: b"user".to_vec(),
            default_db: "protolith".to_string(),
        },
        user: "protolith".to_string(),
        password: "protolith".to_string(),
    };
    let mut auth = auth_cfg.build(&mut engine).unwrap();
    let t1 = auth
        .auth
        .login_user(&engine, "protolith".to_string(), "protolith".to_string())
        .unwrap();
    let t2 = auth
        .auth
        .login_user(&engine, "protolith".to_string(), "protolith".to_string())
        .unwrap();
    assert_eq!(t1, b"session-0".to_vec());
    assert_eq!(t2, b"session-1".to_vec());
    assert_ne!(t1, t2);
    assert!(auth.get_session(&t1).is_some());
    assert!(auth.get_session(&t2).is_some());
}

#[test]
fn test_record_export_and_restore() {
    let mut engine = test_engine();
    engine.create_database("shop".to_string(), shop_descriptor_set()).unwrap();
    engine.insert("shop".to_string(), item_any("a", "apple")).unwrap();
    engine.insert("shop".to_string(), item_any("b", "berry")).unwrap();
    let dump = engine.export_records(&"shop".to_string()).unwrap();
    assert_eq!(dump.len(), 2);
    assert_eq!(dump[0].0, b"shop.v1.Item:a".to_vec());
    // A fresh engine with the same schema gets the records back.
    let mut engine2 = test_engine();
    engine2.create_database("shop".to_string(), shop_descriptor_set()).unwrap();
    engine2.restore_records(&"shop".to_string(), dump).unwrap();
    let got = engine2
        .get("shop".to_string(), b"shop.v1.Item".to_vec(), &b"shop.v1.Item:b".to_vec())
        .unwrap();
    assert_eq!(got.value, item_bytes("b", "berry"));
    assert!(engine2.export_records(&"none".to_string()).is_err());
}
