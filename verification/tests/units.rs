//! Unit tests for the byte, codec, key and configuration layers.

use protolith::bytes::{bytes_concat, bytes_eq, bytes_lt, bytes_starts_with, parse_dec_u64,
    u64_to_dec};
use protolith::codec::{decode_collection, decode_schema, decode_schema_version,
    encode_collection, encode_schema, encode_schema_version, Collection, Field, Index, Schema,
    SchemaVersion, INDEX_TYPE_KEY};
use protolith::db::{make_schema_key, parse_schema_id_from_key, parse_schema_version_id,
    parse_type_url, parse_collection_to_cf};
use protolith::env::{convert_attributes_string_to_map, parse_bool, parse_duration,
    parse_number, parse_socket_addr, parse_string, Env};
use protolith::kv::Kv;
use protolith::layer::extract_session_token_from_metadata;
use protolith::app::is_database_dir;
use protolith::client::ConnectionOpt;

#[test]
fn test_decimal_render_and_parse() {
    assert_eq!(u64_to_dec(0), b"0".to_vec());
    assert_eq!(u64_to_dec(907), b"907".to_vec());
    assert_eq!(u64_to_dec(u64::MAX), b"18446744073709551615".to_vec());
    assert_eq!(parse_dec_u64(&b"907".to_vec()), Some(907));
    assert_eq!(parse_dec_u64(&b"".to_vec()), None);
    assert_eq!(parse_dec_u64(&b"12x".to_vec()), None);
    assert_eq!(parse_dec_u64(&b"18446744073709551616".to_vec()), None);
}

#[test]
fn test_byte_order_helpers() {
    assert!(bytes_lt(&b"a".to_vec(), &b"b".to_vec()));
    assert!(bytes_lt(&b"a".to_vec(), &b"ab".to_vec()));
    assert!(!bytes_lt(&b"b".to_vec(), &b"ab".to_vec()));
    assert!(bytes_eq(&b"same".to_vec(), &b"same".to_vec()));
    assert!(!bytes_eq(&b"same".to_vec(), &b"Same".to_vec()));
    assert!(bytes_starts_with(&b"shop.v1.Item:a".to_vec(), &b"shop.v1.Item:".to_vec()));
    assert!(!bytes_starts_with(&b"shop.v1.Itemized:a".to_vec(), &b"shop.v1.Item:".to_vec()));
    assert_eq!(bytes_concat(&b"ab".to_vec(), &b"cd".to_vec()), b"abcd".to_vec());
}

#[test]
fn test_schema_keys_round_trip() {
    let key = make_schema_key(&b"shop.v1.Item".to_vec(), &7);
    assert_eq!(key, b"shop.v1.Item:7".to_vec());
    let (id, ver) = parse_schema_version_id(&key).unwrap();
    assert_eq!(id, b"shop.v1.Item".to_vec());
    assert_eq!(ver, 7);
    assert_eq!(parse_schema_id_from_key(&key).unwrap(), b"shop.v1.Item".to_vec());
    assert!(parse_schema_version_id(&b"noseparator".to_vec()).is_err());
    assert!(parse_schema_version_id(&b"a:b:c".to_vec()).is_err());
    assert!(parse_schema_version_id(&b"a:notanumber".to_vec()).is_err());
}

#[test]
fn test_type_url_parse() {
    assert_eq!(
        parse_type_url(&b"type.googleapis.com/shop.v1.Item".to_vec()),
        Some(b"shop.v1.Item".to_vec())
    );
    assert_eq!(parse_type_url(&b"noslash".to_vec()), None);
    assert_eq!(parse_type_url(&b"a/b/c".to_vec()), Some(b"b".to_vec()));
}

#[test]
fn test_kv_sorted_store() {
    let mut kv = Kv::new();
    kv.create_cf(b"default".to_vec());
    assert!(kv.cf_exists(&b"default".to_vec()));
    assert!(!kv.cf_exists(&b"other".to_vec()));
    kv.put(&b"default".to_vec(), b"b".to_vec(), b"2".to_vec()).unwrap();
    kv.put(&b"default".to_vec(), b"a".to_vec(), b"1".to_vec()).unwrap();
    kv.put(&b"default".to_vec(), b"c".to_vec(), b"3".to_vec()).unwrap();
    assert_eq!(kv.get(&b"default".to_vec(), &b"b".to_vec()).unwrap(), Some(b"2".to_vec()));
    assert_eq!(kv.get(&b"default".to_vec(), &b"x".to_vec()).unwrap(), None);
    assert!(kv.get(&b"missing".to_vec(), &b"x".to_vec()).is_err());
    // Overwrite keeps one entry per key; iteration is ascending.
    kv.put(&b"default".to_vec(), b"b".to_vec(), b"22".to_vec()).unwrap();
    let all = kv.scan_prefix(&b"default".to_vec(), &b"".to_vec()).unwrap();
    let keys: Vec<Vec<u8>> = all.iter().map(|e| e.0.clone()).collect();
    assert_eq!(keys, vec![b"a".to_vec(), b"b".to_vec(), b"c".to_vec()]);
    assert_eq!(all[1].1, b"22".to_vec());
    // Prefix scans are full-token bounded.
    kv.put(&b"default".to_vec(), b"ab".to_vec(), b"4".to_vec()).unwrap();
    let pre = kv.scan_prefix(&b"default".to_vec(), &b"a".to_vec()).unwrap();
    assert_eq!(pre.len(), 2);
    assert_eq!(pre[0].0, b"a".to_vec());
    assert_eq!(pre[1].0, b"ab".to_vec());
}

fn sample_collection() -> Collection {
    Collection {
        name: b"Item".to_vec(),
        full_name: b"shop.v1.Item".to_vec(),
        descriptor: vec![1, 2, 3, 255],
        fields: vec![
            Field { name: b"id".to_vec(), field_type: 9 },
            Field { name: b"name".to_vec(), field_type: 9 },
        ],
        indexes: vec![Index {
            index_id: b"shop.v1.Item:id".to_vec(),
            schema_id: b"shop.v1.Item".to_vec(),
            field_name: b"id".to_vec(),
            index_type: INDEX_TYPE_KEY,
        }],
    }
}

#[test]
fn test_collection_codec_round_trip() {
    let c = sample_collection();
    let bytes = encode_collection(&c);
    let d = decode_collection(&bytes).expect("decode");
    assert_eq!(d.name, c.name);
    assert_eq!(d.full_name, c.full_name);
    assert_eq!(d.descriptor, c.descriptor);
    assert_eq!(d.fields.len(), 2);
    assert_eq!(d.fields[1].name, b"name".to_vec());
    assert_eq!(d.indexes.len(), 1);
    assert_eq!(d.indexes[0].field_name, b"id".to_vec());
    // A truncated record does not decode.
    let mut cut = bytes.clone();
    cut.pop();
    assert!(decode_collection(&cut).is_none());
}

#[test]
fn test_schema_codec_round_trip() {
    let s = Schema {
        schema_id: b"shop.v1.Item".to_vec(),
        schema_version: 1,
        schema_definition: encode_collection(&sample_collection()),
    };
    let bytes = encode_schema(&s);
    let d = decode_schema(&bytes).expect("decode");
    assert_eq!(d.schema_id, s.schema_id);
    assert_eq!(d.schema_version, 1);
    assert_eq!(d.schema_definition, s.schema_definition);

    let v = SchemaVersion {
        schema_id: b"shop.v1.Item".to_vec(),
        version_number: 1,
        is_current: true,
    };
    let vb = encode_schema_version(&v);
    let dv = decode_schema_version(&vb).expect("decode");
    assert_eq!(dv.schema_id, v.schema_id);
    assert_eq!(dv.version_number, 1);
    assert!(dv.is_current);
}

#[test]
fn test_parse_collection_to_cf() {
    let cfs = parse_collection_to_cf(&sample_collection());
    assert_eq!(cfs, vec![b"shop.v1.Item:id".to_vec()]);
}

#[test]
fn test_env_parsers() {
    assert_eq!(parse_bool("true"), Ok(true));
    assert_eq!(parse_bool("false"), Ok(false));
    assert!(parse_bool("yes").is_err());
    assert_eq!(parse_number("42").unwrap(), 42);
    assert!(parse_number("").is_err());
    assert_eq!(parse_string("hello").unwrap(), "hello".to_string());
    assert_eq!(parse_duration("0").unwrap(), 0);
    assert!(parse_duration("5").is_err());
    assert_eq!(parse_duration("250ms").unwrap(), 250);
    assert_eq!(parse_duration("2s").unwrap(), 2000);
    assert_eq!(parse_duration("3m").unwrap(), 180000);
    assert_eq!(parse_duration("1h").unwrap(), 3600000);
    assert_eq!(parse_duration("2d").unwrap(), 172800000);
    assert!(parse_duration("7w").is_err());
    let a = parse_socket_addr("0.0.0.0:5678").unwrap();
    assert_eq!(a.host, b"0.0.0.0".to_vec());
    assert_eq!(a.port, 5678);
    assert!(parse_socket_addr("nocolon").is_err());
    assert!(parse_socket_addr("host:99999").is_err());
}

#[test]
fn test_try_config_defaults() {
    let env = Env { vars: vec![("PROTOLITH_DB_PATH".to_string(), "/tmp/x".to_string())] };
    let c = env.try_config().expect("config");
    assert_eq!(c.db.db_path, "/tmp/x".to_string());
    assert_eq!(c.db.max_open_files, 1000);
    assert_eq!(c.meta_store.schema_cf_name, b"schema".to_vec());
    assert_eq!(c.meta_store.index_cf_name, b"index".to_vec());
    assert_eq!(c.meta_store.schema_versions_cf_name, b"schema_versions".to_vec());
    assert_eq!(c.meta_store.user_cf_name, b"user".to_vec());
    assert_eq!(c.meta_store.default_db, "protolith".to_string());
    assert_eq!(c.schema.default_version, 1);
    assert!(!c.schema.enable_versioning);
    assert!(!c.destroy_on_shutdown);
    assert_eq!(c.shutdown_grace_period, 120000);
    assert_eq!(c.addr.port, 5678);
    assert_eq!(c.auth.user, "protolith".to_string());

    let empty = Env { vars: vec![] };
    assert!(empty.try_config().is_err());
}

#[test]
fn test_convert_attributes_string_to_map() {
    let m = convert_attributes_string_to_map("a=1\nb=\"two\"\nnopair\nc=x=y".to_string());
    assert_eq!(m.len(), 3);
    assert_eq!(m[0], (b"a".to_vec(), b"1".to_vec()));
    assert_eq!(m[1], (b"b".to_vec(), b"two".to_vec()));
    assert_eq!(m[2], (b"c".to_vec(), b"x=y".to_vec()));
}

#[test]
fn test_session_header_extraction() {
    let headers = vec![
        (b"protolith-user-agent".to_vec(), b"protolith@rust/0.1.0".to_vec()),
        (b"protolith-session".to_vec(), b"session-0".to_vec()),
    ];
    assert_eq!(extract_session_token_from_metadata(&headers), b"session-0".to_vec());
    let none: Vec<(Vec<u8>, Vec<u8>)> = vec![];
    assert_eq!(extract_session_token_from_metadata(&none), b"unknown".to_vec());
}

#[test]
fn test_is_database_dir() {
    let both = vec![b"IDENTITY".to_vec(), b"CURRENT".to_vec(), b"LOG".to_vec()];
    assert!(is_database_dir(&both));
    let one = vec![b"IDENTITY".to_vec(), b"LOG".to_vec()];
    assert!(!is_database_dir(&one));
    let none: Vec<Vec<u8>> = vec![];
    assert!(!is_database_dir(&none));
}

#[test]
fn test_connection_opt_default() {
    let opt = ConnectionOpt::default();
    assert_eq!(opt.addr, "http://0.0.0.0:5678");
    assert_eq!(opt.username, "protolith".to_string());
    assert_eq!(opt.password, "protolith".to_string());
    assert!(!opt.clear_sessions);
}

use protolith::api::ScalarValue;
use protolith::service::{check_insert_payload, key_for, status_of_engine_error, Status};
use protolith::engine::{EngineError, OpError};

#[test]
fn test_key_for_scalars() {
    let c = b"shop.v1.Item".to_vec();
    assert_eq!(key_for(&c, &ScalarValue::Uint(42)), b"shop.v1.Item:42".to_vec());
    assert_eq!(key_for(&c, &ScalarValue::Int(-7)), b"shop.v1.Item:-7".to_vec());
    assert_eq!(
        key_for(&c, &ScalarValue::Int(i64::MIN)),
        b"shop.v1.Item:-9223372036854775808".to_vec()
    );
    assert_eq!(
        key_for(&c, &ScalarValue::Text(b"\"a\"".to_vec())),
        b"shop.v1.Item:a".to_vec()
    );
    assert_eq!(
        key_for(&c, &ScalarValue::Text(b"plain".to_vec())),
        b"shop.v1.Item:plain".to_vec()
    );
}

#[test]
fn test_status_mapping() {
    let taken = EngineError::OpError(OpError::DatabaseAlreadyExists("shop".to_string()));
    assert!(matches!(status_of_engine_error(&taken), Status::AlreadyExists(_)));
    let missing = EngineError::OpError(OpError::DatabaseNotFound("none".to_string()));
    assert!(matches!(status_of_engine_error(&missing), Status::NotFound(_)));
    let internal = EngineError::Internal(b"broken".to_vec());
    assert!(matches!(status_of_engine_error(&internal), Status::Internal(_)));
    assert!(check_insert_payload(&None).is_err());
}

#[test]
fn test_auth_status_mapping() {
    let missing = protolith::auth::AuthError::UserNotExists("ghost".to_string());
    match protolith::service::status_of_auth_error(&missing) {
        Status::NotFound(m) => assert_eq!(m, b"ghost".to_vec()),
        _ => panic!("expected a not-found status"),
    }
}

#[test]
fn test_missing_insert_payload_message() {
    match check_insert_payload(&None) {
        Err(Status::InvalidArgument(m)) => {
            assert_eq!(m, b"Must pass a valid Any type message".to_vec());
        }
        _ => panic!("expected an invalid-argument status"),
    }
}
