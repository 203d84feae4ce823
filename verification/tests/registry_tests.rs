use maestro::json::JsonValue;
use maestro::registry::{
    decode_package_version, decode_require, decode_response, metadata_from_cache,
    metadata_from_response,
};
use maestro::Error;

fn obj(entries: Vec<(&str, JsonValue)>) -> JsonValue {
    JsonValue::Object(entries.into_iter().map(|(k, v)| (k.to_string(), v)).collect())
}

fn s(x: &str) -> JsonValue {
    JsonValue::Str(x.to_string())
}

fn version_object(version: &str, normalized: &str, require: JsonValue) -> JsonValue {
    obj(vec![
        ("version", s(version)),
        ("version_normalized", s(normalized)),
        ("require", require),
    ])
}

#[test]
fn tolerant_require_sentinel_string() {
    let r = decode_require(&s("__unset"));
    assert!(r.is_empty());
}

#[test]
fn tolerant_require_empty_array() {
    let r = decode_require(&JsonValue::Array(vec![]));
    assert!(r.is_empty());
}

#[test]
fn tolerant_require_null() {
    let r = decode_require(&JsonValue::Null);
    assert!(r.is_empty());
}

#[test]
fn tolerant_require_other_shapes() {
    assert!(decode_require(&JsonValue::Bool(true)).is_empty());
    assert!(decode_require(&JsonValue::Number("7".to_string())).is_empty());
}

#[test]
fn tolerant_require_keeps_string_entries_only() {
    let v = obj(vec![
        ("a/b", s("^1.0")),
        ("bad", JsonValue::Number("3".to_string())),
        ("c/d", s("~2.1")),
    ]);
    let r = decode_require(&v);
    assert_eq!(r.len(), 2);
    assert_eq!(r[0].0, "a/b");
    assert_eq!(r[0].1, "^1.0");
    assert_eq!(r[1].0, "c/d");
    assert_eq!(r[1].1, "~2.1");
}

#[test]
fn decode_version_object() {
    let v = obj(vec![
        ("name", s("v/a")),
        ("version", s("1.2.0")),
        ("version_normalized", s("1.2.0.0")),
        ("require", obj(vec![("v/b", s("^1"))])),
        (
            "dist",
            obj(vec![
                ("url", s("https://example.test/a.zip")),
                ("type", s("zip")),
                ("reference", s("abc123")),
                ("shasum", JsonValue::Null),
            ]),
        ),
    ]);
    let p = decode_package_version(&v).unwrap();
    assert_eq!(p.name.as_deref(), Some("v/a"));
    assert_eq!(p.version, "1.2.0");
    assert_eq!(p.version_normalized, "1.2.0.0");
    assert_eq!(p.require.len(), 1);
    let d = p.dist.unwrap();
    assert_eq!(d.url, "https://example.test/a.zip");
    assert_eq!(d.dist_type, "zip");
    assert_eq!(d.reference.as_deref(), Some("abc123"));
    assert!(d.shasum.is_none());
}

#[test]
fn decode_version_defaults() {
    let v = obj(vec![("version", s("1.0.0"))]);
    let p = decode_package_version(&v).unwrap();
    assert!(p.name.is_none());
    assert_eq!(p.version_normalized, "");
    assert!(p.require.is_empty());
    assert!(p.dist.is_none());
}

#[test]
fn decode_version_requires_version_field() {
    let v = obj(vec![("name", s("v/a"))]);
    assert_eq!(decode_package_version(&v), Err(Error::MetadataParse));
}

#[test]
fn decode_version_rejects_bad_dist() {
    let v = obj(vec![("version", s("1.0.0")), ("dist", obj(vec![("type", s("zip"))]))]);
    assert_eq!(decode_package_version(&v), Err(Error::MetadataParse));
}

fn sample_response() -> JsonValue {
    obj(vec![(
        "packages",
        obj(vec![(
            "v/a",
            JsonValue::Array(vec![
                version_object("1.0.0", "1.0.0.0", s("__unset")),
                version_object("1.1.0", "1.1.0.0", JsonValue::Array(vec![])),
            ]),
        )]),
    )])
}

#[test]
fn decode_response_tolerant_shapes_parse() {
    // a payload mixing the sentinel and the empty array still parses
    let resp = decode_response(&sample_response()).unwrap();
    assert_eq!(resp.packages.len(), 1);
    let (name, versions) = &resp.packages[0];
    assert_eq!(name, "v/a");
    assert_eq!(versions.len(), 2);
    assert!(versions[0].require.is_empty());
    assert!(versions[1].require.is_empty());
}

#[test]
fn decode_response_needs_packages() {
    assert!(decode_response(&obj(vec![("other", JsonValue::Null)])).is_err());
    assert!(decode_response(&JsonValue::Null).is_err());
}

#[test]
fn metadata_network_path_backfills_names() {
    let got = metadata_from_response("v/a", &sample_response()).unwrap();
    assert_eq!(got.len(), 2);
    assert_eq!(got[0].name.as_deref(), Some("v/a"));
    assert_eq!(got[1].name.as_deref(), Some("v/a"));
}

#[test]
fn metadata_network_path_not_found() {
    assert_eq!(
        metadata_from_response("v/missing", &sample_response()),
        Err(Error::PackageNotFound)
    );
}

#[test]
fn metadata_cache_path_misses_on_garbage() {
    assert!(metadata_from_cache("v/a", &JsonValue::Null).is_none());
    assert!(metadata_from_cache("v/missing", &sample_response()).is_none());
}

#[test]
fn cache_round_trip_matches_network_modulo_backfill() {
    // the same document read through the cache path and the network path
    let cached = metadata_from_cache("v/a", &sample_response()).unwrap();
    let fetched = metadata_from_response("v/a", &sample_response()).unwrap();
    assert_eq!(cached.len(), fetched.len());
    for (c, f) in cached.iter().zip(fetched.iter()) {
        assert_eq!(c.version, f.version);
        assert_eq!(c.version_normalized, f.version_normalized);
        assert_eq!(c.require, f.require);
        assert!(c.name.is_none());
        assert_eq!(f.name.as_deref(), Some("v/a"));
    }
}
