use maestro::cache::Cache;
use maestro::json::JsonValue;
use maestro::lock::{decode_lockfile, encode_lockfile, LockFile};
use maestro::manifest::{add_requirement, decode_manifest, encode_manifest};
use maestro::pipeline::{dist_targets, pick_add_target};
use maestro::registry::{DistInfo, PackageVersion};
use maestro::Error;

fn obj(entries: Vec<(&str, JsonValue)>) -> JsonValue {
    JsonValue::Object(entries.into_iter().map(|(k, v)| (k.to_string(), v)).collect())
}

fn s(x: &str) -> JsonValue {
    JsonValue::Str(x.to_string())
}

fn pv(name: Option<&str>, version: &str, normalized: &str) -> PackageVersion {
    PackageVersion {
        name: name.map(|n| n.to_string()),
        version: version.to_string(),
        version_normalized: normalized.to_string(),
        require: vec![],
        dist: None,
    }
}

#[test]
fn cache_paths() {
    let c = Cache::from_root("/home/u/.cache/maestro".to_string());
    assert_eq!(
        c.get_metadata_path("acme/lib"),
        "/home/u/.cache/maestro/metadata/acme-lib.json"
    );
    assert_eq!(
        c.get_dist_path("acme/lib", "1.2.0"),
        "/home/u/.cache/maestro/dist/acme-lib-1.2.0.zip"
    );
}

#[test]
fn lockfile_new_shape() {
    let l = LockFile::new(vec![pv(Some("v/a"), "1.0.0", "1.0.0.0")]);
    assert_eq!(l._readme.len(), 1);
    assert_eq!(l.content_hash, "TODO-hash-of-composer-json");
    assert_eq!(l.packages.len(), 1);
    assert!(l.packages_dev.is_empty());
}

#[test]
fn lockfile_encode_decode_round_trip() {
    let mut p = pv(Some("v/a"), "1.2.0", "1.2.0.0");
    p.require = vec![("v/b".to_string(), "^2".to_string())];
    p.dist = Some(DistInfo {
        url: "https://example.test/a.zip".to_string(),
        dist_type: "zip".to_string(),
        reference: Some("abc".to_string()),
        shasum: None,
    });
    let l = LockFile::new(vec![p]);
    let doc = encode_lockfile(&l);
    let back = decode_lockfile(&doc).unwrap();
    assert_eq!(back._readme, l._readme);
    assert_eq!(back.content_hash, l.content_hash);
    assert_eq!(back.packages, l.packages);
    assert_eq!(back.packages_dev, l.packages_dev);
}

#[test]
fn lockfile_decode_rejects_bad_document() {
    assert_eq!(
        decode_lockfile(&JsonValue::Null).map(|_| ()),
        Err(Error::LockfileParse)
    );
    assert_eq!(
        decode_lockfile(&obj(vec![("packages", JsonValue::Array(vec![]))])).map(|_| ()),
        Err(Error::LockfileParse)
    );
}

#[test]
fn manifest_decode_and_extras() {
    let doc = obj(vec![
        ("name", s("me/app")),
        ("require", obj(vec![("v/a", s("^1.0"))])),
        ("custom-field", s("kept")),
        ("minimum-stability", s("stable")),
    ]);
    let m = decode_manifest(doc).unwrap();
    assert_eq!(m.name.as_deref(), Some("me/app"));
    assert_eq!(m.require, vec![("v/a".to_string(), "^1.0".to_string())]);
    assert!(m.require_dev.is_empty());
    assert!(m.autoload.psr4.is_empty());
    assert_eq!(m.extra.len(), 2);
    assert_eq!(m.extra[0].0, "custom-field");
}

#[test]
fn manifest_decode_rejects_non_string_require() {
    let doc = obj(vec![("require", obj(vec![("v/a", JsonValue::Null)]))]);
    assert_eq!(decode_manifest(doc).map(|_| ()), Err(Error::ManifestParse));
}

#[test]
fn manifest_add_requirement_replaces_and_appends() {
    let doc = obj(vec![("require", obj(vec![("v/a", s("^1.0"))]))]);
    let mut m = decode_manifest(doc).unwrap();
    add_requirement(&mut m, "v/a".to_string(), "^2.0".to_string());
    assert_eq!(m.require, vec![("v/a".to_string(), "^2.0".to_string())]);
    add_requirement(&mut m, "v/b".to_string(), "^3.0".to_string());
    assert_eq!(m.require.len(), 2);
    assert_eq!(m.require[1], ("v/b".to_string(), "^3.0".to_string()));
}

#[test]
fn manifest_encode_round_trip_preserves_extras() {
    let doc = obj(vec![
        ("name", s("me/app")),
        ("require", obj(vec![("v/a", s("^1.0"))])),
        ("autoload", obj(vec![("psr-4", obj(vec![("App\\", s("src/"))]))])),
        ("custom-field", s("kept")),
    ]);
    let m = decode_manifest(doc).unwrap();
    let encoded = encode_manifest(m);
    let back = decode_manifest(encoded).unwrap();
    assert_eq!(back.name.as_deref(), Some("me/app"));
    assert_eq!(back.require, vec![("v/a".to_string(), "^1.0".to_string())]);
    assert_eq!(back.autoload.psr4, vec![("App\\".to_string(), "src/".to_string())]);
    assert_eq!(back.extra.len(), 1);
    assert_eq!(back.extra[0].0, "custom-field");
    match &back.extra[0].1 {
        JsonValue::Str(v) => assert_eq!(v, "kept"),
        _ => panic!("extra value changed shape"),
    }
}

#[test]
fn dist_targets_skip_missing() {
    let mut with_dist = pv(Some("v/a"), "1.0.0", "1.0.0.0");
    with_dist.dist = Some(DistInfo {
        url: "https://example.test/a.zip".to_string(),
        dist_type: "zip".to_string(),
        reference: None,
        shasum: None,
    });
    let without = pv(None, "2.0.0", "2.0.0.0");
    let targets = dist_targets(&vec![without, with_dist]);
    assert_eq!(targets.len(), 1);
    assert_eq!(
        targets[0],
        (
            "v/a".to_string(),
            "1.0.0".to_string(),
            "https://example.test/a.zip".to_string()
        )
    );
}

#[test]
fn dist_targets_unknown_name_placeholder() {
    let mut p = pv(None, "1.0.0", "1.0.0.0");
    p.dist = Some(DistInfo {
        url: "u".to_string(),
        dist_type: "zip".to_string(),
        reference: None,
        shasum: None,
    });
    let targets = dist_targets(&vec![p]);
    assert_eq!(targets[0].0, "unknown");
}

#[test]
fn pick_add_target_latest_stable() {
    let versions = vec![
        pv(Some("v/a"), "v1.0.0", "1.0.0.0"),
        pv(Some("v/a"), "v1.4.0", "1.4.0.0"),
        pv(Some("v/a"), "2.0.0-beta1", "2.0.0.0-beta1"),
    ];
    assert_eq!(pick_add_target(&versions).unwrap(), "^1.4.0");
}

#[test]
fn pick_add_target_falls_back_to_last_unstable() {
    let versions = vec![
        pv(Some("v/a"), "1.0.0-dev", "1.0.0.0-dev"),
        pv(Some("v/a"), "2.0.0-beta1", "2.0.0.0-beta1"),
    ];
    assert_eq!(pick_add_target(&versions).unwrap(), "2.0.0-beta1");
}

#[test]
fn pick_add_target_empty() {
    assert!(pick_add_target(&vec![]).is_none());
}
