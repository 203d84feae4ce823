use maestro::registry::{DistInfo, PackageVersion};
use maestro::resolver::{select_version, Resolver};

fn pv(name: &str, version: &str, normalized: &str, require: Vec<(&str, &str)>) -> PackageVersion {
    PackageVersion {
        name: Some(name.to_string()),
        version: version.to_string(),
        version_normalized: normalized.to_string(),
        require: require
            .into_iter()
            .map(|(k, v)| (k.to_string(), v.to_string()))
            .collect(),
        dist: None,
    }
}

#[test]
fn select_highest_compatible() {
    // trivial resolve: ^1.0 over 1.0.0, 1.1.0, 1.2.0, 2.0.0 picks 1.2.0
    let versions = vec![
        pv("a/b", "1.0.0", "1.0.0.0", vec![]),
        pv("a/b", "1.1.0", "1.1.0.0", vec![]),
        pv("a/b", "1.2.0", "1.2.0.0", vec![]),
        pv("a/b", "2.0.0", "2.0.0.0", vec![]),
    ];
    let picked = select_version("^1.0", versions).unwrap();
    assert_eq!(picked.version, "1.2.0");
}

#[test]
fn select_with_disjunction() {
    let versions = vec![
        pv("a/b", "1.5.0", "1.5.0.0", vec![]),
        pv("a/b", "2.3.0", "2.3.0.0", vec![]),
        pv("a/b", "3.0.0", "3.0.0.0", vec![]),
    ];
    let picked = select_version("^1.0 || ^2.0", versions).unwrap();
    assert_eq!(picked.version, "2.3.0");
}

#[test]
fn select_none_when_nothing_matches() {
    let versions = vec![pv("a/b", "1.0.0", "1.0.0.0", vec![])];
    assert!(select_version("^9.0", versions).is_none());
}

#[test]
fn select_skips_unparseable_versions() {
    let versions = vec![
        pv("a/b", "dev-master", "dev-master", vec![]),
        pv("a/b", "1.0.0", "1.0.0.0", vec![]),
    ];
    let picked = select_version("*", versions).unwrap();
    assert_eq!(picked.version, "1.0.0");
}

#[test]
fn select_caret_fixed_point() {
    // re-selecting with the caret of the selected version picks it again
    let make = || {
        vec![
            pv("a/b", "1.0.0", "1.0.0.0", vec![]),
            pv("a/b", "1.2.0", "1.2.0.0", vec![]),
            pv("a/b", "2.0.0", "2.0.0.0", vec![]),
        ]
    };
    let first = select_version("^1.0", make()).unwrap();
    assert_eq!(first.version, "1.2.0");
    let again = select_version("^1.2.0", make()).unwrap();
    assert_eq!(again.version, "1.2.0");
}

#[test]
fn resolver_transitive_with_cycle() {
    // A requires B, B requires A; the installed check breaks the cycle
    let mut r = Resolver::new(vec![("v/a".to_string(), "^1".to_string())]);
    let (name, constraint) = r.next_pending().unwrap();
    assert_eq!(name, "v/a");
    assert_eq!(constraint, "^1");
    r.record_resolution(
        "v/a".to_string(),
        Some(pv("v/a", "1.0.0", "1.0.0.0", vec![("v/b", "^1")])),
    );
    let (name2, _) = r.next_pending().unwrap();
    assert_eq!(name2, "v/b");
    r.record_resolution(
        "v/b".to_string(),
        Some(pv("v/b", "1.1.0", "1.1.0.0", vec![("v/a", "^1")])),
    );
    assert!(r.next_pending().is_none());
    let resolved = r.into_resolved();
    assert_eq!(resolved.len(), 2);
    assert_eq!(resolved[0].name.as_deref(), Some("v/a"));
    assert_eq!(resolved[1].name.as_deref(), Some("v/b"));
}

#[test]
fn resolver_skips_platform_requirements() {
    let mut r = Resolver::new(vec![("v/p".to_string(), "^1".to_string())]);
    let _ = r.next_pending().unwrap();
    r.record_resolution(
        "v/p".to_string(),
        Some(pv(
            "v/p",
            "1.0.0",
            "1.0.0.0",
            vec![("php", ">=8"), ("ext-json", "*"), ("v/q", "^1")],
        )),
    );
    let (dep, _) = r.next_pending().unwrap();
    assert_eq!(dep, "v/q");
    assert!(r.next_pending().is_none());
}

#[test]
fn resolver_records_each_name_once() {
    // no duplicate names in the resolved set
    let mut r = Resolver::new(vec![]);
    r.record_resolution("v/a".to_string(), Some(pv("v/a", "1.0.0", "1.0.0.0", vec![])));
    r.record_resolution("v/a".to_string(), Some(pv("v/a", "1.5.0", "1.5.0.0", vec![])));
    let resolved = r.into_resolved();
    assert_eq!(resolved.len(), 1);
    assert_eq!(resolved[0].version, "1.0.0");
}

#[test]
fn resolver_drops_unresolved() {
    let mut r = Resolver::new(vec![("v/a".to_string(), "^1".to_string())]);
    let _ = r.next_pending().unwrap();
    r.record_resolution("v/a".to_string(), None);
    assert!(r.next_pending().is_none());
    assert_eq!(r.into_resolved().len(), 0);
}

#[test]
fn resolver_stamps_resolved_name() {
    // a payload claiming another name is recorded under the requested one
    let mut r = Resolver::new(vec![]);
    r.record_resolution("v/a".to_string(), Some(pv("other/name", "1.0.0", "1.0.0.0", vec![])));
    let resolved = r.into_resolved();
    assert_eq!(resolved[0].name.as_deref(), Some("v/a"));
}

#[test]
fn resolver_keeps_dist() {
    let mut r = Resolver::new(vec![]);
    let mut p = pv("v/a", "1.0.0", "1.0.0.0", vec![]);
    p.dist = Some(DistInfo {
        url: "https://example.test/a.zip".to_string(),
        dist_type: "zip".to_string(),
        reference: None,
        shasum: None,
    });
    r.record_resolution("v/a".to_string(), Some(p));
    let resolved = r.into_resolved();
    assert_eq!(resolved[0].dist.as_ref().unwrap().url, "https://example.test/a.zip");
}
