//! Decoding registry metadata documents: the package-version shape, the
//! tolerant `require` decoder, the response envelope, the cache-hit lookup
//! and the name back-fill.
use crate::json::{get_field, spec_field, JsonValue};
use crate::Error;
use vstd::prelude::*;

verus! {

/// A downloadable archive attached to a released version.
#[derive(Debug, PartialEq, Eq)]
pub struct DistInfo {
    pub url: String,
    pub dist_type: String,
    pub reference: Option<String>,
    pub shasum: Option<String>,
}

/// One released version of a package, as the registry reports it.
#[derive(Debug, PartialEq, Eq)]
pub struct PackageVersion {
    pub name: Option<String>,
    pub version: String,
    pub version_normalized: String,
    pub require: Vec<(String, String)>,
    pub dist: Option<DistInfo>,
}

/// A registry response: a map from package name to its released versions.
pub struct PackagistResponse {
    pub packages: Vec<(String, Vec<PackageVersion>)>,
}

/// The mathematical image of a `DistInfo`.
pub struct DistView {
    pub url: Seq<char>,
    pub dist_type: Seq<char>,
    pub reference: Option<Seq<char>>,
    pub shasum: Option<Seq<char>>,
}

/// The mathematical image of a `PackageVersion`.
pub struct PvView {
    pub name: Option<Seq<char>>,
    pub version: Seq<char>,
    pub version_normalized: Seq<char>,
    pub require: Seq<(Seq<char>, Seq<char>)>,
    pub dist: Option<DistView>,
}

pub open spec fn opt_view(o: Option<String>) -> Option<Seq<char>> {
    match o {
        Some(s) => Some(s@),
        None => None,
    }
}

pub open spec fn dist_view(d: DistInfo) -> DistView {
    DistView {
        url: d.url@,
        dist_type: d.dist_type@,
        reference: opt_view(d.reference),
        shasum: opt_view(d.shasum),
    }
}

pub open spec fn req_view(r: Seq<(String, String)>) -> Seq<(Seq<char>, Seq<char>)> {
    r.map_values(|p: (String, String)| (p.0@, p.1@))
}

pub open spec fn pv_view(p: PackageVersion) -> PvView {
    PvView {
        name: opt_view(p.name),
        version: p.version@,
        version_normalized: p.version_normalized@,
        require: req_view(p.require@),
        dist: match p.dist {
            Some(d) => Some(dist_view(d)),
            None => None,
        },
    }
}

pub open spec fn pvs_view(ps: Seq<PackageVersion>) -> Seq<PvView> {
    ps.map_values(|p: PackageVersion| pv_view(p))
}

/// The mathematical image of one response entry.
pub open spec fn entry_view(e: (String, Vec<PackageVersion>)) -> (Seq<char>, Seq<PvView>) {
    (e.0@, pvs_view(e.1@))
}

pub open spec fn entries_view(es: Seq<(String, Vec<PackageVersion>)>) -> Seq<
    (Seq<char>, Seq<PvView>),
> {
    es.map_values(|e: (String, Vec<PackageVersion>)| entry_view(e))
}

pub open spec fn resp_view(r: PackagistResponse) -> Seq<(Seq<char>, Seq<PvView>)> {
    entries_view(r.packages@)
}

/// The string-valued entries of an object's entry list, in order.
pub open spec fn spec_string_entries(es: Seq<(String, JsonValue)>) -> Seq<(Seq<char>, Seq<char>)>
    decreases es.len(),
{
    if es.len() == 0 {
        Seq::empty()
    } else {
        let rest = spec_string_entries(es.drop_last());
        match es.last().1 {
            JsonValue::Str(s) => rest + seq![(es.last().0@, s@)],
            _ => rest,
        }
    }
}

/// The strict reading of a map value: every entry must be a string.
pub open spec fn spec_strict_entries(es: Seq<(String, JsonValue)>) -> Option<
    Seq<(Seq<char>, Seq<char>)>,
>
    decreases es.len(),
{
    if es.len() == 0 {
        Some(Seq::empty())
    } else {
        match (spec_strict_entries(es.drop_last()), es.last().1) {
            (Some(rest), JsonValue::Str(s)) => Some(rest + seq![(es.last().0@, s@)]),
            _ => None,
        }
    }
}

pub open spec fn spec_strict_entries_of(v: JsonValue) -> Option<Seq<(Seq<char>, Seq<char>)>> {
    match v {
        JsonValue::Object(es) => spec_strict_entries(es@),
        _ => None,
    }
}

/// The tolerant reading of a `require` value: the string-valued entries when
/// it is an object, the empty map for every other shape.
pub open spec fn spec_require_of(v: JsonValue) -> Seq<(Seq<char>, Seq<char>)> {
    match v {
        JsonValue::Object(es) => spec_string_entries(es@),
        _ => Seq::empty(),
    }
}

/// Tolerant decoding never fails: any non-object `require` value — the
/// sentinel string, an empty array, null, anything else — reads as the
/// empty map.
pub proof fn lemma_tolerant_require(v: JsonValue)
    requires
        !(v is Object),
    ensures
        spec_require_of(v) == Seq::<(Seq<char>, Seq<char>)>::empty(),
{
}

/// Decodes a `require` value tolerantly; see `spec_require_of`.
pub fn decode_require(v: &JsonValue) -> (r: Vec<(String, String)>)
    ensures
        req_view(r@) == spec_require_of(*v),
{
    match v {
        JsonValue::Object(es) => {
            let mut out: Vec<(String, String)> = Vec::new();
            let n = es.len();
            let mut i: usize = 0;
            proof {
                assert(req_view(out@) =~= spec_string_entries(es@.take(0int)));
            }
            while i < n
                invariant
                    0 <= i <= n,
                    n == es@.len(),
                    req_view(out@) == spec_string_entries(es@.take(i as int)),
                decreases n - i,
            {
                proof {
                    assert(es@.take(i + 1).drop_last() =~= es@.take(i as int));
                    assert(es@.take(i + 1).last() == es@[i as int]);
                }
                match &es[i].1 {
                    JsonValue::Str(s) => {
                        let k = es[i].0.clone();
                        let sv = s.clone();
                        out.push((k, sv));
                        proof {
                            assert(req_view(out@) =~= spec_string_entries(es@.take(i + 1)));
                        }
                    },
                    _ => {
                        proof {
                            assert(req_view(out@) =~= spec_string_entries(es@.take(i + 1)));
                        }
                    },
                }
                i += 1;
            }
            proof {
                assert(es@.take(n as int) =~= es@);
            }
            out
        },
        _ => {
            let out: Vec<(String, String)> = Vec::new();
            proof {
                assert(req_view(out@) =~= Seq::<(Seq<char>, Seq<char>)>::empty());
            }
            out
        },
    }
}

/// An optional string field: absent and null read as `None`, a string as
/// `Some`, any other shape is a decode failure (the outer `None`).
pub open spec fn spec_opt_str_field(es: Seq<(String, JsonValue)>, key: Seq<char>) -> Option<
    Option<Seq<char>>,
> {
    match spec_field(es, key) {
        None => Some(None),
        Some(JsonValue::Null) => Some(None),
        Some(JsonValue::Str(s)) => Some(Some(s@)),
        Some(_) => None,
    }
}

fn decode_opt_str_field(es: &Vec<(String, JsonValue)>, key: &str) -> (r: Result<
    Option<String>,
    Error,
>)
    ensures
        match spec_opt_str_field(es@, key@) {
            Some(o) => r is Ok && opt_view(r.unwrap()) == o,
            None => r == Err::<Option<String>, Error>(Error::MetadataParse),
        },
{
    match get_field(es, key) {
        None => Ok(None),
        Some(JsonValue::Null) => Ok(None),
        Some(JsonValue::Str(s)) => Ok(Some(s.clone())),
        Some(_) => Err(Error::MetadataParse),
    }
}

/// A `dist` object: `url` and `type` are required strings, `reference` and
/// `shasum` optional strings.
pub open spec fn spec_decode_dist(v: JsonValue) -> Option<DistView> {
    match v {
        JsonValue::Object(es) => match (spec_field(es@, "url"@), spec_field(es@, "type"@)) {
            (Some(JsonValue::Str(u)), Some(JsonValue::Str(t))) => {
                match (spec_opt_str_field(es@, "reference"@), spec_opt_str_field(
                    es@,
                    "shasum"@,
                )) {
                    (Some(rf), Some(sh)) => Some(
                        DistView { url: u@, dist_type: t@, reference: rf, shasum: sh },
                    ),
                    _ => None,
                }
            },
            _ => None,
        },
        _ => None,
    }
}

fn decode_dist(v: &JsonValue) -> (r: Result<DistInfo, Error>)
    ensures
        match spec_decode_dist(*v) {
            Some(d) => r is Ok && dist_view(r.unwrap()) == d,
            None => r == Err::<DistInfo, Error>(Error::MetadataParse),
        },
{
    match v {
        JsonValue::Object(es) => {
            let url = match get_field(es, "url") {
                Some(JsonValue::Str(u)) => u.clone(),
                _ => {
                    return Err(Error::MetadataParse);
                },
            };
            let dist_type = match get_field(es, "type") {
                Some(JsonValue::Str(t)) => t.clone(),
                _ => {
                    return Err(Error::MetadataParse);
                },
            };
            let reference = match decode_opt_str_field(es, "reference") {
                Ok(x) => x,
                Err(e) => {
                    return Err(e);
                },
            };
            let shasum = match decode_opt_str_field(es, "shasum") {
                Ok(x) => x,
                Err(e) => {
                    return Err(e);
                },
            };
            Ok(DistInfo { url, dist_type, reference, shasum })
        },
        _ => Err(Error::MetadataParse),
    }
}

/// One version object: `version` is a required string; `version_normalized`
/// defaults to empty when absent; `name` and `dist` are optional; `require`
/// is read tolerantly and never fails.
pub open spec fn spec_decode_pv(v: JsonValue) -> Option<PvView> {
    match v {
        JsonValue::Object(es) => match (spec_opt_str_field(es@, "name"@), spec_field(
            es@,
            "version"@,
        )) {
            (Some(nm), Some(JsonValue::Str(ver))) => {
                let vnv = match spec_field(es@, "version_normalized"@) {
                    None => Some(Seq::<char>::empty()),
                    Some(JsonValue::Str(x)) => Some(x@),
                    Some(_) => None,
                };
                let dv = match spec_field(es@, "dist"@) {
                    None => Some(None),
                    Some(JsonValue::Null) => Some(None),
                    Some(d) => match spec_decode_dist(d) {
                        Some(x) => Some(Some(x)),
                        None => None,
                    },
                };
                let rq = spec_require_of(
                    match spec_field(es@, "require"@) {
                        Some(rv) => rv,
                        None => JsonValue::Null,
                    },
                );
                match (vnv, dv) {
                    (Some(vnx), Some(dx)) => Some(
                        PvView {
                            name: nm,
                            version: ver@,
                            version_normalized: vnx,
                            require: rq,
                            dist: dx,
                        },
                    ),
                    _ => None,
                }
            },
            _ => None,
        },
        _ => None,
    }
}

pub fn decode_package_version(v: &JsonValue) -> (r: Result<PackageVersion, Error>)
    ensures
        match spec_decode_pv(*v) {
            Some(pv) => r is Ok && pv_view(r.unwrap()) == pv,
            None => r == Err::<PackageVersion, Error>(Error::MetadataParse),
        },
{
    match v {
        JsonValue::Object(es) => {
            let name = match decode_opt_str_field(es, "name") {
                Ok(x) => x,
                Err(e) => {
                    return Err(e);
                },
            };
            let version = match get_field(es, "version") {
                Some(JsonValue::Str(s)) => s.clone(),
                _ => {
                    return Err(Error::MetadataParse);
                },
            };
            let version_normalized = match get_field(es, "version_normalized") {
                None => String::new(),
                Some(JsonValue::Str(s)) => s.clone(),
                Some(_) => {
                    return Err(Error::MetadataParse);
                },
            };
            let dist = match get_field(es, "dist") {
                None => None,
                Some(JsonValue::Null) => None,
                Some(d) => match decode_dist(d) {
                    Ok(x) => Some(x),
                    Err(e) => {
                        return Err(e);
                    },
                },
            };
            let require = match get_field(es, "require") {
                Some(rv) => decode_require(rv),
                None => Vec::new(),
            };
            proof {
                if spec_field(es@, "require"@) is None {
                    assert(req_view(require@) =~= Seq::<(Seq<char>, Seq<char>)>::empty());
                }
            }
            Ok(PackageVersion { name, version, version_normalized, require, dist })
        },
        _ => Err(Error::MetadataParse),
    }
}

/// A version list: each element a version object; any failure fails the list.
pub open spec fn spec_decode_pv_list(vs: Seq<JsonValue>) -> Option<Seq<PvView>>
    decreases vs.len(),
{
    if vs.len() == 0 {
        Some(Seq::empty())
    } else {
        match (spec_decode_pv_list(vs.drop_last()), spec_decode_pv(vs.last())) {
            (Some(rest), Some(pv)) => Some(rest + seq![pv]),
            _ => None,
        }
    }
}

pub fn decode_pv_list(vs: &Vec<JsonValue>) -> (r: Result<Vec<PackageVersion>, Error>)
    ensures
        match spec_decode_pv_list(vs@) {
            Some(l) => r is Ok && pvs_view(r.unwrap()@) == l,
            None => r == Err::<Vec<PackageVersion>, Error>(Error::MetadataParse),
        },
{
    let mut out: Vec<PackageVersion> = Vec::new();
    let n = vs.len();
    let mut i: usize = 0;
    proof {
        assert(pvs_view(out@) =~= Seq::<PvView>::empty());
        assert(vs@.take(0int) =~= Seq::<JsonValue>::empty());
    }
    while i < n
        invariant
            0 <= i <= n,
            n == vs@.len(),
            spec_decode_pv_list(vs@.take(i as int)) == Some(pvs_view(out@)),
        decreases n - i,
    {
        proof {
            assert(vs@.take(i + 1).drop_last() =~= vs@.take(i as int));
            assert(vs@.take(i + 1).last() == vs@[i as int]);
        }
        match decode_package_version(&vs[i]) {
            Ok(pv) => {
                out.push(pv);
                proof {
                    assert(pvs_view(out@) =~= pvs_view(out@.drop_last()) + seq![
                        pv_view(out@.last()),
                    ]);
                }
            },
            Err(e) => {
                proof {
                    if spec_decode_pv_list(vs@) is Some {
                        lemma_pv_list_prefix(vs@, i + 1);
                    }
                }
                return Err(e);
            },
        }
        i += 1;
    }
    proof {
        assert(vs@.take(n as int) =~= vs@);
    }
    Ok(out)
}

/// When the whole list decodes, so does each of its prefixes.
proof fn lemma_pv_list_prefix(vs: Seq<JsonValue>, k: int)
    requires
        0 <= k <= vs.len(),
        spec_decode_pv_list(vs) is Some,
    ensures
        spec_decode_pv_list(vs.take(k)) is Some,
    decreases vs.len() - k,
{
    if k < vs.len() {
        lemma_pv_list_prefix(vs, k + 1);
        assert(vs.take(k + 1).drop_last() =~= vs.take(k));
    } else {
        assert(vs.take(k) =~= vs);
    }
}

/// The `packages` map: each value a version list; any failure fails the map.
pub open spec fn spec_decode_packages(es: Seq<(String, JsonValue)>) -> Option<
    Seq<(Seq<char>, Seq<PvView>)>,
>
    decreases es.len(),
{
    if es.len() == 0 {
        Some(Seq::empty())
    } else {
        match es.last().1 {
            JsonValue::Array(vs) => match (spec_decode_packages(es.drop_last()),
            spec_decode_pv_list(vs@)) {
                (Some(rest), Some(l)) => Some(rest + seq![(es.last().0@, l)]),
                _ => None,
            },
            _ => None,
        }
    }
}

proof fn lemma_packages_prefix(es: Seq<(String, JsonValue)>, k: int)
    requires
        0 <= k <= es.len(),
        spec_decode_packages(es) is Some,
    ensures
        spec_decode_packages(es.take(k)) is Some,
    decreases es.len() - k,
{
    if k < es.len() {
        lemma_packages_prefix(es, k + 1);
        assert(es.take(k + 1).drop_last() =~= es.take(k));
    } else {
        assert(es.take(k) =~= es);
    }
}

/// A full registry document: an object whose `packages` field is an object of
/// version lists.
pub open spec fn spec_decode_response(j: JsonValue) -> Option<Seq<(Seq<char>, Seq<PvView>)>> {
    match j {
        JsonValue::Object(es) => match spec_field(es@, "packages"@) {
            Some(JsonValue::Object(pes)) => spec_decode_packages(pes@),
            _ => None,
        },
        _ => None,
    }
}

pub fn decode_response(j: &JsonValue) -> (r: Result<PackagistResponse, Error>)
    ensures
        match spec_decode_response(*j) {
            Some(m) => r is Ok && resp_view(r.unwrap()) == m,
            None => r == Err::<PackagistResponse, Error>(Error::MetadataParse),
        },
{
    match j {
        JsonValue::Object(es) => {
            match get_field(es, "packages") {
                Some(JsonValue::Object(pes)) => {
                    let mut out: Vec<(String, Vec<PackageVersion>)> = Vec::new();
                    let n = pes.len();
                    let mut i: usize = 0;
                    proof {
                        assert(pes@.take(0int) =~= Seq::<(String, JsonValue)>::empty());
                        assert(entries_view(out@) =~= Seq::<(Seq<char>, Seq<PvView>)>::empty());
                    }
                    while i < n
                        invariant
                            0 <= i <= n,
                            n == pes@.len(),
                            spec_decode_packages(pes@.take(i as int)) == Some(
                                entries_view(out@),
                            ),
                        decreases n - i,
                    {
                        proof {
                            assert(pes@.take(i + 1).drop_last() =~= pes@.take(i as int));
                            assert(pes@.take(i + 1).last() == pes@[i as int]);
                        }
                        match &pes[i].1 {
                            JsonValue::Array(vs) => {
                                match decode_pv_list(vs) {
                                    Ok(l) => {
                                        let k = pes[i].0.clone();
                                        out.push((k, l));
                                        proof {
                                            assert(entries_view(out@) =~= entries_view(
                                                out@.drop_last(),
                                            ) + seq![entry_view(out@.last())]);
                                        }
                                    },
                                    Err(e) => {
                                        proof {
                                            if spec_decode_packages(pes@) is Some {
                                                lemma_packages_prefix(pes@, i + 1);
                                            }
                                        }
                                        return Err(e);
                                    },
                                }
                            },
                            _ => {
                                proof {
                                    if spec_decode_packages(pes@) is Some {
                                        lemma_packages_prefix(pes@, i + 1);
                                    }
                                }
                                return Err(Error::MetadataParse);
                            },
                        }
                        i += 1;
                    }
                    proof {
                        assert(pes@.take(n as int) =~= pes@);
                    }
                    let resp = PackagistResponse { packages: out };
                    proof {
                        assert(resp_view(resp) == entries_view(resp.packages@));
                    }
                    Ok(resp)
                },
                _ => Err(Error::MetadataParse),
            }
        },
        _ => Err(Error::MetadataParse),
    }
}

/// First entry of the decoded map under the given name.
pub open spec fn spec_lookup(m: Seq<(Seq<char>, Seq<PvView>)>, name: Seq<char>) -> Option<
    Seq<PvView>,
>
    decreases m.len(),
{
    if m.len() == 0 {
        None
    } else if m[0].0 == name {
        Some(m[0].1)
    } else {
        spec_lookup(m.drop_first(), name)
    }
}

/// Moves the version list recorded under `name` out of a decoded response.
pub fn lookup_package(resp: PackagistResponse, name: &str) -> (r: Option<Vec<PackageVersion>>)
    ensures
        match spec_lookup(resp_view(resp), name@) {
            Some(l) => r is Some && pvs_view(r.unwrap()@) == l,
            None => r is None,
        },
{
    let mut packages = resp.packages;
    let ghost orig = entries_view(packages@);
    proof {
        assert(resp_view(resp) == orig);
    }
    while packages.len() > 0
        invariant
            spec_lookup(orig, name@) == spec_lookup(entries_view(packages@), name@),
        decreases packages@.len(),
    {
        let ghost prev = packages@;
        let (k, vs) = packages.remove(0);
        proof {
            assert(prev[0] == (k, vs));
            assert(entries_view(prev)[0] == entry_view(prev[0]));
            assert(entries_view(prev).drop_first() =~= entries_view(packages@));
            assert(entries_view(prev).len() > 0);
        }
        if crate::bytes::str_eq(k.as_str(), name) {
            proof {
                assert(spec_lookup(entries_view(prev), name@) == Some(pvs_view(vs@)));
            }
            return Some(vs);
        }
        proof {
            assert(spec_lookup(entries_view(prev), name@) == spec_lookup(
                entries_view(packages@),
                name@,
            ));
        }
    }
    proof {
        assert(entries_view(packages@).len() == 0);
    }
    None
}

/// One back-filled entry: an absent name becomes the requested one.
pub open spec fn spec_backfill_one(name: Seq<char>, p: PvView) -> PvView {
    match p.name {
        Some(_) => p,
        None => PvView {
            name: Some(name),
            version: p.version,
            version_normalized: p.version_normalized,
            require: p.require,
            dist: p.dist,
        },
    }
}

pub open spec fn spec_backfill(name: Seq<char>, l: Seq<PvView>) -> Seq<PvView> {
    l.map_values(|p: PvView| spec_backfill_one(name, p))
}

/// Back-fills absent names with the requested package name.
pub fn backfill_names(name: &str, ps: Vec<PackageVersion>) -> (r: Vec<PackageVersion>)
    ensures
        pvs_view(r@) == spec_backfill(name@, pvs_view(ps@)),
{
    let ghost orig = pvs_view(ps@);
    let mut rest = ps;
    let mut out: Vec<PackageVersion> = Vec::new();
    proof {
        assert(pvs_view(out@) =~= spec_backfill(name@, orig).take(0int));
        assert(pvs_view(rest@) =~= orig.skip(0int));
    }
    while rest.len() > 0
        invariant
            out@.len() + rest@.len() == orig.len(),
            pvs_view(out@) == spec_backfill(name@, orig).take(out@.len() as int),
            pvs_view(rest@) == orig.skip(out@.len() as int),
        decreases rest@.len(),
    {
        let ghost k = out@.len() as int;
        let mut p = rest.remove(0);
        proof {
            let pre = seq![p] + rest@;
            assert(pvs_view(pre)[0] == pv_view(p));
            assert(pvs_view(pre).drop_first() =~= pvs_view(rest@));
            assert(pvs_view(pre) == orig.skip(k));
            assert(pv_view(p) == orig[k]);
            assert(pvs_view(rest@) =~= orig.skip(k + 1));
        }
        if p.name.is_none() {
            p.name = Some(name.to_owned());
        }
        proof {
            assert(pv_view(p) == spec_backfill_one(name@, orig[k]));
        }
        out.push(p);
        proof {
            assert(pvs_view(out@) =~= pvs_view(out@.drop_last()) + seq![pv_view(out@.last())]);
            assert(spec_backfill(name@, orig).take(k + 1) =~= spec_backfill(name@, orig).take(k)
                + seq![spec_backfill(name@, orig)[k]]);
            assert(pvs_view(out@) =~= spec_backfill(name@, orig).take(k + 1));
        }
    }
    proof {
        assert(spec_backfill(name@, orig).take(out@.len() as int) =~= spec_backfill(name@, orig));
    }
    out
}

/// The cache path of a metadata fetch: a cached document serves the package
/// when it decodes and holds an entry for it; entries come back as cached,
/// without the name back-fill.
pub fn metadata_from_cache(name: &str, j: &JsonValue) -> (r: Option<Vec<PackageVersion>>)
    ensures
        match spec_decode_response(*j) {
            Some(m) => match spec_lookup(m, name@) {
                Some(l) => r is Some && pvs_view(r.unwrap()@) == l,
                None => r is None,
            },
            None => r is None,
        },
{
    match decode_response(j) {
        Ok(resp) => lookup_package(resp, name),
        Err(_) => None,
    }
}

/// The network path of a metadata fetch: the document must decode, the
/// package must be present, and absent names are back-filled.
pub fn metadata_from_response(name: &str, j: &JsonValue) -> (r: Result<Vec<PackageVersion>, Error>)
    ensures
        match spec_decode_response(*j) {
            None => r == Err::<Vec<PackageVersion>, Error>(Error::MetadataParse),
            Some(m) => match spec_lookup(m, name@) {
                None => r == Err::<Vec<PackageVersion>, Error>(Error::PackageNotFound),
                Some(l) => r is Ok && pvs_view(r.unwrap()@) == spec_backfill(name@, l),
            },
        },
{
    match decode_response(j) {
        Ok(resp) => match lookup_package(resp, name) {
            Some(l) => Ok(backfill_names(name, l)),
            None => Err(Error::PackageNotFound),
        },
        Err(e) => Err(e),
    }
}

/// Cache round trip: on one and the same decoded document, the cache path and
/// the network path return the same versions, up to the back-filled name.
pub proof fn lemma_cache_round_trip(j: JsonValue, name: Seq<char>)
    requires
        spec_decode_response(j) is Some,
        spec_lookup(spec_decode_response(j).unwrap(), name) is Some,
    ensures
        ({
            let l = spec_lookup(spec_decode_response(j).unwrap(), name).unwrap();
            let n = spec_backfill(name, l);
            &&& n.len() == l.len()
            &&& forall|i: int|
                0 <= i < l.len() ==> (#[trigger] n[i]).version == l[i].version && n[i].version_normalized
                    == l[i].version_normalized && n[i].require == l[i].require && n[i].dist
                    == l[i].dist && (l[i].name is Some ==> n[i].name == l[i].name) && (
                l[i].name is None ==> n[i].name == Some(name))
        }),
{
}


/// The value under the first occurrence of a key whose earlier keys differ.
pub proof fn lemma_field_at(es: Seq<(String, JsonValue)>, k: int)
    requires
        0 <= k < es.len(),
        forall|j: int| 0 <= j < k ==> (#[trigger] es[j]).0@ != es[k].0@,
    ensures
        spec_field(es, es[k].0@) == Some(es[k].1),
    decreases k,
{
    if k > 0 {
        assert(es.drop_first() =~= es.skip(1));
        lemma_field_at(es.skip(1), k - 1);
    }
}

/// A key under which no entry stands resolves to nothing.
pub proof fn lemma_field_absent(es: Seq<(String, JsonValue)>, key: Seq<char>)
    requires
        forall|j: int| 0 <= j < es.len() ==> (#[trigger] es[j]).0@ != key,
    ensures
        spec_field(es, key) is None,
    decreases es.len(),
{
    if es.len() > 0 {
        assert(es.drop_first() =~= es.skip(1));
        lemma_field_absent(es.skip(1), key);
    }
}

/// Encodes a requirement map as a JSON object; the tolerant decoder reads it
/// back unchanged.
pub fn encode_require(req: &Vec<(String, String)>) -> (r: JsonValue)
    ensures
        r is Object,
        spec_require_of(r) == req_view(req@),
        spec_strict_entries_of(r) == Some(req_view(req@)),
{
    let mut out: Vec<(String, JsonValue)> = Vec::new();
    let n = req.len();
    let mut i: usize = 0;
    proof {
        assert(spec_string_entries(out@) =~= req_view(req@.take(0int)));
        assert(spec_strict_entries(out@) == Some(spec_string_entries(out@)));
    }
    while i < n
        invariant
            0 <= i <= n,
            n == req@.len(),
            spec_string_entries(out@) == req_view(req@.take(i as int)),
            spec_strict_entries(out@) == Some(req_view(req@.take(i as int))),
        decreases n - i,
    {
        let k = req[i].0.clone();
        let v = req[i].1.clone();
        let ghost prev = out@;
        out.push((k, JsonValue::Str(v)));
        proof {
            assert(out@.drop_last() =~= prev);
            assert(spec_string_entries(out@) == spec_string_entries(prev) + seq![
                (out@.last().0@, req@[i as int].1@),
            ]);
            assert(req_view(req@.take(i + 1)) =~= req_view(req@.take(i as int)) + seq![
                (req@[i as int].0@, req@[i as int].1@),
            ]);
        }
        i += 1;
    }
    proof {
        assert(req@.take(n as int) =~= req@);
    }
    JsonValue::Object(out)
}

/// Encodes a dist record as its JSON object; it decodes back unchanged.
pub fn encode_dist(d: &DistInfo) -> (r: JsonValue)
    ensures
        spec_decode_dist(r) == Some(dist_view(*d)),
{
    let mut es: Vec<(String, JsonValue)> = Vec::new();
    es.push(("url".to_owned(), JsonValue::Str(d.url.clone())));
    es.push(("type".to_owned(), JsonValue::Str(d.dist_type.clone())));
    es.push((
        "reference".to_owned(),
        match &d.reference {
            Some(s) => JsonValue::Str(s.clone()),
            None => JsonValue::Null,
        },
    ));
    es.push((
        "shasum".to_owned(),
        match &d.shasum {
            Some(s) => JsonValue::Str(s.clone()),
            None => JsonValue::Null,
        },
    ));
    proof {
        reveal_strlit("url");
        reveal_strlit("type");
        reveal_strlit("reference");
        reveal_strlit("shasum");
        assert(es@[0].0@ == "url"@);
        assert(es@[1].0@ == "type"@);
        assert(es@[2].0@ == "reference"@);
        assert(es@[3].0@ == "shasum"@);
        assert("url"@.len() == 3 && "type"@.len() == 4 && "reference"@.len() == 9 && "shasum"@.len()
            == 6);
        lemma_field_at(es@, 0);
        lemma_field_at(es@, 1);
        lemma_field_at(es@, 2);
        lemma_field_at(es@, 3);
    }
    JsonValue::Object(es)
}

/// Encodes a release as its JSON object; it decodes back unchanged. An
/// absent name or dist is written as an explicit null.
pub fn encode_package_version(p: &PackageVersion) -> (r: JsonValue)
    ensures
        spec_decode_pv(r) == Some(pv_view(*p)),
{
    let mut es: Vec<(String, JsonValue)> = Vec::new();
    es.push((
        "name".to_owned(),
        match &p.name {
            Some(s) => JsonValue::Str(s.clone()),
            None => JsonValue::Null,
        },
    ));
    es.push(("version".to_owned(), JsonValue::Str(p.version.clone())));
    es.push(("version_normalized".to_owned(), JsonValue::Str(p.version_normalized.clone())));
    es.push(("require".to_owned(), encode_require(&p.require)));
    es.push((
        "dist".to_owned(),
        match &p.dist {
            Some(d) => encode_dist(d),
            None => JsonValue::Null,
        },
    ));
    proof {
        reveal_strlit("name");
        reveal_strlit("version");
        reveal_strlit("version_normalized");
        reveal_strlit("require");
        reveal_strlit("dist");
        assert(es@[0].0@ == "name"@);
        assert(es@[1].0@ == "version"@);
        assert(es@[2].0@ == "version_normalized"@);
        assert(es@[3].0@ == "require"@);
        assert(es@[4].0@ == "dist"@);
        assert("name"@.len() == 4 && "version"@.len() == 7 && "version_normalized"@.len() == 18
            && "require"@.len() == 7 && "dist"@.len() == 4);
        assert("version"@[0] == 'v' && "require"@[0] == 'r');
        assert("name"@[0] == 'n' && "dist"@[0] == 'd');
        lemma_field_at(es@, 0);
        lemma_field_at(es@, 1);
        lemma_field_at(es@, 2);
        lemma_field_at(es@, 3);
        lemma_field_at(es@, 4);
    }
    JsonValue::Object(es)
}

/// Encodes a release list; it decodes back unchanged.
pub fn encode_pv_list(ps: &Vec<PackageVersion>) -> (r: Vec<JsonValue>)
    ensures
        spec_decode_pv_list(r@) == Some(pvs_view(ps@)),
{
    let mut out: Vec<JsonValue> = Vec::new();
    let n = ps.len();
    let mut i: usize = 0;
    proof {
        assert(out@.take(0int) =~= Seq::<JsonValue>::empty());
        assert(pvs_view(ps@.take(0int)) =~= Seq::<PvView>::empty());
        assert(spec_decode_pv_list(out@) == Some(pvs_view(ps@.take(0int))));
    }
    while i < n
        invariant
            0 <= i <= n,
            n == ps@.len(),
            spec_decode_pv_list(out@) == Some(pvs_view(ps@.take(i as int))),
        decreases n - i,
    {
        let ghost prev = out@;
        let v = encode_package_version(&ps[i]);
        out.push(v);
        proof {
            assert(out@.drop_last() =~= prev);
            assert(pvs_view(ps@.take(i + 1)) =~= pvs_view(ps@.take(i as int)) + seq![
                pv_view(ps@[i as int]),
            ]);
        }
        i += 1;
    }
    proof {
        assert(ps@.take(n as int) =~= ps@);
    }
    out
}

} // verus!
