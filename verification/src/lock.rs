//! The lockfile: the resolved package set as it is persisted and read back.
use crate::json::{get_field, spec_field, JsonValue};
use crate::registry::{
    decode_pv_list, encode_pv_list, lemma_field_at, pvs_view, spec_decode_pv_list, PackageVersion,
    PvView,
};
use crate::Error;
use vstd::prelude::*;
use vstd::string::StringExecFns;

verus! {

/// A lockfile: a readme banner, a reserved content hash, and the resolved
/// packages (the development list is carried but unused).
pub struct LockFile {
    pub _readme: Vec<String>,
    pub content_hash: String,
    pub packages: Vec<PackageVersion>,
    pub packages_dev: Vec<PackageVersion>,
}

/// The mathematical image of a lockfile.
pub struct LockView {
    pub readme: Seq<Seq<char>>,
    pub content_hash: Seq<char>,
    pub packages: Seq<PvView>,
    pub packages_dev: Seq<PvView>,
}

pub open spec fn strs_view(ss: Seq<String>) -> Seq<Seq<char>> {
    ss.map_values(|s: String| s@)
}

pub open spec fn lock_view(l: LockFile) -> LockView {
    LockView {
        readme: strs_view(l._readme@),
        content_hash: l.content_hash@,
        packages: pvs_view(l.packages@),
        packages_dev: pvs_view(l.packages_dev@),
    }
}

impl LockFile {
    /// A fresh lockfile around a resolved package set: one banner line, the
    /// reserved hash value, no development packages.
    pub fn new(packages: Vec<PackageVersion>) -> (r: LockFile)
        ensures
            r.packages == packages,
            r.packages_dev@.len() == 0,
            r._readme@.len() == 1,
            r._readme@[0]@ == "This file locks the dependencies of your project to a known state"@,
            r.content_hash@ == "TODO-hash-of-composer-json"@,
    {
        let mut readme: Vec<String> = Vec::new();
        readme.push("This file locks the dependencies of your project to a known state".to_owned());
        LockFile {
            _readme: readme,
            content_hash: "TODO-hash-of-composer-json".to_owned(),
            packages,
            packages_dev: Vec::new(),
        }
    }
}

/// A list of strings, strictly.
pub open spec fn spec_decode_str_list(vs: Seq<JsonValue>) -> Option<Seq<Seq<char>>>
    decreases vs.len(),
{
    if vs.len() == 0 {
        Some(Seq::empty())
    } else {
        match (spec_decode_str_list(vs.drop_last()), vs.last()) {
            (Some(rest), JsonValue::Str(s)) => Some(rest + seq![s@]),
            _ => None,
        }
    }
}

fn decode_str_list(vs: &Vec<JsonValue>) -> (r: Result<Vec<String>, Error>)
    ensures
        match spec_decode_str_list(vs@) {
            Some(l) => r is Ok && strs_view(r.unwrap()@) == l,
            None => r == Err::<Vec<String>, Error>(Error::LockfileParse),
        },
{
    let mut out: Vec<String> = Vec::new();
    let n = vs.len();
    let mut i: usize = 0;
    proof {
        assert(vs@.take(0int) =~= Seq::<JsonValue>::empty());
        assert(strs_view(out@) =~= Seq::<Seq<char>>::empty());
    }
    while i < n
        invariant
            0 <= i <= n,
            n == vs@.len(),
            spec_decode_str_list(vs@.take(i as int)) == Some(strs_view(out@)),
        decreases n - i,
    {
        proof {
            assert(vs@.take(i + 1).drop_last() =~= vs@.take(i as int));
            assert(vs@.take(i + 1).last() == vs@[i as int]);
        }
        match &vs[i] {
            JsonValue::Str(s) => {
                let ghost prev = out@;
                out.push(s.clone());
                proof {
                    assert(out@.drop_last() =~= prev);
                    assert(strs_view(out@) =~= strs_view(prev) + seq![out@.last()@]);
                }
            },
            _ => {
                proof {
                    if spec_decode_str_list(vs@) is Some {
                        lemma_str_list_prefix(vs@, i + 1);
                    }
                }
                return Err(Error::LockfileParse);
            },
        }
        i += 1;
    }
    proof {
        assert(vs@.take(n as int) =~= vs@);
    }
    Ok(out)
}

proof fn lemma_str_list_prefix(vs: Seq<JsonValue>, k: int)
    requires
        0 <= k <= vs.len(),
        spec_decode_str_list(vs) is Some,
    ensures
        spec_decode_str_list(vs.take(k)) is Some,
    decreases vs.len() - k,
{
    if k < vs.len() {
        lemma_str_list_prefix(vs, k + 1);
        assert(vs.take(k + 1).drop_last() =~= vs.take(k));
    } else {
        assert(vs.take(k) =~= vs);
    }
}

/// A lockfile document: `_readme` a string list, `content-hash` a string,
/// `packages` a release list, `packages-dev` optional and empty by default.
pub open spec fn spec_decode_lock(j: JsonValue) -> Option<LockView> {
    match j {
        JsonValue::Object(es) => match (
            spec_field(es@, "_readme"@),
            spec_field(es@, "content-hash"@),
            spec_field(es@, "packages"@),
        ) {
            (
                Some(JsonValue::Array(rm)),
                Some(JsonValue::Str(ch)),
                Some(JsonValue::Array(ps)),
            ) => {
                let dev = match spec_field(es@, "packages-dev"@) {
                    None => Some(Seq::<PvView>::empty()),
                    Some(JsonValue::Array(ds)) => spec_decode_pv_list(ds@),
                    Some(_) => None,
                };
                match (spec_decode_str_list(rm@), spec_decode_pv_list(ps@), dev) {
                    (Some(rms), Some(pss), Some(d)) => Some(
                        LockView {
                            readme: rms,
                            content_hash: ch@,
                            packages: pss,
                            packages_dev: d,
                        },
                    ),
                    _ => None,
                }
            },
            _ => None,
        },
        _ => None,
    }
}

/// Reads a lockfile document; any shape violation is a lockfile parse error.
pub fn decode_lockfile(j: &JsonValue) -> (r: Result<LockFile, Error>)
    ensures
        match spec_decode_lock(*j) {
            Some(lv) => r is Ok && lock_view(r.unwrap()) == lv,
            None => r == Err::<LockFile, Error>(Error::LockfileParse),
        },
{
    match j {
        JsonValue::Object(es) => {
            let readme = match get_field(es, "_readme") {
                Some(JsonValue::Array(rm)) => match decode_str_list(rm) {
                    Ok(x) => x,
                    Err(e) => {
                        return Err(e);
                    },
                },
                _ => {
                    return Err(Error::LockfileParse);
                },
            };
            let content_hash = match get_field(es, "content-hash") {
                Some(JsonValue::Str(s)) => s.clone(),
                _ => {
                    return Err(Error::LockfileParse);
                },
            };
            let packages = match get_field(es, "packages") {
                Some(JsonValue::Array(ps)) => match decode_pv_list(ps) {
                    Ok(x) => x,
                    Err(_) => {
                        return Err(Error::LockfileParse);
                    },
                },
                _ => {
                    return Err(Error::LockfileParse);
                },
            };
            let packages_dev = match get_field(es, "packages-dev") {
                None => Vec::new(),
                Some(JsonValue::Array(ds)) => match decode_pv_list(ds) {
                    Ok(x) => x,
                    Err(_) => {
                        return Err(Error::LockfileParse);
                    },
                },
                Some(_) => {
                    return Err(Error::LockfileParse);
                },
            };
            proof {
                if spec_field(es@, "packages-dev"@) is None {
                    assert(pvs_view(Seq::<PackageVersion>::empty()) =~= Seq::<PvView>::empty());
                }
            }
            Ok(LockFile { _readme: readme, content_hash, packages, packages_dev })
        },
        _ => Err(Error::LockfileParse),
    }
}

/// Writes a lockfile as its JSON document, fields in their canonical order;
/// the document reads back as the same lockfile.
pub fn encode_lockfile(l: &LockFile) -> (r: JsonValue)
    ensures
        spec_decode_lock(r) == Some(lock_view(*l)),
{
    let mut readme: Vec<JsonValue> = Vec::new();
    let n = l._readme.len();
    let mut i: usize = 0;
    proof {
        assert(l._readme@.take(0int) =~= Seq::<String>::empty());
        assert(readme@.take(0int) =~= Seq::<JsonValue>::empty());
        assert(spec_decode_str_list(readme@) == Some(strs_view(l._readme@.take(0int))));
    }
    while i < n
        invariant
            0 <= i <= n,
            n == l._readme@.len(),
            spec_decode_str_list(readme@) == Some(strs_view(l._readme@.take(i as int))),
        decreases n - i,
    {
        let ghost prev = readme@;
        readme.push(JsonValue::Str(l._readme[i].clone()));
        proof {
            assert(readme@.drop_last() =~= prev);
            assert(strs_view(l._readme@.take(i + 1)) =~= strs_view(l._readme@.take(i as int))
                + seq![l._readme@[i as int]@]);
        }
        i += 1;
    }
    proof {
        assert(l._readme@.take(n as int) =~= l._readme@);
    }
    let packages = encode_pv_list(&l.packages);
    let packages_dev = encode_pv_list(&l.packages_dev);
    let mut es: Vec<(String, JsonValue)> = Vec::new();
    es.push(("_readme".to_owned(), JsonValue::Array(readme)));
    es.push(("content-hash".to_owned(), JsonValue::Str(l.content_hash.clone())));
    es.push(("packages".to_owned(), JsonValue::Array(packages)));
    es.push(("packages-dev".to_owned(), JsonValue::Array(packages_dev)));
    proof {
        reveal_strlit("_readme");
        reveal_strlit("content-hash");
        reveal_strlit("packages");
        reveal_strlit("packages-dev");
        assert(es@[0].0@ == "_readme"@);
        assert(es@[1].0@ == "content-hash"@);
        assert(es@[2].0@ == "packages"@);
        assert(es@[3].0@ == "packages-dev"@);
        assert("_readme"@.len() == 7 && "content-hash"@.len() == 12 && "packages"@.len() == 8
            && "packages-dev"@.len() == 12);
        assert("content-hash"@[0] == 'c' && "packages-dev"@[0] == 'p');
        lemma_field_at(es@, 0);
        lemma_field_at(es@, 1);
        lemma_field_at(es@, 2);
        lemma_field_at(es@, 3);
    }
    JsonValue::Object(es)
}

} // verus!
