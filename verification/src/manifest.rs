//! The project manifest: direct requirements, autoload hints, and every
//! unrecognized top-level field carried through unchanged.
use crate::json::{get_field, lemma_field_push, spec_field, JsonValue};
use crate::registry::{
    encode_require, lemma_field_at, opt_view, req_view, spec_opt_str_field, spec_strict_entries,
    spec_strict_entries_of,
};
use crate::Error;
use vstd::prelude::*;
use vstd::string::StringExecFns;

verus! {

/// Autoload hints; the core carries them, the emitter consumes them.
pub struct AutoloadConfig {
    pub psr4: Vec<(String, String)>,
}

/// A project manifest.
pub struct ComposerManifest {
    pub name: Option<String>,
    pub description: Option<String>,
    pub license: Option<String>,
    pub require: Vec<(String, String)>,
    pub require_dev: Vec<(String, String)>,
    pub autoload: AutoloadConfig,
    pub extra: Vec<(String, JsonValue)>,
}

/// The mathematical image of a manifest; unrecognized fields are carried as
/// the values themselves.
pub struct ManifestView {
    pub name: Option<Seq<char>>,
    pub description: Option<Seq<char>>,
    pub license: Option<Seq<char>>,
    pub require: Seq<(Seq<char>, Seq<char>)>,
    pub require_dev: Seq<(Seq<char>, Seq<char>)>,
    pub psr4: Seq<(Seq<char>, Seq<char>)>,
    pub extra: Seq<(Seq<char>, JsonValue)>,
}

pub open spec fn extra_view(es: Seq<(String, JsonValue)>) -> Seq<(Seq<char>, JsonValue)> {
    es.map_values(|e: (String, JsonValue)| (e.0@, e.1))
}

pub open spec fn manifest_view(m: ComposerManifest) -> ManifestView {
    ManifestView {
        name: opt_view(m.name),
        description: opt_view(m.description),
        license: opt_view(m.license),
        require: req_view(m.require@),
        require_dev: req_view(m.require_dev@),
        psr4: req_view(m.autoload.psr4@),
        extra: extra_view(m.extra@),
    }
}

/// The manifest's own top-level keys; everything else is an extra field.
pub open spec fn spec_known_key(k: Seq<char>) -> bool {
    ||| k == "name"@
    ||| k == "description"@
    ||| k == "license"@
    ||| k == "require"@
    ||| k == "require-dev"@
    ||| k == "autoload"@
}

fn is_known_key(k: &str) -> (r: bool)
    ensures
        r == spec_known_key(k@),
{
    if crate::bytes::str_eq(k, "name") {
        return true;
    }
    if crate::bytes::str_eq(k, "description") {
        return true;
    }
    if crate::bytes::str_eq(k, "license") {
        return true;
    }
    if crate::bytes::str_eq(k, "require") {
        return true;
    }
    if crate::bytes::str_eq(k, "require-dev") {
        return true;
    }
    if crate::bytes::str_eq(k, "autoload") {
        return true;
    }
    false
}

/// The unrecognized entries, in order, values carried as they stand.
pub open spec fn spec_extra_of(es: Seq<(String, JsonValue)>) -> Seq<(Seq<char>, JsonValue)>
    decreases es.len(),
{
    if es.len() == 0 {
        Seq::empty()
    } else {
        let rest = spec_extra_of(es.drop_last());
        if spec_known_key(es.last().0@) {
            rest
        } else {
            rest + seq![(es.last().0@, es.last().1)]
        }
    }
}

/// A required map field: absent reads as empty, an object of strings reads
/// as the entries, anything else is a manifest parse failure.
pub open spec fn spec_map_field(es: Seq<(String, JsonValue)>, key: Seq<char>) -> Option<
    Seq<(Seq<char>, Seq<char>)>,
> {
    match spec_field(es, key) {
        None => Some(Seq::empty()),
        Some(v) => spec_strict_entries_of(v),
    }
}

fn decode_map_field(es: &Vec<(String, JsonValue)>, key: &str) -> (r: Result<
    Vec<(String, String)>,
    Error,
>)
    ensures
        match spec_map_field(es@, key@) {
            Some(l) => r is Ok && req_view(r.unwrap()@) == l,
            None => r == Err::<Vec<(String, String)>, Error>(Error::ManifestParse),
        },
{
    match get_field(es, key) {
        None => {
            let out: Vec<(String, String)> = Vec::new();
            proof {
                assert(req_view(out@) =~= Seq::<(Seq<char>, Seq<char>)>::empty());
            }
            Ok(out)
        },
        Some(JsonValue::Object(mes)) => decode_strict_entries(mes),
        Some(_) => Err(Error::ManifestParse),
    }
}

fn decode_strict_entries(mes: &Vec<(String, JsonValue)>) -> (r: Result<
    Vec<(String, String)>,
    Error,
>)
    ensures
        match spec_strict_entries(mes@) {
            Some(l) => r is Ok && req_view(r.unwrap()@) == l,
            None => r == Err::<Vec<(String, String)>, Error>(Error::ManifestParse),
        },
{
    let mut out: Vec<(String, String)> = Vec::new();
    let n = mes.len();
    let mut i: usize = 0;
    proof {
        assert(mes@.take(0int) =~= Seq::<(String, JsonValue)>::empty());
        assert(req_view(out@) =~= Seq::<(Seq<char>, Seq<char>)>::empty());
    }
    while i < n
        invariant
            0 <= i <= n,
            n == mes@.len(),
            spec_strict_entries(mes@.take(i as int)) == Some(req_view(out@)),
        decreases n - i,
    {
        proof {
            assert(mes@.take(i + 1).drop_last() =~= mes@.take(i as int));
            assert(mes@.take(i + 1).last() == mes@[i as int]);
        }
        match &mes[i].1 {
            JsonValue::Str(s) => {
                let ghost prev = out@;
                out.push((mes[i].0.clone(), s.clone()));
                proof {
                    assert(out@.drop_last() =~= prev);
                    assert(req_view(out@) =~= req_view(prev) + seq![
                        (out@.last().0@, out@.last().1@),
                    ]);
                }
            },
            _ => {
                proof {
                    if spec_strict_entries(mes@) is Some {
                        lemma_strict_prefix(mes@, i + 1);
                    }
                }
                return Err(Error::ManifestParse);
            },
        }
        i += 1;
    }
    proof {
        assert(mes@.take(n as int) =~= mes@);
    }
    Ok(out)
}

proof fn lemma_strict_prefix(es: Seq<(String, JsonValue)>, k: int)
    requires
        0 <= k <= es.len(),
        spec_strict_entries(es) is Some,
    ensures
        spec_strict_entries(es.take(k)) is Some,
    decreases es.len() - k,
{
    if k < es.len() {
        lemma_strict_prefix(es, k + 1);
        assert(es.take(k + 1).drop_last() =~= es.take(k));
    } else {
        assert(es.take(k) =~= es);
    }
}

/// The autoload block: absent reads as empty; an object whose optional
/// `psr-4` field is a strict map; anything else fails.
pub open spec fn spec_decode_autoload(es: Seq<(String, JsonValue)>) -> Option<
    Seq<(Seq<char>, Seq<char>)>,
> {
    match spec_field(es, "autoload"@) {
        None => Some(Seq::empty()),
        Some(JsonValue::Object(aes)) => spec_map_field(aes@, "psr-4"@),
        Some(_) => None,
    }
}

/// A manifest document: optional string headers, requirement maps read
/// strictly, the autoload block, and every other field kept as an extra.
pub open spec fn spec_decode_manifest(j: JsonValue) -> Option<ManifestView> {
    match j {
        JsonValue::Object(es) => {
            match (
                spec_opt_str_field(es@, "name"@),
                spec_opt_str_field(es@, "description"@),
                spec_opt_str_field(es@, "license"@),
            ) {
                (Some(nm), Some(ds), Some(lc)) => {
                    match (
                        spec_map_field(es@, "require"@),
                        spec_map_field(es@, "require-dev"@),
                        spec_decode_autoload(es@),
                    ) {
                        (Some(rq), Some(rd), Some(ps)) => Some(
                            ManifestView {
                                name: nm,
                                description: ds,
                                license: lc,
                                require: rq,
                                require_dev: rd,
                                psr4: ps,
                                extra: spec_extra_of(es@),
                            },
                        ),
                        _ => None,
                    }
                },
                _ => None,
            }
        },
        _ => None,
    }
}

/// Extra keys never shadow the manifest's own fields.
pub open spec fn manifest_wf(m: ComposerManifest) -> bool {
    forall|i: int| 0 <= i < m.extra@.len() ==> !spec_known_key((#[trigger] m.extra@[i]).0@)
}

fn decode_opt_str(es: &Vec<(String, JsonValue)>, key: &str) -> (r: Result<Option<String>, Error>)
    ensures
        match spec_opt_str_field(es@, key@) {
            Some(o) => r is Ok && opt_view(r.unwrap()) == o,
            None => r == Err::<Option<String>, Error>(Error::ManifestParse),
        },
{
    match get_field(es, key) {
        None => Ok(None),
        Some(JsonValue::Null) => Ok(None),
        Some(JsonValue::Str(s)) => Ok(Some(s.clone())),
        Some(_) => Err(Error::ManifestParse),
    }
}

/// Reads a manifest document, consuming it so that unrecognized values move
/// into the manifest unchanged.
pub fn decode_manifest(j: JsonValue) -> (r: Result<ComposerManifest, Error>)
    ensures
        match spec_decode_manifest(j) {
            Some(mv) => r is Ok && manifest_view(r.unwrap()) == mv && manifest_wf(r.unwrap()),
            None => r == Err::<ComposerManifest, Error>(Error::ManifestParse),
        },
{
    match j {
        JsonValue::Object(es) => {
            let name = match decode_opt_str(&es, "name") {
                Ok(x) => x,
                Err(e) => {
                    return Err(e);
                },
            };
            let description = match decode_opt_str(&es, "description") {
                Ok(x) => x,
                Err(e) => {
                    return Err(e);
                },
            };
            let license = match decode_opt_str(&es, "license") {
                Ok(x) => x,
                Err(e) => {
                    return Err(e);
                },
            };
            let require = match decode_map_field(&es, "require") {
                Ok(x) => x,
                Err(e) => {
                    return Err(e);
                },
            };
            let require_dev = match decode_map_field(&es, "require-dev") {
                Ok(x) => x,
                Err(e) => {
                    return Err(e);
                },
            };
            let psr4 = match get_field(&es, "autoload") {
                None => {
                    let out: Vec<(String, String)> = Vec::new();
                    proof {
                        assert(req_view(out@) =~= Seq::<(Seq<char>, Seq<char>)>::empty());
                    }
                    out
                },
                Some(JsonValue::Object(aes)) => match decode_map_field(aes, "psr-4") {
                    Ok(x) => x,
                    Err(e) => {
                        return Err(e);
                    },
                },
                Some(_) => {
                    return Err(Error::ManifestParse);
                },
            };
            // collect unrecognized fields, moving their values
            let ghost orig = es@;
            let mut rest = es;
            let mut extra: Vec<(String, JsonValue)> = Vec::new();
            let ghost mut k: int = 0;
            proof {
                assert(orig.take(0int) =~= Seq::<(String, JsonValue)>::empty());
                assert(extra_view(extra@) =~= spec_extra_of(orig.take(0int)));
                assert(rest@ =~= orig.skip(0int));
            }
            while rest.len() > 0
                invariant
                    0 <= k <= orig.len(),
                    rest@ == orig.skip(k),
                    extra_view(extra@) == spec_extra_of(orig.take(k)),
                    forall|i: int|
                        0 <= i < extra@.len() ==> !spec_known_key((#[trigger] extra@[i]).0@),
                decreases rest@.len(),
            {
                let ghost prevr = rest@;
                let (key, value) = rest.remove(0);
                proof {
                    assert(prevr[0] == (key, value));
                    assert(orig[k] == (key, value));
                    assert(rest@ =~= orig.skip(k + 1));
                    assert(orig.take(k + 1).drop_last() =~= orig.take(k));
                    assert(orig.take(k + 1).last() == orig[k]);
                }
                if !is_known_key(key.as_str()) {
                    let ghost preve = extra@;
                    extra.push((key, value));
                    proof {
                        assert(extra@.drop_last() =~= preve);
                        assert(extra_view(extra@) =~= extra_view(preve) + seq![
                            (extra@.last().0@, extra@.last().1),
                        ]);
                    }
                }
                proof {
                    k = k + 1;
                }
            }
            proof {
                assert(orig.take(orig.len() as int) =~= orig);
                assert(rest@.len() == 0);
                assert(k == orig.len());
            }
            Ok(
                ComposerManifest {
                    name,
                    description,
                    license,
                    require,
                    require_dev,
                    autoload: AutoloadConfig { psr4 },
                    extra,
                },
            )
        },
        _ => Err(Error::ManifestParse),
    }
}

/// Replaces the constraint recorded under a name, or appends the pair when
/// the name is new; the first matching entry is the one replaced.
pub fn add_requirement(m: &mut ComposerManifest, name: String, constraint: String)
    ensures
        final(m).name == old(m).name,
        final(m).description == old(m).description,
        final(m).license == old(m).license,
        final(m).require_dev == old(m).require_dev,
        final(m).autoload == old(m).autoload,
        final(m).extra == old(m).extra,
        manifest_wf(*old(m)) ==> manifest_wf(*final(m)),
        ({
            let oldr = req_view(old(m).require@);
            let newr = req_view(final(m).require@);
            if exists|j: int| 0 <= j < oldr.len() && (#[trigger] oldr[j]).0 == name@ {
                let j = choose|j: int|
                    0 <= j < oldr.len() && (#[trigger] oldr[j]).0 == name@ && (forall|t: int|
                        0 <= t < j ==> (#[trigger] oldr[t]).0 != name@);
                newr == oldr.update(j, (name@, constraint@))
            } else {
                newr == oldr + seq![(name@, constraint@)]
            }
        }),
{
    let n = m.require.len();
    let mut i: usize = 0;
    while i < n
        invariant
            0 <= i <= n,
            n == m.require@.len(),
            *m == *old(m),
            forall|t: int| 0 <= t < i ==> (#[trigger] req_view(m.require@)[t]).0 != name@,
        decreases n - i,
    {
        if crate::bytes::str_eq(m.require[i].0.as_str(), name.as_str()) {
            let ghost oldr = req_view(old(m).require@);
            let ghost j = i as int;
            let constraint_pair = (name, constraint);
            m.require.set(i, constraint_pair);
            proof {
                assert(oldr[j].0 == name@);
                assert(forall|t: int| 0 <= t < j ==> (#[trigger] oldr[t]).0 != name@);
                let picked = choose|p: int|
                    0 <= p < oldr.len() && (#[trigger] oldr[p]).0 == name@ && (forall|t: int|
                        0 <= t < p ==> (#[trigger] oldr[t]).0 != name@);
                assert(oldr[picked].0 == name@);
                assert(picked == j) by {
                    if picked < j {
                        assert(oldr[picked].0 != name@);
                    }
                    if picked > j {
                        assert(oldr[j].0 != name@);
                    }
                }
                assert(req_view(m.require@) =~= oldr.update(j, (name@, constraint@)));
            }
            return ;
        }
        i += 1;
    }
    proof {
        let oldr = req_view(old(m).require@);
        if exists|j: int| 0 <= j < oldr.len() && (#[trigger] oldr[j]).0 == name@ {
            let j = choose|j: int| 0 <= j < oldr.len() && (#[trigger] oldr[j]).0 == name@;
            assert(false);
        }
    }
    let ghost oldr = req_view(old(m).require@);
    m.require.push((name, constraint));
    proof {
        assert(req_view(m.require@) =~= oldr + seq![(name@, constraint@)]);
    }
}

/// Writes a manifest back to its JSON document: the headers that are present,
/// the requirement maps, the autoload block, then every extra field; the
/// document reads back as the same manifest.
pub fn encode_manifest(m: ComposerManifest) -> (r: JsonValue)
    requires
        manifest_wf(m),
    ensures
        spec_decode_manifest(r) == Some(manifest_view(m)),
{
    let ghost mv = manifest_view(m);
    let mut es: Vec<(String, JsonValue)> = Vec::new();
    proof {
        reveal_strlit("name");
        reveal_strlit("description");
        reveal_strlit("license");
        reveal_strlit("require");
        reveal_strlit("require-dev");
        reveal_strlit("autoload");
        assert("name"@.len() == 4 && "description"@.len() == 11 && "license"@.len() == 7
            && "require"@.len() == 7 && "require-dev"@.len() == 11 && "autoload"@.len() == 8);
        assert("license"@[0] == 'l' && "require"@[0] == 'r');
        assert("description"@[0] == 'd' && "require-dev"@[0] == 'r');
    }
    match m.name {
        Some(s) => {
            let e = ("name".to_owned(), JsonValue::Str(s));
            proof {
                lemma_all_keys(es@, e);
            }
            es.push(e);
        },
        None => {},
    }
    match m.description {
        Some(s) => {
            let e = ("description".to_owned(), JsonValue::Str(s));
            proof {
                lemma_all_keys(es@, e);
            }
            es.push(e);
        },
        None => {},
    }
    match m.license {
        Some(s) => {
            let e = ("license".to_owned(), JsonValue::Str(s));
            proof {
                lemma_all_keys(es@, e);
            }
            es.push(e);
        },
        None => {},
    }
    {
        let e = ("require".to_owned(), encode_require(&m.require));
        proof {
            lemma_all_keys(es@, e);
        }
        es.push(e);
    }
    {
        let e = ("require-dev".to_owned(), encode_require(&m.require_dev));
        proof {
            lemma_all_keys(es@, e);
        }
        es.push(e);
    }
    {
        let mut aes: Vec<(String, JsonValue)> = Vec::new();
        aes.push(("psr-4".to_owned(), encode_require(&m.autoload.psr4)));
        proof {
            reveal_strlit("psr-4");
            assert(aes@[0].0@ == "psr-4"@);
            lemma_field_at(aes@, 0);
        }
        let e = ("autoload".to_owned(), JsonValue::Object(aes));
        proof {
            lemma_all_keys(es@, e);
        }
        es.push(e);
    }
    let ghost base = es@;
    let ghost orig_extra = extra_view(m.extra@);
    let mut rest = m.extra;
    let ghost mut k: int = 0;
    proof {
        assert(rest@ =~= rest@.skip(0int));
        assert(spec_extra_of(es@) == Seq::<(Seq<char>, JsonValue)>::empty()) by {
            lemma_extra_of_known(es@);
        }
        assert(extra_view(rest@).skip(0int) =~= extra_view(rest@));
    }
    let ghost orig_rest = rest@;
    while rest.len() > 0
        invariant
            0 <= k <= orig_rest.len(),
            rest@ == orig_rest.skip(k),
            forall|i: int|
                0 <= i < orig_rest.len() ==> !spec_known_key((#[trigger] orig_rest[i]).0@),
            spec_extra_of(es@) == extra_view(orig_rest.take(k)),
            spec_field(es@, "name"@) == spec_field(base, "name"@),
            spec_field(es@, "description"@) == spec_field(base, "description"@),
            spec_field(es@, "license"@) == spec_field(base, "license"@),
            spec_field(es@, "require"@) == spec_field(base, "require"@),
            spec_field(es@, "require-dev"@) == spec_field(base, "require-dev"@),
            spec_field(es@, "autoload"@) == spec_field(base, "autoload"@),
        decreases rest@.len(),
    {
        let ghost prevr = rest@;
        let ghost preve = es@;
        let (key, value) = rest.remove(0);
        proof {
            assert(prevr[0] == (key, value));
            assert(orig_rest[k] == (key, value));
            assert(rest@ =~= orig_rest.skip(k + 1));
            assert(!spec_known_key(key@));
        }
        let e = (key, value);
        es.push(e);
        proof {
            assert(es@.drop_last() =~= preve);
            assert(spec_extra_of(es@) == spec_extra_of(preve) + seq![
                (es@.last().0@, es@.last().1),
            ]);
            assert(extra_view(orig_rest.take(k + 1)) =~= extra_view(orig_rest.take(k)) + seq![
                (orig_rest[k].0@, orig_rest[k].1),
            ]);
            lemma_field_push(preve, es@.last(), "name"@);
            lemma_field_push(preve, es@.last(), "description"@);
            lemma_field_push(preve, es@.last(), "license"@);
            lemma_field_push(preve, es@.last(), "require"@);
            lemma_field_push(preve, es@.last(), "require-dev"@);
            lemma_field_push(preve, es@.last(), "autoload"@);
            k = k + 1;
        }
    }
    proof {
        assert(orig_rest.take(orig_rest.len() as int) =~= orig_rest);
        assert(k == orig_rest.len());
        assert(extra_view(orig_rest) == orig_extra);
    }
    JsonValue::Object(es)
}

/// Within the fixed prefix, every key is a known one, so no extra arises.
proof fn lemma_extra_of_known(es: Seq<(String, JsonValue)>)
    requires
        forall|i: int| 0 <= i < es.len() ==> spec_known_key((#[trigger] es[i]).0@),
    ensures
        spec_extra_of(es) == Seq::<(Seq<char>, JsonValue)>::empty(),
    decreases es.len(),
{
    if es.len() > 0 {
        assert(forall|i: int|
            0 <= i < es.len() - 1 ==> es.drop_last()[i] == #[trigger] es[i]);
        lemma_extra_of_known(es.drop_last());
    }
}

/// Bookkeeping for one push while the fixed fields are laid down: each of
/// the six lookups either was already settled or settles on the pushed key.
proof fn lemma_all_keys(es: Seq<(String, JsonValue)>, e: (String, JsonValue))
    ensures
        spec_field(es.push(e), "name"@) == (if spec_field(es, "name"@) is Some {
            spec_field(es, "name"@)
        } else if e.0@ == "name"@ {
            Some(e.1)
        } else {
            None::<JsonValue>
        }),
        spec_field(es.push(e), "description"@) == (if spec_field(es, "description"@) is Some {
            spec_field(es, "description"@)
        } else if e.0@ == "description"@ {
            Some(e.1)
        } else {
            None::<JsonValue>
        }),
        spec_field(es.push(e), "license"@) == (if spec_field(es, "license"@) is Some {
            spec_field(es, "license"@)
        } else if e.0@ == "license"@ {
            Some(e.1)
        } else {
            None::<JsonValue>
        }),
        spec_field(es.push(e), "require"@) == (if spec_field(es, "require"@) is Some {
            spec_field(es, "require"@)
        } else if e.0@ == "require"@ {
            Some(e.1)
        } else {
            None::<JsonValue>
        }),
        spec_field(es.push(e), "require-dev"@) == (if spec_field(es, "require-dev"@) is Some {
            spec_field(es, "require-dev"@)
        } else if e.0@ == "require-dev"@ {
            Some(e.1)
        } else {
            None::<JsonValue>
        }),
        spec_field(es.push(e), "autoload"@) == (if spec_field(es, "autoload"@) is Some {
            spec_field(es, "autoload"@)
        } else if e.0@ == "autoload"@ {
            Some(e.1)
        } else {
            None::<JsonValue>
        }),
{
    lemma_field_push(es, e, "name"@);
    lemma_field_push(es, e, "description"@);
    lemma_field_push(es, e, "license"@);
    lemma_field_push(es, e, "require"@);
    lemma_field_push(es, e, "require-dev"@);
    lemma_field_push(es, e, "autoload"@);
}

} // verus!
