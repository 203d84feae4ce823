//! The orchestrator's decisions: which archives to fetch for a resolved set,
//! and which version an `add` request should pin.
use crate::bytes::{lemma_encode_utf8_concat, spec_strip_all_v, strip_leading_v};
use crate::registry::{pv_view, pvs_view, PackageVersion, PvView};
use crate::version::{is_stable, spec_is_stable, spec_version_le, to_rust_version, version_le,
    Version};
use vstd::prelude::*;
use vstd::string::{StringExecFns, StringSliceAdditionalSpecFns};
use vstd::utf8::encode_utf8;

verus! {

/// The download targets of a resolved set: for every release that has an
/// archive, its name (a placeholder when absent), display version and URL.
pub open spec fn spec_dist_targets(ps: Seq<PvView>) -> Seq<(Seq<char>, Seq<char>, Seq<char>)>
    decreases ps.len(),
{
    if ps.len() == 0 {
        Seq::empty()
    } else {
        let rest = spec_dist_targets(ps.drop_last());
        match ps.last().dist {
            Some(d) => rest + seq![
                (
                    match ps.last().name {
                        Some(n) => n,
                        None => "unknown"@,
                    },
                    ps.last().version,
                    d.url,
                ),
            ],
            None => rest,
        }
    }
}

pub open spec fn targets_view(ts: Seq<(String, String, String)>) -> Seq<
    (Seq<char>, Seq<char>, Seq<char>),
> {
    ts.map_values(|t: (String, String, String)| (t.0@, t.1@, t.2@))
}

pub fn dist_targets(packages: &Vec<PackageVersion>) -> (r: Vec<(String, String, String)>)
    ensures
        targets_view(r@) == spec_dist_targets(pvs_view(packages@)),
{
    let ghost ps = pvs_view(packages@);
    let mut out: Vec<(String, String, String)> = Vec::new();
    let n = packages.len();
    let mut i: usize = 0;
    proof {
        assert(ps.take(0int) =~= Seq::<PvView>::empty());
        assert(targets_view(out@) =~= spec_dist_targets(ps.take(0int)));
    }
    while i < n
        invariant
            0 <= i <= n,
            n == packages@.len(),
            ps == pvs_view(packages@),
            targets_view(out@) == spec_dist_targets(ps.take(i as int)),
        decreases n - i,
    {
        proof {
            assert(ps.take(i + 1).drop_last() =~= ps.take(i as int));
            assert(ps.take(i + 1).last() == ps[i as int]);
            assert(ps[i as int] == pv_view(packages@[i as int]));
        }
        match &packages[i].dist {
            Some(d) => {
                let name = match &packages[i].name {
                    Some(n) => n.clone(),
                    None => "unknown".to_owned(),
                };
                let ghost prev = out@;
                out.push((name, packages[i].version.clone(), d.url.clone()));
                proof {
                    assert(out@.drop_last() =~= prev);
                    assert(targets_view(out@) =~= targets_view(prev) + seq![
                        (out@.last().0@, out@.last().1@, out@.last().2@),
                    ]);
                }
            },
            None => {},
        }
        i += 1;
    }
    proof {
        assert(ps.take(n as int) =~= ps);
    }
    out
}

/// A release counts for `add` when its normalized version carries no
/// pre-release marker.
pub open spec fn spec_add_stable(p: PvView) -> bool {
    spec_is_stable(encode_utf8(p.version_normalized))
}

/// Order on optional parse results: an unparseable version ranks below every
/// parsed one.
pub open spec fn spec_opt_le(a: Option<Version>, b: Option<Version>) -> bool {
    match (a, b) {
        (None, _) => true,
        (Some(x), None) => false,
        (Some(x), Some(y)) => spec_version_le(x, y),
    }
}

fn opt_ver_le(a: &Option<Version>, b: &Option<Version>) -> (r: bool)
    ensures
        r == spec_opt_le(*a, *b),
{
    match (a, b) {
        (None, _) => true,
        (Some(_), None) => false,
        (Some(x), Some(y)) => version_le(x, y),
    }
}

/// Index of the release `add` pins: the last maximum among the stable ones,
/// ranked by the parse of the normalized version; negative when no release
/// is stable.
pub open spec fn spec_add_idx(ps: Seq<PvView>) -> int
    decreases ps.len(),
{
    if ps.len() == 0 {
        -1
    } else {
        let rest = spec_add_idx(ps.drop_last());
        if spec_add_stable(ps.last()) {
            if rest < 0 {
                ps.len() - 1
            } else {
                if spec_opt_le(
                    crate::resolver::spec_version_of(ps[rest].version_normalized),
                    crate::resolver::spec_version_of(ps.last().version_normalized),
                ) {
                    ps.len() - 1
                } else {
                    rest
                }
            }
        } else {
            rest
        }
    }
}

/// The constraint `add` writes: the caret of the chosen stable release's
/// display version with its leading `v` markers removed; when nothing is
/// stable, the last listed release's display version as it stands; nothing
/// when the registry reported no releases at all.
pub fn pick_add_target(versions: &Vec<PackageVersion>) -> (r: Option<String>)
    ensures
        ({
            let ps = pvs_view(versions@);
            let b = spec_add_idx(ps);
            match r {
                Some(t) => if b >= 0 {
                    &&& 0 <= b < ps.len()
                    &&& encode_utf8(t@) == "^".spec_bytes() + spec_strip_all_v(
                        encode_utf8(ps[b].version),
                    )
                } else {
                    ps.len() > 0 && t@ == ps[ps.len() - 1].version
                },
                None => spec_add_idx(ps) < 0 && ps.len() == 0,
            }
        }),
{
    let ghost ps = pvs_view(versions@);
    let n = versions.len();
    let mut best: Option<usize> = None;
    let mut best_key: Option<Version> = None;
    let mut i: usize = 0;
    proof {
        assert(ps.take(0int) =~= Seq::<PvView>::empty());
    }
    while i < n
        invariant
            0 <= i <= n,
            n == versions@.len(),
            ps == pvs_view(versions@),
            match best {
                None => spec_add_idx(ps.take(i as int)) < 0,
                Some(b) => b < i && spec_add_idx(ps.take(i as int)) == b as int && best_key
                    == crate::resolver::spec_version_of(ps[b as int].version_normalized),
            },
        decreases n - i,
    {
        proof {
            assert(ps.take(i + 1).drop_last() =~= ps.take(i as int));
            assert(ps.take(i + 1).last() == ps[i as int]);
            assert(ps[i as int] == pv_view(versions@[i as int]));
        }
        if is_stable(versions[i].version_normalized.as_str()) {
            let key = to_rust_version(versions[i].version_normalized.as_str());
            let take_it = match &best {
                None => true,
                Some(_) => opt_ver_le(&best_key, &key),
            };
            if take_it {
                best = Some(i);
                best_key = key;
            }
        }
        i += 1;
    }
    proof {
        assert(ps.take(n as int) =~= ps);
    }
    match best {
        Some(b) => {
            let display = versions[b].version.as_str();
            let stripped = strip_leading_v(display);
            let mut t = String::new();
            t.append("^");
            t.append(stripped);
            proof {
                lemma_encode_utf8_concat("^"@, stripped@);
                assert(t@ =~= "^"@ + stripped@);
            }
            Some(t)
        },
        None => {
            if versions.len() > 0 {
                let t = versions[versions.len() - 1].version.clone();
                proof {
                    assert(ps[ps.len() - 1] == pv_view(versions@[versions@.len() - 1]));
                }
                Some(t)
            } else {
                None
            }
        },
    }
}

} // verus!
