//! Extraction planning: which archive entries land where under the package's
//! vendor directory. Entry names are vetted in verified code; the archive
//! itself is read through the zip crate behind trusted wrappers.
use crate::bytes::{has_byte, spec_has_byte, spec_join, spec_split, split_seps};
use crate::Error;
use vstd::prelude::*;
use vstd::string::StringExecFns;

verus! {

/// The byte `/`, the path separator.
pub const SLASH: u8 = 47;

/// The byte `\\`; a trailing one also marks a directory entry.
pub const BACKSLASH: u8 = 92;

/// The entries a zip archive value holds: for each, its declared name and
/// its decompressed contents, both as bytes.
pub uninterp spec fn zip_entries(a: zip::ZipArchive<std::io::Cursor<Vec<u8>>>) -> Seq<
    (Seq<u8>, Seq<u8>),
>;

/// Whether each entry of the archive reads: decompressing an entry of an
/// in-memory archive either yields its bytes or fails, a fact of the archive
/// value alone.
pub uninterp spec fn zip_entries_ok(a: zip::ZipArchive<std::io::Cursor<Vec<u8>>>) -> Seq<bool>;

/// What opening the given bytes as a zip archive yields: the entry list of
/// the archive the zip crate builds from them, or nothing when it refuses
/// them; a function of the bytes alone.
pub uninterp spec fn zip_doc(bytes: Seq<u8>) -> Option<Seq<(Seq<u8>, Seq<u8>)>>;

/// Declares std::io::Cursor, the in-memory reader archives are opened over.
#[verifier::external_type_specification]
#[verifier::external_body]
#[verifier::reject_recursive_types(T)]
pub struct ExCursor<T>(std::io::Cursor<T>);

/// Declares zip::ZipArchive, the zip crate's archive handle.
#[verifier::external_type_specification]
#[verifier::external_body]
#[verifier::reject_recursive_types(R)]
pub struct ExZipArchive<R>(zip::ZipArchive<R>);

/// Relies on zip::ZipArchive::new over an in-memory cursor: whether the bytes
/// open, and what entry table the archive then carries, depends on the bytes
/// alone; a refusal is returned, never thrown.
#[verifier::external_body]
fn zip_open(bytes: Vec<u8>) -> (r: Result<zip::ZipArchive<std::io::Cursor<Vec<u8>>>, Error>)
    ensures
        match r {
            Ok(a) => zip_doc(bytes@) == Some(zip_entries(a)),
            Err(e) => e == Error::Archive && zip_doc(bytes@) is None,
        },
{
    match zip::ZipArchive::new(std::io::Cursor::new(bytes)) {
        Ok(a) => Ok(a),
        Err(_) => Err(Error::Archive),
    }
}

/// Relies on zip::ZipArchive::len: the number of entries the archive holds.
#[verifier::external_body]
fn zip_len(a: &zip::ZipArchive<std::io::Cursor<Vec<u8>>>) -> (r: usize)
    ensures
        r == zip_entries(*a).len(),
{
    a.len()
}

/// Relies on zip::ZipArchive::by_index and std::io::Read::read_to_end: entry
/// `i` comes back as its name's bytes and its decompressed contents, and
/// whether it reads is a fact of the in-memory archive value; reading seeks
/// within the archive's reader but leaves the entry table unchanged.
#[verifier::external_body]
fn zip_entry(a: &mut zip::ZipArchive<std::io::Cursor<Vec<u8>>>, i: usize) -> (r: Option<
    (Vec<u8>, Vec<u8>),
>)
    requires
        i < zip_entries(*old(a)).len(),
    ensures
        zip_entries(*final(a)) == zip_entries(*old(a)),
        zip_entries_ok(*final(a)) == zip_entries_ok(*old(a)),
        r matches Some(e) ==> (e.0@, e.1@) == zip_entries(*old(a))[i as int],
        r is Some <==> zip_entries_ok(*old(a))[i as int],
{
    match a.by_index(i) {
        Ok(mut f) => {
            let name = f.name().as_bytes().to_vec();
            let mut data = Vec::new();
            match std::io::Read::read_to_end(&mut f, &mut data) {
                Ok(_) => Some((name, data)),
                Err(_) => None,
            }
        },
        Err(_) => None,
    }
}

/// The path components that count: the non-empty pieces between slashes that
/// are not the here-marker `.`.
pub open spec fn spec_keep(cs: Seq<Seq<u8>>) -> Seq<Seq<u8>>
    decreases cs.len(),
{
    if cs.len() == 0 {
        Seq::empty()
    } else {
        let rest = spec_keep(cs.drop_last());
        if cs.last().len() > 0 && cs.last() != seq![46u8] {
            rest + seq![cs.last()]
        } else {
            rest
        }
    }
}

pub open spec fn spec_components(b: Seq<u8>) -> Seq<Seq<u8>> {
    spec_keep(spec_split(b, SLASH))
}

/// An entry name is unsafe when it is absolute, climbs out through a `..`
/// component, or carries a backslash anywhere — a byte that reads as a path
/// separator under the other path convention.
pub open spec fn spec_entry_rejected(b: Seq<u8>) -> bool {
    ||| b.len() > 0 && b[0] == SLASH
    ||| spec_components(b).contains(seq![46u8, 46u8])
    ||| spec_has_byte(b, BACKSLASH)
}

/// A directory entry: its name ends in a path separator.
pub open spec fn spec_is_dir_entry(b: Seq<u8>) -> bool {
    b.len() > 0 && (b.last() == SLASH || b.last() == BACKSLASH)
}

/// The archive-relative output path of an entry: its components after the
/// single top-level wrapper directory, joined with `/`; nothing for unsafe
/// names, directory entries, and entries inside no wrapper directory.
pub open spec fn spec_sanitize_entry(b: Seq<u8>) -> Option<Seq<u8>> {
    if spec_entry_rejected(b) || spec_is_dir_entry(b) || spec_components(b).len() <= 1 {
        None
    } else {
        Some(spec_join(spec_components(b).drop_first(), SLASH))
    }
}

/// Decides an entry's output path; see `spec_sanitize_entry`.
#[verifier::rlimit(50)]
pub fn sanitize_entry(name: &[u8]) -> (r: Option<Vec<u8>>)
    ensures
        match r {
            Some(p) => spec_sanitize_entry(name@) == Some(p@),
            None => spec_sanitize_entry(name@) is None,
        },
{
    let n = name.len();
    if n > 0 && name[0] == SLASH {
        return None;
    }
    if has_byte(name, BACKSLASH) {
        return None;
    }
    if n > 0 && name[n - 1] == SLASH {
        return None;
    }
    let pieces = split_seps(name, SLASH);
    let ghost segs = spec_split(name@, SLASH);
    // collect the components that count, and watch for `..`
    let mut comps: Vec<(usize, usize)> = Vec::new();
    let m = pieces.len();
    let mut i: usize = 0;
    proof {
        assert(segs.take(0int) =~= Seq::<Seq<u8>>::empty());
        assert(spec_keep(segs.take(0int)) =~= comps@.map_values(
            |p: (usize, usize)| name@.subrange(p.0 as int, p.1 as int),
        ));
    }
    while i < m
        invariant
            0 <= i <= m,
            m == segs.len(),
            m == pieces@.len(),
            segs == spec_split(name@, SLASH),
            forall|j: int|
                0 <= j < m ==> (#[trigger] pieces@[j]).0 <= pieces@[j].1 <= name@.len()
                    && name@.subrange(pieces@[j].0 as int, pieces@[j].1 as int) == segs[j],
            spec_keep(segs.take(i as int)) == comps@.map_values(
                |p: (usize, usize)| name@.subrange(p.0 as int, p.1 as int),
            ),
            forall|j: int|
                0 <= j < comps@.len() ==> (#[trigger] comps@[j]).0 <= comps@[j].1 <= name@.len(),
            !spec_keep(segs.take(i as int)).contains(seq![46u8, 46u8]),
        decreases m - i,
    {
        proof {
            assert(segs.take(i + 1).drop_last() =~= segs.take(i as int));
            assert(segs.take(i + 1).last() == segs[i as int]);
        }
        let (a, b) = pieces[i];
        let piece = &name[a..b];
        let keep = if piece.len() == 0 {
            false
        } else if piece.len() == 1 && piece[0] == 46 {
            proof {
                assert(piece@ =~= seq![46u8]);
            }
            false
        } else {
            proof {
                if piece@.len() == 1 {
                    assert(piece@[0] != 46);
                    assert(piece@ != seq![46u8]);
                }
            }
            true
        };
        if keep {
            if piece.len() == 2 && piece[0] == 46 && piece[1] == 46 {
                proof {
                    assert(piece@ =~= seq![46u8, 46u8]);
                    assert(spec_components(name@).contains(seq![46u8, 46u8])) by {
                        let pre = spec_keep(segs.take(i + 1));
                        assert(piece@ != seq![46u8]);
                        assert(pre == spec_keep(segs.take(i as int)) + seq![segs[i as int]]);
                        assert(pre[pre.len() - 1] == seq![46u8, 46u8]);
                        assert(pre.contains(seq![46u8, 46u8]));
                        lemma_keep_prefix_contains(segs, i + 1, seq![46u8, 46u8]);
                    }
                }
                return None;
            }
            proof {
                if piece@.len() == 2 {
                    assert(piece@ != seq![46u8, 46u8]) by {
                        if piece@ == seq![46u8, 46u8] {
                            assert(piece@[0] == 46 && piece@[1] == 46);
                        }
                    }
                }
                if piece@.len() != 2 {
                    assert(piece@ != seq![46u8, 46u8]);
                }
            }
            comps.push((a, b));
            proof {
                let f = |p: (usize, usize)| name@.subrange(p.0 as int, p.1 as int);
                assert(comps@.map_values(f) =~= comps@.drop_last().map_values(f) + seq![
                    f(comps@.last()),
                ]);
            }
        }
        i += 1;
    }
    proof {
        assert(segs.take(m as int) =~= segs);
    }
    let nc = comps.len();
    if nc <= 1 {
        return None;
    }
    // join the components after the wrapper directory with `/`
    let mut out: Vec<u8> = Vec::new();
    let ghost kept = spec_components(name@);
    let mut k: usize = 1;
    proof {
        let f = |p: (usize, usize)| name@.subrange(p.0 as int, p.1 as int);
        assert(kept[1] == f(comps@[1]));
        assert(kept.subrange(1, 2) =~= seq![kept[1]]);
    }
    let (a1, b1) = comps[1];
    let first = &name[a1..b1];
    let mut j: usize = 0;
    while j < first.len()
        invariant
            0 <= j <= first@.len(),
            out@ == first@.take(j as int),
        decreases first@.len() - j,
    {
        out.push(first[j]);
        proof {
            assert(out@ =~= first@.take(j + 1));
        }
        j += 1;
    }
    proof {
        assert(first@.take(first@.len() as int) =~= first@);
        assert(spec_join(kept.subrange(1, 2), SLASH) == kept[1]);
    }
    k = 2;
    while k < nc
        invariant
            2 <= k <= nc,
            nc == comps@.len(),
            nc == kept.len(),
            kept == spec_components(name@),
            forall|j: int|
                0 <= j < comps@.len() ==> (#[trigger] comps@[j]).0 <= comps@[j].1 <= name@.len(),
            kept == comps@.map_values(
                |p: (usize, usize)| name@.subrange(p.0 as int, p.1 as int),
            ),
            out@ == spec_join(kept.subrange(1, k as int), SLASH),
        decreases nc - k,
    {
        out.push(SLASH);
        let (a, b) = comps[k];
        let piece = &name[a..b];
        let ghost mid = out@;
        let mut j: usize = 0;
        while j < piece.len()
            invariant
                0 <= j <= piece@.len(),
                out@ == mid + piece@.take(j as int),
            decreases piece@.len() - j,
        {
            out.push(piece[j]);
            proof {
                assert(mid + piece@.take(j + 1) =~= (mid + piece@.take(j as int)).push(
                    piece@[j as int],
                ));
            }
            j += 1;
        }
        proof {
            assert(piece@.take(piece@.len() as int) =~= piece@);
            let pref = kept.subrange(1, k as int);
            crate::bytes::lemma_join_snoc(pref, kept[k as int], SLASH);
            assert(pref.push(kept[k as int]) =~= kept.subrange(1, k + 1));
            assert(kept[k as int] == piece@);
            assert(out@ =~= spec_join(pref, SLASH) + seq![SLASH] + piece@);
        }
        k += 1;
    }
    proof {
        assert(kept.subrange(1, nc as int) =~= kept.drop_first());
    }
    Some(out)
}

/// A kept piece of a prefix is a component of the whole.
proof fn lemma_keep_prefix_contains(segs: Seq<Seq<u8>>, k: int, x: Seq<u8>)
    requires
        0 <= k <= segs.len(),
        spec_keep(segs.take(k)).contains(x),
    ensures
        spec_keep(segs).contains(x),
    decreases segs.len() - k,
{
    if k < segs.len() {
        assert(segs.take(k + 1).drop_last() =~= segs.take(k));
        let pre = spec_keep(segs.take(k));
        let nxt = spec_keep(segs.take(k + 1));
        let j = choose|j: int| 0 <= j < pre.len() && pre[j] == x;
        assert(nxt[j] == x);
        assert(nxt.contains(x));
        lemma_keep_prefix_contains(segs, k + 1, x);
    } else {
        assert(segs.take(k) =~= segs);
    }
}

/// A safe relative path: non-empty components only, none the here-marker or
/// the parent-marker, and no backslash byte, so the path stays below the
/// directory it is joined to under either path convention.
pub open spec fn spec_safe_rel(p: Seq<u8>) -> bool {
    &&& spec_split(p, SLASH).len() >= 1
    &&& forall|j: int|
        0 <= j < spec_split(p, SLASH).len() ==> (#[trigger] spec_split(p, SLASH)[j]).len() > 0
            && spec_split(p, SLASH)[j] != seq![46u8] && spec_split(p, SLASH)[j] != seq![46u8, 46u8]
    &&& forall|t: int| 0 <= t < p.len() ==> p[t] != BACKSLASH
}

proof fn lemma_keep_props(cs: Seq<Seq<u8>>)
    ensures
        forall|j: int|
            0 <= j < spec_keep(cs).len() ==> (#[trigger] spec_keep(cs)[j]).len() > 0 && spec_keep(
                cs,
            )[j] != seq![46u8],
        forall|j: int| 0 <= j < spec_keep(cs).len() ==> cs.contains(#[trigger] spec_keep(cs)[j]),
    decreases cs.len(),
{
    if cs.len() > 0 {
        let pre = cs.drop_last();
        lemma_keep_props(pre);
        assert(forall|j: int| 0 <= j < pre.len() ==> pre[j] == #[trigger] cs[j]);
        assert(forall|x: Seq<u8>| #![trigger pre.contains(x)] pre.contains(x) ==> cs.contains(x))
            by {
            assert forall|x: Seq<u8>| pre.contains(x) implies cs.contains(x) by {
                let j = choose|j: int| 0 <= j < pre.len() && pre[j] == x;
                assert(cs[j] == x);
            }
        }
        let k = spec_keep(cs);
        let kp = spec_keep(pre);
        if cs.last().len() > 0 && cs.last() != seq![46u8] {
            assert(k == kp + seq![cs.last()]);
            assert(cs.contains(cs.last())) by {
                assert(cs[cs.len() - 1] == cs.last());
            }
            assert forall|j: int| 0 <= j < k.len() implies (#[trigger] k[j]).len() > 0 && k[j]
                != seq![46u8] && cs.contains(k[j]) by {
                if j < kp.len() {
                    assert(k[j] == kp[j]);
                    assert(pre.contains(kp[j]));
                } else {
                    assert(k[j] == cs.last());
                }
            }
        } else {
            assert(k == kp);
            assert forall|j: int| 0 <= j < k.len() implies (#[trigger] k[j]).len() > 0 && k[j]
                != seq![46u8] && cs.contains(k[j]) by {
                assert(k[j] == kp[j]);
                assert(pre.contains(kp[j]));
            }
        }
    }
}

/// Extraction is contained: an entry that gets an output path gets a safe
/// relative one — no absolute path, no parent-marker — and that path is the
/// entry's own components with the single top-level wrapper directory
/// stripped.
pub proof fn lemma_sanitize_safe(b: Seq<u8>)
    requires
        spec_sanitize_entry(b) is Some,
    ensures
        spec_safe_rel(spec_sanitize_entry(b).unwrap()),
        spec_sanitize_entry(b).unwrap() == spec_join(spec_components(b).drop_first(), SLASH),
{
    let cs = spec_components(b);
    let rest = cs.drop_first();
    lemma_keep_props(spec_split(b, SLASH));
    assert(forall|j: int|
        0 <= j < rest.len() ==> (#[trigger] rest[j]).len() > 0 && rest[j] != seq![46u8] && rest[j]
            != seq![46u8, 46u8]) by {
        assert forall|j: int| 0 <= j < rest.len() implies (#[trigger] rest[j]).len() > 0 && rest[j]
            != seq![46u8] && rest[j] != seq![46u8, 46u8] by {
            assert(rest[j] == cs[j + 1]);
            if rest[j] == seq![46u8, 46u8] {
                assert(cs.contains(seq![46u8, 46u8])) by {
                    assert(cs[j + 1] == seq![46u8, 46u8]);
                }
            }
        }
    }
    assert(forall|j: int, t: int|
        #![trigger rest[j][t]]
        0 <= j < rest.len() && 0 <= t < rest[j].len() ==> rest[j][t] != SLASH) by {
        crate::bytes::lemma_split_pieces_sep_free(b, SLASH);
        assert forall|j: int, t: int|
            #![trigger rest[j][t]]
            0 <= j < rest.len() && 0 <= t < rest[j].len() implies rest[j][t] != SLASH
        by {
            assert(rest[j] == cs[j + 1]);
            assert(spec_split(b, SLASH).contains(cs[j + 1]));
            let q = choose|q: int|
                0 <= q < spec_split(b, SLASH).len() && spec_split(b, SLASH)[q] == cs[j + 1];
            assert(spec_split(b, SLASH)[q][t] != SLASH);
        }
    }
    assert(forall|j: int, t: int|
        #![trigger rest[j][t]]
        0 <= j < rest.len() && 0 <= t < rest[j].len() ==> rest[j][t] != BACKSLASH) by {
        assert(!spec_has_byte(b, BACKSLASH));
        assert(forall|i: int| 0 <= i < b.len() ==> b[i] != BACKSLASH);
        crate::bytes::lemma_split_pieces_free_of(b, SLASH, BACKSLASH);
        assert forall|j: int, t: int|
            #![trigger rest[j][t]]
            0 <= j < rest.len() && 0 <= t < rest[j].len() implies rest[j][t] != BACKSLASH
        by {
            assert(rest[j] == cs[j + 1]);
            assert(spec_split(b, SLASH).contains(cs[j + 1]));
            let q = choose|q: int|
                0 <= q < spec_split(b, SLASH).len() && spec_split(b, SLASH)[q] == cs[j + 1];
            assert(spec_split(b, SLASH)[q][t] != BACKSLASH);
        }
    }
    crate::bytes::lemma_join_free_of(rest, SLASH, BACKSLASH);
    crate::bytes::lemma_split_join(rest, SLASH);
}

/// A zip archive held for planning; opaque but for its entry list.
pub struct Archive {
    pub inner: zip::ZipArchive<std::io::Cursor<Vec<u8>>>,
}

impl Archive {
    /// The entries the archive holds: name bytes and content bytes.
    pub open spec fn entries(self) -> Seq<(Seq<u8>, Seq<u8>)> {
        zip_entries(self.inner)
    }

    /// Which of the archive's entries read.
    pub open spec fn entries_ok(self) -> Seq<bool> {
        zip_entries_ok(self.inner)
    }

    /// Opens downloaded bytes as a zip archive: succeeds exactly on bytes the
    /// zip crate reads as an archive, and then holds their entry list.
    pub fn open(bytes: Vec<u8>) -> (r: Result<Archive, Error>)
        ensures
            match r {
                Ok(a) => zip_doc(bytes@) == Some(a.entries()),
                Err(e) => e == Error::Archive && zip_doc(bytes@) is None,
            },
    {
        match zip_open(bytes) {
            Ok(a) => Ok(Archive { inner: a }),
            Err(e) => Err(e),
        }
    }
}

/// The plan an entry list yields: for each entry whose name sanitizes, its
/// output path and its contents.
pub open spec fn spec_plan(es: Seq<(Seq<u8>, Seq<u8>)>) -> Seq<(Seq<u8>, Seq<u8>)>
    decreases es.len(),
{
    if es.len() == 0 {
        Seq::empty()
    } else {
        let rest = spec_plan(es.drop_last());
        match spec_sanitize_entry(es.last().0) {
            Some(p) => rest + seq![(p, es.last().1)],
            None => rest,
        }
    }
}

/// The plan as pairs of byte views.
pub open spec fn plan_view(plan: Seq<(Vec<u8>, Vec<u8>)>) -> Seq<(Seq<u8>, Seq<u8>)> {
    plan.map_values(|e: (Vec<u8>, Vec<u8>)| (e.0@, e.1@))
}

impl Archive {
    /// Walks the archive and plans the extraction: every file entry with a
    /// safe name below the wrapper directory contributes its output path and
    /// bytes. The plan succeeds exactly when every entry reads; an entry that
    /// does not read fails the archive.
    pub fn extract_plan(&mut self) -> (r: Result<Vec<(Vec<u8>, Vec<u8>)>, Error>)
        ensures
            final(self).entries() == old(self).entries(),
            final(self).entries_ok() == old(self).entries_ok(),
            match r {
                Ok(plan) => plan_view(plan@) == spec_plan(old(self).entries()),
                Err(e) => e == Error::Archive,
            },
            r is Ok <==> (forall|i: int|
                0 <= i < old(self).entries().len() ==> old(self).entries_ok()[i]),
    {
        let n = zip_len(&self.inner);
        let mut plan: Vec<(Vec<u8>, Vec<u8>)> = Vec::new();
        let mut i: usize = 0;
        let ghost es = zip_entries(self.inner);
        proof {
            assert(es.take(0int) =~= Seq::<(Seq<u8>, Seq<u8>)>::empty());
            assert(plan_view(plan@) =~= spec_plan(es.take(0int)));
        }
        while i < n
            invariant
                0 <= i <= n,
                n == es.len(),
                es == zip_entries(self.inner),
                self.entries() == old(self).entries(),
                self.entries_ok() == old(self).entries_ok(),
                plan_view(plan@) == spec_plan(es.take(i as int)),
                forall|j: int| 0 <= j < i ==> old(self).entries_ok()[j],
            decreases n - i,
        {
            proof {
                assert(es.take(i + 1).drop_last() =~= es.take(i as int));
                assert(es.take(i + 1).last() == es[i as int]);
            }
            match zip_entry(&mut self.inner, i) {
                Some((name, data)) => {
                    match sanitize_entry(name.as_slice()) {
                        Some(p) => {
                            plan.push((p, data));
                            proof {
                                assert(plan_view(plan@) =~= plan_view(plan@.drop_last()) + seq![
                                    (plan@.last().0@, plan@.last().1@),
                                ]);
                            }
                        },
                        None => {},
                    }
                },
                None => {
                    return Err(Error::Archive);
                },
            }
            i += 1;
        }
        proof {
            assert(es.take(n as int) =~= es);
        }
        Ok(plan)
    }
}

/// The directory a package is extracted into: `vendor/<name>`.
pub fn vendor_dir(name: &str) -> (r: String)
    ensures
        r@ == "vendor/"@ + name@,
{
    let mut p = String::new();
    p.append("vendor/");
    p.append(name);
    p
}


/// Containment of the whole plan: every planned output path is a safe
/// relative path, so nothing escapes the directory the plan is joined to.
pub proof fn lemma_plan_safe(es: Seq<(Seq<u8>, Seq<u8>)>)
    ensures
        forall|j: int|
            0 <= j < spec_plan(es).len() ==> spec_safe_rel((#[trigger] spec_plan(es)[j]).0),
    decreases es.len(),
{
    if es.len() > 0 {
        lemma_plan_safe(es.drop_last());
        let pre = spec_plan(es.drop_last());
        match spec_sanitize_entry(es.last().0) {
            Some(p) => {
                lemma_sanitize_safe(es.last().0);
                assert forall|j: int|
                    0 <= j < spec_plan(es).len() implies spec_safe_rel(
                    (#[trigger] spec_plan(es)[j]).0,
                ) by {
                    if j < pre.len() {
                        assert(spec_plan(es)[j] == pre[j]);
                    } else {
                        assert(spec_plan(es)[j] == (p, es.last().1));
                    }
                }
            },
            None => {},
        }
    }
}


} // verus!
