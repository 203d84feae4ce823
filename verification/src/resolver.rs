//! The resolver: picking the best release for one constraint, and the
//! breadth-first traversal state that selects one version per package.
use crate::registry::{pv_view, pvs_view, PackageVersion, PvView};
use crate::version::{
    lemma_version_order_total, spec_constraint_matches, spec_matches, spec_parse_version,
    spec_prim_matches, spec_version_le, to_rust_version, version_le, version_matches, Prim,
    Version,
};
use std::collections::VecDeque;
use vstd::prelude::*;
use vstd::string::StringSliceAdditionalSpecFns;
use vstd::utf8::encode_utf8;

verus! {

/// The parse of a character string, through its UTF-8 encoding.
pub open spec fn spec_version_of(s: Seq<char>) -> Option<Version> {
    spec_parse_version(encode_utf8(s))
}

/// Constraint evaluation on character strings, through their UTF-8 encodings.
pub open spec fn spec_matches_chars(c: Seq<char>, v: Seq<char>) -> bool {
    spec_matches(encode_utf8(c), encode_utf8(v))
}

/// A release is a candidate for a constraint when its normalized version
/// string satisfies the constraint (which entails that it parses).
pub open spec fn spec_is_match(c: Seq<char>, p: PvView) -> bool {
    spec_matches_chars(c, p.version_normalized)
}

/// Index of the selected release: the highest candidate by the version
/// order, the last such entry when equal versions repeat; negative when no
/// entry is a candidate.
pub open spec fn spec_best_idx(c: Seq<char>, vs: Seq<PvView>) -> int
    decreases vs.len(),
{
    if vs.len() == 0 {
        -1
    } else {
        let rest = spec_best_idx(c, vs.drop_last());
        let last_i = vs.len() - 1;
        if spec_is_match(c, vs.last()) {
            if rest < 0 {
                last_i as int
            } else {
                let bv = spec_version_of(vs[rest].version_normalized).unwrap();
                let lv = spec_version_of(vs.last().version_normalized).unwrap();
                if spec_version_le(bv, lv) {
                    last_i as int
                } else {
                    rest
                }
            }
        } else {
            rest
        }
    }
}

proof fn lemma_best_idx_bounds(c: Seq<char>, vs: Seq<PvView>)
    ensures
        -1 <= spec_best_idx(c, vs) < vs.len(),
        spec_best_idx(c, vs) >= 0 ==> spec_is_match(c, vs[spec_best_idx(c, vs)]),
        spec_best_idx(c, vs) >= 0 ==> spec_version_of(
            vs[spec_best_idx(c, vs)].version_normalized,
        ) is Some,
    decreases vs.len(),
{
    if vs.len() > 0 {
        lemma_best_idx_bounds(c, vs.drop_last());
    }
}

/// Picks the best release for a constraint out of a version list: the
/// highest whose normalized version satisfies the constraint, the last
/// occurrence among equals, or nothing when no version satisfies it.
pub fn select_version(constraint: &str, versions: Vec<PackageVersion>) -> (r: Option<
    PackageVersion,
>)
    ensures
        ({
            let b = spec_best_idx(constraint@, pvs_view(versions@));
            match r {
                Some(p) => b >= 0 && pv_view(p) == pvs_view(versions@)[b],
                None => b < 0,
            }
        }),
{
    let ghost vsv = pvs_view(versions@);
    let n = versions.len();
    let mut best: Option<usize> = None;
    let mut best_ver = Version { major: 0, minor: 0, patch: 0, pre: crate::version::Stability::Dev };
    let mut i: usize = 0;
    proof {
        assert(vsv.take(0int) =~= Seq::<PvView>::empty());
    }
    while i < n
        invariant
            0 <= i <= n,
            n == versions@.len(),
            vsv == pvs_view(versions@),
            match best {
                None => spec_best_idx(constraint@, vsv.take(i as int)) < 0,
                Some(b) => b < i && spec_best_idx(constraint@, vsv.take(i as int)) == b as int
                    && spec_version_of(vsv[b as int].version_normalized) == Some(best_ver),
            },
        decreases n - i,
    {
        proof {
            assert(vsv.take(i + 1).drop_last() =~= vsv.take(i as int));
            assert(vsv.take(i + 1).last() == vsv[i as int]);
        }
        let w = to_rust_version(versions[i].version_normalized.as_str());
        match w {
            Some(w) => {
                if version_matches(constraint, versions[i].version_normalized.as_str()) {
                    match best {
                        None => {
                            best = Some(i);
                            best_ver = w;
                        },
                        Some(b) => {
                            if version_le(&best_ver, &w) {
                                best = Some(i);
                                best_ver = w;
                            }
                        },
                    }
                }
            },
            None => {
                proof {
                    assert(!spec_is_match(constraint@, vsv[i as int]));
                }
            },
        }
        i += 1;
    }
    proof {
        assert(vsv.take(n as int) =~= vsv);
    }
    match best {
        Some(b) => {
            let mut versions = versions;
            let picked = versions.remove(b);
            Some(picked)
        },
        None => None,
    }
}


/// Names as character strings.
pub open spec fn names_view(ns: Seq<String>) -> Seq<Seq<char>> {
    ns.map_values(|s: String| s@)
}

/// Queue entries as pairs of character strings.
pub open spec fn qview(q: Seq<(String, String)>) -> Seq<(Seq<char>, Seq<char>)> {
    q.map_values(|p: (String, String)| (p.0@, p.1@))
}

/// A platform requirement: the host language itself or one of its
/// extensions; such entries are skipped, not resolved.
pub open spec fn spec_is_platform(n: Seq<char>) -> bool {
    encode_utf8(n) == "php".spec_bytes() || (encode_utf8(n).len() >= 4 && encode_utf8(n).take(4)
        == "ext-".spec_bytes())
}

pub fn is_platform(name: &str) -> (r: bool)
    ensures
        r == spec_is_platform(name@),
{
    let b = name.as_bytes();
    if crate::bytes::bytes_eq(b, "php".as_bytes()) {
        return true;
    }
    if b.len() >= 4 {
        let head = &b[0..4];
        proof {
            assert(head@ =~= name.spec_bytes().take(4));
        }
        if crate::bytes::bytes_eq(head, "ext-".as_bytes()) {
            return true;
        }
    }
    false
}

/// The dependencies of a freshly selected package that enter the queue: its
/// requirements without platform entries and without already-installed names.
pub open spec fn spec_enqueue(req: Seq<(Seq<char>, Seq<char>)>, inst: Seq<Seq<char>>) -> Seq<
    (Seq<char>, Seq<char>),
>
    decreases req.len(),
{
    if req.len() == 0 {
        Seq::empty()
    } else {
        let rest = spec_enqueue(req.drop_last(), inst);
        if spec_is_platform(req.last().0) || inst.contains(req.last().0) {
            rest
        } else {
            rest + seq![req.last()]
        }
    }
}


/// Membership in the name images matches membership by view.
pub proof fn lemma_names_view_contains(ns: Seq<String>, x: Seq<char>)
    ensures
        names_view(ns).contains(x) == (exists|j: int|
            0 <= j < ns.len() && (#[trigger] ns[j])@ == x),
{
    if names_view(ns).contains(x) {
        let j = choose|j: int| 0 <= j < names_view(ns).len() && names_view(ns)[j] == x;
        assert(ns[j]@ == x);
    }
    if exists|j: int| 0 <= j < ns.len() && (#[trigger] ns[j])@ == x {
        let j = choose|j: int| 0 <= j < ns.len() && (#[trigger] ns[j])@ == x;
        assert(names_view(ns)[j] == x);
        assert(names_view(ns).contains(x));
    }
}

/// The breadth-first resolution state: a queue of pending requirements, the
/// names already selected, and the chosen releases in selection order.
pub struct Resolver {
    pub queue: VecDeque<(String, String)>,
    pub installed: Vec<String>,
    pub resolved: Vec<PackageVersion>,
}

impl Resolver {
    /// Well-formedness: one resolved release per installed name, in step;
    /// installed names pairwise distinct; the i-th release carries the i-th
    /// name.
    pub open spec fn wf(self) -> bool {
        &&& self.resolved@.len() == self.installed@.len()
        &&& (forall|i: int, j: int|
            0 <= i < j < self.installed@.len() ==> #[trigger] self.installed@[i]@
                != #[trigger] self.installed@[j]@)
        &&& (forall|i: int|
            0 <= i < self.resolved@.len() ==> (#[trigger] pv_view(self.resolved@[i])).name == Some(
                self.installed@[i]@,
            ))
    }

    /// A fresh state seeded with the manifest's direct requirements.
    pub fn new(direct: Vec<(String, String)>) -> (r: Resolver)
        ensures
            r.wf(),
            qview(r.queue@) == qview(direct@),
            r.installed@.len() == 0,
            r.resolved@.len() == 0,
    {
        let ghost orig = qview(direct@);
        let mut rest = direct;
        let mut queue: VecDeque<(String, String)> = VecDeque::new();
        proof {
            assert(qview(queue@) + qview(rest@) =~= orig);
        }
        while rest.len() > 0
            invariant
                qview(queue@) + qview(rest@) == orig,
            decreases rest@.len(),
        {
            let ghost prevq = queue@;
            let ghost prevr = rest@;
            let p = rest.remove(0);
            queue.push_back(p);
            proof {
                assert(qview(prevr)[0] == (p.0@, p.1@));
                assert(qview(queue@) =~= qview(prevq) + seq![(p.0@, p.1@)]);
                assert(qview(rest@) =~= qview(prevr).drop_first());
                assert(qview(queue@) + qview(rest@) =~= qview(prevq) + qview(prevr));
            }
        }
        proof {
            assert(qview(rest@).len() == 0);
        }
        let r = Resolver { queue, installed: Vec::new(), resolved: Vec::new() };
        proof {
            assert(qview(r.queue@) + qview(rest@) =~= qview(r.queue@));
        }
        r
    }

    /// Whether a name was already selected.
    pub fn is_installed(&self, name: &str) -> (r: bool)
        ensures
            r == names_view(self.installed@).contains(name@),
    {
        let n = self.installed.len();
        let mut i: usize = 0;
        while i < n
            invariant
                0 <= i <= n,
                n == self.installed@.len(),
                forall|j: int| 0 <= j < i ==> names_view(self.installed@)[j] != name@,
            decreases n - i,
        {
            if crate::bytes::str_eq(self.installed[i].as_str(), name) {
                proof {
                    assert(names_view(self.installed@)[i as int] == name@);
                }
                return true;
            }
            i += 1;
        }
        proof {
            if names_view(self.installed@).contains(name@) {
                let j = choose|j: int|
                    0 <= j < names_view(self.installed@).len() && names_view(self.installed@)[j]
                        == name@;
                assert(false);
            }
        }
        false
    }

    /// Index of the first queued entry whose name is not yet installed.
    pub open spec fn spec_first_pending(q: Seq<(Seq<char>, Seq<char>)>, inst: Seq<Seq<char>>) -> int
        decreases q.len(),
    {
        if q.len() == 0 {
            -1
        } else if !inst.contains(q[0].0) {
            0
        } else {
            let r = Self::spec_first_pending(q.drop_first(), inst);
            if r < 0 {
                -1
            } else {
                r + 1
            }
        }
    }

    proof fn lemma_first_pending_skip(q: Seq<(Seq<char>, Seq<char>)>, inst: Seq<Seq<char>>, c: int)
        requires
            0 <= c <= q.len(),
            forall|i: int| 0 <= i < c ==> inst.contains((#[trigger] q[i]).0),
        ensures
            c == q.len() ==> Self::spec_first_pending(q, inst) == -1,
            c < q.len() && !inst.contains(q[c].0) ==> Self::spec_first_pending(q, inst) == c,
        decreases c,
    {
        if c == 0 {
        } else {
            assert(inst.contains(q[0].0));
            assert(q.drop_first() =~= q.skip(1));
            Self::lemma_first_pending_skip(q.skip(1), inst, c - 1);
        }
    }

    /// Pops queued entries until one names a package not yet installed, and
    /// hands it out; drains the queue when every queued name is installed.
    pub fn next_pending(&mut self) -> (r: Option<(String, String)>)
        ensures
            final(self).installed == old(self).installed,
            final(self).resolved == old(self).resolved,
            final(self).wf() == old(self).wf(),
            ({
                let k = Self::spec_first_pending(
                    qview(old(self).queue@),
                    names_view(old(self).installed@),
                );
                match r {
                    Some(p) => k >= 0 && (p.0@, p.1@) == qview(old(self).queue@)[k] && qview(
                        final(self).queue@,
                    ) == qview(old(self).queue@).skip(k + 1) && !names_view(
                        old(self).installed@,
                    ).contains(p.0@),
                    None => k < 0 && final(self).queue@.len() == 0,
                }
            }),
    {
        let ghost oq = qview(old(self).queue@);
        let ghost inst = names_view(old(self).installed@);
        let ghost mut c: int = 0;
        loop
            invariant
                0 <= c <= oq.len(),
                self.installed == old(self).installed,
                self.resolved == old(self).resolved,
                qview(self.queue@) == oq.skip(c),
                forall|i: int| 0 <= i < c ==> inst.contains((#[trigger] oq[i]).0),
                inst == names_view(self.installed@),
            decreases oq.len() - c,
        {
            let ghost prevq = self.queue@;
            let front = self.queue.pop_front();
            match front {
                None => {
                    proof {
                        assert(qview(prevq).len() == 0);
                        assert(c == oq.len());
                        Self::lemma_first_pending_skip(oq, inst, c);
                    }
                    return None;
                },
                Some(p) => {
                    proof {
                        assert(qview(prevq)[0] == (p.0@, p.1@));
                        assert(qview(self.queue@) =~= qview(prevq).drop_first());
                        assert(oq.skip(c)[0] == (p.0@, p.1@));
                        assert(oq[c] == (p.0@, p.1@));
                        assert(oq.skip(c).drop_first() =~= oq.skip(c + 1));
                    }
                    if self.is_installed(p.0.as_str()) {
                        proof {
                            c = c + 1;
                        }
                    } else {
                        proof {
                            Self::lemma_first_pending_skip(oq, inst, c);
                        }
                        return Some(p);
                    }
                },
            }
        }
    }

    /// Records the outcome of resolving one name. A missing outcome (the
    /// package was dropped) changes nothing; so does an outcome for a name
    /// that is already installed. Otherwise the release's requirements enter
    /// the queue — without platform entries and already-installed names — and
    /// the release, stamped with the resolved name, is appended.
    pub fn record_resolution(&mut self, name: String, outcome: Option<PackageVersion>)
        requires
            old(self).wf(),
        ensures
            final(self).wf(),
            ({
                let inst = names_view(old(self).installed@);
                match outcome {
                    None => *final(self) == *old(self),
                    Some(pkg) => {
                        if inst.contains(name@) {
                            *final(self) == *old(self)
                        } else {
                            &&& qview(final(self).queue@) == qview(old(self).queue@)
                                + spec_enqueue(crate::registry::req_view(pkg.require@), inst)
                            &&& names_view(final(self).installed@) == inst + seq![name@]
                            &&& pvs_view(final(self).resolved@) == pvs_view(old(self).resolved@)
                                + seq![
                                (crate::registry::PvView {
                                    name: Some(name@),
                                    ..pv_view(pkg)
                                }),
                            ]
                        }
                    },
                }
            }),
    {
        let pkg = match outcome {
            Some(p) => p,
            None => {
                return ;
            },
        };
        if self.is_installed(name.as_str()) {
            return ;
        }
        let mut pkg = pkg;
        pkg.name = Some(name.clone());
        let ghost req = crate::registry::req_view(pkg.require@);
        let ghost inst = names_view(old(self).installed@);
        let ghost oq = qview(old(self).queue@);
        let n = pkg.require.len();
        let mut i: usize = 0;
        proof {
            assert(req.take(0int) =~= Seq::<(Seq<char>, Seq<char>)>::empty());
            assert(qview(self.queue@) =~= oq + spec_enqueue(req.take(0int), inst));
        }
        while i < n
            invariant
                0 <= i <= n,
                n == pkg.require@.len(),
                req == crate::registry::req_view(pkg.require@),
                inst == names_view(self.installed@),
                self.installed == old(self).installed,
                self.resolved == old(self).resolved,
                qview(self.queue@) == oq + spec_enqueue(req.take(i as int), inst),
            decreases n - i,
        {
            proof {
                assert(req.take(i + 1).drop_last() =~= req.take(i as int));
                assert(req.take(i + 1).last() == req[i as int]);
                assert(req[i as int] == (pkg.require@[i as int].0@, pkg.require@[i as int].1@));
            }
            let dep_name = pkg.require[i].0.clone();
            let dep_constraint = pkg.require[i].1.clone();
            if !is_platform(dep_name.as_str()) && !self.is_installed(dep_name.as_str()) {
                let ghost prevq = self.queue@;
                self.queue.push_back((dep_name, dep_constraint));
                proof {
                    assert(qview(self.queue@) =~= qview(prevq) + seq![req[i as int]]);
                    assert(qview(self.queue@) =~= oq + spec_enqueue(req.take(i + 1), inst));
                }
            } else {
                proof {
                    assert(qview(self.queue@) =~= oq + spec_enqueue(req.take(i + 1), inst));
                }
            }
            i += 1;
        }
        proof {
            assert(req.take(n as int) =~= req);
        }
        let ghost previnst = self.installed@;
        let ghost prevres = self.resolved@;
        let ghost namev = name@;
        let ghost pkgv = pv_view(pkg);
        self.installed.push(name);
        self.resolved.push(pkg);
        proof {
            assert(forall|i: int|
                0 <= i < previnst.len() ==> #[trigger] self.installed@[i] == previnst[i]);
            assert(forall|i: int|
                0 <= i < prevres.len() ==> #[trigger] self.resolved@[i] == prevres[i]);
            assert(self.installed@.last()@ == namev);
            assert(pv_view(self.resolved@.last()) == pkgv);
            assert(pkgv.name == Some(namev));
            assert(names_view(self.installed@) =~= names_view(previnst) + seq![namev]);
            assert(pvs_view(self.resolved@) =~= pvs_view(prevres) + seq![pkgv]);
            assert(forall|i: int|
                0 <= i < previnst.len() ==> (#[trigger] names_view(previnst)[i]) != namev);
            assert(forall|i: int| 0 <= i < previnst.len() ==> (#[trigger] previnst[i])@ != namev)
                by {
                lemma_names_view_contains(previnst, namev);
            }
            assert(forall|i: int|
                0 <= i < self.installed@.len() - 1 ==> (#[trigger] self.installed@[i])@ != namev);
        }
    }

    /// Hands the selection out, in selection order.
    pub fn into_resolved(self) -> (r: Vec<PackageVersion>)
        ensures
            r == self.resolved,
    {
        self.resolved
    }
}

/// No name repeats among the resolved releases: each carries its installed
/// name, and installed names are pairwise distinct.
pub proof fn lemma_resolved_names_distinct(r: Resolver)
    requires
        r.wf(),
    ensures
        forall|i: int, j: int|
            0 <= i < j < r.resolved@.len() ==> (#[trigger] pv_view(r.resolved@[i])).name != (
            #[trigger] pv_view(r.resolved@[j])).name,
{
}


/// The parsed version of the entry at an index.
pub open spec fn spec_ver_at(vs: Seq<PvView>, i: int) -> Version {
    spec_version_of(vs[i].version_normalized).unwrap()
}

/// The selected entry is a maximum: every candidate is at most the selected
/// version, and candidates after the selected index are strictly below it.
proof fn lemma_best_idx_max(c: Seq<char>, vs: Seq<PvView>)
    ensures
        ({
            let b = spec_best_idx(c, vs);
            &&& (forall|i: int| 0 <= i < vs.len() && spec_is_match(c, vs[i]) ==> b >= 0)
            &&& (b >= 0 ==> forall|i: int|
                0 <= i < vs.len() && spec_is_match(c, #[trigger] vs[i]) ==> spec_version_le(
                    spec_ver_at(vs, i),
                    spec_ver_at(vs, b),
                ) && (i > b ==> !spec_version_le(spec_ver_at(vs, b), spec_ver_at(vs, i))))
        }),
    decreases vs.len(),
{
    lemma_best_idx_bounds(c, vs);
    if vs.len() > 0 {
        lemma_best_idx_max(c, vs.drop_last());
        lemma_best_idx_bounds(c, vs.drop_last());
        let b = spec_best_idx(c, vs);
        let rest = spec_best_idx(c, vs.drop_last());
        assert(forall|i: int| 0 <= i < vs.len() - 1 ==> vs.drop_last()[i] == #[trigger] vs[i]);
        if b >= 0 {
            assert(forall|i: int|
                0 <= i < vs.len() && spec_is_match(c, #[trigger] vs[i]) ==> spec_version_le(
                    spec_ver_at(vs, i),
                    spec_ver_at(vs, b),
                ) && (i > b ==> !spec_version_le(spec_ver_at(vs, b), spec_ver_at(vs, i)))) by {
                assert forall|i: int|
                    0 <= i < vs.len() && spec_is_match(c, #[trigger] vs[i]) implies spec_version_le(
                    spec_ver_at(vs, i),
                    spec_ver_at(vs, b),
                ) && (i > b ==> !spec_version_le(spec_ver_at(vs, b), spec_ver_at(vs, i))) by {
                    if i < vs.len() - 1 {
                        assert(spec_is_match(c, vs.drop_last()[i]));
                        assert(rest >= 0);
                        assert(spec_version_le(spec_ver_at(vs, i), spec_ver_at(vs, rest)));
                        if b != rest {
                            lemma_version_order_total(
                                spec_ver_at(vs, i),
                                spec_ver_at(vs, rest),
                                spec_ver_at(vs, b),
                            );
                        }
                        if i > b {
                            assert(b == rest);
                            assert(!spec_version_le(spec_ver_at(vs, b), spec_ver_at(vs, i)));
                        }
                    } else {
                        if b != i {
                            assert(b == rest);
                            assert(spec_is_match(c, vs.last()));
                            assert(!spec_version_le(spec_ver_at(vs, rest), spec_ver_at(vs, i)));
                            lemma_version_order_total(
                                spec_ver_at(vs, i),
                                spec_ver_at(vs, rest),
                                spec_ver_at(vs, b),
                            );
                        }
                    }
                }
            }
        }
    }
}

/// An index holding a candidate that dominates every candidate, strictly so
/// after itself, is the selected index.
proof fn lemma_best_idx_unique(c: Seq<char>, vs: Seq<PvView>, b: int)
    requires
        0 <= b < vs.len(),
        spec_is_match(c, vs[b]),
        forall|i: int|
            0 <= i < vs.len() && spec_is_match(c, #[trigger] vs[i]) ==> spec_version_le(
                spec_ver_at(vs, i),
                spec_ver_at(vs, b),
            ),
        forall|i: int|
            b < i < vs.len() && spec_is_match(c, #[trigger] vs[i]) ==> !spec_version_le(
                spec_ver_at(vs, b),
                spec_ver_at(vs, i),
            ),
    ensures
        spec_best_idx(c, vs) == b,
    decreases vs.len(),
{
    lemma_best_idx_bounds(c, vs.drop_last());
    assert(forall|i: int| 0 <= i < vs.len() - 1 ==> vs.drop_last()[i] == #[trigger] vs[i]);
    let rest = spec_best_idx(c, vs.drop_last());
    if b == vs.len() - 1 {
        if rest >= 0 {
            assert(spec_is_match(c, vs[rest]));
            assert(spec_version_le(spec_ver_at(vs, rest), spec_ver_at(vs, b)));
            assert(spec_ver_at(vs.drop_last(), rest) == spec_ver_at(vs, rest));
        }
    } else {
        lemma_best_idx_unique(c, vs.drop_last(), b);
        assert(spec_ver_at(vs.drop_last(), b) == spec_ver_at(vs, b));
        if spec_is_match(c, vs.last()) {
            assert(!spec_version_le(spec_ver_at(vs, b), spec_ver_at(vs, vs.len() - 1)));
        }
    }
}

/// Selection is a fixed point under caret regeneration: when a caret-shaped
/// constraint selects an entry, the caret constraint rebuilt from that
/// entry's parsed version selects the same entry of the unchanged list.
pub proof fn lemma_select_caret_fixed_point(
    c: Seq<char>,
    c2: Seq<char>,
    vs: Seq<PvView>,
    u: Version,
    ku: u8,
)
    requires
        forall|w: Version| #[trigger]
            spec_constraint_matches(encode_utf8(c), w) == spec_prim_matches(
                Prim::Caret(u, ku),
                w,
            ),
        spec_best_idx(c, vs) >= 0,
        forall|w: Version| #[trigger]
            spec_constraint_matches(encode_utf8(c2), w) == spec_prim_matches(
                Prim::Caret(spec_ver_at(vs, spec_best_idx(c, vs)), 3u8),
                w,
            ),
    ensures
        spec_best_idx(c2, vs) == spec_best_idx(c, vs),
{
    let b = spec_best_idx(c, vs);
    lemma_best_idx_bounds(c, vs);
    lemma_best_idx_max(c, vs);
    let v = spec_ver_at(vs, b);
    assert(spec_is_match(c, vs[b]));
    assert(spec_prim_matches(Prim::Caret(u, ku), v));
    assert(spec_is_match(c2, vs[b])) by {
        assert(spec_prim_matches(Prim::Caret(v, 3u8), v));
    }
    assert(forall|i: int|
        0 <= i < vs.len() && spec_is_match(c2, #[trigger] vs[i]) ==> spec_is_match(c, vs[i])) by {
        assert forall|i: int|
            0 <= i < vs.len() && spec_is_match(c2, #[trigger] vs[i]) implies spec_is_match(
            c,
            vs[i],
        ) by {
            let wi = spec_ver_at(vs, i);
            assert(spec_prim_matches(Prim::Caret(v, 3u8), wi));
            crate::version::lemma_caret_refine(u, ku, v, wi);
            assert(spec_constraint_matches(encode_utf8(c), wi));
        }
    }
    lemma_best_idx_unique(c2, vs, b);
}

} // verus!
