//! The version algebra: normalization of registry version strings to the
//! three-segment semantic form, a total order over that form, and the
//! constraint grammar (disjunctions of primitives) evaluated against it.
use crate::bytes::{contains_sub, is_digit, parse_num, spec_contains, spec_is_digit, spec_join,
    spec_parse_num, spec_split, spec_trim, split_seps, trim_bounds};
use vstd::prelude::*;
use vstd::string::StringSliceAdditionalSpecFns;

verus! {

/// The byte `.`, the segment separator.
pub const DOT: u8 = 46;

/// The byte `|`; two in a row separate disjuncts.
pub const PIPE: u8 = 124;

/// The byte `*`, the wildcard.
pub const STAR: u8 = 42;

/// The byte `^`, the caret operator.
pub const CARET: u8 = 94;

/// The byte `~`, the tilde operator.
pub const TILDE: u8 = 126;

/// The byte `>`.
pub const GT: u8 = 62;

/// The byte `<`.
pub const LT: u8 = 60;

/// The byte `=`.
pub const EQ: u8 = 61;

/// The byte `-`, introducing a pre-release suffix.
pub const HYPHEN: u8 = 45;

/// The byte `+`, introducing build metadata.
pub const PLUS: u8 = 43;

/// The byte `v`, the optional version-string marker.
pub const LOWER_V: u8 = 118;

/// Pre-release rank in ascending order: dev < alpha < beta < RC < stable.
#[derive(Clone, Copy, PartialEq, Eq, Structural, Debug)]
pub enum Stability {
    Dev,
    Alpha,
    Beta,
    Rc,
    Stable,
}

/// Numeric rank of a stability class, for comparisons.
pub open spec fn stability_rank(s: Stability) -> int {
    match s {
        Stability::Dev => 0,
        Stability::Alpha => 1,
        Stability::Beta => 2,
        Stability::Rc => 3,
        Stability::Stable => 4,
    }
}

/// A version reduced to the three-segment semantic form the algebra compares.
#[derive(Clone, Copy, PartialEq, Eq, Structural, Debug)]
pub struct Version {
    pub major: u64,
    pub minor: u64,
    pub patch: u64,
    pub pre: Stability,
}

/// Total order on versions: lexicographic on (major, minor, patch), then by
/// pre-release rank, a pre-release ordering below the stable release.
pub open spec fn spec_version_le(a: Version, b: Version) -> bool {
    if a.major != b.major {
        a.major < b.major
    } else if a.minor != b.minor {
        a.minor < b.minor
    } else if a.patch != b.patch {
        a.patch < b.patch
    } else {
        stability_rank(a.pre) <= stability_rank(b.pre)
    }
}

pub open spec fn spec_version_lt(a: Version, b: Version) -> bool {
    spec_version_le(a, b) && a != b
}

pub fn stability_rank_u8(s: Stability) -> (r: u8)
    ensures
        r as int == stability_rank(s),
{
    match s {
        Stability::Dev => 0,
        Stability::Alpha => 1,
        Stability::Beta => 2,
        Stability::Rc => 3,
        Stability::Stable => 4,
    }
}

pub fn version_le(a: &Version, b: &Version) -> (r: bool)
    ensures
        r == spec_version_le(*a, *b),
{
    if a.major != b.major {
        a.major < b.major
    } else if a.minor != b.minor {
        a.minor < b.minor
    } else if a.patch != b.patch {
        a.patch < b.patch
    } else {
        stability_rank_u8(a.pre) <= stability_rank_u8(b.pre)
    }
}

/// The order is total: reflexive, antisymmetric, transitive, and any two
/// versions are comparable.
pub proof fn lemma_version_order_total(a: Version, b: Version, c: Version)
    ensures
        spec_version_le(a, a),
        spec_version_le(a, b) && spec_version_le(b, a) ==> a == b,
        spec_version_le(a, b) && spec_version_le(b, c) ==> spec_version_le(a, c),
        spec_version_le(a, b) || spec_version_le(b, a),
{
}

/// A registry version string with one leading `v` marker removed.
pub open spec fn spec_strip_v(s: Seq<u8>) -> Seq<u8> {
    if s.len() > 0 && s[0] == LOWER_V {
        s.drop_first()
    } else {
        s
    }
}

/// Normalization to the three-segment form: strip a leading `v`, split on
/// dots, fail below three segments, keep exactly the first three.
pub open spec fn spec_to_semantic(s: Seq<u8>) -> Option<Seq<u8>> {
    let t = spec_strip_v(s);
    let segs = spec_split(t, DOT);
    if t.len() == 0 || segs.len() < 3 {
        None
    } else {
        Some(spec_join(segs.take(3), DOT))
    }
}

pub open spec fn kw_dev() -> Seq<u8> {
    seq![100u8, 101u8, 118u8]
}

pub open spec fn kw_alpha() -> Seq<u8> {
    seq![97u8, 108u8, 112u8, 104u8, 97u8]
}

pub open spec fn kw_beta() -> Seq<u8> {
    seq![98u8, 101u8, 116u8, 97u8]
}

pub open spec fn kw_rc() -> Seq<u8> {
    seq![82u8, 67u8]
}

/// Pre-release rank read off a suffix: the first of the marker words found,
/// in ascending rank order; a suffix without a marker counts as stable.
pub open spec fn spec_pre_of_suffix(suf: Seq<u8>) -> Stability {
    if spec_contains(suf, kw_dev()) {
        Stability::Dev
    } else if spec_contains(suf, kw_alpha()) {
        Stability::Alpha
    } else if spec_contains(suf, kw_beta()) {
        Stability::Beta
    } else if spec_contains(suf, kw_rc()) {
        Stability::Rc
    } else {
        Stability::Stable
    }
}

/// Length of the leading digit run of a byte string.
pub open spec fn digits_prefix_len(s: Seq<u8>) -> int
    decreases s.len(),
{
    if s.len() > 0 && spec_is_digit(s[0]) {
        1 + digits_prefix_len(s.drop_first())
    } else {
        0
    }
}

pub proof fn lemma_digits_prefix_len(s: Seq<u8>, k: int)
    requires
        0 <= k <= s.len(),
        forall|i: int| 0 <= i < k ==> spec_is_digit(s[i]),
        k < s.len() ==> !spec_is_digit(s[k]),
    ensures
        digits_prefix_len(s) == k,
    decreases k,
{
    if k == 0 {
    } else {
        assert(s.drop_first() =~= s.skip(1));
        lemma_digits_prefix_len(s.skip(1), k - 1);
    }
}

/// The patch segment: a digit run, optionally followed by a pre-release
/// suffix introduced by `-` (ranked by its marker word) or by build metadata
/// introduced by `+` (ignored for ranking).
pub open spec fn spec_parse_segment3(s: Seq<u8>) -> Option<(u64, Stability)> {
    let k = digits_prefix_len(s);
    let digits = s.take(k);
    let suf = s.skip(k);
    match spec_parse_num(digits) {
        Some(pa) => {
            if suf.len() == 0 {
                Some((pa, Stability::Stable))
            } else if suf[0] == HYPHEN {
                Some((pa, spec_pre_of_suffix(suf)))
            } else if suf[0] == PLUS {
                Some((pa, Stability::Stable))
            } else {
                None
            }
        },
        None => None,
    }
}

/// Parsing a version string: normalization's first three segments, the first
/// two numeric, the third a patch segment.
pub open spec fn spec_parse_version(s: Seq<u8>) -> Option<Version> {
    let t = spec_strip_v(s);
    let segs = spec_split(t, DOT);
    if segs.len() < 3 {
        None
    } else {
        match (spec_parse_num(segs[0]), spec_parse_num(segs[1]), spec_parse_segment3(segs[2])) {
            (Some(ma), Some(mi), Some((pa, pre))) => Some(
                Version { major: ma, minor: mi, patch: pa, pre },
            ),
            _ => None,
        }
    }
}

/// A primitive constraint. Wildcard forms carry the fixed leading segments;
/// caret and tilde keep how many segments were written, which fixes their
/// upper bound.
#[derive(Clone, Copy, PartialEq, Eq, Structural, Debug)]
pub enum Prim {
    Any,
    WildMajor(u64),
    WildMinor(u64, u64),
    Exact(Version),
    Caret(Version, u8),
    Tilde(Version, u8),
    Ge(Version),
    Gt(Version),
    Le(Version),
    Lt(Version),
}

/// The caret range keeps the leftmost non-zero written segment fixed.
pub open spec fn spec_caret_within(u: Version, nsegs: int, w: Version) -> bool {
    if nsegs <= 1 {
        w.major == u.major
    } else if nsegs == 2 {
        if u.major > 0 {
            w.major == u.major
        } else {
            w.major == 0 && w.minor == u.minor
        }
    } else {
        if u.major > 0 {
            w.major == u.major
        } else if u.minor > 0 {
            w.major == 0 && w.minor == u.minor
        } else {
            w.major == 0 && w.minor == 0 && w.patch == u.patch
        }
    }
}

/// The tilde range keeps the written segments fixed up to the minor.
pub open spec fn spec_tilde_within(u: Version, nsegs: int, w: Version) -> bool {
    if nsegs <= 1 {
        w.major == u.major
    } else {
        w.major == u.major && w.minor == u.minor
    }
}

pub open spec fn spec_prim_matches(p: Prim, w: Version) -> bool {
    match p {
        Prim::Any => true,
        Prim::WildMajor(m) => w.major == m,
        Prim::WildMinor(m, n) => w.major == m && w.minor == n,
        Prim::Exact(u) => w == u,
        Prim::Caret(u, k) => spec_version_le(u, w) && spec_caret_within(u, k as int, w),
        Prim::Tilde(u, k) => spec_version_le(u, w) && spec_tilde_within(u, k as int, w),
        Prim::Ge(u) => spec_version_le(u, w),
        Prim::Gt(u) => spec_version_lt(u, w),
        Prim::Le(u) => spec_version_le(w, u),
        Prim::Lt(u) => spec_version_lt(w, u),
    }
}

/// A partial version for a primitive: one to three dot-separated segments,
/// missing segments read as zero, a suffix allowed on the third alone.
pub open spec fn spec_parse_partial(s: Seq<u8>) -> Option<(Version, u8)> {
    let segs = spec_split(s, DOT);
    if segs.len() == 1 {
        match spec_parse_num(segs[0]) {
            Some(ma) => Some(
                (Version { major: ma, minor: 0, patch: 0, pre: Stability::Stable }, 1u8),
            ),
            None => None,
        }
    } else if segs.len() == 2 {
        match (spec_parse_num(segs[0]), spec_parse_num(segs[1])) {
            (Some(ma), Some(mi)) => Some(
                (Version { major: ma, minor: mi, patch: 0, pre: Stability::Stable }, 2u8),
            ),
            _ => None,
        }
    } else if segs.len() == 3 {
        match (spec_parse_num(segs[0]), spec_parse_num(segs[1]), spec_parse_segment3(segs[2])) {
            (Some(ma), Some(mi), Some((pa, pre))) => Some(
                (Version { major: ma, minor: mi, patch: pa, pre }, 3u8),
            ),
            _ => None,
        }
    } else {
        None
    }
}

/// The exact family: `*`, partial versions (missing segments free), and
/// trailing `.*` wildcards, which read the same as the partial they extend.
pub open spec fn spec_parse_exact_family(d: Seq<u8>) -> Option<Prim> {
    let segs = spec_split(d, DOT);
    if d == seq![STAR] {
        Some(Prim::Any)
    } else if segs.len() == 1 {
        match spec_parse_num(segs[0]) {
            Some(ma) => Some(Prim::WildMajor(ma)),
            None => None,
        }
    } else if segs.len() == 2 {
        if segs[1] == seq![STAR] {
            match spec_parse_num(segs[0]) {
                Some(ma) => Some(Prim::WildMajor(ma)),
                None => None,
            }
        } else {
            match (spec_parse_num(segs[0]), spec_parse_num(segs[1])) {
                (Some(ma), Some(mi)) => Some(Prim::WildMinor(ma, mi)),
                _ => None,
            }
        }
    } else if segs.len() == 3 {
        if segs[1] == seq![STAR] && segs[2] == seq![STAR] {
            match spec_parse_num(segs[0]) {
                Some(ma) => Some(Prim::WildMajor(ma)),
                None => None,
            }
        } else if segs[2] == seq![STAR] {
            match (spec_parse_num(segs[0]), spec_parse_num(segs[1])) {
                (Some(ma), Some(mi)) => Some(Prim::WildMinor(ma, mi)),
                _ => None,
            }
        } else {
            match (spec_parse_num(segs[0]), spec_parse_num(segs[1]), spec_parse_segment3(
                segs[2],
            )) {
                (Some(ma), Some(mi), Some((pa, pre))) => Some(
                    Prim::Exact(Version { major: ma, minor: mi, patch: pa, pre }),
                ),
                _ => None,
            }
        }
    } else {
        None
    }
}

/// Parsing one trimmed disjunct as a primitive.
pub open spec fn spec_parse_prim(d: Seq<u8>) -> Option<Prim> {
    if d.len() == 0 {
        None
    } else if d[0] == CARET {
        match spec_parse_partial(spec_trim(d.skip(1))) {
            Some((v, k)) => Some(Prim::Caret(v, k)),
            None => None,
        }
    } else if d[0] == TILDE {
        match spec_parse_partial(spec_trim(d.skip(1))) {
            Some((v, k)) => Some(Prim::Tilde(v, k)),
            None => None,
        }
    } else if d.len() >= 2 && d[0] == GT && d[1] == EQ {
        match spec_parse_partial(spec_trim(d.skip(2))) {
            Some((v, _)) => Some(Prim::Ge(v)),
            None => None,
        }
    } else if d.len() >= 2 && d[0] == LT && d[1] == EQ {
        match spec_parse_partial(spec_trim(d.skip(2))) {
            Some((v, _)) => Some(Prim::Le(v)),
            None => None,
        }
    } else if d[0] == GT {
        match spec_parse_partial(spec_trim(d.skip(1))) {
            Some((v, _)) => Some(Prim::Gt(v)),
            None => None,
        }
    } else if d[0] == LT {
        match spec_parse_partial(spec_trim(d.skip(1))) {
            Some((v, _)) => Some(Prim::Lt(v)),
            None => None,
        }
    } else if d[0] == EQ {
        spec_parse_exact_family(spec_trim(d.skip(1)))
    } else {
        spec_parse_exact_family(d)
    }
}

/// Splitting a constraint on the two-byte `||` separator, scanning left to
/// right without overlap.
pub open spec fn spec_split_or(s: Seq<u8>) -> Seq<Seq<u8>>
    decreases s.len(),
{
    if s.len() < 2 {
        seq![s]
    } else if s[0] == PIPE && s[1] == PIPE {
        seq![Seq::<u8>::empty()] + spec_split_or(s.skip(2))
    } else {
        let r = spec_split_or(s.drop_first());
        seq![seq![s[0]] + r[0]] + r.drop_first()
    }
}

pub proof fn lemma_split_or_nonempty(s: Seq<u8>)
    ensures
        spec_split_or(s).len() >= 1,
    decreases s.len(),
{
    if s.len() >= 2 {
        if s[0] == PIPE && s[1] == PIPE {
            lemma_split_or_nonempty(s.skip(2));
        } else {
            lemma_split_or_nonempty(s.drop_first());
        }
    }
}

/// A `||` occurrence, as a position.
pub open spec fn or_sep_at(s: Seq<u8>, i: int) -> bool {
    0 <= i && i + 2 <= s.len() && s[i] == PIPE && s[i + 1] == PIPE
}

/// The first disjunct extends to the first separator occurrence.
pub proof fn lemma_split_or_at_first_sep(s: Seq<u8>, k: int)
    requires
        or_sep_at(s, k),
        forall|i: int| 0 <= i < k ==> !or_sep_at(s, i),
    ensures
        spec_split_or(s) == seq![s.take(k)] + spec_split_or(s.skip(k + 2)),
    decreases k,
{
    if k == 0 {
        assert(s.take(0) =~= Seq::<u8>::empty());
        assert(spec_split_or(s) =~~= seq![s.take(0)] + spec_split_or(s.skip(2)));
    } else {
        let t = s.drop_first();
        assert(t =~= s.skip(1));
        assert(or_sep_at(t, k - 1));
        assert(forall|i: int| #![trigger or_sep_at(t, i)] 0 <= i < k - 1 ==> !or_sep_at(t, i)) by {
            assert(forall|i: int|
                #![trigger or_sep_at(t, i)]
                0 <= i < k - 1 && or_sep_at(t, i) ==> or_sep_at(s, i + 1));
        }
        lemma_split_or_at_first_sep(t, k - 1);
        lemma_split_or_nonempty(t.skip(k + 1));
        assert(!(s[0] == PIPE && s[1] == PIPE)) by {
            assert(!or_sep_at(s, 0));
        }
        assert(t.skip(k + 1) =~= s.skip(k + 2));
        assert(seq![s[0]] + t.take(k - 1) =~= s.take(k));
        lemma_split_or_nonempty(s.skip(k + 2));
        assert(spec_split_or(s) =~~= seq![s.take(k)] + spec_split_or(s.skip(k + 2)));
    }
}

/// A byte string without a separator occurrence is one disjunct.
pub proof fn lemma_split_or_no_sep(s: Seq<u8>)
    requires
        forall|i: int| !or_sep_at(s, i),
    ensures
        spec_split_or(s) == seq![s],
    decreases s.len(),
{
    if s.len() < 2 {
    } else {
        assert(!or_sep_at(s, 0));
        let t = s.drop_first();
        assert(t =~= s.skip(1));
        assert(forall|i: int| #![trigger or_sep_at(t, i)] !or_sep_at(t, i)) by {
            assert(forall|i: int|
                #![trigger or_sep_at(t, i)]
                0 <= i && or_sep_at(t, i) ==> or_sep_at(s, i + 1));
        }
        lemma_split_or_no_sep(t);
        assert(seq![s[0]] + t =~= s);
        assert(spec_split_or(s) =~~= seq![s]);
    }
}

/// Splits a constraint on `||`, returning piece boundaries into the input.
pub fn split_or_seps(s: &[u8]) -> (r: Vec<(usize, usize)>)
    ensures
        r@.len() == spec_split_or(s@).len(),
        forall|j: int|
            0 <= j < r@.len() ==> (#[trigger] r@[j]).0 <= r@[j].1 <= s@.len() && s@.subrange(
                r@[j].0 as int,
                r@[j].1 as int,
            ) == spec_split_or(s@)[j],
{
    let n = s.len();
    let mut r: Vec<(usize, usize)> = Vec::new();
    let mut start: usize = 0;
    let mut i: usize = 0;
    proof {
        lemma_split_or_nonempty(s@);
        assert(s@.skip(0int) =~= s@);
        let f = |p: (usize, usize)| s@.subrange(p.0 as int, p.1 as int);
        assert(r@.map_values(f) + spec_split_or(s@) =~~= spec_split_or(s@));
    }
    while i < n
        invariant
            0 <= start <= i <= n,
            n == s@.len(),
            forall|j: int| 0 <= j < r@.len() ==> (#[trigger] r@[j]).0 <= r@[j].1 <= n,
            forall|t: int|
                #![trigger or_sep_at(s@.skip(start as int), t)]
                0 <= t < i - start ==> !or_sep_at(s@.skip(start as int), t),
            spec_split_or(s@) == r@.map_values(
                |p: (usize, usize)| s@.subrange(p.0 as int, p.1 as int),
            ) + spec_split_or(s@.skip(start as int)),
        decreases n - i,
    {
        if i + 1 < n && s[i] == 124 && s[i + 1] == 124 {
            proof {
                let rem = s@.skip(start as int);
                assert(or_sep_at(rem, i - start));
                assert(forall|t: int| 0 <= t < i - start ==> !or_sep_at(rem, t));
                lemma_split_or_at_first_sep(rem, i - start);
                assert(rem.take(i - start) =~= s@.subrange(start as int, i as int));
                assert(rem.skip(i - start + 2) =~= s@.skip(i + 2));
                let f = |p: (usize, usize)| s@.subrange(p.0 as int, p.1 as int);
                assert(r@.push((start, i)).map_values(f) =~= r@.map_values(f) + seq![
                    s@.subrange(start as int, i as int),
                ]);
                assert(r@.push((start, i)).map_values(f) + spec_split_or(s@.skip(i + 2))
                    =~~= r@.map_values(f) + (seq![rem.take(i - start)] + spec_split_or(
                    rem.skip(i - start + 2),
                )));
            }
            r.push((start, i));
            start = i + 2;
            i = start;
        } else {
            proof {
                let rem = s@.skip(start as int);
                if i - start + 2 <= rem.len() {
                    assert(rem[i - start] == s@[i as int]);
                    assert(rem[i - start + 1] == s@[i + 1]);
                }
                assert(!or_sep_at(rem, i - start));
            }
            i += 1;
        }
    }
    proof {
        let rem = s@.skip(start as int);
        assert(forall|t: int| #![trigger or_sep_at(rem, t)] !or_sep_at(rem, t)) by {
            assert(forall|t: int|
                #![trigger or_sep_at(rem, t)]
                0 <= t && t + 2 <= rem.len() ==> t < i - start);
        }
        lemma_split_or_no_sep(rem);
        assert(rem =~= s@.subrange(start as int, n as int));
        let f = |p: (usize, usize)| s@.subrange(p.0 as int, p.1 as int);
        assert(r@.push((start, n)).map_values(f) =~= r@.map_values(f) + seq![
            s@.subrange(start as int, n as int),
        ]);
        assert(r@.push((start, n)).map_values(f) =~~= spec_split_or(s@));
    }
    let ghost rpre = r@;
    r.push((start, n));
    proof {
        let f = |p: (usize, usize)| s@.subrange(p.0 as int, p.1 as int);
        assert(forall|j: int| 0 <= j < rpre.len() ==> r@[j] == rpre[j]);
        assert(r@[r@.len() - 1] == (start, n));
        assert(forall|j: int|
            0 <= j < r@.len() ==> spec_split_or(s@)[j] == r@.map_values(f)[j] && (
            #[trigger] r@[j]).0 <= r@[j].1 <= n);
    }
    r
}

/// A disjunct matches when it trims and parses to a primitive accepting the
/// version.
pub open spec fn spec_disjunct_matches(d: Seq<u8>, w: Version) -> bool {
    match spec_parse_prim(spec_trim(d)) {
        Some(p) => spec_prim_matches(p, w),
        None => false,
    }
}

/// Some disjunct in the list matches.
pub open spec fn any_disjunct(ds: Seq<Seq<u8>>, w: Version) -> bool {
    exists|i: int| 0 <= i < ds.len() && spec_disjunct_matches(#[trigger] ds[i], w)
}

pub open spec fn spec_constraint_matches(c: Seq<u8>, w: Version) -> bool {
    any_disjunct(spec_split_or(c), w)
}

/// Constraint evaluation: false when the version does not parse; otherwise
/// true exactly when some disjunct parses and matches.
pub open spec fn spec_matches(c: Seq<u8>, v: Seq<u8>) -> bool {
    match spec_parse_version(v) {
        Some(w) => spec_constraint_matches(c, w),
        None => false,
    }
}


/// Marker word "dev" as bytes.
fn kw_dev_vec() -> (v: Vec<u8>)
    ensures
        v@ == kw_dev(),
{
    let mut v: Vec<u8> = Vec::new();
    v.push(100);
    v.push(101);
    v.push(118);
    proof {
        assert(v@ =~= kw_dev());
    }
    v
}

/// Marker word "alpha" as bytes.
fn kw_alpha_vec() -> (v: Vec<u8>)
    ensures
        v@ == kw_alpha(),
{
    let mut v: Vec<u8> = Vec::new();
    v.push(97);
    v.push(108);
    v.push(112);
    v.push(104);
    v.push(97);
    proof {
        assert(v@ =~= kw_alpha());
    }
    v
}

/// Marker word "beta" as bytes.
fn kw_beta_vec() -> (v: Vec<u8>)
    ensures
        v@ == kw_beta(),
{
    let mut v: Vec<u8> = Vec::new();
    v.push(98);
    v.push(101);
    v.push(116);
    v.push(97);
    proof {
        assert(v@ =~= kw_beta());
    }
    v
}

/// Marker word "RC" as bytes.
fn kw_rc_vec() -> (v: Vec<u8>)
    ensures
        v@ == kw_rc(),
{
    let mut v: Vec<u8> = Vec::new();
    v.push(82);
    v.push(67);
    proof {
        assert(v@ =~= kw_rc());
    }
    v
}

fn pre_of_suffix(suf: &[u8]) -> (r: Stability)
    ensures
        r == spec_pre_of_suffix(suf@),
{
    let dev = kw_dev_vec();
    if contains_sub(suf, dev.as_slice()) {
        return Stability::Dev;
    }
    let alpha = kw_alpha_vec();
    if contains_sub(suf, alpha.as_slice()) {
        return Stability::Alpha;
    }
    let beta = kw_beta_vec();
    if contains_sub(suf, beta.as_slice()) {
        return Stability::Beta;
    }
    let rc = kw_rc_vec();
    if contains_sub(suf, rc.as_slice()) {
        return Stability::Rc;
    }
    Stability::Stable
}

/// A normalized version string counts as stable when no pre-release marker
/// word occurs anywhere in it.
pub open spec fn spec_is_stable(s: Seq<u8>) -> bool {
    &&& !spec_contains(s, kw_dev())
    &&& !spec_contains(s, kw_alpha())
    &&& !spec_contains(s, kw_beta())
    &&& !spec_contains(s, kw_rc())
}

pub fn is_stable(s: &str) -> (r: bool)
    ensures
        r == spec_is_stable(s.spec_bytes()),
{
    let b = s.as_bytes();
    let dev = kw_dev_vec();
    if contains_sub(b, dev.as_slice()) {
        return false;
    }
    let alpha = kw_alpha_vec();
    if contains_sub(b, alpha.as_slice()) {
        return false;
    }
    let beta = kw_beta_vec();
    if contains_sub(b, beta.as_slice()) {
        return false;
    }
    let rc = kw_rc_vec();
    if contains_sub(b, rc.as_slice()) {
        return false;
    }
    true
}

fn parse_segment3(s: &[u8]) -> (r: Option<(u64, Stability)>)
    ensures
        r == spec_parse_segment3(s@),
{
    let n = s.len();
    let mut k: usize = 0;
    while k < n && is_digit(s[k])
        invariant
            0 <= k <= n,
            n == s@.len(),
            forall|i: int| 0 <= i < k ==> spec_is_digit(s@[i]),
        decreases n - k,
    {
        k += 1;
    }
    proof {
        lemma_digits_prefix_len(s@, k as int);
        assert(s@.subrange(0, k as int) =~= s@.take(k as int));
        assert(s@.subrange(k as int, n as int) =~= s@.skip(k as int));
    }
    let pa = match parse_num(&s[0..k]) {
        Some(x) => x,
        None => {
            return None;
        },
    };
    if k == n {
        Some((pa, Stability::Stable))
    } else if s[k] == HYPHEN {
        let pre = pre_of_suffix(&s[k..n]);
        Some((pa, pre))
    } else if s[k] == PLUS {
        Some((pa, Stability::Stable))
    } else {
        None
    }
}

fn parse_partial(s: &[u8]) -> (r: Option<(Version, u8)>)
    ensures
        r == spec_parse_partial(s@),
{
    let segs = split_seps(s, DOT);
    if segs.len() == 1 {
        let (a, b) = segs[0];
        match parse_num(&s[a..b]) {
            Some(ma) => Some((Version { major: ma, minor: 0, patch: 0, pre: Stability::Stable }, 1)),
            None => None,
        }
    } else if segs.len() == 2 {
        let (a0, b0) = segs[0];
        let (a1, b1) = segs[1];
        let ma = match parse_num(&s[a0..b0]) {
            Some(x) => x,
            None => {
                return None;
            },
        };
        match parse_num(&s[a1..b1]) {
            Some(mi) => Some((Version { major: ma, minor: mi, patch: 0, pre: Stability::Stable }, 2)),
            None => None,
        }
    } else if segs.len() == 3 {
        let (a0, b0) = segs[0];
        let (a1, b1) = segs[1];
        let (a2, b2) = segs[2];
        let ma = match parse_num(&s[a0..b0]) {
            Some(x) => x,
            None => {
                return None;
            },
        };
        let mi = match parse_num(&s[a1..b1]) {
            Some(x) => x,
            None => {
                return None;
            },
        };
        match parse_segment3(&s[a2..b2]) {
            Some((pa, pre)) => Some((Version { major: ma, minor: mi, patch: pa, pre }, 3)),
            None => None,
        }
    } else {
        None
    }
}

/// Decides whether the piece `s[a..b]` is the single byte `*`.
fn piece_is_star(s: &[u8], a: usize, b: usize) -> (r: bool)
    requires
        a <= b <= s@.len(),
    ensures
        r == (s@.subrange(a as int, b as int) == seq![STAR]),
{
    if b - a == 1 && s[a] == STAR {
        proof {
            assert(s@.subrange(a as int, b as int) =~= seq![STAR]);
        }
        true
    } else {
        proof {
            assert(s@.subrange(a as int, b as int).len() == b - a);
            if s@.subrange(a as int, b as int) == seq![STAR] {
                assert(seq![STAR].len() == 1);
                assert(b - a == 1);
                assert(s@.subrange(a as int, b as int)[0] == s@[a as int]);
                assert(seq![STAR][0] == STAR);
            }
        }
        false
    }
}

fn parse_exact_family(d: &[u8]) -> (r: Option<Prim>)
    ensures
        r == spec_parse_exact_family(d@),
{
    let n = d.len();
    if n == 1 && d[0] == STAR {
        proof {
            assert(d@ =~= seq![STAR]);
        }
        return Some(Prim::Any);
    }
    proof {
        if d@ == seq![STAR] {
            assert(d@.len() == 1);
            assert(d@[0] == STAR);
        }
    }
    let segs = split_seps(d, DOT);
    if segs.len() == 1 {
        let (a, b) = segs[0];
        match parse_num(&d[a..b]) {
            Some(ma) => Some(Prim::WildMajor(ma)),
            None => None,
        }
    } else if segs.len() == 2 {
        let (a0, b0) = segs[0];
        let (a1, b1) = segs[1];
        if piece_is_star(d, a1, b1) {
            match parse_num(&d[a0..b0]) {
                Some(ma) => Some(Prim::WildMajor(ma)),
                None => None,
            }
        } else {
            let ma = match parse_num(&d[a0..b0]) {
                Some(x) => x,
                None => {
                    return None;
                },
            };
            match parse_num(&d[a1..b1]) {
                Some(mi) => Some(Prim::WildMinor(ma, mi)),
                None => None,
            }
        }
    } else if segs.len() == 3 {
        let (a0, b0) = segs[0];
        let (a1, b1) = segs[1];
        let (a2, b2) = segs[2];
        if piece_is_star(d, a1, b1) && piece_is_star(d, a2, b2) {
            match parse_num(&d[a0..b0]) {
                Some(ma) => Some(Prim::WildMajor(ma)),
                None => None,
            }
        } else if piece_is_star(d, a2, b2) {
            let ma = match parse_num(&d[a0..b0]) {
                Some(x) => x,
                None => {
                    return None;
                },
            };
            match parse_num(&d[a1..b1]) {
                Some(mi) => Some(Prim::WildMinor(ma, mi)),
                None => None,
            }
        } else {
            let ma = match parse_num(&d[a0..b0]) {
                Some(x) => x,
                None => {
                    return None;
                },
            };
            let mi = match parse_num(&d[a1..b1]) {
                Some(x) => x,
                None => {
                    return None;
                },
            };
            match parse_segment3(&d[a2..b2]) {
                Some((pa, pre)) => Some(Prim::Exact(Version { major: ma, minor: mi, patch: pa, pre })),
                None => None,
            }
        }
    } else {
        None
    }
}

/// Trims `d[from..]` and parses it as a partial version.
fn parse_partial_after(d: &[u8], from: usize) -> (r: Option<(Version, u8)>)
    requires
        from <= d@.len(),
    ensures
        r == spec_parse_partial(spec_trim(d@.skip(from as int))),
{
    let n = d.len();
    let rest = &d[from..n];
    proof {
        assert(rest@ =~= d@.skip(from as int));
    }
    let (lo, hi) = trim_bounds(rest);
    parse_partial(&rest[lo..hi])
}

pub fn parse_prim(d: &[u8]) -> (r: Option<Prim>)
    ensures
        r == spec_parse_prim(d@),
{
    let n = d.len();
    if n == 0 {
        return None;
    }
    if d[0] == CARET {
        match parse_partial_after(d, 1) {
            Some((v, k)) => Some(Prim::Caret(v, k)),
            None => None,
        }
    } else if d[0] == TILDE {
        match parse_partial_after(d, 1) {
            Some((v, k)) => Some(Prim::Tilde(v, k)),
            None => None,
        }
    } else if n >= 2 && d[0] == GT && d[1] == EQ {
        match parse_partial_after(d, 2) {
            Some((v, _)) => Some(Prim::Ge(v)),
            None => None,
        }
    } else if n >= 2 && d[0] == LT && d[1] == EQ {
        match parse_partial_after(d, 2) {
            Some((v, _)) => Some(Prim::Le(v)),
            None => None,
        }
    } else if d[0] == GT {
        match parse_partial_after(d, 1) {
            Some((v, _)) => Some(Prim::Gt(v)),
            None => None,
        }
    } else if d[0] == LT {
        match parse_partial_after(d, 1) {
            Some((v, _)) => Some(Prim::Lt(v)),
            None => None,
        }
    } else if d[0] == EQ {
        let rest = &d[1..n];
        proof {
            assert(rest@ =~= d@.skip(1));
        }
        let (lo, hi) = trim_bounds(rest);
        parse_exact_family(&rest[lo..hi])
    } else {
        parse_exact_family(d)
    }
}

fn caret_within(u: &Version, nsegs: u8, w: &Version) -> (r: bool)
    ensures
        r == spec_caret_within(*u, nsegs as int, *w),
{
    if nsegs <= 1 {
        w.major == u.major
    } else if nsegs == 2 {
        if u.major > 0 {
            w.major == u.major
        } else {
            w.major == 0 && w.minor == u.minor
        }
    } else {
        if u.major > 0 {
            w.major == u.major
        } else if u.minor > 0 {
            w.major == 0 && w.minor == u.minor
        } else {
            w.major == 0 && w.minor == 0 && w.patch == u.patch
        }
    }
}

fn tilde_within(u: &Version, nsegs: u8, w: &Version) -> (r: bool)
    ensures
        r == spec_tilde_within(*u, nsegs as int, *w),
{
    if nsegs <= 1 {
        w.major == u.major
    } else {
        w.major == u.major && w.minor == u.minor
    }
}

pub fn prim_matches(p: &Prim, w: &Version) -> (r: bool)
    ensures
        r == spec_prim_matches(*p, *w),
{
    match p {
        Prim::Any => true,
        Prim::WildMajor(m) => w.major == *m,
        Prim::WildMinor(m, n) => w.major == *m && w.minor == *n,
        Prim::Exact(u) => version_le(u, w) && version_le(w, u),
        Prim::Caret(u, k) => version_le(u, w) && caret_within(u, *k, w),
        Prim::Tilde(u, k) => version_le(u, w) && tilde_within(u, *k, w),
        Prim::Ge(u) => version_le(u, w),
        Prim::Gt(u) => version_le(u, w) && !version_le(w, u),
        Prim::Le(u) => version_le(w, u),
        Prim::Lt(u) => version_le(w, u) && !version_le(u, w),
    }
}

pub fn parse_version_bytes(b: &[u8]) -> (r: Option<Version>)
    ensures
        r == spec_parse_version(b@),
{
    let n = b.len();
    let start: usize = if n > 0 && b[0] == LOWER_V {
        1
    } else {
        0
    };
    let t = &b[start..n];
    proof {
        assert(t@ =~= spec_strip_v(b@));
    }
    let segs = split_seps(t, DOT);
    if segs.len() < 3 {
        return None;
    }
    let (a0, b0) = segs[0];
    let (a1, b1) = segs[1];
    let (a2, b2) = segs[2];
    let ma = match parse_num(&t[a0..b0]) {
        Some(x) => x,
        None => {
            return None;
        },
    };
    let mi = match parse_num(&t[a1..b1]) {
        Some(x) => x,
        None => {
            return None;
        },
    };
    match parse_segment3(&t[a2..b2]) {
        Some((pa, pre)) => Some(Version { major: ma, minor: mi, patch: pa, pre }),
        None => None,
    }
}

/// Parses a registry version string into the three-segment semantic form.
pub fn to_rust_version(s: &str) -> (r: Option<Version>)
    ensures
        r == spec_parse_version(s.spec_bytes()),
{
    parse_version_bytes(s.as_bytes())
}

/// Evaluates a constraint expression against a version string: false when the
/// version does not parse, else true exactly when some `||`-disjunct trims,
/// parses as a primitive and accepts the version.
pub fn version_matches(req_str: &str, version_str: &str) -> (r: bool)
    ensures
        r == spec_matches(req_str.spec_bytes(), version_str.spec_bytes()),
{
    let w = match to_rust_version(version_str) {
        Some(w) => w,
        None => {
            return false;
        },
    };
    let c = req_str.as_bytes();
    let pieces = split_or_seps(c);
    let m = pieces.len();
    let mut i: usize = 0;
    while i < m
        invariant
            0 <= i <= m,
            m == pieces@.len(),
            m == spec_split_or(c@).len(),
            c@ == req_str.spec_bytes(),
            Some(w) == spec_parse_version(version_str.spec_bytes()),
            forall|j: int|
                0 <= j < m ==> (#[trigger] pieces@[j]).0 <= pieces@[j].1 <= c@.len()
                    && c@.subrange(pieces@[j].0 as int, pieces@[j].1 as int) == spec_split_or(
                    c@,
                )[j],
            forall|j: int|
                0 <= j < i ==> !spec_disjunct_matches(#[trigger] spec_split_or(c@)[j], w),
        decreases m - i,
    {
        let (a, b) = pieces[i];
        let d = &c[a..b];
        let (lo, hi) = trim_bounds(d);
        match parse_prim(&d[lo..hi]) {
            Some(p) => {
                if prim_matches(&p, &w) {
                    proof {
                        assert(spec_disjunct_matches(spec_split_or(c@)[i as int], w));
                    }
                    return true;
                }
            },
            None => {},
        }
        i += 1;
    }
    false
}


/// Normalization is idempotent: a version string that parses normalizes to a
/// three-segment form that normalizes to itself.
pub proof fn lemma_to_semantic_idempotent(s: Seq<u8>)
    requires
        spec_parse_version(s) is Some,
    ensures
        spec_to_semantic(s) is Some,
        spec_to_semantic(spec_to_semantic(s).unwrap()) == spec_to_semantic(s),
{
    let t = spec_strip_v(s);
    let segs = spec_split(t, DOT);
    crate::bytes::lemma_split_nonempty(t, DOT);
    crate::bytes::lemma_split_pieces_sep_free(t, DOT);
    assert(segs.len() >= 3);
    assert(spec_parse_num(segs[0]) is Some);
    assert(segs[0].len() > 0);
    if t.len() == 0 {
        assert(segs =~~= seq![Seq::<u8>::empty()]);
        assert(false);
    }
    let head = segs.take(3);
    let out = spec_join(head, DOT);
    assert(spec_to_semantic(s) == Some(out));
    assert(forall|j: int, k: int| 0 <= j < head.len() && 0 <= k < head[j].len() ==> head[j][k] != DOT);
    crate::bytes::lemma_split_join(head, DOT);
    assert(spec_split(out, DOT) == head);
    assert(out == head[0] + seq![DOT] + spec_join(head.drop_first(), DOT));
    assert(out[0] == segs[0][0]);
    assert(spec_is_digit(out[0]));
    assert(out[0] != LOWER_V);
    assert(out.len() > 0);
    assert(spec_strip_v(out) == out);
    assert(head.take(3) =~~= head);
    assert(spec_to_semantic(out) == Some(spec_join(head, DOT)));
}

/// Normalization ignores one leading `v`: prefixing `v` to a string that does
/// not itself begin with `v` changes neither the normal form nor the parse.
pub proof fn lemma_to_semantic_strip_v(x: Seq<u8>)
    requires
        x.len() == 0 || x[0] != LOWER_V,
    ensures
        spec_to_semantic(seq![LOWER_V] + x) == spec_to_semantic(x),
        spec_parse_version(seq![LOWER_V] + x) == spec_parse_version(x),
{
    let vx = seq![LOWER_V] + x;
    assert(vx[0] == LOWER_V);
    assert(vx.drop_first() =~= x);
    assert(spec_strip_v(vx) == x);
    assert(spec_strip_v(x) == x);
}

/// Within one primitive, matching is order-convex: a version lying between
/// two matching versions matches as well.
pub proof fn lemma_prim_convex(p: Prim, a: Version, b: Version, m: Version)
    requires
        spec_prim_matches(p, a),
        spec_prim_matches(p, b),
        spec_version_le(a, m),
        spec_version_le(m, b),
    ensures
        spec_prim_matches(p, m),
{
    lemma_version_order_total(a, m, b);
    lemma_version_order_total(m, b, a);
    match p {
        Prim::Any => {},
        Prim::WildMajor(x) => {},
        Prim::WildMinor(x, y) => {},
        Prim::Exact(u) => {
            assert(spec_version_le(m, a));
            assert(m == a);
        },
        Prim::Caret(u, k) => {
            lemma_version_order_total(u, a, m);
        },
        Prim::Tilde(u, k) => {
            lemma_version_order_total(u, a, m);
        },
        Prim::Ge(u) => {
            lemma_version_order_total(u, a, m);
        },
        Prim::Gt(u) => {
            lemma_version_order_total(u, a, m);
            if m == u {
                assert(spec_version_le(u, a));
                assert(spec_version_le(a, u));
                assert(a == u);
            }
        },
        Prim::Le(u) => {
            lemma_version_order_total(m, b, u);
        },
        Prim::Lt(u) => {
            lemma_version_order_total(m, b, u);
            if m == u {
                assert(spec_version_le(b, u));
                assert(spec_version_le(u, b));
                assert(b == u);
            }
        },
    }
}

/// A caret range regenerated from a member of a caret range refines it: if
/// `v` lies in `^u`'s range, everything in `^v`'s range lies in `^u`'s too.
pub proof fn lemma_caret_refine(u: Version, ku: u8, v: Version, w: Version)
    requires
        spec_prim_matches(Prim::Caret(u, ku), v),
        spec_prim_matches(Prim::Caret(v, 3u8), w),
    ensures
        spec_prim_matches(Prim::Caret(u, ku), w),
{
    lemma_version_order_total(u, v, w);
}

/// Position of the first `||` occurrence, or a negative value when none.
pub open spec fn first_or_sep(s: Seq<u8>) -> int
    decreases s.len(),
{
    if s.len() < 2 {
        -1
    } else if s[0] == PIPE && s[1] == PIPE {
        0
    } else {
        let r = first_or_sep(s.drop_first());
        if r < 0 {
            -1
        } else {
            r + 1
        }
    }
}

pub proof fn lemma_first_or_sep(s: Seq<u8>)
    ensures
        first_or_sep(s) >= 0 ==> or_sep_at(s, first_or_sep(s)) && (forall|i: int|
            #![trigger or_sep_at(s, i)]
            0 <= i < first_or_sep(s) ==> !or_sep_at(s, i)),
        first_or_sep(s) < 0 ==> forall|i: int| #![trigger or_sep_at(s, i)] !or_sep_at(s, i),
    decreases s.len(),
{
    if s.len() < 2 {
        assert(forall|i: int| #![trigger or_sep_at(s, i)] !or_sep_at(s, i));
    } else if s[0] == PIPE && s[1] == PIPE {
    } else {
        let t = s.drop_first();
        assert(t =~= s.skip(1));
        lemma_first_or_sep(t);
        assert(forall|i: int|
            #![trigger or_sep_at(s, i)]
            1 <= i && or_sep_at(s, i) ==> or_sep_at(t, i - 1));
        assert(forall|i: int|
            #![trigger or_sep_at(t, i)]
            0 <= i && or_sep_at(t, i) ==> or_sep_at(s, i + 1));
        assert(!or_sep_at(s, 0));
    }
}

proof fn lemma_any_disjunct_cons(d: Seq<u8>, ds: Seq<Seq<u8>>, w: Version)
    ensures
        any_disjunct(seq![d] + ds, w) == (spec_disjunct_matches(d, w) || any_disjunct(ds, w)),
{
    let all = seq![d] + ds;
    assert(all[0] == d);
    assert(forall|i: int| 0 <= i < ds.len() ==> all[i + 1] == #[trigger] ds[i]);
    if spec_disjunct_matches(d, w) {
        assert(spec_disjunct_matches(all[0], w));
        assert(any_disjunct(all, w));
    }
    if any_disjunct(ds, w) {
        let i = choose|i: int| 0 <= i < ds.len() && spec_disjunct_matches(#[trigger] ds[i], w);
        assert(spec_disjunct_matches(all[i + 1], w));
        assert(any_disjunct(all, w));
    }
    if any_disjunct(all, w) && !spec_disjunct_matches(d, w) {
        let i = choose|i: int| 0 <= i < all.len() && spec_disjunct_matches(#[trigger] all[i], w);
        assert(i != 0);
        assert(spec_disjunct_matches(ds[i - 1], w));
        assert(any_disjunct(ds, w));
    }
}

proof fn lemma_any_disjunct_single(d: Seq<u8>, w: Version)
    ensures
        any_disjunct(seq![d], w) == spec_disjunct_matches(d, w),
{
    let all = seq![d];
    assert(all[0] == d);
    if any_disjunct(all, w) {
        let i = choose|i: int| 0 <= i < all.len() && spec_disjunct_matches(#[trigger] all[i], w);
        assert(i == 0);
    }
    if spec_disjunct_matches(d, w) {
        assert(spec_disjunct_matches(all[0], w));
    }
}

/// The glue written between two constraints to form their disjunction.
pub open spec fn or_glue() -> Seq<u8> {
    seq![32u8, PIPE, PIPE, 32u8]
}

proof fn lemma_disjunct_ws_back(x: Seq<u8>, w: Version)
    ensures
        spec_disjunct_matches(x + seq![32u8], w) == spec_disjunct_matches(x, w),
{
    crate::bytes::lemma_trim_ws_back(32u8, x);
}

proof fn lemma_disjunct_ws_front(x: Seq<u8>, w: Version)
    ensures
        spec_disjunct_matches(seq![32u8] + x, w) == spec_disjunct_matches(x, w),
{
    crate::bytes::lemma_trim_ws_front(32u8, x);
}

/// A leading space does not change which disjunct matches.
proof fn lemma_split_or_ws_head(b: Seq<u8>, w: Version)
    ensures
        any_disjunct(spec_split_or(seq![32u8] + b), w) == any_disjunct(spec_split_or(b), w),
{
    let s = seq![32u8] + b;
    assert(s[0] == 32u8);
    assert(forall|i: int| 0 <= i < b.len() ==> s[i + 1] == #[trigger] b[i]);
    let k = first_or_sep(b);
    lemma_first_or_sep(b);
    if k >= 0 {
        assert(or_sep_at(s, k + 1));
        assert(forall|i: int| #![trigger or_sep_at(s, i)] 0 <= i < k + 1 ==> !or_sep_at(s, i)) by {
            assert(forall|i: int|
                #![trigger or_sep_at(s, i)]
                1 <= i < k + 1 && or_sep_at(s, i) ==> or_sep_at(b, i - 1));
            assert(!or_sep_at(s, 0));
        }
        lemma_split_or_at_first_sep(s, k + 1);
        lemma_split_or_at_first_sep(b, k);
        assert(s.take(k + 1) =~= seq![32u8] + b.take(k));
        assert(s.skip(k + 3) =~= b.skip(k + 2));
        lemma_any_disjunct_cons(s.take(k + 1), spec_split_or(s.skip(k + 3)), w);
        lemma_any_disjunct_cons(b.take(k), spec_split_or(b.skip(k + 2)), w);
        lemma_disjunct_ws_front(b.take(k), w);
    } else {
        assert(forall|i: int| #![trigger or_sep_at(s, i)] !or_sep_at(s, i)) by {
            assert(forall|i: int|
                #![trigger or_sep_at(s, i)]
                1 <= i && or_sep_at(s, i) ==> or_sep_at(b, i - 1));
            assert(!or_sep_at(s, 0));
        }
        lemma_split_or_no_sep(s);
        lemma_split_or_no_sep(b);
        lemma_any_disjunct_single(s, w);
        lemma_any_disjunct_single(b, w);
        lemma_disjunct_ws_front(b, w);
    }
}

proof fn lemma_split_or_concat_matches(a: Seq<u8>, b: Seq<u8>, w: Version)
    ensures
        any_disjunct(spec_split_or(a + or_glue() + b), w) == (any_disjunct(spec_split_or(a), w)
            || any_disjunct(spec_split_or(b), w)),
    decreases a.len(),
{
    let s = a + or_glue() + b;
    let n = a.len() as int;
    assert(forall|i: int| 0 <= i < n ==> s[i] == #[trigger] a[i]);
    assert(s[n] == 32u8);
    assert(s[n + 1] == PIPE);
    assert(s[n + 2] == PIPE);
    assert(s[n + 3] == 32u8);
    let k = first_or_sep(a);
    lemma_first_or_sep(a);
    if k >= 0 {
        assert(or_sep_at(s, k));
        assert(forall|i: int| #![trigger or_sep_at(s, i)] 0 <= i < k ==> !or_sep_at(s, i)) by {
            assert(forall|i: int|
                #![trigger or_sep_at(s, i)]
                0 <= i < k && or_sep_at(s, i) ==> or_sep_at(a, i));
        }
        lemma_split_or_at_first_sep(s, k);
        lemma_split_or_at_first_sep(a, k);
        assert(s.take(k) =~= a.take(k));
        assert(s.skip(k + 2) =~= a.skip(k + 2) + or_glue() + b);
        lemma_split_or_concat_matches(a.skip(k + 2), b, w);
        lemma_any_disjunct_cons(s.take(k), spec_split_or(s.skip(k + 2)), w);
        lemma_any_disjunct_cons(a.take(k), spec_split_or(a.skip(k + 2)), w);
    } else {
        assert(or_sep_at(s, n + 1));
        assert(forall|i: int| #![trigger or_sep_at(s, i)] 0 <= i < n + 1 ==> !or_sep_at(s, i)) by {
            assert(forall|i: int|
                #![trigger or_sep_at(s, i)]
                0 <= i && i + 1 < n && or_sep_at(s, i) ==> or_sep_at(a, i));
            assert(forall|i: int| #![trigger or_sep_at(s, i)]
                0 <= i < n + 1 && n - 1 <= i && or_sep_at(s, i) ==> false) by {
                assert(s[n] == 32u8);
                assert(n >= 1 ==> s[n - 1] == a[n - 1] || true);
            }
        }
        lemma_split_or_at_first_sep(s, n + 1);
        assert(s.take(n + 1) =~= a + seq![32u8]);
        assert(s.skip(n + 3) =~= seq![32u8] + b);
        lemma_split_or_no_sep(a);
        lemma_any_disjunct_cons(s.take(n + 1), spec_split_or(s.skip(n + 3)), w);
        lemma_disjunct_ws_back(a, w);
        lemma_any_disjunct_single(a, w);
        lemma_split_or_ws_head(b, w);
    }
}

/// Disjunction law: the constraint written "A || B" matches a version exactly
/// when A matches it or B matches it.
pub proof fn lemma_matches_disjunction(a: Seq<u8>, b: Seq<u8>, v: Seq<u8>)
    ensures
        spec_matches(a + or_glue() + b, v) == (spec_matches(a, v) || spec_matches(b, v)),
{
    match spec_parse_version(v) {
        Some(w) => {
            lemma_split_or_concat_matches(a, b, w);
        },
        None => {},
    }
}


/// Normalizes a version string to its three-segment form: one leading `v`
/// marker stripped, the first three dot-separated segments kept, fewer than
/// three segments failing.
pub fn to_semantic(s: &str) -> (r: Option<String>)
    ensures
        match r {
            Some(t) => spec_to_semantic(s.spec_bytes()) == Some(vstd::utf8::encode_utf8(t@)),
            None => spec_to_semantic(s.spec_bytes()) is None,
        },
{
    let b0 = s.as_bytes();
    let n0 = b0.len();
    let start: usize = if n0 > 0 && b0[0] == LOWER_V {
        1
    } else {
        0
    };
    proof {
        vstd::utf8::encode_utf8_valid_utf8(s@);
        if start == 1 {
            crate::bytes::lemma_boundary_after_ascii(s.spec_bytes(), 1);
        }
    }
    let (_, t) = s.split_at(start);
    proof {
        assert(t.spec_bytes() =~= spec_strip_v(s.spec_bytes()));
    }
    let tb = t.as_bytes();
    let pieces = crate::bytes::split_seps(tb, DOT);
    let ghost segs = spec_split(t.spec_bytes(), DOT);
    if pieces.len() < 3 {
        return None;
    }
    proof {
        if t.spec_bytes().len() == 0 {
            assert(segs =~~= seq![Seq::<u8>::empty()]);
            assert(false);
        }
    }
    let (a2, b2) = pieces[2];
    proof {
        vstd::utf8::encode_utf8_valid_utf8(t@);
        if 2 == pieces@.len() - 1 {
            assert(b2 == t.spec_bytes().len());
            vstd::utf8::is_char_boundary_start_end_of_seq(t.spec_bytes());
        } else {
            assert(t.spec_bytes()[b2 as int] == DOT);
            vstd::utf8::is_char_boundary_iff_not_is_continuation_byte(t.spec_bytes(), b2 as int);
        }
    }
    let (head, _) = t.split_at(b2);
    proof {
        let bts = t.spec_bytes();
        let (a0, e0) = pieces@[0];
        let (a1, e1) = pieces@[1];
        assert(a0 == 0);
        assert(a1 == e0 + 1 && bts[e0 as int] == DOT);
        assert(a2 == e1 + 1 && bts[e1 as int] == DOT);
        let s3 = segs.take(3);
        assert(s3[0] == segs[0] && s3[1] == segs[1] && s3[2] == segs[2]);
        assert(s3.drop_first() =~~= seq![segs[1], segs[2]]);
        assert(seq![segs[1], segs[2]].drop_first() =~~= seq![segs[2]]);
        assert(spec_join(seq![segs[2]], DOT) == segs[2]);
        assert(spec_join(seq![segs[1], segs[2]], DOT) == segs[1] + seq![DOT] + segs[2]);
        assert(spec_join(s3, DOT) == segs[0] + seq![DOT] + (segs[1] + seq![DOT] + segs[2]));
        assert(segs[0] == bts.subrange(0, e0 as int));
        assert(segs[1] == bts.subrange(a1 as int, e1 as int));
        assert(segs[2] == bts.subrange(a2 as int, b2 as int));
        assert(bts.subrange(0, b2 as int) =~= segs[0] + seq![DOT] + (segs[1] + seq![DOT]
            + segs[2]));
        assert(head.spec_bytes() == spec_join(s3, DOT));
        assert(spec_to_semantic(s.spec_bytes()) == Some(head.spec_bytes()));
    }
    Some(head.to_owned())
}


/// A constraint whose split has one disjunct matches exactly as that
/// disjunct does.
pub proof fn lemma_single_disjunct(c: Seq<u8>, w: Version)
    requires
        spec_split_or(c).len() == 1,
    ensures
        spec_constraint_matches(c, w) == spec_disjunct_matches(spec_split_or(c)[0], w),
{
    let ds = spec_split_or(c);
    if spec_disjunct_matches(ds[0], w) {
        assert(any_disjunct(ds, w));
    }
    if any_disjunct(ds, w) {
        let i = choose|i: int| 0 <= i < ds.len() && spec_disjunct_matches(#[trigger] ds[i], w);
        assert(i == 0);
    }
}


/// A constraint without a `||` separator evaluates as its single primitive.
pub proof fn lemma_prim_constraint(c: Seq<u8>, p: Prim, w: Version)
    requires
        forall|i: int| !or_sep_at(c, i),
        spec_parse_prim(spec_trim(c)) == Some(p),
    ensures
        spec_constraint_matches(c, w) == spec_prim_matches(p, w),
{
    lemma_split_or_no_sep(c);
    lemma_single_disjunct(c, w);
}

} // verus!