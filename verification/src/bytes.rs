//! Byte-level utilities shared by the parsing code: digit runs, separator
//! splitting and joining, whitespace trimming, substring search and
//! byte-string equality.
use vstd::prelude::*;
use vstd::string::StringSliceAdditionalSpecFns;

verus! {

/// True when `b` is an ASCII decimal digit.
pub open spec fn spec_is_digit(b: u8) -> bool {
    48 <= b <= 57
}

pub fn is_digit(b: u8) -> (r: bool)
    ensures
        r == spec_is_digit(b),
{
    48 <= b && b <= 57
}

pub open spec fn all_digits(s: Seq<u8>) -> bool {
    forall|i: int| 0 <= i < s.len() ==> spec_is_digit(s[i])
}

/// Numeric value of a digit run, most significant digit first.
pub open spec fn digits_val(s: Seq<u8>) -> int
    decreases s.len(),
{
    if s.len() == 0 {
        0
    } else {
        digits_val(s.drop_last()) * 10 + (s.last() - 48)
    }
}

pub proof fn lemma_digits_val_nonneg(s: Seq<u8>)
    requires
        all_digits(s),
    ensures
        digits_val(s) >= 0,
    decreases s.len(),
{
    if s.len() > 0 {
        assert(all_digits(s.drop_last()));
        lemma_digits_val_nonneg(s.drop_last());
    }
}

/// The value of a digit run bounds the value of each of its prefixes.
pub proof fn lemma_digits_val_prefix_le(s: Seq<u8>, i: int)
    requires
        all_digits(s),
        0 <= i <= s.len(),
    ensures
        digits_val(s.take(i)) <= digits_val(s),
    decreases s.len() - i,
{
    if i < s.len() {
        assert(s.take(i + 1).drop_last() =~= s.take(i));
        assert(all_digits(s.take(i + 1)));
        lemma_digits_val_nonneg(s.take(i));
        assert(digits_val(s.take(i + 1)) == digits_val(s.take(i)) * 10 + (s[i] - 48));
        lemma_digits_val_prefix_le(s, i + 1);
    } else {
        assert(s.take(i) =~= s);
    }
}

/// A numeric segment: a non-empty digit run without a superfluous leading
/// zero, whose value fits in a machine word.
pub open spec fn spec_parse_num(s: Seq<u8>) -> Option<u64> {
    if s.len() > 0 && all_digits(s) && (s.len() <= 1 || s[0] != 48) && digits_val(s)
        <= u64::MAX as int {
        Some(digits_val(s) as u64)
    } else {
        None
    }
}

pub fn parse_num(s: &[u8]) -> (r: Option<u64>)
    ensures
        r == spec_parse_num(s@),
{
    let n = s.len();
    if n == 0 {
        return None;
    }
    if n > 1 && s[0] == 48 {
        return None;
    }
    let mut v: u64 = 0;
    let mut i: usize = 0;
    while i < n
        invariant
            0 <= i <= n,
            n == s@.len(),
            all_digits(s@.take(i as int)),
            v == digits_val(s@.take(i as int)),
        decreases n - i,
    {
        let b = s[i];
        if !(48 <= b && b <= 57) {
            assert(!all_digits(s@));
            return None;
        }
        let d = (b - 48) as u64;
        proof {
            assert(s@.take(i + 1).drop_last() =~= s@.take(i as int));
            assert(digits_val(s@.take(i + 1)) == v * 10 + d);
        }
        if v > (u64::MAX - d) / 10 {
            proof {
                assert(v * 10 + d > u64::MAX) by (nonlinear_arith)
                    requires
                        v > (u64::MAX - d) / 10,
                        0 <= d <= 9,
                        v >= 0,
                ;
                if all_digits(s@) {
                    lemma_digits_val_prefix_le(s@, i + 1);
                }
            }
            return None;
        }
        proof {
            assert(v * 10 + d <= u64::MAX) by (nonlinear_arith)
                requires
                    v <= (u64::MAX - d) / 10,
                    0 <= d <= 9,
                    v >= 0,
            ;
        }
        v = v * 10 + d;
        i += 1;
    }
    proof {
        assert(s@.take(n as int) =~= s@);
    }
    Some(v)
}

/// Splitting a byte string on a separator byte; the result always holds at
/// least one piece, and no piece contains the separator.
pub open spec fn spec_split(s: Seq<u8>, sep: u8) -> Seq<Seq<u8>>
    decreases s.len(),
{
    if s.len() == 0 {
        seq![Seq::<u8>::empty()]
    } else if s[0] == sep {
        seq![Seq::<u8>::empty()] + spec_split(s.drop_first(), sep)
    } else {
        let r = spec_split(s.drop_first(), sep);
        seq![seq![s[0]] + r[0]] + r.drop_first()
    }
}

pub proof fn lemma_split_nonempty(s: Seq<u8>, sep: u8)
    ensures
        spec_split(s, sep).len() >= 1,
    decreases s.len(),
{
    if s.len() > 0 {
        lemma_split_nonempty(s.drop_first(), sep);
    }
}

pub proof fn lemma_split_pieces_sep_free(s: Seq<u8>, sep: u8)
    ensures
        forall|j: int, k: int|
            0 <= j < spec_split(s, sep).len() && 0 <= k < spec_split(s, sep)[j].len()
                ==> spec_split(s, sep)[j][k] != sep,
    decreases s.len(),
{
    if s.len() > 0 {
        lemma_split_pieces_sep_free(s.drop_first(), sep);
        lemma_split_nonempty(s.drop_first(), sep);
    }
}

/// Joining pieces with a separator byte.
pub open spec fn spec_join(ps: Seq<Seq<u8>>, sep: u8) -> Seq<u8>
    decreases ps.len(),
{
    if ps.len() == 0 {
        Seq::empty()
    } else if ps.len() == 1 {
        ps[0]
    } else {
        ps[0] + seq![sep] + spec_join(ps.drop_first(), sep)
    }
}

/// Joining the pieces of a split restores the original byte string.
pub proof fn lemma_join_split(s: Seq<u8>, sep: u8)
    ensures
        spec_join(spec_split(s, sep), sep) == s,
    decreases s.len(),
{
    lemma_split_nonempty(s, sep);
    if s.len() == 0 {
        assert(spec_join(spec_split(s, sep), sep) =~= s);
    } else if s[0] == sep {
        lemma_join_split(s.drop_first(), sep);
        lemma_split_nonempty(s.drop_first(), sep);
        let r = spec_split(s.drop_first(), sep);
        let ps = spec_split(s, sep);
        assert(ps == seq![Seq::<u8>::empty()] + r);
        assert(ps.drop_first() =~~= r);
        assert(ps[0] =~= Seq::<u8>::empty());
        assert(spec_join(ps, sep) == ps[0] + seq![sep] + spec_join(ps.drop_first(), sep));
        assert(spec_join(ps.drop_first(), sep) == spec_join(r, sep));
        assert(spec_join(r, sep) == s.drop_first());
        assert(ps[0] + seq![sep] + spec_join(r, sep) =~= seq![sep] + s.drop_first());
        assert(s =~= seq![sep] + s.drop_first());
        assert(spec_join(ps, sep) == ps[0] + seq![sep] + spec_join(r, sep));
        assert(spec_join(ps, sep) == s);
    } else {
        lemma_join_split(s.drop_first(), sep);
        lemma_split_nonempty(s.drop_first(), sep);
        let r = spec_split(s.drop_first(), sep);
        let ps = spec_split(s, sep);
        assert(ps == seq![seq![s[0]] + r[0]] + r.drop_first());
        assert(ps[0] == seq![s[0]] + r[0]);
        assert(spec_join(r, sep) == s.drop_first());
        if r.len() == 1 {
            assert(ps.len() == 1);
            assert(spec_join(r, sep) == r[0]);
            assert(spec_join(ps, sep) == ps[0]);
            assert(seq![s[0]] + r[0] =~= s);
            assert(spec_join(ps, sep) == s);
        } else {
            assert(ps.drop_first() =~~= r.drop_first());
            assert(spec_join(ps, sep) == ps[0] + seq![sep] + spec_join(r.drop_first(), sep));
            assert(spec_join(r, sep) == r[0] + seq![sep] + spec_join(r.drop_first(), sep));
            assert(ps[0] + seq![sep] + spec_join(r.drop_first(), sep) =~= seq![s[0]] + (r[0]
                + seq![sep] + spec_join(r.drop_first(), sep)));
            assert(seq![s[0]] + spec_join(r, sep) =~= s);
            assert(spec_join(ps, sep) == s);
        }
    }
}

/// Splitting a join restores the pieces, provided no piece contains the
/// separator.
pub proof fn lemma_split_join(ps: Seq<Seq<u8>>, sep: u8)
    requires
        ps.len() >= 1,
        forall|j: int, k: int| 0 <= j < ps.len() && 0 <= k < ps[j].len() ==> ps[j][k] != sep,
    ensures
        spec_split(spec_join(ps, sep), sep) == ps,
    decreases ps.len(), ps[0].len(),
{
    let s = spec_join(ps, sep);
    if ps[0].len() == 0 {
        if ps.len() == 1 {
            assert(s =~= Seq::<u8>::empty());
            assert(spec_split(s, sep) =~~= ps);
        } else {
            assert(s =~= seq![sep] + spec_join(ps.drop_first(), sep));
            assert(s[0] == sep);
            assert(s.drop_first() =~= spec_join(ps.drop_first(), sep));
            lemma_split_join(ps.drop_first(), sep);
            assert(spec_split(s, sep) == seq![Seq::<u8>::empty()] + spec_split(
                s.drop_first(),
                sep,
            ));
            assert(spec_split(s, sep) =~~= ps);
        }
    } else {
        let ps2 = ps.update(0, ps[0].drop_first());
        assert(forall|j: int, k: int|
            0 <= j < ps2.len() && 0 <= k < ps2[j].len() ==> ps2[j][k] != sep) by {
            assert(forall|k: int| 0 <= k < ps2[0].len() ==> ps2[0][k] == ps[0][k + 1]);
        }
        if ps.len() == 1 {
            assert(spec_join(ps2, sep) == ps2[0]);
            assert(s == ps[0]);
            assert(s[0] == ps[0][0]);
            assert(s[0] != sep);
            assert(s.drop_first() =~= spec_join(ps2, sep));
        } else {
            assert(ps2.drop_first() =~~= ps.drop_first());
            assert(spec_join(ps2, sep) == ps2[0] + seq![sep] + spec_join(ps.drop_first(), sep));
            assert(s == ps[0] + seq![sep] + spec_join(ps.drop_first(), sep));
            assert(s[0] == ps[0][0]);
            assert(s[0] != sep);
            assert(s.drop_first() =~= spec_join(ps2, sep));
        }
        lemma_split_join(ps2, sep);
        let r = spec_split(s.drop_first(), sep);
        assert(r == ps2);
        assert(ps2[0] == ps[0].drop_first());
        assert(spec_split(s, sep) == seq![seq![s[0]] + r[0]] + r.drop_first());
        assert(seq![s[0]] + ps2[0] =~= ps[0]);
        assert(r.drop_first() =~~= ps.drop_first());
        assert(spec_split(s, sep) =~~= ps);
    }
}

/// The first piece of a split extends to the first separator occurrence.
pub proof fn lemma_split_at_first_sep(s: Seq<u8>, sep: u8, k: int)
    requires
        0 <= k < s.len(),
        s[k] == sep,
        forall|i: int| 0 <= i < k ==> s[i] != sep,
    ensures
        spec_split(s, sep) == seq![s.take(k)] + spec_split(s.skip(k + 1), sep),
    decreases k,
{
    if k == 0 {
        assert(s.take(0) =~= Seq::<u8>::empty());
        assert(s.drop_first() =~= s.skip(1));
    } else {
        let t = s.drop_first();
        assert(t[k - 1] == sep);
        lemma_split_at_first_sep(t, sep, k - 1);
        lemma_split_nonempty(t.skip(k), sep);
        assert(t.skip(k) =~= s.skip(k + 1));
        assert(seq![s[0]] + t.take(k - 1) =~= s.take(k));
        assert(spec_split(s, sep) =~= seq![s.take(k)] + spec_split(s.skip(k + 1), sep));
    }
}

/// A byte string without the separator splits into itself alone.
pub proof fn lemma_split_no_sep(s: Seq<u8>, sep: u8)
    requires
        forall|i: int| 0 <= i < s.len() ==> s[i] != sep,
    ensures
        spec_split(s, sep) == seq![s],
    decreases s.len(),
{
    if s.len() == 0 {
        assert(spec_split(s, sep) =~~= seq![s]);
    } else {
        lemma_split_no_sep(s.drop_first(), sep);
        assert(seq![s[0]] + s.drop_first() =~= s);
        assert(spec_split(s, sep) =~~= seq![s]);
    }
}

/// Splits a byte string on a separator, returning the boundaries of each
/// piece as index pairs into the input.
pub fn split_seps(s: &[u8], sep: u8) -> (r: Vec<(usize, usize)>)
    ensures
        r@.len() == spec_split(s@, sep).len(),
        forall|j: int|
            0 <= j < r@.len() ==> #[trigger] r@[j].0 <= r@[j].1 <= s@.len() && s@.subrange(
                r@[j].0 as int,
                r@[j].1 as int,
            ) == spec_split(s@, sep)[j],
        r@[0].0 == 0,
        r@[r@.len() - 1].1 == s@.len(),
        forall|j: int|
            0 <= j < r@.len() - 1 ==> (#[trigger] r@[j]).1 + 1 == r@[j + 1].0 && s@[r@[j].1 as int]
                == sep,
{
    let n = s.len();
    let mut r: Vec<(usize, usize)> = Vec::new();
    let mut start: usize = 0;
    let mut i: usize = 0;
    proof {
        lemma_split_nonempty(s@, sep);
        assert(s@.skip(0int) =~= s@);
        let f = |p: (usize, usize)| s@.subrange(p.0 as int, p.1 as int);
        assert(r@.map_values(f) + spec_split(s@, sep) =~~= spec_split(s@, sep));
    }
    while i < n
        invariant
            0 <= start <= i <= n,
            n == s@.len(),
            forall|t: int| start <= t < i ==> s@[t] != sep,
            spec_split(s@, sep) == r@.map_values(
                |p: (usize, usize)| s@.subrange(p.0 as int, p.1 as int),
            ) + spec_split(s@.skip(start as int), sep),
            forall|j: int|
                0 <= j < r@.len() ==> (#[trigger] r@[j]).0 <= r@[j].1 < s@.len() && s@[r@[j].1 as int]
                    == sep,
            r@.len() == 0 ==> start == 0,
            r@.len() > 0 ==> r@[0].0 == 0 && r@[r@.len() - 1].1 + 1 == start,
            forall|j: int| 0 <= j < r@.len() - 1 ==> (#[trigger] r@[j]).1 + 1 == r@[j + 1].0,
        decreases n - i,
    {
        if s[i] == sep {
            proof {
                let rem = s@.skip(start as int);
                lemma_split_at_first_sep(rem, sep, i - start);
                assert(rem.take(i - start) =~= s@.subrange(start as int, i as int));
                assert(rem.skip(i - start + 1) =~= s@.skip(i + 1));
                let f = |p: (usize, usize)| s@.subrange(p.0 as int, p.1 as int);
                assert(r@.push((start, i)).map_values(f) =~= r@.map_values(f) + seq![
                    s@.subrange(start as int, i as int),
                ]);
                assert(r@.push((start, i)).map_values(f) + spec_split(s@.skip(i + 1), sep)
                    =~~= r@.map_values(f) + (seq![rem.take(i - start)] + spec_split(
                    rem.skip(i - start + 1),
                    sep,
                )));
            }
            r.push((start, i));
            start = i + 1;
        }
        i += 1;
    }
    proof {
        let rem = s@.skip(start as int);
        lemma_split_no_sep(rem, sep);
        assert(rem =~= s@.subrange(start as int, n as int));
        let f = |p: (usize, usize)| s@.subrange(p.0 as int, p.1 as int);
        assert(r@.push((start, n)).map_values(f) =~= r@.map_values(f) + seq![
            s@.subrange(start as int, n as int),
        ]);
        assert(r@.push((start, n)).map_values(f) =~~= spec_split(s@, sep));
    }
    let ghost rpre = r@;
    r.push((start, n));
    proof {
        let f = |p: (usize, usize)| s@.subrange(p.0 as int, p.1 as int);
        assert(r@ == rpre.push((start, n)));
        assert(forall|j: int| 0 <= j < rpre.len() ==> r@[j] == rpre[j]);
        assert(r@[r@.len() - 1] == (start, n));
        assert(forall|j: int|
            0 <= j < r@.len() ==> spec_split(s@, sep)[j] == #[trigger] r@.map_values(f)[j]);
        assert(forall|j: int|
            0 <= j < r@.len() - 1 ==> (#[trigger] r@[j]).1 + 1 == r@[j + 1].0 && s@[r@[j].1 as int]
                == sep) by {
            assert(forall|j: int|
                0 <= j < rpre.len() - 1 ==> (#[trigger] rpre[j]).1 + 1 == rpre[j + 1].0);
            assert(forall|j: int|
                0 <= j < rpre.len() ==> (#[trigger] rpre[j]).1 < s@.len() && s@[rpre[j].1 as int]
                    == sep);
        }
    }
    r
}

/// True when `b` is an ASCII whitespace byte: space, tab, line feed or
/// carriage return.
pub open spec fn spec_is_ws(b: u8) -> bool {
    b == 32 || b == 9 || b == 10 || b == 13
}

pub fn is_ws(b: u8) -> (r: bool)
    ensures
        r == spec_is_ws(b),
{
    b == 32 || b == 9 || b == 10 || b == 13
}

pub open spec fn spec_trim_start(s: Seq<u8>) -> Seq<u8>
    decreases s.len(),
{
    if s.len() > 0 && spec_is_ws(s[0]) {
        spec_trim_start(s.drop_first())
    } else {
        s
    }
}

pub open spec fn spec_trim_end(s: Seq<u8>) -> Seq<u8>
    decreases s.len(),
{
    if s.len() > 0 && spec_is_ws(s.last()) {
        spec_trim_end(s.drop_last())
    } else {
        s
    }
}

/// The byte string with leading and trailing ASCII whitespace removed.
pub open spec fn spec_trim(s: Seq<u8>) -> Seq<u8> {
    spec_trim_end(spec_trim_start(s))
}

proof fn lemma_trim_start_skip(s: Seq<u8>, lo: int)
    requires
        0 <= lo <= s.len(),
        forall|i: int| 0 <= i < lo ==> spec_is_ws(s[i]),
        lo < s.len() ==> !spec_is_ws(s[lo]),
    ensures
        spec_trim_start(s) == s.skip(lo),
    decreases lo,
{
    if lo == 0 {
        assert(s.skip(0) =~= s);
    } else {
        assert(s.drop_first() =~= s.skip(1));
        lemma_trim_start_skip(s.skip(1), lo - 1);
        assert(s.skip(1).skip(lo - 1) =~= s.skip(lo));
    }
}

proof fn lemma_trim_end_take(s: Seq<u8>, hi: int)
    requires
        0 <= hi <= s.len(),
        forall|i: int| hi <= i < s.len() ==> spec_is_ws(s[i]),
        hi > 0 ==> !spec_is_ws(s[hi - 1]),
    ensures
        spec_trim_end(s) == s.take(hi),
    decreases s.len() - hi,
{
    if hi == s.len() {
        assert(s.take(hi) =~= s);
    } else {
        assert(s.drop_last() =~= s.take(s.len() - 1));
        lemma_trim_end_take(s.take(s.len() - 1), hi);
        assert(s.take(s.len() - 1).take(hi) =~= s.take(hi));
    }
}

/// Trims ASCII whitespace from both ends, returning the boundaries of the
/// remaining middle as indexes into the input.
pub fn trim_bounds(s: &[u8]) -> (r: (usize, usize))
    ensures
        r.0 <= r.1 <= s@.len(),
        s@.subrange(r.0 as int, r.1 as int) == spec_trim(s@),
{
    let n = s.len();
    let mut lo: usize = 0;
    while lo < n && is_ws(s[lo])
        invariant
            0 <= lo <= n,
            n == s@.len(),
            forall|i: int| 0 <= i < lo ==> spec_is_ws(s@[i]),
        decreases n - lo,
    {
        lo += 1;
    }
    let mut hi: usize = n;
    while hi > lo && is_ws(s[hi - 1])
        invariant
            lo <= hi <= n,
            n == s@.len(),
            forall|i: int| hi <= i < n ==> spec_is_ws(s@[i]),
        decreases hi,
    {
        hi -= 1;
    }
    proof {
        lemma_trim_start_skip(s@, lo as int);
        let t = s@.skip(lo as int);
        if hi == lo {
            lemma_trim_end_take(t, 0);
        } else {
            lemma_trim_end_take(t, hi - lo);
        }
        assert(t.take(hi - lo) =~= s@.subrange(lo as int, hi as int));
    }
    (lo, hi)
}

/// Byte-string equality, decided byte by byte.
pub fn bytes_eq(a: &[u8], b: &[u8]) -> (r: bool)
    ensures
        r == (a@ == b@),
{
    if a.len() != b.len() {
        return false;
    }
    let n = a.len();
    let mut i: usize = 0;
    while i < n
        invariant
            0 <= i <= n,
            n == a@.len() == b@.len(),
            forall|j: int| 0 <= j < i ==> a@[j] == b@[j],
        decreases n - i,
    {
        if a[i] != b[i] {
            return false;
        }
        i += 1;
    }
    proof {
        assert(a@ =~= b@);
    }
    true
}

pub open spec fn spec_contains_at(h: Seq<u8>, n: Seq<u8>, i: int) -> bool {
    0 <= i && i + n.len() <= h.len() && h.subrange(i, i + n.len()) == n
}

/// True when `n` occurs as a contiguous substring of `h`.
pub open spec fn spec_contains(h: Seq<u8>, n: Seq<u8>) -> bool {
    exists|i: int| spec_contains_at(h, n, i)
}

pub fn contains_sub(h: &[u8], n: &[u8]) -> (r: bool)
    ensures
        r == spec_contains(h@, n@),
{
    let hl = h.len();
    let nl = n.len();
    if nl > hl {
        proof {
            assert(forall|i: int| !spec_contains_at(h@, n@, i));
        }
        return false;
    }
    if nl == 0 {
        proof {
            assert(h@.subrange(0, 0) =~= n@);
            assert(spec_contains_at(h@, n@, 0));
        }
        return true;
    }
    let mut i: usize = 0;
    while i <= hl - nl
        invariant
            0 <= i <= hl - nl + 1,
            1 <= nl <= hl,
            hl == h@.len(),
            nl == n@.len(),
            forall|j: int| 0 <= j < i ==> !spec_contains_at(h@, n@, j),
        decreases hl - nl + 1 - i,
    {
        let piece = &h[i..i + nl];
        if bytes_eq(piece, n) {
            proof {
                assert(spec_contains_at(h@, n@, i as int));
            }
            return true;
        }
        i += 1;
    }
    proof {
        assert(forall|j: int| i <= j ==> !spec_contains_at(h@, n@, j));
    }
    false
}


/// Trimming absorbs one leading whitespace byte.
pub proof fn lemma_trim_ws_front(c: u8, x: Seq<u8>)
    requires
        spec_is_ws(c),
    ensures
        spec_trim(seq![c] + x) == spec_trim(x),
{
    assert((seq![c] + x).len() > 0);
    assert((seq![c] + x)[0] == c);
    assert((seq![c] + x).drop_first() =~= x);
}

proof fn lemma_trim_start_ws_back(c: u8, x: Seq<u8>)
    requires
        spec_is_ws(c),
    ensures
        spec_trim_start(x).len() > 0 ==> spec_trim_start(x + seq![c]) == spec_trim_start(x)
            + seq![c],
        spec_trim_start(x).len() == 0 ==> spec_trim_start(x + seq![c]) == Seq::<u8>::empty(),
    decreases x.len(),
{
    if x.len() == 0 {
        assert(x + seq![c] =~= seq![c]);
        assert(seq![c].drop_first() =~= Seq::<u8>::empty());
        assert(spec_trim_start(Seq::<u8>::empty()) =~= Seq::<u8>::empty());
        assert(spec_trim_start(seq![c]) == spec_trim_start(seq![c].drop_first()));
        assert(spec_trim_start(seq![c]) =~= Seq::<u8>::empty());
    } else if spec_is_ws(x[0]) {
        assert((x + seq![c]).drop_first() =~= x.drop_first() + seq![c]);
        lemma_trim_start_ws_back(c, x.drop_first());
    } else {
        assert(spec_trim_start(x) == x);
        assert((x + seq![c])[0] == x[0]);
        assert(spec_trim_start(x + seq![c]) == x + seq![c]);
    }
}

/// Trimming absorbs one trailing whitespace byte.
pub proof fn lemma_trim_ws_back(c: u8, x: Seq<u8>)
    requires
        spec_is_ws(c),
    ensures
        spec_trim(x + seq![c]) == spec_trim(x),
{
    lemma_trim_start_ws_back(c, x);
    let t = spec_trim_start(x);
    if t.len() > 0 {
        assert((t + seq![c]).last() == c);
        assert((t + seq![c]).drop_last() =~= t);
    } else {
        assert(spec_trim_start(x + seq![c]) == Seq::<u8>::empty());
        assert(spec_trim_end(Seq::<u8>::empty()) =~= Seq::<u8>::empty());
        assert(spec_trim_end(t) =~= Seq::<u8>::empty());
    }
}


/// String equality decided through the bytes; equal encodings decode to
/// equal character sequences.
pub fn str_eq(a: &str, b: &str) -> (r: bool)
    ensures
        r == (a@ == b@),
{
    let r = bytes_eq(a.as_bytes(), b.as_bytes());
    proof {
        vstd::utf8::encode_utf8_decode_utf8(a@);
        vstd::utf8::encode_utf8_decode_utf8(b@);
    }
    r
}


/// Joining after appending a piece appends the separator and the piece.
pub proof fn lemma_join_snoc(ps: Seq<Seq<u8>>, x: Seq<u8>, sep: u8)
    requires
        ps.len() >= 1,
    ensures
        spec_join(ps.push(x), sep) == spec_join(ps, sep) + seq![sep] + x,
    decreases ps.len(),
{
    let all = ps.push(x);
    if ps.len() == 1 {
        assert(all.len() == 2);
        assert(all[0] == ps[0]);
        assert(all.drop_first() =~~= seq![x]);
        assert(spec_join(all, sep) == all[0] + seq![sep] + spec_join(all.drop_first(), sep));
        assert(spec_join(seq![x], sep) == x);
    } else {
        assert(all.drop_first() =~~= ps.drop_first().push(x));
        lemma_join_snoc(ps.drop_first(), x, sep);
        assert(all[0] == ps[0]);
        assert(spec_join(all, sep) == all[0] + seq![sep] + spec_join(all.drop_first(), sep));
        assert(spec_join(ps, sep) == ps[0] + seq![sep] + spec_join(ps.drop_first(), sep));
        assert(ps[0] + seq![sep] + (spec_join(ps.drop_first(), sep) + seq![sep] + x) =~= (ps[0]
            + seq![sep] + spec_join(ps.drop_first(), sep)) + seq![sep] + x);
    }
}


/// In valid UTF-8, the position right after an ASCII byte is a character
/// boundary.
pub proof fn lemma_boundary_after_ascii(bytes: Seq<u8>, a: int)
    requires
        vstd::utf8::valid_utf8(bytes),
        1 <= a <= bytes.len(),
        bytes[a - 1] < 128,
    ensures
        vstd::utf8::is_char_boundary(bytes, a),
    decreases bytes.len(),
{
    if a == bytes.len() {
        vstd::utf8::is_char_boundary_start_end_of_seq(bytes);
    } else {
        let w = vstd::utf8::length_of_first_scalar(bytes);
        assert(vstd::utf8::valid_first_scalar(bytes));
        assert(1 <= w <= 4);
        if a - 1 >= w {
            let rest = vstd::utf8::pop_first_scalar(bytes);
            assert(rest[a - 1 - w] == bytes[a - 1]);
            lemma_boundary_after_ascii(rest, a - w);
        } else {
            if a - 1 == 0 {
                assert(vstd::utf8::is_leading_byte_width_1(bytes[0]));
                assert(w == 1);
                assert(a == 1);
                let rest = vstd::utf8::pop_first_scalar(bytes);
                vstd::utf8::is_char_boundary_start_end_of_seq(rest);
                assert(vstd::utf8::is_char_boundary(bytes, a) == vstd::utf8::is_char_boundary(
                    rest,
                    a - w,
                ));
            } else {
                assert(vstd::utf8::valid_leading_and_continuation_bytes_first_codepoint(bytes));
                assert(vstd::utf8::is_continuation_byte(bytes[a - 1]));
                assert(false);
            }
        }
    }
}

/// Encoding a concatenation concatenates the encodings.
pub proof fn lemma_encode_utf8_concat(a: Seq<char>, b: Seq<char>)
    ensures
        vstd::utf8::encode_utf8(a + b) == vstd::utf8::encode_utf8(a) + vstd::utf8::encode_utf8(b),
    decreases a.len(),
{
    if a.len() == 0 {
        assert(a + b =~= b);
        assert(vstd::utf8::encode_utf8(a) =~= Seq::<u8>::empty());
        assert(vstd::utf8::encode_utf8(a) + vstd::utf8::encode_utf8(b) =~= vstd::utf8::encode_utf8(
            b,
        ));
    } else {
        let ab = a + b;
        assert(ab.len() > 0);
        assert(ab[0] == a[0]);
        assert(ab.drop_first() =~= a.drop_first() + b);
        lemma_encode_utf8_concat(a.drop_first(), b);
        assert(vstd::utf8::encode_utf8(ab) == vstd::utf8::encode_scalar(ab[0] as u32)
            + vstd::utf8::encode_utf8(ab.drop_first()));
        assert(vstd::utf8::encode_scalar(a[0] as u32) + (vstd::utf8::encode_utf8(a.drop_first())
            + vstd::utf8::encode_utf8(b)) =~= (vstd::utf8::encode_scalar(a[0] as u32)
            + vstd::utf8::encode_utf8(a.drop_first())) + vstd::utf8::encode_utf8(b));
    }
}

/// A byte string with every leading `v` marker removed.
pub open spec fn spec_strip_all_v(b: Seq<u8>) -> Seq<u8>
    decreases b.len(),
{
    if b.len() > 0 && b[0] == 118 {
        spec_strip_all_v(b.drop_first())
    } else {
        b
    }
}

/// The given string without its leading `v` markers.
pub fn strip_leading_v(s: &str) -> (r: &str)
    ensures
        r.spec_bytes() == spec_strip_all_v(s.spec_bytes()),
{
    let mut t = s;
    let mut go = true;
    while go
        invariant
            spec_strip_all_v(s.spec_bytes()) == spec_strip_all_v(t.spec_bytes()),
            !go ==> !(t.spec_bytes().len() > 0 && t.spec_bytes()[0] == 118),
        decreases t.spec_bytes().len() + (if go { 1int } else { 0int }),
    {
        let b = t.as_bytes();
        if b.len() > 0 && b[0] == 118 {
            proof {
                vstd::utf8::encode_utf8_valid_utf8(t@);
                lemma_boundary_after_ascii(t.spec_bytes(), 1);
            }
            let (_, rest) = t.split_at(1);
            proof {
                assert(rest.spec_bytes() =~= t.spec_bytes().drop_first());
            }
            t = rest;
        } else {
            go = false;
        }
    }
    t
}


/// True when the byte occurs anywhere in the string.
pub open spec fn spec_has_byte(b: Seq<u8>, c: u8) -> bool {
    exists|i: int| 0 <= i < b.len() && b[i] == c
}

pub fn has_byte(b: &[u8], c: u8) -> (r: bool)
    ensures
        r == spec_has_byte(b@, c),
{
    let n = b.len();
    let mut i: usize = 0;
    while i < n
        invariant
            0 <= i <= n,
            n == b@.len(),
            forall|j: int| 0 <= j < i ==> b@[j] != c,
        decreases n - i,
    {
        if b[i] == c {
            proof {
                assert(spec_has_byte(b@, c));
            }
            return true;
        }
        i += 1;
    }
    false
}

/// A byte absent from the string is absent from every split piece.
pub proof fn lemma_split_pieces_free_of(s: Seq<u8>, sep: u8, c: u8)
    requires
        forall|i: int| 0 <= i < s.len() ==> s[i] != c,
    ensures
        forall|j: int, k: int|
            0 <= j < spec_split(s, sep).len() && 0 <= k < spec_split(s, sep)[j].len()
                ==> spec_split(s, sep)[j][k] != c,
    decreases s.len(),
{
    if s.len() > 0 {
        assert(forall|i: int| 0 <= i < s.drop_first().len() ==> s.drop_first()[i] != c);
        lemma_split_pieces_free_of(s.drop_first(), sep, c);
        lemma_split_nonempty(s.drop_first(), sep);
    }
}

/// A byte absent from every piece and different from the separator is absent
/// from the join.
pub proof fn lemma_join_free_of(ps: Seq<Seq<u8>>, sep: u8, c: u8)
    requires
        c != sep,
        forall|j: int, k: int| 0 <= j < ps.len() && 0 <= k < ps[j].len() ==> ps[j][k] != c,
    ensures
        forall|t: int|
            0 <= t < spec_join(ps, sep).len() ==> #[trigger] spec_join(ps, sep)[t] != c,
    decreases ps.len(),
{
    if ps.len() <= 1 {
    } else {
        assert(forall|j: int, k: int|
            0 <= j < ps.drop_first().len() && 0 <= k < ps.drop_first()[j].len()
                ==> ps.drop_first()[j][k] != c) by {
            assert(forall|j: int| 0 <= j < ps.len() - 1 ==> ps.drop_first()[j] == ps[j + 1]);
        }
        lemma_join_free_of(ps.drop_first(), sep, c);
        let joined = spec_join(ps, sep);
        assert(joined == ps[0] + seq![sep] + spec_join(ps.drop_first(), sep));
        assert forall|t: int| 0 <= t < joined.len() implies #[trigger] joined[t] != c by {
            if t < ps[0].len() {
                assert(joined[t] == ps[0][t]);
            } else if t == ps[0].len() {
                assert(joined[t] == sep);
            } else {
                assert(joined[t] == spec_join(ps.drop_first(), sep)[t - ps[0].len() - 1]);
            }
        }
    }
}

} // verus!
