//! Substring matching over byte sequences: the specification of "pattern
//! occurs at i", a first-occurrence function, an executable search, and the
//! lemmas about concatenation that the body rewriter's proofs rest on.

use vstd::prelude::*;

verus! {

/// `pat` occurs in `h` starting at index `i`.
pub open spec fn is_match_at(h: Seq<u8>, pat: Seq<u8>, i: int) -> bool {
    0 <= i && i + pat.len() <= h.len() && h.subrange(i, i + pat.len() as int) == pat
}

/// `pat` occurs somewhere in `h`.
pub open spec fn contains_seq(h: Seq<u8>, pat: Seq<u8>) -> bool {
    exists|i: int| is_match_at(h, pat, i)
}

/// Index of the first occurrence of `pat` in `h` (meaningful only when one exists).
pub open spec fn first_match(h: Seq<u8>, pat: Seq<u8>) -> nat
    decreases h.len(),
{
    if is_match_at(h, pat, 0) || h.len() == 0 {
        0
    } else {
        1 + first_match(h.drop_first(), pat)
    }
}

/// A match in the tail of `h` is a match in `h`, one position later.
proof fn lemma_match_shift(h: Seq<u8>, pat: Seq<u8>, i: int)
    requires
        h.len() > 0,
        0 <= i,
    ensures
        is_match_at(h.drop_first(), pat, i) <==> is_match_at(h, pat, i + 1),
{
    if is_match_at(h.drop_first(), pat, i) {
        assert(h.subrange(i + 1, i + 1 + pat.len() as int) =~= h.drop_first().subrange(
            i,
            i + pat.len() as int,
        ));
    }
    if is_match_at(h, pat, i + 1) {
        assert(h.drop_first().subrange(i, i + pat.len() as int) =~= h.subrange(
            i + 1,
            i + 1 + pat.len() as int,
        ));
    }
}

/// Where `pat` occurs in `h`, `first_match` names the least occurrence.
pub proof fn lemma_first_match(h: Seq<u8>, pat: Seq<u8>)
    requires
        contains_seq(h, pat),
    ensures
        is_match_at(h, pat, first_match(h, pat) as int),
        forall|j: int| 0 <= j < first_match(h, pat) ==> !is_match_at(h, pat, j),
    decreases h.len(),
{
    if is_match_at(h, pat, 0) || h.len() == 0 {
        if !is_match_at(h, pat, 0) {
            let i = choose|i: int| is_match_at(h, pat, i);
            assert(i + pat.len() <= 0);
            assert(h.subrange(i, i + pat.len() as int) =~= h.subrange(0, pat.len() as int));
        }
    } else {
        let i = choose|i: int| is_match_at(h, pat, i);
        assert(i >= 1);
        lemma_match_shift(h, pat, i - 1);
        lemma_first_match(h.drop_first(), pat);
        let f = first_match(h.drop_first(), pat);
        lemma_match_shift(h, pat, f as int);
        assert forall|j: int| 0 <= j < first_match(h, pat) implies !is_match_at(h, pat, j) by {
            if j >= 1 {
                lemma_match_shift(h, pat, j - 1);
            }
        }
    }
}

/// No occurrence survives in any prefix of an occurrence-free sequence.
pub proof fn lemma_no_contain_prefix(h: Seq<u8>, pat: Seq<u8>, k: int)
    requires
        !contains_seq(h, pat),
        0 <= k <= h.len(),
    ensures
        !contains_seq(h.subrange(0, k), pat),
{
    assert forall|i: int| !is_match_at(h.subrange(0, k), pat, i) by {
        if is_match_at(h.subrange(0, k), pat, i) {
            assert(h.subrange(i, i + pat.len() as int) =~= h.subrange(0, k).subrange(
                i,
                i + pat.len() as int,
            ));
            assert(is_match_at(h, pat, i));
        }
    }
}

/// No occurrence inside a strict prefix of the first occurrence.
pub proof fn lemma_no_contain_before_first(h: Seq<u8>, pat: Seq<u8>)
    requires
        contains_seq(h, pat),
        pat.len() > 0,
    ensures
        !contains_seq(h.subrange(0, first_match(h, pat) as int), pat),
        first_match(h, pat) + pat.len() <= h.len(),
{
    lemma_first_match(h, pat);
    let f = first_match(h, pat) as int;
    assert forall|i: int| !is_match_at(h.subrange(0, f), pat, i) by {
        if is_match_at(h.subrange(0, f), pat, i) {
            assert(h.subrange(i, i + pat.len() as int) =~= h.subrange(0, f).subrange(
                i,
                i + pat.len() as int,
            ));
            assert(is_match_at(h, pat, i));
        }
    }
}

/// Appending `y` to an occurrence-free `x` cannot create an occurrence,
/// provided no proper suffix of the pattern is a prefix of `y`: an occurrence
/// reaching across the boundary would have to begin with such a suffix.
pub proof fn lemma_append_free_no_right_ext(x: Seq<u8>, y: Seq<u8>, pat: Seq<u8>)
    requires
        !contains_seq(x, pat),
        !contains_seq(y, pat),
        pat.len() > 0,
        forall|k: int|
            0 < k < pat.len() ==> !starts_with(y, #[trigger] pat.subrange(k, pat.len() as int)),
    ensures
        !contains_seq(x + y, pat),
{
    let h = x + y;
    let l = pat.len() as int;
    assert forall|a: int| !is_match_at(h, pat, a) by {
        if is_match_at(h, pat, a) {
            if a + l <= x.len() {
                assert(x.subrange(a, a + l) =~= h.subrange(a, a + l));
                assert(is_match_at(x, pat, a));
            } else if a >= x.len() {
                assert(y.subrange(a - x.len(), a - x.len() + l) =~= h.subrange(a, a + l));
                assert(is_match_at(y, pat, a - x.len()));
            } else {
                // The occurrence crosses the boundary at pattern offset k,
                // so pat[k..] stands at the start of y.
                let k = x.len() - a;
                assert(y.subrange(0, l - k) =~= h.subrange(a, a + l).subrange(k, l));
                assert(starts_with(y, pat.subrange(k, l)));
            }
        }
    }
}

/// Appending an occurrence-free `y` to an `x` that ends in `tail` cannot
/// create an occurrence, provided no proper prefix of the pattern is a suffix
/// of `tail` and `tail` does not occur inside the pattern: an occurrence
/// reaching across the boundary would have to end `x` with such a prefix.
pub proof fn lemma_append_free_no_left_ext(x: Seq<u8>, y: Seq<u8>, pat: Seq<u8>, tail: Seq<u8>)
    requires
        !contains_seq(x, pat),
        !contains_seq(y, pat),
        pat.len() > 0,
        x.len() == 0 || ends_with(x, tail),
        tail.len() > 0,
        !contains_seq(pat, tail),
        forall|k: int| 0 < k < pat.len() ==> !ends_with(tail, #[trigger] pat.subrange(0, k)),
    ensures
        !contains_seq(x + y, pat),
{
    let h = x + y;
    let l = pat.len() as int;
    let t = tail.len() as int;
    assert forall|a: int| !is_match_at(h, pat, a) by {
        if is_match_at(h, pat, a) {
            if a + l <= x.len() {
                assert(x.subrange(a, a + l) =~= h.subrange(a, a + l));
                assert(is_match_at(x, pat, a));
            } else if a >= x.len() {
                assert(y.subrange(a - x.len(), a - x.len() + l) =~= h.subrange(a, a + l));
                assert(is_match_at(y, pat, a - x.len()));
            } else {
                // The occurrence crosses the boundary at pattern offset k,
                // so pat[..k] is a suffix of x, hence overlaps tail.
                let k = x.len() - a;
                assert(1 <= k < l && t <= x.len());
                assert(pat.subrange(0, k) =~= x.subrange(a, x.len() as int));
                if k <= t {
                    assert(tail.subrange(t - k, t) =~= x.subrange(
                        x.len() - k,
                        x.len() as int,
                    ));
                    assert(ends_with(tail, pat.subrange(0, k)));
                } else {
                    // pat[..k] ends with the whole of tail, so tail sits
                    // inside the pattern at offset k - t.
                    assert(pat.subrange(k - t, k) =~= x.subrange(x.len() - t, x.len() as int));
                    assert(x.subrange(x.len() - t, x.len() as int) =~= tail);
                    assert(is_match_at(pat, tail, k - t));
                }
            }
        }
    }
}

/// Executable test: do `a` and the slice of `h` starting at `at` agree on `a`'s length?
fn slice_eq_at(h: &[u8], at: usize, pat: &[u8]) -> (r: bool)
    requires
        at + pat@.len() <= h@.len(),
    ensures
        r <==> h@.subrange(at as int, at + pat@.len()) == pat@,
{
    let hlen = h.len();
    let mut j: usize = 0;
    while j < pat.len()
        invariant
            at + pat@.len() <= h@.len(),
            h@.len() == hlen,
            0 <= j <= pat@.len(),
            forall|k: int| 0 <= k < j ==> h@[at + k] == pat@[k],
        decreases pat@.len() - j,
    {
        if h[at + j] != pat[j] {
            assert(h@.subrange(at as int, at + pat@.len())[j as int] != pat@[j as int]);
            return false;
        }
        j += 1;
    }
    assert(h@.subrange(at as int, at + pat@.len()) =~= pat@);
    true
}

/// First occurrence of `pat` in `h` at or after `from`, by naive search.
pub fn find_from(h: &[u8], pat: &[u8], from: usize) -> (r: Option<usize>)
    requires
        pat@.len() > 0,
        from <= h@.len(),
    ensures
        match r {
            Some(i) => from <= i && is_match_at(h@, pat@, i as int) && forall|j: int|
                from <= j < i ==> !is_match_at(h@, pat@, j),
            None => forall|j: int| from <= j ==> !is_match_at(h@, pat@, j),
        },
{
    if h.len() < pat.len() {
        return None;
    }
    let hl = h.len();
    let last_start = hl - pat.len();
    let mut i: usize = from;
    while i <= last_start
        invariant
            pat@.len() > 0,
            pat@.len() <= h@.len(),
            h@.len() == hl,
            last_start == h@.len() - pat@.len(),
            from <= i <= h@.len(),
            forall|j: int| from <= j < i ==> !is_match_at(h@, pat@, j),
        decreases h@.len() - i,
    {
        if slice_eq_at(h, i, pat) {
            return Some(i);
        }
        i += 1;
    }
    None
}

/// A match within the suffix of `h` that starts at `a` is a match in `h`.
pub proof fn lemma_match_in_suffix(h: Seq<u8>, pat: Seq<u8>, a: int, k: int)
    requires
        0 <= a <= h.len(),
        0 <= k,
    ensures
        is_match_at(h.subrange(a, h.len() as int), pat, k) <==> is_match_at(h, pat, a + k),
{
    let s = h.subrange(a, h.len() as int);
    if is_match_at(s, pat, k) {
        assert(h.subrange(a + k, a + k + pat.len() as int) =~= s.subrange(k, k + pat.len() as int));
    }
    if is_match_at(h, pat, a + k) {
        assert(s.subrange(k, k + pat.len() as int) =~= h.subrange(a + k, a + k + pat.len() as int));
    }
}

/// Append `src[from..to]` to `dst`.
pub fn extend_range(dst: &mut Vec<u8>, src: &[u8], from: usize, to: usize)
    requires
        from <= to <= src@.len(),
    ensures
        final(dst)@ == old(dst)@ + src@.subrange(from as int, to as int),
{
    let mut k = from;
    while k < to
        invariant
            from <= k <= to <= src@.len(),
            dst@ == old(dst)@ + src@.subrange(from as int, k as int),
        decreases to - k,
    {
        dst.push(src[k]);
        assert(dst@ =~= old(dst)@ + src@.subrange(from as int, k + 1 as int));
        k += 1;
    }
}

/// Append all of `src` to `dst`.
pub fn extend_all(dst: &mut Vec<u8>, src: &[u8])
    ensures
        final(dst)@ == old(dst)@ + src@,
{
    let n = src.len();
    extend_range(dst, src, 0, n);
    assert(src@.subrange(0, n as int) =~= src@);
}

/// Does `h` start with `pre`?
pub open spec fn starts_with(h: Seq<u8>, pre: Seq<u8>) -> bool {
    pre.len() <= h.len() && h.subrange(0, pre.len() as int) == pre
}

/// Executable test that a slice starts with the given prefix.
pub fn slice_starts_with(h: &[u8], pre: &[u8]) -> (r: bool)
    ensures
        r <==> starts_with(h@, pre@),
{
    if pre.len() > h.len() {
        return false;
    }
    slice_eq_at(h, 0, pre)
}

/// Does `h` end with `suf`?
pub open spec fn ends_with(h: Seq<u8>, suf: Seq<u8>) -> bool {
    suf.len() <= h.len() && h.subrange(h.len() - suf.len(), h.len() as int) == suf
}

/// Executable test that a vector ends with the given suffix.
pub fn vec_ends_with(h: &Vec<u8>, suf: &[u8]) -> (r: bool)
    ensures
        r <==> ends_with(h@, suf@),
{
    if suf.len() > h.len() {
        return false;
    }
    let start = h.len() - suf.len();
    let r = slice_eq_at(h.as_slice(), start, suf);
    assert(h@.subrange(start as int, start + suf@.len()) =~= h@.subrange(
        h@.len() - suf@.len(),
        h@.len() as int,
    ));
    r
}

} // verus!
