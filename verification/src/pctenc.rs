//! Percent-encoding of query keys and values: every byte that is not an ASCII
//! letter or digit is written as `%` followed by two upper-case hex digits.

use vstd::prelude::*;

verus! {

/// ASCII letters and digits stay as they are.
pub open spec fn is_alnum(b: u8) -> bool {
    (48 <= b <= 57) || (65 <= b <= 90) || (97 <= b <= 122)
}

/// The upper-case hex digit for a nibble.
pub open spec fn hex_digit(n: u8) -> u8 {
    if n < 10 {
        (48 + n) as u8
    } else {
        (55 + n) as u8
    }
}

/// The encoding of one byte.
pub open spec fn pct_byte(b: u8) -> Seq<u8> {
    if is_alnum(b) {
        seq![b]
    } else {
        seq![37u8, hex_digit(b / 16), hex_digit(b % 16)]
    }
}

/// The encoding of a byte string.
pub open spec fn pct_encode(s: Seq<u8>) -> Seq<u8>
    decreases s.len(),
{
    if s.len() == 0 {
        Seq::empty()
    } else {
        pct_byte(s.first()) + pct_encode(s.drop_first())
    }
}

/// Extending the input by one byte appends that byte's encoding.
pub proof fn lemma_pct_snoc(s: Seq<u8>, b: u8)
    ensures
        pct_encode(s.push(b)) == pct_encode(s) + pct_byte(b),
    decreases s.len(),
{
    if s.len() == 0 {
        assert(s.push(b).drop_first() =~= Seq::<u8>::empty());
        assert(s.push(b).first() == b);
        assert(pct_encode(s.push(b)) == pct_byte(b) + pct_encode(Seq::<u8>::empty()));
        assert(pct_byte(b) + Seq::<u8>::empty() =~= pct_byte(b));
        assert(pct_encode(s) + pct_byte(b) =~= pct_byte(b));
    } else {
        assert(s.push(b).drop_first() =~= s.drop_first().push(b));
        assert(s.push(b).first() == s.first());
        lemma_pct_snoc(s.drop_first(), b);
        assert(pct_encode(s.push(b)) =~= pct_encode(s) + pct_byte(b));
    }
}

/// Percent-encode `s` with every non-alphanumeric byte escaped.
pub fn percent_encode_bytes(s: &[u8]) -> (r: Vec<u8>)
    ensures
        r@ == pct_encode(s@),
{
    let n = s.len();
    let mut r: Vec<u8> = Vec::new();
    let mut i: usize = 0;
    proof {
        assert(s@.subrange(0, 0) =~= Seq::<u8>::empty());
        assert(r@ =~= pct_encode(s@.subrange(0, 0)));
    }
    while i < n
        invariant
            n == s@.len(),
            0 <= i <= n,
            r@ == pct_encode(s@.subrange(0, i as int)),
        decreases n - i,
    {
        let b = s[i];
        if (48 <= b && b <= 57) || (65 <= b && b <= 90) || (97 <= b && b <= 122) {
            r.push(b);
        } else {
            r.push(37u8);
            let hi = b / 16;
            let lo = b % 16;
            r.push(if hi < 10 { 48 + hi } else { 55 + hi });
            r.push(if lo < 10 { 48 + lo } else { 55 + lo });
        }
        proof {
            lemma_pct_snoc(s@.subrange(0, i as int), s@[i as int]);
            assert(s@.subrange(0, i + 1 as int) =~= s@.subrange(0, i as int).push(s@[i as int]));
        }
        i += 1;
    }
    proof {
        assert(s@.subrange(0, n as int) =~= s@);
    }
    r
}

} // verus!
