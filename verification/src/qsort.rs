//! Ordering of query entries. The archive filename must not depend on the
//! order in which the HTTP framework happens to iterate the query map, so the
//! entries are sorted by key (and by value between equal keys) before they are
//! written into the name.

use vstd::prelude::*;

use vstd::relations::total_ordering;
use vstd::relations::sorted_by;
use vstd::seq_lib::lemma_sorted_unique;

use crate::method::bytes_eq;

verus! {

/// The view of one query entry.
pub open spec fn pv(p: (Vec<u8>, Vec<u8>)) -> (Seq<u8>, Seq<u8>) {
    (p.0@, p.1@)
}

/// The view of a query: the sequence of entry views.
pub open spec fn qview(s: Seq<(Vec<u8>, Vec<u8>)>) -> Seq<(Seq<u8>, Seq<u8>)> {
    Seq::new(s.len(), |i: int| pv(s[i]))
}

/// Lexicographic order on byte strings.
pub open spec fn lex_leq(a: Seq<u8>, b: Seq<u8>) -> bool
    decreases a.len(),
{
    if a.len() == 0 {
        true
    } else if b.len() == 0 {
        false
    } else if a.first() < b.first() {
        true
    } else if a.first() > b.first() {
        false
    } else {
        lex_leq(a.drop_first(), b.drop_first())
    }
}

/// Order on query entries: by key, and by value between equal keys.
pub open spec fn pair_leq(a: (Seq<u8>, Seq<u8>), b: (Seq<u8>, Seq<u8>)) -> bool {
    if a.0 == b.0 {
        lex_leq(a.1, b.1)
    } else {
        lex_leq(a.0, b.0)
    }
}

/// The entry order as a first-class relation.
pub open spec fn pair_leq_fn() -> spec_fn((Seq<u8>, Seq<u8>), (Seq<u8>, Seq<u8>)) -> bool {
    |x: (Seq<u8>, Seq<u8>), y: (Seq<u8>, Seq<u8>)| pair_leq(x, y)
}

proof fn lemma_lex_refl(a: Seq<u8>)
    ensures
        lex_leq(a, a),
    decreases a.len(),
{
    if a.len() > 0 {
        lemma_lex_refl(a.drop_first());
    }
}

proof fn lemma_lex_antisym(a: Seq<u8>, b: Seq<u8>)
    requires
        lex_leq(a, b),
        lex_leq(b, a),
    ensures
        a == b,
    decreases a.len(),
{
    if a.len() == 0 {
        assert(b.len() == 0);
        assert(a =~= b);
    } else {
        assert(b.len() > 0);
        assert(a.first() == b.first());
        lemma_lex_antisym(a.drop_first(), b.drop_first());
        assert(a.drop_first() == b.drop_first());
        assert(a.drop_first().len() == a.len() - 1);
        assert(b.drop_first().len() == b.len() - 1);
        assert(a.len() == b.len());
        assert forall|i: int| 0 <= i < a.len() implies a[i] == b[i] by {
            if i > 0 {
                assert(a[i] == a.drop_first()[i - 1]);
                assert(b[i] == b.drop_first()[i - 1]);
            }
        }
        assert(a =~= b);
    }
}

proof fn lemma_lex_trans(a: Seq<u8>, b: Seq<u8>, c: Seq<u8>)
    requires
        lex_leq(a, b),
        lex_leq(b, c),
    ensures
        lex_leq(a, c),
    decreases a.len(),
{
    if a.len() > 0 && b.len() > 0 && c.len() > 0 {
        if a.first() == b.first() && b.first() == c.first() {
            lemma_lex_trans(a.drop_first(), b.drop_first(), c.drop_first());
        }
    }
}

proof fn lemma_lex_connected(a: Seq<u8>, b: Seq<u8>)
    ensures
        lex_leq(a, b) || lex_leq(b, a),
    decreases a.len(),
{
    if a.len() > 0 && b.len() > 0 && a.first() == b.first() {
        lemma_lex_connected(a.drop_first(), b.drop_first());
    }
}

/// The entry order is a total order, as the sorting lemmas require.
pub proof fn lemma_pair_leq_total()
    ensures
        total_ordering(pair_leq_fn()),
{
    let f = pair_leq_fn();
    assert forall|x: (Seq<u8>, Seq<u8>)| #[trigger] f(x, x) by {
        lemma_lex_refl(x.1);
    }
    assert forall|x: (Seq<u8>, Seq<u8>), y: (Seq<u8>, Seq<u8>)| #[trigger] f(x, y) && #[trigger] f(
        y,
        x,
    ) implies x == y by {
        if x.0 == y.0 {
            lemma_lex_antisym(x.1, y.1);
        } else {
            lemma_lex_antisym(x.0, y.0);
        }
    }
    assert forall|x: (Seq<u8>, Seq<u8>), y: (Seq<u8>, Seq<u8>), z: (Seq<u8>, Seq<u8>)|
        #[trigger] f(x, y) && #[trigger] f(y, z) implies f(x, z) by {
        if x.0 == y.0 && y.0 == z.0 {
            lemma_lex_trans(x.1, y.1, z.1);
        } else if x.0 == y.0 {
            // keys x.0 == y.0 < z.0
        } else if y.0 == z.0 {
            // keys x.0 < y.0 == z.0
        } else {
            lemma_lex_trans(x.0, y.0, z.0);
            if x.0 == z.0 {
                lemma_lex_antisym(x.0, y.0);
            }
        }
    }
    assert forall|x: (Seq<u8>, Seq<u8>), y: (Seq<u8>, Seq<u8>)| #[trigger] f(x, y) || #[trigger] f(
        y,
        x,
    ) by {
        if x.0 == y.0 {
            lemma_lex_connected(x.1, y.1);
        } else {
            lemma_lex_connected(x.0, y.0);
        }
    }
}

/// Executable lexicographic comparison from position `i` on.
fn lex_le_from(a: &[u8], b: &[u8], i: usize) -> (r: bool)
    requires
        i <= a@.len(),
        i <= b@.len(),
    ensures
        r == lex_leq(
            a@.subrange(i as int, a@.len() as int),
            b@.subrange(i as int, b@.len() as int),
        ),
    decreases a@.len() - i,
{
    let ghost sa = a@.subrange(i as int, a@.len() as int);
    let ghost sb = b@.subrange(i as int, b@.len() as int);
    if i == a.len() {
        true
    } else if i == b.len() {
        false
    } else if a[i] < b[i] {
        assert(sa.first() == a@[i as int] && sb.first() == b@[i as int]);
        true
    } else if a[i] > b[i] {
        assert(sa.first() == a@[i as int] && sb.first() == b@[i as int]);
        false
    } else {
        let r = lex_le_from(a, b, i + 1);
        proof {
            assert(sa.first() == a@[i as int] && sb.first() == b@[i as int]);
            assert(sa.drop_first() =~= a@.subrange(i + 1 as int, a@.len() as int));
            assert(sb.drop_first() =~= b@.subrange(i + 1 as int, b@.len() as int));
        }
        r
    }
}

/// Executable lexicographic comparison of two byte strings.
pub fn lex_le(a: &[u8], b: &[u8]) -> (r: bool)
    ensures
        r == lex_leq(a@, b@),
{
    let r = lex_le_from(a, b, 0);
    proof {
        assert(a@.subrange(0, a@.len() as int) =~= a@);
        assert(b@.subrange(0, b@.len() as int) =~= b@);
    }
    r
}

/// Executable comparison of two query entries.
fn pair_le(a: &(Vec<u8>, Vec<u8>), b: &(Vec<u8>, Vec<u8>)) -> (r: bool)
    ensures
        r == pair_leq(pv(*a), pv(*b)),
{
    if bytes_eq(a.0.as_slice(), b.0.as_slice()) {
        lex_le(a.1.as_slice(), b.1.as_slice())
    } else {
        lex_le(a.0.as_slice(), b.0.as_slice())
    }
}

/// Sort the query entries by key (values break ties): the result is the
/// unique sorted arrangement of the input entries.
pub fn sort_query(q: Vec<(Vec<u8>, Vec<u8>)>) -> (r: Vec<(Vec<u8>, Vec<u8>)>)
    ensures
        qview(r@) == qview(q@).sort_by(pair_leq_fn()),
{
    let ghost orig = qview(q@);
    let mut src = q;
    let mut out: Vec<(Vec<u8>, Vec<u8>)> = Vec::new();
    proof {
        broadcast use vstd::seq_lib::group_to_multiset_ensures;
        broadcast use vstd::multiset::group_multiset_axioms;

        assert(qview(out@) =~= Seq::<(Seq<u8>, Seq<u8>)>::empty());
        vstd::multiset::lemma_multiset_empty_len(qview(out@).to_multiset());
        assert(qview(out@).to_multiset().add(qview(src@).to_multiset()) =~= orig.to_multiset());
    }
    loop
        invariant
            orig == qview(q@),
            sorted_by(qview(out@), pair_leq_fn()),
            qview(out@).to_multiset().add(qview(src@).to_multiset()) == orig.to_multiset(),
        decreases src@.len(),
    {
        let ghost src_before = src@;
        let ghost out_before = out@;
        match src.pop() {
            None => {
                proof {
                    broadcast use vstd::seq_lib::group_to_multiset_ensures;
                    broadcast use vstd::multiset::group_multiset_axioms;

                    vstd::multiset::lemma_multiset_empty_len(qview(src@).to_multiset());
                    assert(qview(out@).to_multiset() =~= orig.to_multiset());
                    lemma_pair_leq_total();
                    orig.lemma_sort_by_ensures(pair_leq_fn());
                    assert(qview(out@).to_multiset() == orig.sort_by(
                        pair_leq_fn(),
                    ).to_multiset());
                    lemma_sorted_unique(qview(out@), orig.sort_by(pair_leq_fn()), pair_leq_fn());
                    assert(qview(out@) == orig.sort_by(pair_leq_fn()));
                }
                return out;
            },
            Some(e) => {
                let pos = insert_position(&out, &e);
                out.insert(pos, e);
                proof {
                    broadcast use vstd::seq_lib::group_to_multiset_ensures;
                    broadcast use vstd::seq_lib::to_multiset_insert;
                    broadcast use vstd::multiset::group_multiset_axioms;

                    lemma_pair_leq_total();
                    assert(qview(out@) =~= qview(out_before).insert(pos as int, pv(e)));
                    lemma_insert_sorted(qview(out_before), pv(e), pos as int);
                    assert(qview(src_before) =~= qview(src@).push(pv(e)));
                    assert(qview(src@).push(pv(e)).to_multiset() == qview(src@).to_multiset().insert(
                        pv(e),
                    ));
                    assert(qview(out_before).insert(pos as int, pv(e)).to_multiset() == qview(
                        out_before,
                    ).to_multiset().insert(pv(e)));
                    assert(qview(out@).to_multiset().add(qview(src@).to_multiset()) =~= orig.to_multiset());
                }
            },
        }
    }
}

/// The first index whose entry is at least `e`; entries before it are below `e`.
fn insert_position(out: &Vec<(Vec<u8>, Vec<u8>)>, e: &(Vec<u8>, Vec<u8>)) -> (pos: usize)
    ensures
        pos <= out@.len(),
        forall|j: int| 0 <= j < pos ==> !pair_leq(pv(*e), pv(out@[j])),
        pos < out@.len() ==> pair_leq(pv(*e), pv(out@[pos as int])),
{
    let n = out.len();
    let mut pos: usize = 0;
    while pos < n
        invariant
            n == out@.len(),
            0 <= pos <= n,
            forall|j: int| 0 <= j < pos ==> !pair_leq(pv(*e), pv(out@[j])),
        decreases n - pos,
    {
        if pair_le(e, &out[pos]) {
            return pos;
        }
        pos += 1;
    }
    pos
}

/// Inserting at the boundary found by `insert_position` keeps the sequence sorted.
proof fn lemma_insert_sorted(s: Seq<(Seq<u8>, Seq<u8>)>, e: (Seq<u8>, Seq<u8>), pos: int)
    requires
        total_ordering(pair_leq_fn()),
        sorted_by(s, pair_leq_fn()),
        0 <= pos <= s.len(),
        forall|j: int| 0 <= j < pos ==> !pair_leq(e, s[j]),
        pos < s.len() ==> pair_leq(e, s[pos]),
    ensures
        sorted_by(s.insert(pos, e), pair_leq_fn()),
{
    let f = pair_leq_fn();
    let t = s.insert(pos, e);
    assert forall|i: int, j: int| 0 <= i < j < t.len() implies f(t[i], t[j]) by {
        if i < pos && j < pos {
        } else if i < pos && j == pos {
            // t[i] = s[i], t[j] = e: from !pair_leq(e, s[i]) and totality
            assert(!f(e, s[i]));
            assert(f(s[i], e) || f(e, s[i]));
        } else if i < pos && j > pos {
            // t[i] = s[i] and t[j] = s[j-1] with i <= j-1, so sortedness of s
            // settles it, except when i and j-1 coincide (reflexivity then).
            assert(t[i] == s[i] && t[j] == s[j - 1]);
            if i == j - 1 {
                lemma_lex_refl(s[i].0);
                lemma_lex_refl(s[i].1);
                assert(f(s[i], s[i]));
            } else {
                assert(f(s[i], s[j - 1]));
            }
        } else if i == pos {
            // t[i] = e, t[j] = s[j-1] with j-1 >= pos
            if pos < s.len() {
                assert(f(e, s[pos]));
                if j - 1 == pos {
                } else {
                    assert(f(s[pos], s[j - 1]));
                }
            }
        } else {
            // pos < i < j: t[i] = s[i-1], t[j] = s[j-1]
            assert(f(s[i - 1], s[j - 1]));
        }
    }
}

} // verus!
