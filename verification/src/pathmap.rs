//! The request-to-path mapping: a request's method, URL path and query
//! determine one archive path, deterministically. Path components that could
//! escape the archive root are rejected (`..`) or neutralised (empty and `.`
//! components, a leading `/`); a name without an extension gets the
//! `unknown_ext` sentinel appended so that the true extension can be healed
//! later; and the query entries, sorted so that the name does not depend on
//! map iteration order, are percent-encoded into the file name.

use vstd::prelude::*;

use crate::bytepat::contains_seq;
use crate::bytepat::extend_all;
use crate::bytepat::extend_range;
use crate::bytepat::find_from;
use crate::bytepat::first_match;
use crate::bytepat::is_match_at;
use crate::bytepat::lemma_first_match;
use crate::bytepat::lemma_match_in_suffix;
use crate::method::bytes_eq;
use crate::method::Method;
use crate::pctenc::pct_encode;
use crate::pctenc::percent_encode_bytes;
use crate::qsort::pair_leq_fn;
use crate::qsort::qview;
use crate::qsort::sort_query;

verus! {

/// The sentinel appended to a name whose extension is not yet known:
/// the bytes of `"unknown_ext"`.
pub open spec fn sentinel_seq() -> Seq<u8> {
    seq![117u8, 110u8, 107u8, 110u8, 111u8, 119u8, 110u8, 95u8, 101u8, 120u8, 116u8]
}

fn sentinel_lit() -> (r: Vec<u8>)
    ensures
        r@ == sentinel_seq(),
{
    let r: Vec<u8> = vec![117u8, 110u8, 107u8, 110u8, 111u8, 119u8, 110u8, 95u8, 101u8, 120u8, 116u8];
    assert(r@ =~= sentinel_seq());
    r
}

/// The views of a sequence of byte vectors.
pub open spec fn vviews(s: Seq<Vec<u8>>) -> Seq<Seq<u8>> {
    Seq::new(s.len(), |i: int| s[i]@)
}

/// A component survives normalisation if it is neither empty nor `.`.
pub open spec fn keep_comp(c: Seq<u8>) -> bool {
    c.len() > 0 && c != seq![46u8]
}

/// The surviving `/`-separated components of a URL path.
pub open spec fn comps_spec(s: Seq<u8>) -> Seq<Seq<u8>>
    decreases s.len(),
{
    if s.len() == 0 {
        Seq::empty()
    } else if !contains_seq(s, seq![47u8]) {
        if keep_comp(s) {
            seq![s]
        } else {
            Seq::empty()
        }
    } else {
        let i = first_match(s, seq![47u8]) as int;
        let ic = if i + 1 <= s.len() {
            i
        } else {
            0
        };
        let piece = s.subrange(0, ic);
        (if keep_comp(piece) {
            seq![piece]
        } else {
            Seq::empty()
        }) + comps_spec(s.subrange(ic + 1, s.len() as int))
    }
}

/// Components joined with single slashes.
pub open spec fn join_comps(cs: Seq<Seq<u8>>) -> Seq<u8>
    decreases cs.len(),
{
    if cs.len() == 0 {
        Seq::empty()
    } else if cs.len() == 1 {
        cs[0]
    } else {
        cs[0] + seq![47u8] + join_comps(cs.drop_first())
    }
}

/// Index of the last `.` that separates an extension: the last dot at
/// position one or later, `-1` when the name has no extension.
pub open spec fn last_dot(name: Seq<u8>) -> int
    decreases name.len(),
{
    if name.len() <= 1 {
        -1
    } else if name.last() == 46 {
        name.len() - 1
    } else {
        last_dot(name.drop_last())
    }
}

/// The extension of a file name, when it has one.
pub open spec fn file_ext(name: Seq<u8>) -> Option<Seq<u8>> {
    let d = last_dot(name);
    if d < 0 {
        None
    } else {
        Some(name.subrange(d + 1, name.len() as int))
    }
}

/// The stem of a file name: everything before the extension's dot.
pub open spec fn file_stem(name: Seq<u8>) -> Seq<u8> {
    let d = last_dot(name);
    if d < 0 {
        name
    } else {
        name.subrange(0, d)
    }
}

pub proof fn lemma_last_dot(name: Seq<u8>)
    ensures
        -1 <= last_dot(name) < name.len(),
        last_dot(name) >= 0 ==> last_dot(name) >= 1 && name[last_dot(name)] == 46,
        forall|j: int| last_dot(name) < j < name.len() && j >= 1 ==> name[j] != 46,
    decreases name.len(),
{
    if name.len() <= 1 {
    } else if name.last() == 46 {
    } else {
        lemma_last_dot(name.drop_last());
        assert forall|j: int|
            last_dot(name) < j < name.len() && j >= 1 implies name[j] != 46 by {
            if j < name.len() - 1 {
                assert(name[j] == name.drop_last()[j]);
            }
        }
    }
}

/// The encoded form of one query entry inside a file name:
/// `-key` or `-key=value`.
pub open spec fn query_entry(p: (Seq<u8>, Seq<u8>)) -> Seq<u8> {
    seq![45u8] + pct_encode(p.0) + (if p.1.len() > 0 {
        seq![61u8] + pct_encode(p.1)
    } else {
        Seq::<u8>::empty()
    })
}

/// The encoded form of a whole (sorted) query.
pub open spec fn query_suffix(q: Seq<(Seq<u8>, Seq<u8>)>) -> Seq<u8>
    decreases q.len(),
{
    if q.len() == 0 {
        Seq::empty()
    } else {
        query_entry(q.first()) + query_suffix(q.drop_first())
    }
}

proof fn lemma_query_suffix_snoc(q: Seq<(Seq<u8>, Seq<u8>)>, p: (Seq<u8>, Seq<u8>))
    ensures
        query_suffix(q.push(p)) == query_suffix(q) + query_entry(p),
    decreases q.len(),
{
    if q.len() == 0 {
        assert(q.push(p).drop_first() =~= Seq::<(Seq<u8>, Seq<u8>)>::empty());
        assert(q.push(p).first() == p);
        assert(query_suffix(q.push(p)) == query_entry(p) + query_suffix(q.push(p).drop_first()));
        assert(query_suffix(q.push(p).drop_first()) == Seq::<u8>::empty());
        assert(query_entry(p) + Seq::<u8>::empty() =~= query_entry(p));
        assert(query_suffix(q) + query_entry(p) =~= query_entry(p));
        assert(query_suffix(q.push(p)) =~= query_suffix(q) + query_entry(p));
    } else {
        assert(q.push(p).drop_first() =~= q.drop_first().push(p));
        assert(q.push(p).first() == q.first());
        lemma_query_suffix_snoc(q.drop_first(), p);
        assert(query_suffix(q.push(p)) =~= query_suffix(q) + query_entry(p));
    }
}

/// The base name used when the URL path is empty (or carries nothing):
/// `index.<METHOD>.unknown_ext`.
pub open spec fn index_name(m: Method) -> Seq<u8> {
    seq![105u8, 110u8, 100u8, 101u8, 120u8, 46u8] + m.name_spec() + seq![46u8] + sentinel_seq()
}

/// The file name after the query is folded in: `stem-entries.ext`.
pub open spec fn decorate(name: Seq<u8>, q: Seq<(Seq<u8>, Seq<u8>)>, include_query: bool) -> Seq<
    u8,
> {
    if include_query && q.len() > 0 {
        file_stem(name) + query_suffix(q) + (match file_ext(name) {
            Some(e) => seq![46u8] + e,
            None => Seq::<u8>::empty(),
        })
    } else {
        name
    }
}

/// The mapped path's components below the archive root.
pub open spec fn mapped_comps(
    m: Method,
    path: Seq<u8>,
    q: Seq<(Seq<u8>, Seq<u8>)>,
    include_query: bool,
) -> Seq<Seq<u8>> {
    if path.len() == 0 || comps_spec(path).len() == 0 {
        seq![index_name(m)]
    } else {
        let cs = comps_spec(path);
        let last0 = cs.last();
        let name0 = if path.last() == 47 || file_ext(last0) is None {
            last0 + sentinel_seq()
        } else {
            last0
        };
        cs.drop_last().push(decorate(name0, q, include_query))
    }
}

/// Whether the URL path tries to climb out of the archive.
pub open spec fn path_escapes(path: Seq<u8>) -> bool {
    exists|i: int|
        0 <= i < comps_spec(path).len() && comps_spec(path)[i] == seq![46u8, 46u8]
}

/// The archive path for a request: `root/<mapped components>`, or nothing
/// when the path must be rejected. `q` is the query already sorted.
pub open spec fn normalize_spec(
    root: Seq<u8>,
    m: Method,
    path: Seq<u8>,
    q: Seq<(Seq<u8>, Seq<u8>)>,
    include_query: bool,
) -> Option<Seq<u8>> {
    if path.len() == 0 {
        Some(root + seq![47u8] + index_name(m))
    } else if path_escapes(path) {
        None
    } else {
        Some(root + seq![47u8] + join_comps(mapped_comps(m, path, q, include_query)))
    }
}

/// A request whose mapping is refused.
#[derive(Clone, Copy, PartialEq, Eq, Structural, Debug)]
pub enum MapError {
    /// The URL path would escape the archive root.
    BadRequestPath,
}

/// The request data the mapping depends on.
pub struct HttpState {
    pub query: Vec<(Vec<u8>, Vec<u8>)>,
    pub method: Method,
}

/// Split a URL path into its surviving components.
fn split_components(path: &[u8]) -> (r: Vec<Vec<u8>>)
    ensures
        vviews(r@) == comps_spec(path@),
{
    let slash: Vec<u8> = vec![47u8];
    assert(slash@ =~= seq![47u8]);
    let mut acc: Vec<Vec<u8>> = Vec::new();
    let blen = path.len();
    let mut pos: usize = 0;
    proof {
        assert(path@.subrange(0, blen as int) =~= path@);
        assert(vviews(acc@) =~= Seq::<Seq<u8>>::empty());
    }
    loop
        invariant
            slash@ == seq![47u8],
            pos <= path@.len(),
            blen == path@.len(),
            comps_spec(path@) == vviews(acc@) + comps_spec(
                path@.subrange(pos as int, path@.len() as int),
            ),
        decreases path@.len() - pos,
    {
        let ghost rest = path@.subrange(pos as int, path@.len() as int);
        match find_from(path, slash.as_slice(), pos) {
            Some(i) => {
                proof {
                    lemma_match_in_suffix(path@, seq![47u8], pos as int, i - pos);
                    assert forall|j: int| 0 <= j < i - pos implies !is_match_at(
                        rest,
                        seq![47u8],
                        j,
                    ) by {
                        lemma_match_in_suffix(path@, seq![47u8], pos as int, j);
                    }
                    lemma_first_match(rest, seq![47u8]);
                    assert(first_match(rest, seq![47u8]) == i - pos);
                    assert(rest.subrange(0, i - pos) =~= path@.subrange(pos as int, i as int));
                    assert(rest.subrange(i - pos + 1, rest.len() as int) =~= path@.subrange(
                        i + 1 as int,
                        path@.len() as int,
                    ));
                }
                let mut piece: Vec<u8> = Vec::new();
                extend_range(&mut piece, path, pos, i);
                let keep = if piece.len() == 0 {
                    false
                } else if piece.len() == 1 {
                    piece[0] != 46u8
                } else {
                    true
                };
                proof {
                    if piece@.len() == 1 && piece@[0] == 46u8 {
                        assert(piece@ =~= seq![46u8]);
                    }
                    if piece@ == seq![46u8] {
                        assert(piece@[0] == 46u8);
                    }
                }
                let ghost acc_before = acc@;
                if keep {
                    acc.push(piece);
                    proof {
                        assert(vviews(acc@) =~= vviews(acc_before).push(
                            path@.subrange(pos as int, i as int),
                        ));
                        assert(vviews(acc_before).push(rest.subrange(0, i - pos))
                            =~= vviews(acc_before) + seq![rest.subrange(0, i - pos)]);
                    }
                } else {
                    proof {
                        assert(vviews(acc_before) + Seq::<Seq<u8>>::empty() =~= vviews(acc_before));
                    }
                }
                proof {
                    assert(vviews(acc@) + comps_spec(
                        path@.subrange(i + 1 as int, path@.len() as int),
                    ) =~= comps_spec(path@));
                }
                pos = i + 1;
            },
            None => {
                proof {
                    assert forall|j: int| !is_match_at(rest, seq![47u8], j) by {
                        if 0 <= j {
                            lemma_match_in_suffix(path@, seq![47u8], pos as int, j);
                        }
                    }
                }
                let mut piece: Vec<u8> = Vec::new();
                extend_range(&mut piece, path, pos, blen);
                proof {
                    assert(piece@ =~= rest);
                }
                let keep = if piece.len() == 0 {
                    false
                } else if piece.len() == 1 {
                    piece[0] != 46u8
                } else {
                    true
                };
                proof {
                    if piece@.len() == 1 && piece@[0] == 46u8 {
                        assert(piece@ =~= seq![46u8]);
                    }
                    if piece@ == seq![46u8] {
                        assert(piece@[0] == 46u8);
                    }
                }
                let ghost acc_before = acc@;
                if keep {
                    acc.push(piece);
                    proof {
                        assert(vviews(acc@) =~= vviews(acc_before) + seq![rest]);
                        assert(vviews(acc@) =~= comps_spec(path@));
                    }
                } else {
                    proof {
                        assert(vviews(acc@) + Seq::<Seq<u8>>::empty() =~= vviews(acc@));
                        assert(vviews(acc@) =~= comps_spec(path@));
                    }
                }
                return acc;
            },
        }
    }
}

/// Find the dot that separates the extension, scanning from the right.
pub fn find_last_dot(name: &[u8]) -> (r: Option<usize>)
    ensures
        match r {
            Some(d) => last_dot(name@) == d,
            None => last_dot(name@) == -1,
        },
{
    let mut j = name.len();
    proof {
        assert(name@.subrange(0, j as int) =~= name@);
    }
    while j > 1
        invariant
            j <= name@.len(),
            last_dot(name@) == last_dot(name@.subrange(0, j as int)),
        decreases j,
    {
        let ghost pre = name@.subrange(0, j as int);
        if name[j - 1] == 46u8 {
            proof {
                assert(pre.last() == name@[j - 1]);
            }
            return Some(j - 1);
        }
        proof {
            assert(pre.last() == name@[j - 1]);
            assert(pre.drop_last() =~= name@.subrange(0, j - 1 as int));
        }
        j -= 1;
    }
    None
}

/// Copy `src[from..to]` into a fresh vector.
pub fn sub_vec(src: &[u8], from: usize, to: usize) -> (r: Vec<u8>)
    requires
        from <= to <= src@.len(),
    ensures
        r@ == src@.subrange(from as int, to as int),
{
    let mut r: Vec<u8> = Vec::new();
    extend_range(&mut r, src, from, to);
    r
}

/// `root/index.<METHOD>.unknown_ext`.
fn build_index_path(root: &[u8], m: Method) -> (r: Vec<u8>)
    ensures
        r@ == root@ + seq![47u8] + index_name(m),
{
    let mut out: Vec<u8> = Vec::new();
    extend_all(&mut out, root);
    out.push(47u8);
    let head: Vec<u8> = vec![105u8, 110u8, 100u8, 101u8, 120u8, 46u8];
    assert(head@ =~= seq![105u8, 110u8, 100u8, 101u8, 120u8, 46u8]);
    extend_all(&mut out, head.as_slice());
    let name = m.name_bytes();
    extend_all(&mut out, name.as_slice());
    out.push(46u8);
    let sent = sentinel_lit();
    extend_all(&mut out, sent.as_slice());
    assert(out@ =~= root@ + seq![47u8] + index_name(m));
    out
}

/// The encoded query suffix of the (sorted) entries.
fn build_query_suffix(sorted: &Vec<(Vec<u8>, Vec<u8>)>) -> (r: Vec<u8>)
    ensures
        r@ == query_suffix(qview(sorted@)),
{
    let mut out: Vec<u8> = Vec::new();
    let n = sorted.len();
    let mut i: usize = 0;
    proof {
        assert(qview(sorted@).subrange(0, 0) =~= Seq::<(Seq<u8>, Seq<u8>)>::empty());
        assert(out@ =~= query_suffix(qview(sorted@).subrange(0, 0)));
    }
    while i < n
        invariant
            n == sorted@.len(),
            0 <= i <= n,
            out@ == query_suffix(qview(sorted@).subrange(0, i as int)),
        decreases n - i,
    {
        let ghost prefix = qview(sorted@).subrange(0, i as int);
        let ghost entry = qview(sorted@)[i as int];
        out.push(45u8);
        let ek = percent_encode_bytes(sorted[i].0.as_slice());
        extend_all(&mut out, ek.as_slice());
        if sorted[i].1.len() > 0 {
            out.push(61u8);
            let ev = percent_encode_bytes(sorted[i].1.as_slice());
            extend_all(&mut out, ev.as_slice());
        }
        proof {
            lemma_query_suffix_snoc(prefix, entry);
            assert(qview(sorted@).subrange(0, i + 1 as int) =~= prefix.push(entry));
            assert(out@ =~= query_suffix(prefix) + query_entry(entry));
        }
        i += 1;
    }
    proof {
        assert(qview(sorted@).subrange(0, n as int) =~= qview(sorted@));
    }
    out
}

/// Components each followed by a slash; `join_comps(cs.push(n)) == joinp(cs) + n`.
pub open spec fn joinp(cs: Seq<Seq<u8>>) -> Seq<u8>
    decreases cs.len(),
{
    if cs.len() == 0 {
        Seq::empty()
    } else {
        cs[0] + seq![47u8] + joinp(cs.drop_first())
    }
}

proof fn lemma_join_snoc(cs: Seq<Seq<u8>>, n: Seq<u8>)
    ensures
        join_comps(cs.push(n)) == joinp(cs) + n,
    decreases cs.len(),
{
    if cs.len() == 0 {
        assert(cs.push(n)[0] == n);
        assert(joinp(cs) + n =~= n);
    } else {
        assert(cs.push(n).drop_first() =~= cs.drop_first().push(n));
        lemma_join_snoc(cs.drop_first(), n);
        assert(cs.push(n).len() >= 2);
        assert(cs.push(n)[0] == cs[0]);
        assert(join_comps(cs.push(n)) == cs[0] + seq![47u8] + join_comps(cs.push(n).drop_first()));
        assert(cs[0] + seq![47u8] + (joinp(cs.drop_first()) + n) =~= joinp(cs) + n);
    }
}

proof fn lemma_joinp_snoc(cs: Seq<Seq<u8>>, c: Seq<u8>)
    ensures
        joinp(cs.push(c)) == joinp(cs) + c + seq![47u8],
    decreases cs.len(),
{
    if cs.len() == 0 {
        assert(cs.push(c)[0] == c);
        assert(cs.push(c).drop_first() =~= Seq::<Seq<u8>>::empty());
        assert(c + seq![47u8] + joinp(Seq::<Seq<u8>>::empty()) =~= joinp(cs) + c + seq![47u8]);
    } else {
        assert(cs.push(c).drop_first() =~= cs.drop_first().push(c));
        assert(cs.push(c)[0] == cs[0]);
        lemma_joinp_snoc(cs.drop_first(), c);
        assert(cs[0] + seq![47u8] + (joinp(cs.drop_first()) + c + seq![47u8]) =~= joinp(cs) + c
            + seq![47u8]);
    }
}

/// Map a request onto its archive path: `root/<components>/<decorated name>`.
/// The query is folded into the name only when `with_query` is set; a URL
/// path with a `..` component is refused.
pub fn normalize_url_path(
    root: &[u8],
    method: Method,
    query: Vec<(Vec<u8>, Vec<u8>)>,
    path: &[u8],
    with_query: bool,
) -> (r: Result<Vec<u8>, MapError>)
    ensures
        match r {
            Ok(v) => normalize_spec(
                root@,
                method,
                path@,
                qview(query@).sort_by(pair_leq_fn()),
                with_query,
            ) == Some(v@),
            Err(e) => normalize_spec(
                root@,
                method,
                path@,
                qview(query@).sort_by(pair_leq_fn()),
                with_query,
            ) is None && e == MapError::BadRequestPath,
        },
{
    let ghost q_sorted = qview(query@).sort_by(pair_leq_fn());
    proof {
        crate::qsort::lemma_pair_leq_total();
        qview(query@).lemma_sort_by_ensures(pair_leq_fn());
        vstd::seq_lib::to_multiset_len(qview(query@));
        vstd::seq_lib::to_multiset_len(q_sorted);
        assert(q_sorted.len() == qview(query@).len());
    }
    if path.len() == 0 {
        return Ok(build_index_path(root, method));
    }
    let mut comps = split_components(path);
    let dotdot: Vec<u8> = vec![46u8, 46u8];
    assert(dotdot@ =~= seq![46u8, 46u8]);
    let n = comps.len();
    let mut k: usize = 0;
    while k < n
        invariant
            n == comps@.len(),
            dotdot@ == seq![46u8, 46u8],
            vviews(comps@) == comps_spec(path@),
            0 <= k <= n,
            forall|j: int| 0 <= j < k ==> vviews(comps@)[j] != seq![46u8, 46u8],
        decreases n - k,
    {
        if bytes_eq(comps[k].as_slice(), dotdot.as_slice()) {
            proof {
                assert(comps_spec(path@)[k as int] == seq![46u8, 46u8]);
                assert(path_escapes(path@));
            }
            return Err(MapError::BadRequestPath);
        }
        k += 1;
    }
    assert(!path_escapes(path@));
    if comps.len() == 0 {
        proof {
            assert(mapped_comps(method, path@, q_sorted, with_query) == seq![index_name(method)]);
            assert(join_comps(seq![index_name(method)]) == index_name(method));
        }
        return Ok(build_index_path(root, method));
    }
    let ghost cs = comps_spec(path@);
    let last_opt = comps.pop();
    let last = last_opt.unwrap();
    proof {
        assert(last@ == cs.last());
        assert(vviews(comps@) =~= cs.drop_last());
    }
    let trailing = path[path.len() - 1] == 47u8;
    let no_ext = match find_last_dot(last.as_slice()) {
        Some(_) => false,
        None => true,
    };
    let mut name0 = last;
    if trailing || no_ext {
        let sent = sentinel_lit();
        extend_all(&mut name0, sent.as_slice());
    }
    let ghost name0_spec = if path@.last() == 47 || file_ext(cs.last()) is None {
        cs.last() + sentinel_seq()
    } else {
        cs.last()
    };
    assert(name0@ == name0_spec);
    let qlen = query.len();
    let name1: Vec<u8> = if with_query && qlen > 0 {
        let sorted = sort_query(query);
        let sfx = build_query_suffix(&sorted);
        let nlen = name0.len();
        match find_last_dot(name0.as_slice()) {
            Some(dd) => {
                proof {
                    lemma_last_dot(name0@);
                }
                let mut nv = sub_vec(name0.as_slice(), 0, dd);
                extend_all(&mut nv, sfx.as_slice());
                nv.push(46u8);
                let ext = sub_vec(name0.as_slice(), dd + 1, nlen);
                extend_all(&mut nv, ext.as_slice());
                proof {
                    assert(nv@ =~= decorate(name0_spec, q_sorted, with_query));
                }
                nv
            },
            None => {
                let mut nv = name0;
                extend_all(&mut nv, sfx.as_slice());
                proof {
                    assert(nv@ =~= decorate(name0_spec, q_sorted, with_query));
                }
                nv
            },
        }
    } else {
        proof {
            assert(name0@ == decorate(name0_spec, q_sorted, with_query));
        }
        name0
    };
    let mut out: Vec<u8> = Vec::new();
    extend_all(&mut out, root);
    out.push(47u8);
    let m = comps.len();
    let mut j: usize = 0;
    proof {
        assert(vviews(comps@).subrange(0, 0) =~= Seq::<Seq<u8>>::empty());
        assert(out@ =~= root@ + seq![47u8] + joinp(vviews(comps@).subrange(0, 0)));
    }
    while j < m
        invariant
            m == comps@.len(),
            0 <= j <= m,
            out@ == root@ + seq![47u8] + joinp(vviews(comps@).subrange(0, j as int)),
        decreases m - j,
    {
        let ghost done = vviews(comps@).subrange(0, j as int);
        extend_all(&mut out, comps[j].as_slice());
        out.push(47u8);
        proof {
            lemma_joinp_snoc(done, comps@[j as int]@);
            assert(vviews(comps@).subrange(0, j + 1 as int) =~= done.push(comps@[j as int]@));
            assert(out@ =~= root@ + seq![47u8] + (joinp(done) + comps@[j as int]@ + seq![47u8]));
        }
        j += 1;
    }
    extend_all(&mut out, name1.as_slice());
    proof {
        assert(vviews(comps@).subrange(0, m as int) =~= vviews(comps@));
        lemma_join_snoc(vviews(comps@), name1@);
        assert(mapped_comps(method, path@, q_sorted, with_query) == cs.drop_last().push(name1@));
        assert(out@ =~= root@ + seq![47u8] + join_comps(cs.drop_last().push(name1@)));
    }
    Ok(out)
}

proof fn lemma_concat_free(a: Seq<u8>, b: Seq<u8>, x: u8)
    requires
        !a.contains(x),
        !b.contains(x),
    ensures
        !(a + b).contains(x),
{
    assert forall|i: int| 0 <= i < (a + b).len() implies (a + b)[i] != x by {
        if i < a.len() {
            assert(a[i] == (a + b)[i]);
        } else {
            assert(b[i - a.len()] == (a + b)[i]);
        }
    }
}

proof fn lemma_subrange_free(a: Seq<u8>, x: u8, from: int, to: int)
    requires
        !a.contains(x),
        0 <= from <= to <= a.len(),
    ensures
        !a.subrange(from, to).contains(x),
{
    assert forall|i: int| 0 <= i < to - from implies a.subrange(from, to)[i] != x by {
        assert(a.subrange(from, to)[i] == a[from + i]);
    }
}

/// Every surviving component is non-empty, not `.`, and contains no slash.
proof fn lemma_comps_wf(s: Seq<u8>)
    ensures
        forall|i: int|
            0 <= i < comps_spec(s).len() ==> keep_comp(#[trigger] comps_spec(s)[i])
                && !comps_spec(s)[i].contains(47u8),
    decreases s.len(),
{
    if s.len() == 0 {
    } else if !contains_seq(s, seq![47u8]) {
        if keep_comp(s) {
            assert forall|j: int| 0 <= j < s.len() implies s[j] != 47u8 by {
                if s[j] == 47u8 {
                    assert(s.subrange(j, j + 1) =~= seq![47u8]);
                    assert(is_match_at(s, seq![47u8], j));
                }
            }
        }
    } else {
        lemma_first_match(s, seq![47u8]);
        let f = first_match(s, seq![47u8]) as int;
        let piece = s.subrange(0, f);
        assert forall|j: int| 0 <= j < piece.len() implies piece[j] != 47u8 by {
            if piece[j] == 47u8 {
                assert(s.subrange(j, j + 1) =~= seq![47u8]);
                assert(is_match_at(s, seq![47u8], j));
            }
        }
        let rest = s.subrange(f + 1, s.len() as int);
        lemma_comps_wf(rest);
        let head: Seq<Seq<u8>> = if keep_comp(piece) {
            seq![piece]
        } else {
            Seq::empty()
        };
        assert forall|i: int|
            0 <= i < comps_spec(s).len() implies keep_comp(#[trigger] comps_spec(s)[i])
            && !comps_spec(s)[i].contains(47u8) by {
            if i < head.len() {
                assert(comps_spec(s)[i] == piece);
            } else {
                assert(comps_spec(s)[i] == comps_spec(rest)[i - head.len()]);
            }
        }
    }
}

proof fn lemma_sentinel_wf()
    ensures
        !sentinel_seq().contains(47u8),
        sentinel_seq().len() == 11,
{
    assert forall|i: int| 0 <= i < sentinel_seq().len() implies sentinel_seq()[i] != 47u8 by {}
}

proof fn lemma_method_name_wf(m: Method)
    ensures
        !m.name_spec().contains(47u8),
        m.name_spec().len() > 0,
{
    assert forall|i: int| 0 <= i < m.name_spec().len() implies m.name_spec()[i] != 47u8 by {}
}

proof fn lemma_index_name_wf(m: Method)
    ensures
        !index_name(m).contains(47u8),
        index_name(m).len() > 2,
        index_name(m) != seq![46u8, 46u8],
{
    lemma_sentinel_wf();
    lemma_method_name_wf(m);
    let head = seq![105u8, 110u8, 100u8, 101u8, 120u8, 46u8];
    assert forall|i: int| 0 <= i < head.len() implies head[i] != 47u8 by {}
    assert(!seq![46u8].contains(47u8));
    lemma_concat_free(head, m.name_spec(), 47u8);
    lemma_concat_free(head + m.name_spec(), seq![46u8], 47u8);
    lemma_concat_free(head + m.name_spec() + seq![46u8], sentinel_seq(), 47u8);
}

proof fn lemma_pct_free_slash(s: Seq<u8>)
    ensures
        !pct_encode(s).contains(47u8),
    decreases s.len(),
{
    if s.len() == 0 {
    } else {
        lemma_pct_free_slash(s.drop_first());
        let pb = crate::pctenc::pct_byte(s.first());
        assert forall|i: int| 0 <= i < pb.len() implies pb[i] != 47u8 by {}
        lemma_concat_free(pb, pct_encode(s.drop_first()), 47u8);
    }
}

proof fn lemma_suffix_free_slash(q: Seq<(Seq<u8>, Seq<u8>)>)
    ensures
        !query_suffix(q).contains(47u8),
        q.len() > 0 ==> query_suffix(q).len() > 0 && query_suffix(q).first() == 45u8,
    decreases q.len(),
{
    if q.len() > 0 {
        lemma_suffix_free_slash(q.drop_first());
        let p = q.first();
        lemma_pct_free_slash(p.0);
        lemma_pct_free_slash(p.1);
        assert(!seq![45u8].contains(47u8));
        lemma_concat_free(seq![45u8], pct_encode(p.0), 47u8);
        if p.1.len() > 0 {
            assert(!seq![61u8].contains(47u8));
            lemma_pct_free_slash(p.1);
            lemma_concat_free(seq![61u8], pct_encode(p.1), 47u8);
            lemma_concat_free(seq![45u8] + pct_encode(p.0), seq![61u8] + pct_encode(p.1), 47u8);
        } else {
            lemma_concat_free(seq![45u8] + pct_encode(p.0), Seq::<u8>::empty(), 47u8);
        }
        lemma_concat_free(query_entry(p), query_suffix(q.drop_first()), 47u8);
        assert(query_entry(p)[0] == 45u8);
        assert(query_suffix(q).first() == 45u8);
    }
}

/// The mapped path stays inside the archive: it is the root, a slash, and the
/// mapped components joined with slashes, and no component is empty, is `..`,
/// or contains a slash of its own — so the path is a true descendant of the
/// root, whatever the request was.
pub proof fn lemma_path_stays_inside(
    root: Seq<u8>,
    m: Method,
    path: Seq<u8>,
    q: Seq<(Seq<u8>, Seq<u8>)>,
    include_query: bool,
)
    requires
        normalize_spec(root, m, path, q, include_query) is Some,
    ensures
        normalize_spec(root, m, path, q, include_query) == Some(
            root + seq![47u8] + join_comps(mapped_comps(m, path, q, include_query)),
        ),
        forall|i: int|
            0 <= i < mapped_comps(m, path, q, include_query).len() ==> {
                let c = #[trigger] mapped_comps(m, path, q, include_query)[i];
                c.len() > 0 && c != seq![46u8, 46u8] && !c.contains(47u8)
            },
{
    let mapped = mapped_comps(m, path, q, include_query);
    if path.len() == 0 || comps_spec(path).len() == 0 {
        lemma_index_name_wf(m);
        assert(mapped == seq![index_name(m)]);
        assert(join_comps(seq![index_name(m)]) == index_name(m));
        assert forall|i: int|
            0 <= i < mapped.len() implies {
            let c = #[trigger] mapped[i];
            c.len() > 0 && c != seq![46u8, 46u8] && !c.contains(47u8)
        } by {
            assert(mapped[i] == index_name(m));
        }
    } else {
        let cs = comps_spec(path);
        lemma_comps_wf(path);
        assert(!path_escapes(path));
        let last0 = cs.last();
        assert(keep_comp(last0) && !last0.contains(47u8));
        let name0 = if path.last() == 47 || file_ext(last0) is None {
            last0 + sentinel_seq()
        } else {
            last0
        };
        lemma_sentinel_wf();
        lemma_concat_free(last0, sentinel_seq(), 47u8);
        assert(name0.len() > 0 && !name0.contains(47u8));
        // name0 is not "..": either it is a surviving component, which cannot
        // be "..", or it ends in the sentinel and is longer than two bytes.
        assert(cs[cs.len() - 1] == last0);
        assert(last0 != seq![46u8, 46u8]);
        assert(name0 != seq![46u8, 46u8]);
        let name1 = decorate(name0, q, include_query);
        lemma_last_dot(name0);
        if include_query && q.len() > 0 {
            let d = last_dot(name0);
            let stem = file_stem(name0);
            lemma_suffix_free_slash(q);
            if d < 0 {
                lemma_concat_free(stem, query_suffix(q), 47u8);
                lemma_concat_free(stem + query_suffix(q), Seq::<u8>::empty(), 47u8);
            } else {
                lemma_subrange_free(name0, 47u8, 0, d);
                lemma_concat_free(stem, query_suffix(q), 47u8);
                lemma_subrange_free(name0, 47u8, d + 1, name0.len() as int);
                assert(!seq![46u8].contains(47u8));
                lemma_concat_free(seq![46u8], name0.subrange(d + 1, name0.len() as int), 47u8);
                lemma_concat_free(
                    stem + query_suffix(q),
                    seq![46u8] + name0.subrange(d + 1, name0.len() as int),
                    47u8,
                );
            }
            assert(stem.len() > 0);
            assert(query_suffix(q).len() > 0);
            // The suffix byte after the stem is '-', so the name cannot be "..".
            assert(name1[stem.len() as int] == 45u8);
            if name1 == seq![46u8, 46u8] {
                assert(name1.len() == 2);
                assert(stem.len() == 1);
                assert(name1[1] == 45u8);
                assert(false);
            }
            assert(name1.len() > 0 && !name1.contains(47u8));
        } else {
            assert(name1 == name0);
        }
        assert(mapped == cs.drop_last().push(name1));
        assert forall|i: int|
            0 <= i < mapped.len() implies {
            let c = #[trigger] mapped[i];
            c.len() > 0 && c != seq![46u8, 46u8] && !c.contains(47u8)
        } by {
            if i < mapped.len() - 1 {
                assert(mapped[i] == cs[i]);
                assert(keep_comp(cs[i]) && !cs[i].contains(47u8));
                assert(cs[i] != seq![46u8, 46u8]);
            } else {
                assert(mapped[i] == name1);
            }
        }
    }
}

/// The mapped path does not depend on the order of the query entries: two
/// queries with the same entries, however arranged, map to the same path.
pub proof fn lemma_query_order_irrelevant(
    root: Seq<u8>,
    m: Method,
    path: Seq<u8>,
    q1: Seq<(Seq<u8>, Seq<u8>)>,
    q2: Seq<(Seq<u8>, Seq<u8>)>,
    include_query: bool,
)
    requires
        q1.to_multiset() == q2.to_multiset(),
    ensures
        normalize_spec(root, m, path, q1.sort_by(pair_leq_fn()), include_query) == normalize_spec(
            root,
            m,
            path,
            q2.sort_by(pair_leq_fn()),
            include_query,
        ),
{
    crate::qsort::lemma_pair_leq_total();
    q1.lemma_sort_by_ensures(pair_leq_fn());
    q2.lemma_sort_by_ensures(pair_leq_fn());
    vstd::seq_lib::lemma_sorted_unique(
        q1.sort_by(pair_leq_fn()),
        q2.sort_by(pair_leq_fn()),
        pair_leq_fn(),
    );
    assert(q1.sort_by(pair_leq_fn()) == q2.sort_by(pair_leq_fn()));
}

} // verus!
