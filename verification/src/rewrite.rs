//! Host rewriting of textual bodies: every occurrence of the upstream host is
//! replaced by the configured local value, and a `http(s)://` scheme run that
//! immediately precedes an occurrence is rewritten so that the emitted link
//! stays well-formed (`https://host` becomes `http://<local>`, or the whole
//! scheme-and-host run becomes `prefix_local` when that is configured).

use vstd::prelude::*;

use crate::bytepat::contains_seq;
use crate::bytepat::ends_with;
use crate::bytepat::starts_with;
use crate::bytepat::extend_all;
use crate::bytepat::extend_range;
use crate::bytepat::find_from;
use crate::bytepat::first_match;
use crate::bytepat::is_match_at;
use crate::bytepat::lemma_append_free_no_left_ext;
use crate::bytepat::lemma_append_free_no_right_ext;
use crate::bytepat::lemma_first_match;
use crate::bytepat::lemma_match_in_suffix;
use crate::bytepat::lemma_no_contain_before_first;
use crate::bytepat::lemma_no_contain_prefix;
use crate::bytepat::vec_ends_with;

verus! {

/// The bytes of `"https://"`.
pub open spec fn https_seq() -> Seq<u8> {
    seq![104u8, 116u8, 116u8, 112u8, 115u8, 58u8, 47u8, 47u8]
}

/// The bytes of `"http://"`.
pub open spec fn http_seq() -> Seq<u8> {
    seq![104u8, 116u8, 116u8, 112u8, 58u8, 47u8, 47u8]
}

fn https_lit() -> (r: Vec<u8>)
    ensures
        r@ == https_seq(),
{
    let r: Vec<u8> = vec![104u8, 116u8, 116u8, 112u8, 115u8, 58u8, 47u8, 47u8];
    assert(r@ =~= https_seq());
    r
}

fn http_lit() -> (r: Vec<u8>)
    ensures
        r@ == http_seq(),
{
    let r: Vec<u8> = vec![104u8, 116u8, 116u8, 112u8, 58u8, 47u8, 47u8];
    assert(r@ =~= http_seq());
    r
}

/// What is emitted at one occurrence of the host, given the bytes emitted so
/// far: a scheme run at the tail is repaired or replaced, then the local value
/// is appended.
pub open spec fn step_insert(out: Seq<u8>, rw: Seq<u8>, pl: Option<Seq<u8>>) -> Seq<u8> {
    match pl {
        Some(p) => {
            if ends_with(out, https_seq()) {
                out.subrange(0, out.len() - 8) + p
            } else if ends_with(out, http_seq()) {
                out.subrange(0, out.len() - 7) + p
            } else {
                out + rw
            }
        },
        None => {
            if ends_with(out, https_seq()) {
                out.subrange(0, out.len() - 8) + http_seq() + rw
            } else {
                out + rw
            }
        },
    }
}

/// The rewriting fold: `out` is what has been emitted, `rest` is what remains
/// of the body. Each step copies the bytes before the next occurrence of the
/// host, performs one insertion, and continues after the occurrence.
pub open spec fn rewrite_acc(
    out: Seq<u8>,
    rest: Seq<u8>,
    host: Seq<u8>,
    rw: Seq<u8>,
    pl: Option<Seq<u8>>,
) -> Seq<u8>
    decreases rest.len(),
{
    if host.len() == 0 || !contains_seq(rest, host) {
        out + rest
    } else {
        let i = first_match(rest, host) as int;
        let ic = if i + host.len() <= rest.len() {
            i
        } else {
            0
        };
        rewrite_acc(
            step_insert(out + rest.subrange(0, ic), rw, pl),
            rest.subrange(ic + host.len(), rest.len() as int),
            host,
            rw,
            pl,
        )
    }
}

/// The rewritten form of `body`.
pub open spec fn rewrite_spec(
    body: Seq<u8>,
    host: Seq<u8>,
    rw: Seq<u8>,
    pl: Option<Seq<u8>>,
) -> Seq<u8> {
    rewrite_acc(Seq::<u8>::empty(), body, host, rw, pl)
}

pub open spec fn opt_vec_view(pl: Option<&Vec<u8>>) -> Option<Seq<u8>> {
    match pl {
        Some(p) => Some(p@),
        None => None,
    }
}

/// One unfolding of `rewrite_acc` at a known first occurrence.
proof fn lemma_rewrite_acc_step(
    out: Seq<u8>,
    rest: Seq<u8>,
    host: Seq<u8>,
    rw: Seq<u8>,
    pl: Option<Seq<u8>>,
    i: int,
)
    requires
        host.len() > 0,
        is_match_at(rest, host, i),
        forall|j: int| 0 <= j < i ==> !is_match_at(rest, host, j),
    ensures
        rewrite_acc(out, rest, host, rw, pl) == rewrite_acc(
            step_insert(out + rest.subrange(0, i), rw, pl),
            rest.subrange(i + host.len(), rest.len() as int),
            host,
            rw,
            pl,
        ),
{
    lemma_first_match(rest, host);
    let f = first_match(rest, host) as int;
    assert(f == i);
}

/// Performs one step of the rewriting on the emitted buffer.
fn apply_insert(out: &mut Vec<u8>, rw: &[u8], pl: Option<&Vec<u8>>)
    ensures
        final(out)@ == step_insert(old(out)@, rw@, opt_vec_view(pl)),
{
    let https = https_lit();
    let http = http_lit();
    match pl {
        Some(p) => {
            if vec_ends_with(out, https.as_slice()) {
                let n = out.len() - 8;
                out.truncate(n);
                extend_all(out, p.as_slice());
            } else if vec_ends_with(out, http.as_slice()) {
                let n = out.len() - 7;
                out.truncate(n);
                extend_all(out, p.as_slice());
            } else {
                extend_all(out, rw);
            }
        },
        None => {
            if vec_ends_with(out, https.as_slice()) {
                let n = out.len() - 8;
                out.truncate(n);
                extend_all(out, http.as_slice());
                extend_all(out, rw);
            } else {
                extend_all(out, rw);
            }
        },
    }
}

/// Replace every occurrence of `host` in `body`: the first segment is copied
/// verbatim, and at each occurrence the local value is inserted, with the
/// scheme run preceding the occurrence repaired as `step_insert` says.
pub fn rewrite_body(body: &[u8], host: &[u8], rw: &[u8], pl: Option<&Vec<u8>>) -> (r: Vec<u8>)
    ensures
        r@ == rewrite_spec(body@, host@, rw@, opt_vec_view(pl)),
{
    let mut out: Vec<u8> = Vec::new();
    if host.len() == 0 {
        let n = body.len();
        extend_range(&mut out, body, 0, n);
        assert(out@ =~= rewrite_spec(body@, host@, rw@, opt_vec_view(pl)));
        return out;
    }
    let blen = body.len();
    let mut pos: usize = 0;
    proof {
        assert(body@.subrange(0, body@.len() as int) =~= body@);
        assert(out@ =~= Seq::<u8>::empty());
    }
    loop
        invariant
            host@.len() > 0,
            pos <= body@.len(),
            blen == body@.len(),
            rewrite_spec(body@, host@, rw@, opt_vec_view(pl)) == rewrite_acc(
                out@,
                body@.subrange(pos as int, body@.len() as int),
                host@,
                rw@,
                opt_vec_view(pl),
            ),
        decreases body@.len() - pos,
    {
        let ghost rest = body@.subrange(pos as int, body@.len() as int);
        match find_from(body, host, pos) {
            Some(i) => {
                proof {
                    lemma_match_in_suffix(body@, host@, pos as int, i - pos);
                    assert forall|j: int| 0 <= j < i - pos implies !is_match_at(rest, host@, j) by {
                        lemma_match_in_suffix(body@, host@, pos as int, j);
                    }
                    lemma_rewrite_acc_step(
                        out@,
                        rest,
                        host@,
                        rw@,
                        opt_vec_view(pl),
                        i - pos,
                    );
                }
                extend_range(&mut out, body, pos, i);
                proof {
                    assert(rest.subrange(0, i - pos) =~= body@.subrange(pos as int, i as int));
                }
                apply_insert(&mut out, rw, pl);
                let newpos = i + host.len();
                proof {
                    assert(rest.subrange(
                        i - pos + host@.len(),
                        rest.len() as int,
                    ) =~= body@.subrange(newpos as int, body@.len() as int));
                }
                pos = newpos;
            },
            None => {
                proof {
                    assert forall|j: int| !is_match_at(rest, host@, j) by {
                        if 0 <= j {
                            lemma_match_in_suffix(body@, host@, pos as int, j);
                        }
                    }
                }
                extend_range(&mut out, body, pos, blen);
                proof {
                    assert(body@.subrange(pos as int, blen as int) =~= rest);
                }
                return out;
            },
        }
    }
}

/// The conditions under which one inserted string cannot take part in a new
/// occurrence of the host: it is non-empty, neither of the two contains the
/// other, no proper suffix of the host begins it, and no proper prefix of the
/// host ends it. An insertion breaking one of these could complete an
/// occurrence across a boundary with the surrounding text.
pub open spec fn insert_ok(ins: Seq<u8>, host: Seq<u8>) -> bool {
    &&& ins.len() > 0
    &&& !contains_seq(ins, host)
    &&& !contains_seq(host, ins)
    &&& forall|k: int|
        0 < k < host.len() ==> !starts_with(ins, #[trigger] host.subrange(k, host.len() as int))
    &&& forall|k: int| 0 < k < host.len() ==> !ends_with(ins, #[trigger] host.subrange(0, k))
}

/// All strings the rewriting can insert are safe with respect to the host.
pub open spec fn rewrite_inserts_ok(host: Seq<u8>, rw: Seq<u8>, pl: Option<Seq<u8>>) -> bool {
    &&& insert_ok(rw, host)
    &&& match pl {
        Some(p) => insert_ok(p, host),
        None => insert_ok(http_seq(), host),
    }
}

/// The emitted buffer is free of the host and, unless empty, ends in one of
/// the inserted strings.
spec fn out_ok(out: Seq<u8>, host: Seq<u8>, rw: Seq<u8>, pl: Option<Seq<u8>>) -> bool {
    &&& !contains_seq(out, host)
    &&& (out.len() == 0 || ends_with(out, rw) || (pl is Some && ends_with(out, pl->0)))
}

/// A concatenation ends with its second part.
proof fn lemma_concat_ends_with(a: Seq<u8>, b: Seq<u8>)
    ensures
        ends_with(a + b, b),
{
    assert((a + b).subrange((a + b).len() - b.len(), (a + b).len() as int) =~= b);
}

/// Appending a segment of the body to a well-formed emitted buffer keeps it
/// free of the host.
proof fn lemma_out_append_segment(
    out: Seq<u8>,
    seg: Seq<u8>,
    host: Seq<u8>,
    rw: Seq<u8>,
    pl: Option<Seq<u8>>,
)
    requires
        host.len() > 0,
        rewrite_inserts_ok(host, rw, pl),
        out_ok(out, host, rw, pl),
        !contains_seq(seg, host),
    ensures
        !contains_seq(out + seg, host),
{
    if out.len() == 0 {
        assert(out + seg =~= seg);
    } else if ends_with(out, rw) {
        lemma_append_free_no_left_ext(out, seg, host, rw);
    } else {
        lemma_append_free_no_left_ext(out, seg, host, pl->0);
    }
}

proof fn lemma_step_insert_ok(out: Seq<u8>, host: Seq<u8>, rw: Seq<u8>, pl: Option<Seq<u8>>)
    requires
        host.len() > 0,
        rewrite_inserts_ok(host, rw, pl),
        !contains_seq(out, host),
    ensures
        out_ok(step_insert(out, rw, pl), host, rw, pl),
{
    match pl {
        Some(p) => {
            if ends_with(out, https_seq()) {
                let t = out.subrange(0, out.len() - 8);
                lemma_no_contain_prefix(out, host, out.len() - 8);
                lemma_append_free_no_right_ext(t, p, host);
                lemma_concat_ends_with(t, p);
            } else if ends_with(out, http_seq()) {
                let t = out.subrange(0, out.len() - 7);
                lemma_no_contain_prefix(out, host, out.len() - 7);
                lemma_append_free_no_right_ext(t, p, host);
                lemma_concat_ends_with(t, p);
            } else {
                lemma_append_free_no_right_ext(out, rw, host);
                lemma_concat_ends_with(out, rw);
            }
        },
        None => {
            if ends_with(out, https_seq()) {
                let t = out.subrange(0, out.len() - 8);
                lemma_no_contain_prefix(out, host, out.len() - 8);
                lemma_append_free_no_right_ext(t, http_seq(), host);
                lemma_append_free_no_right_ext(t + http_seq(), rw, host);
                lemma_concat_ends_with(t + http_seq(), rw);
            } else {
                lemma_append_free_no_right_ext(out, rw, host);
                lemma_concat_ends_with(out, rw);
            }
        },
    }
}

proof fn lemma_rewrite_acc_free(
    out: Seq<u8>,
    rest: Seq<u8>,
    host: Seq<u8>,
    rw: Seq<u8>,
    pl: Option<Seq<u8>>,
)
    requires
        host.len() > 0,
        rewrite_inserts_ok(host, rw, pl),
        out_ok(out, host, rw, pl),
    ensures
        !contains_seq(rewrite_acc(out, rest, host, rw, pl), host),
    decreases rest.len(),
{
    if !contains_seq(rest, host) {
        lemma_out_append_segment(out, rest, host, rw, pl);
    } else {
        lemma_first_match(rest, host);
        lemma_no_contain_before_first(rest, host);
        let i = first_match(rest, host) as int;
        let piece = rest.subrange(0, i);
        lemma_out_append_segment(out, piece, host, rw, pl);
        let out1 = out + piece;
        lemma_step_insert_ok(out1, host, rw, pl);
        lemma_rewrite_acc_free(
            step_insert(out1, rw, pl),
            rest.subrange(i + host.len(), rest.len() as int),
            host,
            rw,
            pl,
        );
    }
}

/// A body in which the host does not occur is left untouched by the rewriting.
pub proof fn lemma_rewrite_fixed(body: Seq<u8>, host: Seq<u8>, rw: Seq<u8>, pl: Option<Seq<u8>>)
    requires
        !contains_seq(body, host),
    ensures
        rewrite_spec(body, host, rw, pl) == body,
{
    assert(Seq::<u8>::empty() + body =~= body);
}

/// The host does not occur in a rewritten body, provided every string the
/// rewriting inserts is safe with respect to the host.
pub proof fn lemma_rewrite_free(body: Seq<u8>, host: Seq<u8>, rw: Seq<u8>, pl: Option<Seq<u8>>)
    requires
        host.len() > 0,
        rewrite_inserts_ok(host, rw, pl),
    ensures
        !contains_seq(rewrite_spec(body, host, rw, pl), host),
{
    lemma_rewrite_acc_free(Seq::<u8>::empty(), body, host, rw, pl);
}

/// Rewriting is idempotent: a second pass over an already rewritten body
/// changes nothing. This holds whenever every inserted string is safe with
/// respect to the host (`insert_ok`); that the inserted strings merely not
/// contain the host is not enough, since an insertion could otherwise
/// complete an occurrence across a boundary with the surrounding text.
pub proof fn lemma_rewrite_idempotent(
    body: Seq<u8>,
    host: Seq<u8>,
    rw: Seq<u8>,
    pl: Option<Seq<u8>>,
)
    requires
        host.len() > 0,
        rewrite_inserts_ok(host, rw, pl),
    ensures
        rewrite_spec(rewrite_spec(body, host, rw, pl), host, rw, pl) == rewrite_spec(
            body,
            host,
            rw,
            pl,
        ),
{
    lemma_rewrite_free(body, host, rw, pl);
    lemma_rewrite_fixed(rewrite_spec(body, host, rw, pl), host, rw, pl);
}

} // verus!
