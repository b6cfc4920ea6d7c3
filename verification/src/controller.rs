//! The forward controller's decisions. For each request the controller maps
//! the URL onto an archive path, serves from disk when a cached `GET` entry
//! exists, and otherwise forwards upstream; the response is then captured —
//! healed to a canonical extension when the mapper had to guess, rewritten
//! when textual, persisted only for `GET` — and a failed upstream turns into
//! a bare `502`. Everything here is a pure decision; the I/O that carries it
//! out lives outside the library.

use vstd::prelude::*;

use crate::bytepat::contains_seq;
use crate::bytepat::ends_with;
use crate::bytepat::vec_ends_with;
use crate::bytepat::extend_all;
use crate::bytepat::find_from;
use crate::bytepat::slice_starts_with;
use crate::bytepat::starts_with;
use crate::headers::lower_seq;
use crate::method::Method;
use crate::mimewrap::first_mime_extension;
use crate::mimewrap::heal_ext_spec;
use crate::pathmap::file_ext;
use crate::pathmap::file_stem;
use crate::pathmap::sentinel_seq;
use crate::pathmap::sub_vec;
use crate::rewrite::opt_vec_view;

verus! {

/// Whether a request is answered from the archive or forwarded upstream.
#[derive(Clone, Copy, PartialEq, Eq, Structural, Debug)]
pub enum RouteDecision {
    ServeFromDisk,
    Forward,
}

/// Route a request: a `GET` whose archive entry exists on disk is served
/// from it and no upstream request is made; everything else — any other
/// method, or a missing entry — is forwarded.
pub fn route_request(method: Method, cache_exists: bool) -> (d: RouteDecision)
    ensures
        d == RouteDecision::ServeFromDisk <==> (method == Method::Get && cache_exists),
{
    if method == Method::Get && cache_exists {
        RouteDecision::ServeFromDisk
    } else {
        RouteDecision::Forward
    }
}

/// Only `GET` responses are persisted into the archive.
pub fn persist_response(method: Method) -> (r: bool)
    ensures
        r == (method == Method::Get),
{
    method == Method::Get
}

/// The content types whose bodies are rewritten (and buffered) rather than
/// streamed verbatim.
pub open spec fn is_textual_spec(ct: Seq<u8>) -> bool {
    ||| starts_with(ct, seq![116u8, 101u8, 120u8, 116u8, 47u8, 99u8, 115u8, 115u8])  // text/css
    ||| starts_with(
        ct,
        seq![116u8, 101u8, 120u8, 116u8, 47u8, 106u8, 97u8, 118u8, 97u8, 115u8, 99u8, 114u8, 105u8, 112u8, 116u8],
    )  // text/javascript
    ||| starts_with(
        ct,
        seq![97u8, 112u8, 112u8, 108u8, 105u8, 99u8, 97u8, 116u8, 105u8, 111u8, 110u8, 47u8, 106u8, 115u8, 111u8, 110u8],
    )  // application/json
    ||| starts_with(ct, seq![116u8, 101u8, 120u8, 116u8, 47u8, 104u8, 116u8, 109u8, 108u8])  // text/html
    ||| starts_with(
        ct,
        seq![97u8, 112u8, 112u8, 108u8, 105u8, 99u8, 97u8, 116u8, 105u8, 111u8, 110u8, 47u8, 120u8, 104u8, 116u8, 109u8, 108u8, 43u8, 120u8, 109u8, 108u8],
    )  // application/xhtml+xml
}

/// Does this content type mark a textual body?
pub fn is_textual(ct: &[u8]) -> (r: bool)
    ensures
        r == is_textual_spec(ct@),
{
    let css: Vec<u8> = vec![116u8, 101u8, 120u8, 116u8, 47u8, 99u8, 115u8, 115u8];
    assert(css@ =~= seq![116u8, 101u8, 120u8, 116u8, 47u8, 99u8, 115u8, 115u8]);
    let js: Vec<u8> = vec![116u8, 101u8, 120u8, 116u8, 47u8, 106u8, 97u8, 118u8, 97u8, 115u8, 99u8, 114u8, 105u8, 112u8, 116u8];
    assert(js@ =~= seq![116u8, 101u8, 120u8, 116u8, 47u8, 106u8, 97u8, 118u8, 97u8, 115u8, 99u8, 114u8, 105u8, 112u8, 116u8]);
    let json: Vec<u8> = vec![97u8, 112u8, 112u8, 108u8, 105u8, 99u8, 97u8, 116u8, 105u8, 111u8, 110u8, 47u8, 106u8, 115u8, 111u8, 110u8];
    assert(json@ =~= seq![97u8, 112u8, 112u8, 108u8, 105u8, 99u8, 97u8, 116u8, 105u8, 111u8, 110u8, 47u8, 106u8, 115u8, 111u8, 110u8]);
    let html: Vec<u8> = vec![116u8, 101u8, 120u8, 116u8, 47u8, 104u8, 116u8, 109u8, 108u8];
    assert(html@ =~= seq![116u8, 101u8, 120u8, 116u8, 47u8, 104u8, 116u8, 109u8, 108u8]);
    let xhtml: Vec<u8> = vec![97u8, 112u8, 112u8, 108u8, 105u8, 99u8, 97u8, 116u8, 105u8, 111u8, 110u8, 47u8, 120u8, 104u8, 116u8, 109u8, 108u8, 43u8, 120u8, 109u8, 108u8];
    assert(xhtml@ =~= seq![97u8, 112u8, 112u8, 108u8, 105u8, 99u8, 97u8, 116u8, 105u8, 111u8, 110u8, 47u8, 120u8, 104u8, 116u8, 109u8, 108u8, 43u8, 120u8, 109u8, 108u8]);
    slice_starts_with(ct, css.as_slice()) || slice_starts_with(ct, js.as_slice())
        || slice_starts_with(ct, json.as_slice()) || slice_starts_with(ct, html.as_slice())
        || slice_starts_with(ct, xhtml.as_slice())
}

/// Index of the last slash in a path, `-1` when there is none.
pub open spec fn last_slash(p: Seq<u8>) -> int
    decreases p.len(),
{
    if p.len() == 0 {
        -1
    } else if p.last() == 47 {
        p.len() - 1
    } else {
        last_slash(p.drop_last())
    }
}

/// The file-name part of a path: what follows the last slash.
pub open spec fn base_name(p: Seq<u8>) -> Seq<u8> {
    p.subrange(last_slash(p) + 1, p.len() as int)
}

/// The directory part of a path, trailing slash included.
pub open spec fn dir_prefix(p: Seq<u8>) -> Seq<u8> {
    p.subrange(0, last_slash(p) + 1)
}

pub proof fn lemma_last_slash(p: Seq<u8>)
    ensures
        -1 <= last_slash(p) < p.len(),
        last_slash(p) >= 0 ==> p[last_slash(p)] == 47,
        forall|j: int| last_slash(p) < j < p.len() ==> p[j] != 47,
    decreases p.len(),
{
    if p.len() == 0 {
    } else if p.last() == 47 {
    } else {
        lemma_last_slash(p.drop_last());
        assert forall|j: int| last_slash(p) < j < p.len() implies p[j] != 47 by {
            if j < p.len() - 1 {
                assert(p[j] == p.drop_last()[j]);
            }
        }
    }
}

/// Find the last slash of a path, scanning from the right.
fn find_last_slash(p: &[u8]) -> (r: Option<usize>)
    ensures
        match r {
            Some(d) => last_slash(p@) == d,
            None => last_slash(p@) == -1,
        },
{
    let mut j = p.len();
    proof {
        assert(p@.subrange(0, j as int) =~= p@);
    }
    while j > 0
        invariant
            j <= p@.len(),
            last_slash(p@) == last_slash(p@.subrange(0, j as int)),
        decreases j,
    {
        let ghost pre = p@.subrange(0, j as int);
        if p[j - 1] == 47u8 {
            proof {
                assert(pre.last() == p@[j - 1]);
            }
            return Some(j - 1);
        }
        proof {
            assert(pre.last() == p@[j - 1]);
            assert(pre.drop_last() =~= p@.subrange(0, j - 1 as int));
        }
        j -= 1;
    }
    None
}

/// Whether the mapper had to guess this path's extension: the extension of
/// its file name carries the `unknown_ext` sentinel, or — for a name that
/// got the sentinel appended without a dot and so has no extension at all —
/// the name itself ends with the sentinel.
pub open spec fn sentinel_in_name(p: Seq<u8>) -> bool {
    match file_ext(base_name(p)) {
        Some(e) => contains_seq(e, sentinel_seq()),
        None => ends_with(base_name(p), sentinel_seq()),
    }
}

/// The stem a healed name keeps: the file name with the sentinel removed —
/// the part before the extension's dot when there is one, the name less its
/// sentinel suffix otherwise.
pub open spec fn healed_stem(p: Seq<u8>) -> Seq<u8> {
    let b = base_name(p);
    match file_ext(b) {
        Some(e) => file_stem(b),
        None => if b.len() >= sentinel_seq().len() {
            b.subrange(0, b.len() - sentinel_seq().len())
        } else {
            b
        },
    }
}

/// The canonical path a sentinel name heals to: the same directory and stem,
/// with the extension the content type names.
pub open spec fn healed_spec(p: Seq<u8>, e: Seq<u8>) -> Seq<u8> {
    dir_prefix(p) + healed_stem(p) + seq![46u8] + e
}

/// Where a forwarded response is written, and how it is delivered.
pub struct ForwardPlan {
    /// The file the body is written to (the healed path when healing applies).
    pub write_path: Vec<u8>,
    /// Whether a hard link from the original sentinel name must be created.
    pub link: bool,
    /// Whether the body is buffered and rewritten rather than streamed.
    pub textual: bool,
    /// Whether the body is persisted at all.
    pub persist: bool,
}

/// Decide how to capture and deliver an upstream response, from the mapped
/// path, the request method, and the upstream `Content-Type`. Healing
/// applies when the path's name carries the sentinel and the MIME table
/// offers an extension for the content type: the write target becomes the
/// canonical name, and the sentinel name is to be hard-linked to it.
pub fn plan_forward_response(npath: &Vec<u8>, method: Method, ct: Option<&Vec<u8>>) -> (r:
    ForwardPlan)
    ensures
        r.persist == (method == Method::Get),
        r.textual == (match opt_vec_view(ct) {
            Some(c) => is_textual_spec(c),
            None => false,
        }),
        (sentinel_in_name(npath@) && ct is Some && heal_ext_spec(ct->0@) is Some) ==> {
            &&& r.write_path@ == healed_spec(npath@, heal_ext_spec(ct->0@)->0)
            &&& r.link
        },
        !(sentinel_in_name(npath@) && ct is Some && heal_ext_spec(ct->0@) is Some) ==> {
            &&& r.write_path@ == npath@
            &&& !r.link
        },
{
    let persist = persist_response(method);
    let textual = match ct {
        Some(c) => is_textual(c.as_slice()),
        None => false,
    };
    let plen = npath.len();
    proof {
        lemma_last_slash(npath@);
    }
    let base_from = match find_last_slash(npath.as_slice()) {
        Some(s) => {
            assert(s < npath@.len());
            s + 1
        },
        None => 0,
    };
    let base = sub_vec(npath.as_slice(), base_from, plen);
    proof {
        assert(base@ =~= base_name(npath@));
    }
    let sentinel: Vec<u8> = vec![117u8, 110u8, 107u8, 110u8, 111u8, 119u8, 110u8, 95u8, 101u8, 120u8, 116u8];
    assert(sentinel@ =~= sentinel_seq());
    let healing = match crate::pathmap::find_last_dot(base.as_slice()) {
        Some(d) => {
            proof {
                crate::pathmap::lemma_last_dot(base@);
            }
            let ext = sub_vec(base.as_slice(), d + 1, base.len());
            proof {
                assert(ext@ =~= file_ext(base_name(npath@))->0);
            }
            match find_from(ext.as_slice(), sentinel.as_slice(), 0) {
                Some(_) => true,
                None => false,
            }
        },
        None => vec_ends_with(&base, sentinel.as_slice()),
    };
    if healing && ct.is_some() {
        let c = match ct {
            Some(c) => c,
            None => unreached(),
        };
        match first_mime_extension(c.as_slice()) {
            Some(e) => {
                let mut target = sub_vec(npath.as_slice(), 0, base_from);
                proof {
                    assert(target@ =~= dir_prefix(npath@));
                }
                let stem = match crate::pathmap::find_last_dot(base.as_slice()) {
                    Some(d) => {
                        proof {
                            crate::pathmap::lemma_last_dot(base@);
                        }
                        sub_vec(base.as_slice(), 0, d)
                    },
                    None => {
                        // The name has no extension, so healing fired because
                        // it ends with the sentinel, which is what comes off.
                        assert(ends_with(base@, sentinel_seq()));
                        sub_vec(base.as_slice(), 0, base.len() - sentinel.len())
                    },
                };
                proof {
                    assert(stem@ =~= healed_stem(npath@));
                }
                extend_all(&mut target, stem.as_slice());
                target.push(46u8);
                extend_all(&mut target, e.as_slice());
                proof {
                    assert(target@ =~= healed_spec(npath@, heal_ext_spec(ct->0@)->0));
                }
                return ForwardPlan { write_path: target, link: true, textual, persist };
            },
            None => {},
        }
    }
    let mut same: Vec<u8> = Vec::new();
    extend_all(&mut same, npath.as_slice());
    ForwardPlan { write_path: same, link: false, textual, persist }
}

/// The bytes of `"content-type"`.
pub open spec fn content_type_name_seq() -> Seq<u8> {
    seq![99u8, 111u8, 110u8, 116u8, 101u8, 110u8, 116u8, 45u8, 116u8, 121u8, 112u8, 101u8]
}

/// The first `Content-Type` value among the inbound headers, compared
/// case-insensitively.
pub open spec fn inbound_ct_spec(hs: Seq<(Seq<u8>, Seq<u8>)>) -> Option<Seq<u8>>
    decreases hs.len(),
{
    if hs.len() == 0 {
        None
    } else if lower_seq(hs.first().0) == content_type_name_seq() {
        Some(hs.first().1)
    } else {
        inbound_ct_spec(hs.drop_first())
    }
}

/// The one inbound header the upstream request carries on: its
/// `Content-Type`, when present. The `method` pseudo-header and everything
/// else is consumed; the HTTP client adds its own defaults.
pub fn forwarded_content_type(hs: &Vec<(Vec<u8>, Vec<u8>)>) -> (r: Option<Vec<u8>>)
    ensures
        r is Some <==> inbound_ct_spec(crate::headers::hviews(hs@)) is Some,
        r is Some ==> r->0@ == inbound_ct_spec(crate::headers::hviews(hs@))->0,
{
    let ghost hv = crate::headers::hviews(hs@);
    let ctname: Vec<u8> = vec![99u8, 111u8, 110u8, 116u8, 101u8, 110u8, 116u8, 45u8, 116u8, 121u8, 112u8, 101u8];
    assert(ctname@ =~= content_type_name_seq());
    let n = hs.len();
    let mut i: usize = 0;
    proof {
        assert(hv.subrange(0, hv.len() as int) =~= hv);
    }
    while i < n
        invariant
            n == hs@.len(),
            0 <= i <= n,
            hv == crate::headers::hviews(hs@),
            ctname@ == content_type_name_seq(),
            inbound_ct_spec(hv) == inbound_ct_spec(hv.subrange(i as int, hv.len() as int)),
        decreases n - i,
    {
        let ghost rest = hv.subrange(i as int, hv.len() as int);
        let low = crate::headers::lower_header_name(hs[i].0.as_slice());
        proof {
            assert(rest.first() == hv[i as int]);
            assert(rest.drop_first() =~= hv.subrange(i + 1 as int, hv.len() as int));
        }
        if crate::method::bytes_eq(low.as_slice(), ctname.as_slice()) {
            let mut v: Vec<u8> = Vec::new();
            extend_all(&mut v, hs[i].1.as_slice());
            return Some(v);
        }
        i += 1;
    }
    proof {
        assert(hv.subrange(n as int, hv.len() as int) =~= Seq::<(Seq<u8>, Seq<u8>)>::empty());
    }
    None
}

/// The response the client receives when the upstream cannot be reached:
/// a bare `502` with an empty body; nothing is written to the archive.
pub struct ErrorResponse {
    pub status: u16,
    pub body: Vec<u8>,
}

/// A failed upstream request turns into `502` with an empty body.
pub fn upstream_error_response() -> (r: ErrorResponse)
    ensures
        r.status == 502,
        r.body@.len() == 0,
{
    ErrorResponse { status: 502, body: Vec::new() }
}

} // verus!
