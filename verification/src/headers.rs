//! Response header handling for forwarded requests: the CORS headers the
//! proxy adds, and the upstream headers it refuses to pass on. The HSTS
//! family must not leak to the loopback client, and the upstream
//! `Content-Length` no longer holds once the body is rewritten.

use vstd::prelude::*;

use crate::bytepat::extend_all;
use crate::method::bytes_eq;

verus! {

/// Lower-case form of one ASCII byte.
pub open spec fn to_lower(b: u8) -> u8 {
    if 65 <= b <= 90 {
        (b + 32) as u8
    } else {
        b
    }
}

/// Lower-case form of a header name.
pub open spec fn lower_seq(s: Seq<u8>) -> Seq<u8> {
    Seq::new(s.len(), |i: int| to_lower(s[i]))
}

/// The bytes of `"content-length"`.
pub open spec fn content_length_seq() -> Seq<u8> {
    seq![99u8, 111u8, 110u8, 116u8, 101u8, 110u8, 116u8, 45u8, 108u8, 101u8, 110u8, 103u8, 116u8, 104u8]
}

/// The bytes of `"strict-transport-security"`.
pub open spec fn sts_seq() -> Seq<u8> {
    seq![115u8, 116u8, 114u8, 105u8, 99u8, 116u8, 45u8, 116u8, 114u8, 97u8, 110u8, 115u8, 112u8, 111u8, 114u8, 116u8, 45u8, 115u8, 101u8, 99u8, 117u8, 114u8, 105u8, 116u8, 121u8]
}

/// The bytes of `"expect-ct"`.
pub open spec fn expect_ct_seq() -> Seq<u8> {
    seq![101u8, 120u8, 112u8, 101u8, 99u8, 116u8, 45u8, 99u8, 116u8]
}

/// Headers that are not copied from the upstream response.
pub open spec fn hdr_dropped(name: Seq<u8>) -> bool {
    ||| lower_seq(name) == content_length_seq()
    ||| lower_seq(name) == sts_seq()
    ||| lower_seq(name) == expect_ct_seq()
}

/// The upstream headers that survive, in their original order.
pub open spec fn kept_headers(hs: Seq<(Seq<u8>, Seq<u8>)>) -> Seq<(Seq<u8>, Seq<u8>)>
    decreases hs.len(),
{
    if hs.len() == 0 {
        Seq::empty()
    } else {
        (if hdr_dropped(hs.first().0) {
            Seq::<(Seq<u8>, Seq<u8>)>::empty()
        } else {
            seq![hs.first()]
        }) + kept_headers(hs.drop_first())
    }
}

proof fn lemma_kept_snoc(hs: Seq<(Seq<u8>, Seq<u8>)>, h: (Seq<u8>, Seq<u8>))
    ensures
        kept_headers(hs.push(h)) == kept_headers(hs) + (if hdr_dropped(h.0) {
            Seq::<(Seq<u8>, Seq<u8>)>::empty()
        } else {
            seq![h]
        }),
    decreases hs.len(),
{
    let tail: Seq<(Seq<u8>, Seq<u8>)> = if hdr_dropped(h.0) {
        Seq::empty()
    } else {
        seq![h]
    };
    if hs.len() == 0 {
        assert(hs.push(h).drop_first() =~= Seq::<(Seq<u8>, Seq<u8>)>::empty());
        assert(hs.push(h).first() == h);
        assert(kept_headers(hs.push(h)) == tail + kept_headers(hs.push(h).drop_first()));
        assert(kept_headers(hs.push(h).drop_first()) == Seq::<(Seq<u8>, Seq<u8>)>::empty());
        assert(tail + Seq::<(Seq<u8>, Seq<u8>)>::empty() =~= tail);
        assert(kept_headers(hs) + tail =~= tail);
        assert(kept_headers(hs.push(h)) =~= kept_headers(hs) + tail);
    } else {
        assert(hs.push(h).drop_first() =~= hs.drop_first().push(h));
        assert(hs.push(h).first() == hs.first());
        lemma_kept_snoc(hs.drop_first(), h);
        assert(kept_headers(hs.push(h)) =~= kept_headers(hs) + tail);
    }
}

/// The decimal digits of a number.
pub open spec fn dec_digits(n: nat) -> Seq<u8>
    decreases n,
{
    if n < 10 {
        seq![(48 + n) as u8]
    } else {
        dec_digits(n / 10).push((48 + n % 10) as u8)
    }
}

/// Write a port number in decimal.
pub fn u16_to_dec(n: u16) -> (r: Vec<u8>)
    ensures
        r@ == dec_digits(n as nat),
    decreases n,
{
    if n < 10 {
        let r: Vec<u8> = vec![48u8 + (n as u8)];
        assert(r@ =~= dec_digits(n as nat));
        r
    } else {
        let mut r = u16_to_dec(n / 10);
        r.push(48u8 + ((n % 10) as u8));
        r
    }
}

/// The bytes of `"localhost:<port>"`.
pub open spec fn localhost_seq(port: u16) -> Seq<u8> {
    seq![108u8, 111u8, 99u8, 97u8, 108u8, 104u8, 111u8, 115u8, 116u8, 58u8] + dec_digits(
        port as nat,
    )
}

/// The bytes of `"localhost:<port>"`, the CORS origin and the default
/// rewrite host.
pub fn localhost_port(port: u16) -> (r: Vec<u8>)
    ensures
        r@ == localhost_seq(port),
{
    let mut r: Vec<u8> = vec![108u8, 111u8, 99u8, 97u8, 108u8, 104u8, 111u8, 115u8, 116u8, 58u8];
    assert(r@ =~= seq![108u8, 111u8, 99u8, 97u8, 108u8, 104u8, 111u8, 115u8, 116u8, 58u8]);
    let d = u16_to_dec(port);
    extend_all(&mut r, d.as_slice());
    r
}

/// The bytes of `"access-control-allow-origin"`.
pub open spec fn acao_seq() -> Seq<u8> {
    seq![97u8, 99u8, 99u8, 101u8, 115u8, 115u8, 45u8, 99u8, 111u8, 110u8, 116u8, 114u8, 111u8, 108u8, 45u8, 97u8, 108u8, 108u8, 111u8, 119u8, 45u8, 111u8, 114u8, 105u8, 103u8, 105u8, 110u8]
}

/// The bytes of `"access-control-allow-credentials"`.
pub open spec fn acac_seq() -> Seq<u8> {
    seq![97u8, 99u8, 99u8, 101u8, 115u8, 115u8, 45u8, 99u8, 111u8, 110u8, 116u8, 114u8, 111u8, 108u8, 45u8, 97u8, 108u8, 108u8, 111u8, 119u8, 45u8, 99u8, 114u8, 101u8, 100u8, 101u8, 110u8, 116u8, 105u8, 97u8, 108u8, 115u8]
}

/// The bytes of `"access-control-allow-methods"`.
pub open spec fn acam_seq() -> Seq<u8> {
    seq![97u8, 99u8, 99u8, 101u8, 115u8, 115u8, 45u8, 99u8, 111u8, 110u8, 116u8, 114u8, 111u8, 108u8, 45u8, 97u8, 108u8, 108u8, 111u8, 119u8, 45u8, 109u8, 101u8, 116u8, 104u8, 111u8, 100u8, 115u8]
}

/// The CORS headers the proxy seeds every forwarded response with.
pub open spec fn cors_headers(port: u16) -> Seq<(Seq<u8>, Seq<u8>)> {
    seq![
        (acao_seq(), localhost_seq(port)),
        (acac_seq(), seq![116u8, 114u8, 117u8, 101u8]),
        (acam_seq(), seq![42u8]),
    ]
}

/// The full outbound header set: CORS first, then the surviving upstream
/// headers in their order.
pub open spec fn response_headers_spec(hs: Seq<(Seq<u8>, Seq<u8>)>, port: u16) -> Seq<
    (Seq<u8>, Seq<u8>),
> {
    cors_headers(port) + kept_headers(hs)
}

/// The views of a header list.
pub open spec fn hviews(s: Seq<(Vec<u8>, Vec<u8>)>) -> Seq<(Seq<u8>, Seq<u8>)> {
    Seq::new(s.len(), |i: int| (s[i].0@, s[i].1@))
}

/// Lower-case a header name.
pub fn lower_header_name(s: &[u8]) -> (r: Vec<u8>)
    ensures
        r@ == lower_seq(s@),
{
    let n = s.len();
    let mut r: Vec<u8> = Vec::new();
    let mut i: usize = 0;
    while i < n
        invariant
            n == s@.len(),
            0 <= i <= n,
            r@.len() == i,
            forall|k: int| 0 <= k < i ==> r@[k] == to_lower(s@[k]),
        decreases n - i,
    {
        let b = s[i];
        if 65 <= b && b <= 90 {
            r.push(b + 32);
        } else {
            r.push(b);
        }
        i += 1;
    }
    assert(r@ =~= lower_seq(s@));
    r
}

/// Build the headers of a forwarded response: the CORS seed plus every
/// upstream header except `Content-Length`, `Strict-Transport-Security` and
/// `Expect-CT` (matched case-insensitively).
pub fn response_headers(upstream: &Vec<(Vec<u8>, Vec<u8>)>, port: u16) -> (r: Vec<
    (Vec<u8>, Vec<u8>),
>)
    ensures
        hviews(r@) == response_headers_spec(hviews(upstream@), port),
{
    let mut r: Vec<(Vec<u8>, Vec<u8>)> = Vec::new();
    let acao: Vec<u8> = vec![97u8, 99u8, 99u8, 101u8, 115u8, 115u8, 45u8, 99u8, 111u8, 110u8, 116u8, 114u8, 111u8, 108u8, 45u8, 97u8, 108u8, 108u8, 111u8, 119u8, 45u8, 111u8, 114u8, 105u8, 103u8, 105u8, 110u8];
    assert(acao@ =~= acao_seq());
    let acac: Vec<u8> = vec![97u8, 99u8, 99u8, 101u8, 115u8, 115u8, 45u8, 99u8, 111u8, 110u8, 116u8, 114u8, 111u8, 108u8, 45u8, 97u8, 108u8, 108u8, 111u8, 119u8, 45u8, 99u8, 114u8, 101u8, 100u8, 101u8, 110u8, 116u8, 105u8, 97u8, 108u8, 115u8];
    assert(acac@ =~= acac_seq());
    let acam: Vec<u8> = vec![97u8, 99u8, 99u8, 101u8, 115u8, 115u8, 45u8, 99u8, 111u8, 110u8, 116u8, 114u8, 111u8, 108u8, 45u8, 97u8, 108u8, 108u8, 111u8, 119u8, 45u8, 109u8, 101u8, 116u8, 104u8, 111u8, 100u8, 115u8];
    assert(acam@ =~= acam_seq());
    let origin = localhost_port(port);
    let tru: Vec<u8> = vec![116u8, 114u8, 117u8, 101u8];
    assert(tru@ =~= seq![116u8, 114u8, 117u8, 101u8]);
    let star: Vec<u8> = vec![42u8];
    assert(star@ =~= seq![42u8]);
    r.push((acao, origin));
    r.push((acac, tru));
    r.push((acam, star));
    proof {
        assert(hviews(r@) =~= cors_headers(port));
        assert(hviews(upstream@).subrange(0, 0) =~= Seq::<(Seq<u8>, Seq<u8>)>::empty());
        assert(hviews(r@) =~= cors_headers(port) + kept_headers(
            hviews(upstream@).subrange(0, 0),
        ));
    }
    let cl: Vec<u8> = vec![99u8, 111u8, 110u8, 116u8, 101u8, 110u8, 116u8, 45u8, 108u8, 101u8, 110u8, 103u8, 116u8, 104u8];
    assert(cl@ =~= content_length_seq());
    let sts: Vec<u8> = vec![115u8, 116u8, 114u8, 105u8, 99u8, 116u8, 45u8, 116u8, 114u8, 97u8, 110u8, 115u8, 112u8, 111u8, 114u8, 116u8, 45u8, 115u8, 101u8, 99u8, 117u8, 114u8, 105u8, 116u8, 121u8];
    assert(sts@ =~= sts_seq());
    let ect: Vec<u8> = vec![101u8, 120u8, 112u8, 101u8, 99u8, 116u8, 45u8, 99u8, 116u8];
    assert(ect@ =~= expect_ct_seq());
    let n = upstream.len();
    let mut i: usize = 0;
    while i < n
        invariant
            n == upstream@.len(),
            0 <= i <= n,
            cl@ == content_length_seq(),
            sts@ == sts_seq(),
            ect@ == expect_ct_seq(),
            hviews(r@) == cors_headers(port) + kept_headers(
                hviews(upstream@).subrange(0, i as int),
            ),
        decreases n - i,
    {
        let ghost prefix = hviews(upstream@).subrange(0, i as int);
        let ghost h = hviews(upstream@)[i as int];
        let low = lower_header_name(upstream[i].0.as_slice());
        let drop_it = bytes_eq(low.as_slice(), cl.as_slice()) || bytes_eq(
            low.as_slice(),
            sts.as_slice(),
        ) || bytes_eq(low.as_slice(), ect.as_slice());
        let ghost r_before = r@;
        if !drop_it {
            let mut name: Vec<u8> = Vec::new();
            extend_all(&mut name, upstream[i].0.as_slice());
            let mut value: Vec<u8> = Vec::new();
            extend_all(&mut value, upstream[i].1.as_slice());
            r.push((name, value));
            proof {
                assert(hviews(r@) =~= hviews(r_before).push(h));
            }
        }
        proof {
            lemma_kept_snoc(prefix, h);
            assert(hviews(upstream@).subrange(0, i + 1 as int) =~= prefix.push(h));
            if drop_it {
                assert(cors_headers(port) + kept_headers(prefix.push(h)) =~= hviews(r@));
            } else {
                assert(cors_headers(port) + kept_headers(prefix.push(h)) =~= hviews(
                    r_before,
                ).push(h));
            }
        }
        i += 1;
    }
    proof {
        assert(hviews(upstream@).subrange(0, n as int) =~= hviews(upstream@));
    }
    r
}

/// No outbound response carries `Strict-Transport-Security`: the proxy's own
/// CORS headers are other names, and the upstream copy is dropped.
pub proof fn lemma_no_hsts_leak(hs: Seq<(Seq<u8>, Seq<u8>)>, port: u16)
    ensures
        forall|i: int|
            0 <= i < response_headers_spec(hs, port).len() ==> lower_seq(
                #[trigger] response_headers_spec(hs, port)[i].0,
            ) != sts_seq(),
{
    lemma_kept_not_dropped(hs);
    let out = response_headers_spec(hs, port);
    assert forall|i: int| 0 <= i < out.len() implies lower_seq(out[i].0) != sts_seq() by {
        if i < 3 {
            assert(out[0].0 == acao_seq() && out[1].0 == acac_seq() && out[2].0 == acam_seq());
            assert(lower_seq(acao_seq()) =~= acao_seq());
            assert(lower_seq(acac_seq()) =~= acac_seq());
            assert(lower_seq(acam_seq()) =~= acam_seq());
        } else {
            assert(out[i] == kept_headers(hs)[i - 3]);
        }
    }
}

/// Every header that survives the filter is one the filter keeps.
proof fn lemma_kept_not_dropped(hs: Seq<(Seq<u8>, Seq<u8>)>)
    ensures
        forall|j: int|
            0 <= j < kept_headers(hs).len() ==> !hdr_dropped(#[trigger] kept_headers(hs)[j].0),
    decreases hs.len(),
{
    if hs.len() > 0 {
        lemma_kept_not_dropped(hs.drop_first());
        let head: Seq<(Seq<u8>, Seq<u8>)> = if hdr_dropped(hs.first().0) {
            Seq::empty()
        } else {
            seq![hs.first()]
        };
        assert forall|j: int|
            0 <= j < kept_headers(hs).len() implies !hdr_dropped(
            #[trigger] kept_headers(hs)[j].0,
        ) by {
            if j < head.len() {
                assert(kept_headers(hs)[j] == hs.first());
            } else {
                assert(kept_headers(hs)[j] == kept_headers(hs.drop_first())[j - head.len()]);
            }
        }
    }
}

} // verus!
