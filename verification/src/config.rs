//! Configuration rules: the default rewrite host, the shape of the upstream
//! URL, the check on `prefix_local`, and the name of a packaged archive.

use vstd::prelude::*;

use crate::bytepat::contains_seq;
use crate::bytepat::ends_with;
use crate::bytepat::extend_all;
use crate::bytepat::find_from;
use crate::bytepat::vec_ends_with;
use crate::headers::localhost_seq;
use crate::headers::localhost_port;
use crate::rewrite::http_seq;
use crate::rewrite::https_seq;

verus! {

/// The rewrite host that takes effect: the configured one, or
/// `localhost:<port>` when none was given.
pub fn effective_rewrite_host(rewrite: Option<Vec<u8>>, listen: u16) -> (r: Vec<u8>)
    ensures
        r@ == match rewrite {
            Some(v) => v@,
            None => localhost_seq(listen),
        },
{
    match rewrite {
        Some(v) => v,
        None => localhost_port(listen),
    }
}

/// A `prefix_local` value must not itself carry a scheme separator: the
/// rewriting would otherwise reinsert what it just removed.
pub fn prefix_local_acceptable(p: &Vec<u8>) -> (r: bool)
    ensures
        r <==> !contains_seq(p@, seq![58u8, 47u8, 47u8]),
{
    let sep: Vec<u8> = vec![58u8, 47u8, 47u8];
    assert(sep@ =~= seq![58u8, 47u8, 47u8]);
    match find_from(p.as_slice(), sep.as_slice(), 0) {
        Some(_) => false,
        None => true,
    }
}

/// The URL of the upstream request that mirrors an inbound request:
/// `http(s)://<host>/<path>` (the query is appended by the HTTP client).
pub open spec fn upstream_url_spec(secure: bool, host: Seq<u8>, path: Seq<u8>) -> Seq<u8> {
    (if secure {
        https_seq()
    } else {
        http_seq()
    }) + host + seq![47u8] + path
}

/// Build the upstream URL for a request.
pub fn upstream_url(secure: bool, host: &[u8], path: &[u8]) -> (r: Vec<u8>)
    ensures
        r@ == upstream_url_spec(secure, host@, path@),
{
    let mut r: Vec<u8> = if secure {
        let v: Vec<u8> = vec![104u8, 116u8, 116u8, 112u8, 115u8, 58u8, 47u8, 47u8];
        assert(v@ =~= https_seq());
        v
    } else {
        let v: Vec<u8> = vec![104u8, 116u8, 116u8, 112u8, 58u8, 47u8, 47u8];
        assert(v@ =~= http_seq());
        v
    };
    extend_all(&mut r, host);
    r.push(47u8);
    extend_all(&mut r, path);
    r
}

/// The name of the packaged archive a folder is compressed into: the given
/// output, completed with the format's suffix when it lacks it, or the
/// folder's own name plus the suffix.
pub fn compress_output_name(output: Option<Vec<u8>>, dir_name: &[u8], ext: &[u8]) -> (r: Vec<u8>)
    ensures
        r@ == match output {
            Some(o) => if ends_with(o@, ext@) {
                o@
            } else {
                o@ + ext@
            },
            None => dir_name@ + ext@,
        },
{
    match output {
        Some(mut o) => {
            if vec_ends_with(&o, ext) {
                o
            } else {
                extend_all(&mut o, ext);
                o
            }
        },
        None => {
            let mut r: Vec<u8> = Vec::new();
            extend_all(&mut r, dir_name);
            extend_all(&mut r, ext);
            r
        },
    }
}

} // verus!
