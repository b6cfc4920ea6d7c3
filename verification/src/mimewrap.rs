//! The MIME lookups the proxy relies on. Both are static-table lookups in an
//! outside crate: what they return is a function of the argument alone, so
//! each result is given a name that the callers' contracts speak of.

use vstd::prelude::*;

use crate::pathmap::vviews;

verus! {

/// The first MIME type `mime_guess` associates with a path's extension.
pub uninterp spec fn mime_first_of(path: Seq<u8>) -> Option<Seq<u8>>;

/// Relies on mime_guess::from_path(..).first(): a lookup of the path's
/// extension in a static table, a function of the path bytes alone.
#[verifier::external_body]
fn mime_guess_first(path: &[u8]) -> (r: Option<Vec<u8>>)
    ensures
        r is Some <==> mime_first_of(path@) is Some,
        r is Some ==> r->0@ == mime_first_of(path@)->0,
{
    let p = String::from_utf8_lossy(path).into_owned();
    mime_guess::from_path(std::path::Path::new(&p)).first().map(|m| m.to_string().into_bytes())
}

/// The extensions `mime_guess` associates with a content type.
pub uninterp spec fn mime_exts_of(ct: Seq<u8>) -> Option<Seq<Seq<u8>>>;

/// Relies on mime_guess::get_mime_extensions_str: a lookup of the type in a
/// static reverse table, a function of the content-type bytes alone.
#[verifier::external_body]
fn mime_extensions(ct: &[u8]) -> (r: Option<Vec<Vec<u8>>>)
    ensures
        r is Some <==> mime_exts_of(ct@) is Some,
        r is Some ==> vviews(r->0@) == mime_exts_of(ct@)->0,
{
    let s = String::from_utf8_lossy(ct).into_owned();
    mime_guess::get_mime_extensions_str(&s).map(
        |exts| exts.iter().map(|e| e.as_bytes().to_vec()).collect(),
    )
}

/// The bytes of `"text/html"`, the fallback content type.
pub open spec fn text_html_seq() -> Seq<u8> {
    seq![116u8, 101u8, 120u8, 116u8, 47u8, 104u8, 116u8, 109u8, 108u8]
}

/// The content type served for an archive path: the MIME guess for the
/// path's extension, `text/html` when there is none.
pub open spec fn content_type_spec(path: Seq<u8>) -> Seq<u8> {
    match mime_first_of(path) {
        Some(ct) => ct,
        None => text_html_seq(),
    }
}

/// Pick the content type for a file served from the archive.
pub fn content_type_for(path: &[u8]) -> (r: Vec<u8>)
    ensures
        r@ == content_type_spec(path@),
{
    match mime_guess_first(path) {
        Some(ct) => ct,
        None => {
            let r: Vec<u8> = vec![116u8, 101u8, 120u8, 116u8, 47u8, 104u8, 116u8, 109u8, 108u8];
            assert(r@ =~= text_html_seq());
            r
        },
    }
}

/// The canonical extension a content type heals to, when the MIME table
/// offers one.
pub open spec fn heal_ext_spec(ct: Seq<u8>) -> Option<Seq<u8>> {
    match mime_exts_of(ct) {
        Some(exts) => if exts.len() > 0 {
            Some(exts[0])
        } else {
            None
        },
        None => None,
    }
}

/// The first extension the MIME table offers for a content type.
pub fn first_mime_extension(ct: &[u8]) -> (r: Option<Vec<u8>>)
    ensures
        r is Some <==> heal_ext_spec(ct@) is Some,
        r is Some ==> r->0@ == heal_ext_spec(ct@)->0,
{
    match mime_extensions(ct) {
        Some(mut exts) => {
            if exts.len() > 0 {
                let ghost all = vviews(exts@);
                let mut first = exts.remove(0);
                proof {
                    assert(first@ == all[0]);
                }
                Some(first)
            } else {
                None
            }
        },
        None => None,
    }
}

} // verus!
