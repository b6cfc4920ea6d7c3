//! Serving from the archive: the status and content type of a served file,
//! and the entry name a path resolves to inside a packaged archive.

use vstd::prelude::*;

use crate::bytepat::slice_starts_with;
use crate::bytepat::starts_with;
use crate::mimewrap::content_type_for;
use crate::mimewrap::content_type_spec;
use crate::pathmap::sub_vec;

verus! {

/// The head of a served response.
pub struct ServeHeader {
    pub status: u16,
    pub content_type: Vec<u8>,
}

/// What a resolved archive path is served as: `200` with the content type
/// guessed from the name (falling back to `text/html`) when the entry was
/// found, a bare `404` otherwise. A missing entry's body is empty.
pub fn serve_header(found: bool, path: &[u8]) -> (r: ServeHeader)
    ensures
        found ==> r.status == 200 && r.content_type@ == content_type_spec(path@),
        !found ==> r.status == 404 && r.content_type@.len() == 0,
{
    if found {
        ServeHeader { status: 200, content_type: content_type_for(path) }
    } else {
        ServeHeader { status: 404, content_type: Vec::new() }
    }
}

/// The entry name a mapped path has inside a packaged archive: the path with
/// the archive root and its slash stripped, or the path as it is when the
/// root is no prefix of it.
pub fn zip_entry_path(root: &[u8], npath: &Vec<u8>) -> (r: Vec<u8>)
    ensures
        r@ == if starts_with(npath@, root@ + seq![47u8]) {
            npath@.subrange(root@.len() + 1 as int, npath@.len() as int)
        } else {
            npath@
        },
{
    let mut prefix: Vec<u8> = Vec::new();
    crate::bytepat::extend_all(&mut prefix, root);
    prefix.push(47u8);
    proof {
        assert(prefix@ =~= root@ + seq![47u8]);
    }
    if slice_starts_with(npath.as_slice(), prefix.as_slice()) {
        let r = sub_vec(npath.as_slice(), prefix.len(), npath.len());
        proof {
            assert(prefix@.len() == root@.len() + 1);
        }
        r
    } else {
        let mut r: Vec<u8> = Vec::new();
        crate::bytepat::extend_all(&mut r, npath.as_slice());
        r
    }
}

} // verus!
