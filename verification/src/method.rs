//! The logical request method. The proxy reads it from a request header named
//! `method`, matched byte-exactly against the standard method names; anything
//! absent or unrecognised falls back to `GET`, which is also what the
//! unverified front end does when the header cannot be parsed.

use vstd::prelude::*;

verus! {

#[derive(Clone, Copy, PartialEq, Eq, Structural, Debug)]
pub enum Method {
    Get,
    Post,
    Put,
    Delete,
    Head,
    Options,
    Connect,
    Patch,
    Trace,
}

impl Method {
    /// The method's name, as the bytes of its upper-case token.
    pub open spec fn name_spec(self) -> Seq<u8> {
        match self {
            Method::Get => seq![71u8, 69u8, 84u8],
            Method::Post => seq![80u8, 79u8, 83u8, 84u8],
            Method::Put => seq![80u8, 85u8, 84u8],
            Method::Delete => seq![68u8, 69u8, 76u8, 69u8, 84u8, 69u8],
            Method::Head => seq![72u8, 69u8, 65u8, 68u8],
            Method::Options => seq![79u8, 80u8, 84u8, 73u8, 79u8, 78u8, 83u8],
            Method::Connect => seq![67u8, 79u8, 78u8, 78u8, 69u8, 67u8, 84u8],
            Method::Patch => seq![80u8, 65u8, 84u8, 67u8, 72u8],
            Method::Trace => seq![84u8, 82u8, 65u8, 67u8, 69u8],
        }
    }

    /// The method a header value denotes: the matching token, `GET` otherwise.
    pub open spec fn parse_spec(b: Seq<u8>) -> Method {
        if b == Method::Post.name_spec() {
            Method::Post
        } else if b == Method::Put.name_spec() {
            Method::Put
        } else if b == Method::Delete.name_spec() {
            Method::Delete
        } else if b == Method::Head.name_spec() {
            Method::Head
        } else if b == Method::Options.name_spec() {
            Method::Options
        } else if b == Method::Connect.name_spec() {
            Method::Connect
        } else if b == Method::Patch.name_spec() {
            Method::Patch
        } else if b == Method::Trace.name_spec() {
            Method::Trace
        } else {
            Method::Get
        }
    }

    /// The method's upper-case token.
    pub fn name_bytes(&self) -> (r: Vec<u8>)
        ensures
            r@ == self.name_spec(),
    {
        let r: Vec<u8> = match self {
            Method::Get => vec![71u8, 69u8, 84u8],
            Method::Post => vec![80u8, 79u8, 83u8, 84u8],
            Method::Put => vec![80u8, 85u8, 84u8],
            Method::Delete => vec![68u8, 69u8, 76u8, 69u8, 84u8, 69u8],
            Method::Head => vec![72u8, 69u8, 65u8, 68u8],
            Method::Options => vec![79u8, 80u8, 84u8, 73u8, 79u8, 78u8, 83u8],
            Method::Connect => vec![67u8, 79u8, 78u8, 78u8, 69u8, 67u8, 84u8],
            Method::Patch => vec![80u8, 65u8, 84u8, 67u8, 72u8],
            Method::Trace => vec![84u8, 82u8, 65u8, 67u8, 69u8],
        };
        assert(r@ =~= self.name_spec());
        r
    }

    /// Parse a `method` header value; anything unrecognised is `GET`.
    pub fn parse(b: &[u8]) -> (m: Method)
        ensures
            m == Method::parse_spec(b@),
    {
        if bytes_eq(b, Method::Post.name_bytes().as_slice()) {
            Method::Post
        } else if bytes_eq(b, Method::Put.name_bytes().as_slice()) {
            Method::Put
        } else if bytes_eq(b, Method::Delete.name_bytes().as_slice()) {
            Method::Delete
        } else if bytes_eq(b, Method::Head.name_bytes().as_slice()) {
            Method::Head
        } else if bytes_eq(b, Method::Options.name_bytes().as_slice()) {
            Method::Options
        } else if bytes_eq(b, Method::Connect.name_bytes().as_slice()) {
            Method::Connect
        } else if bytes_eq(b, Method::Patch.name_bytes().as_slice()) {
            Method::Patch
        } else if bytes_eq(b, Method::Trace.name_bytes().as_slice()) {
            Method::Trace
        } else {
            Method::Get
        }
    }
}

/// Byte-for-byte equality of two slices.
pub fn bytes_eq(a: &[u8], b: &[u8]) -> (r: bool)
    ensures
        r <==> a@ == b@,
{
    if a.len() != b.len() {
        return false;
    }
    let n = a.len();
    let mut i: usize = 0;
    while i < n
        invariant
            n == a@.len() == b@.len(),
            0 <= i <= n,
            forall|k: int| 0 <= k < i ==> a@[k] == b@[k],
        decreases n - i,
    {
        if a[i] != b[i] {
            return false;
        }
        i += 1;
    }
    assert(a@ =~= b@);
    true
}

} // verus!
