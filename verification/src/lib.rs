//! A verified core for a local HTTP intercepting-and-archiving proxy.
//!
//! The library holds the pure logic of the proxy: the mapping from a request
//! to a path inside the archive, the host rewriting of textual bodies, the
//! filtering of response headers, the forward controller's decisions, and the
//! small/large body chunking rules. I/O, the HTTP server and the packaged
//! archive reader live outside the library and hand it plain values.

use vstd::prelude::*;

pub mod bytepat;
pub mod config;
pub mod controller;
pub mod hashstate;
pub mod headers;
pub mod maybe_async;
pub mod method;
pub mod mimewrap;
pub mod pathmap;
pub mod pctenc;
pub mod qsort;
pub mod rewrite;
pub mod serve;
pub mod stream;

verus! {

/// The formats the archive packager can produce.
#[derive(Clone, Copy, PartialEq, Eq, Structural, Debug)]
pub enum CompressFormat {
    Zip,
}

impl CompressFormat {
    /// The file-name suffix for a packaged archive of this format.
    pub fn ext(&self) -> (r: &'static str)
        ensures
            r@ == ".zip"@,
    {
        match self {
            CompressFormat::Zip => ".zip",
        }
    }
}

} // verus!
