//! A digest over the bytes a capture has seen, used to give a finished
//! capture a content-addressed name. The digest itself comes from an outside
//! crate; the accumulation, the hex form and the state-file name are
//! verified.

use vstd::prelude::*;

use crate::bytepat::extend_all;

verus! {

/// The 64-bit XXH3 digest of a byte string (seed 0).
pub uninterp spec fn xxh3_64_of(data: Seq<u8>) -> u64;

/// Relies on twox_hash::xxh3::hash64: a pure digest of the bytes, seed 0 and
/// a fixed secret, the same on every machine.
#[verifier::external_body]
fn xxh3_hash64(data: &[u8]) -> (r: u64)
    ensures
        r == xxh3_64_of(data@),
{
    twox_hash::xxh3::hash64(data)
}

/// The lower-case hex digit for a nibble.
pub open spec fn hex_digit_lower(n: u8) -> u8 {
    if n < 10 {
        (48 + n) as u8
    } else {
        (87 + n) as u8
    }
}

/// A number in lower-case hex, most significant digit first, no leading
/// zeros (`0` alone for zero).
pub open spec fn hex_of(n: nat) -> Seq<u8>
    decreases n,
{
    if n < 16 {
        seq![hex_digit_lower(n as u8)]
    } else {
        hex_of(n / 16).push(hex_digit_lower((n % 16) as u8))
    }
}

/// Write a digest in lower-case hex.
pub fn u64_to_hex(n: u64) -> (r: Vec<u8>)
    ensures
        r@ == hex_of(n as nat),
    decreases n,
{
    if n < 16 {
        let d = n as u8;
        let r: Vec<u8> = vec![if d < 10 { 48u8 + d } else { 87u8 + d }];
        assert(r@ =~= hex_of(n as nat));
        r
    } else {
        let mut r = u64_to_hex(n / 16);
        let d = (n % 16) as u8;
        r.push(if d < 10 { 48u8 + d } else { 87u8 + d });
        r
    }
}

/// The name a finished capture's state file gets: the hex digest plus
/// `".state"`.
pub open spec fn state_file_name(digest: Seq<u8>) -> Seq<u8> {
    digest + seq![46u8, 115u8, 116u8, 97u8, 116u8, 101u8]
}

/// A capture in progress: the bytes fed so far, and whether a state file is
/// being kept beside the digest.
pub struct LargeState {
    data: Vec<u8>,
    corrupted: bool,
    save_state: bool,
}

impl LargeState {
    /// The bytes fed so far.
    pub closed spec fn fed(self) -> Seq<u8> {
        self.data@
    }

    pub closed spec fn is_corrupted(self) -> bool {
        self.corrupted
    }

    pub closed spec fn saves_state(self) -> bool {
        self.save_state
    }

    /// Begin a capture.
    pub fn new(save_state: bool) -> (r: LargeState)
        ensures
            r.fed() == Seq::<u8>::empty(),
            !r.is_corrupted(),
            r.saves_state() == save_state,
    {
        LargeState { data: Vec::new(), corrupted: false, save_state }
    }

    /// Feed bytes into the capture; a corrupted capture ignores them.
    pub fn push_bytes(&mut self, bytes: &[u8])
        ensures
            final(self).fed() == if old(self).is_corrupted() {
                old(self).fed()
            } else {
                old(self).fed() + bytes@
            },
            final(self).is_corrupted() == old(self).is_corrupted(),
            final(self).saves_state() == old(self).saves_state(),
    {
        if self.corrupted {
            return ;
        }
        extend_all(&mut self.data, bytes);
    }

    /// Finish the capture: the digest of everything fed, in hex, and the
    /// name its state file is renamed to when one is kept. A corrupted
    /// capture yields nothing.
    pub fn finish(self) -> (r: Option<(Vec<u8>, Option<Vec<u8>>)>)
        ensures
            self.is_corrupted() <==> r is None,
            r is Some ==> {
                &&& (r->0).0@ == hex_of(xxh3_64_of(self.fed()) as nat)
                &&& ((r->0).1 is Some <==> self.saves_state())
                &&& ((r->0).1 is Some ==> ((r->0).1)->0@ == state_file_name(
                    hex_of(xxh3_64_of(self.fed()) as nat),
                ))
            },
    {
        if self.corrupted {
            return None;
        }
        let digest = xxh3_hash64(self.data.as_slice());
        let hex = u64_to_hex(digest);
        let state = if self.save_state {
            let mut name: Vec<u8> = Vec::new();
            extend_all(&mut name, hex.as_slice());
            let suffix: Vec<u8> = vec![46u8, 115u8, 116u8, 97u8, 116u8, 101u8];
            assert(suffix@ =~= seq![46u8, 115u8, 116u8, 97u8, 116u8, 101u8]);
            extend_all(&mut name, suffix.as_slice());
            Some(name)
        } else {
            None
        };
        Some((hex, state))
    }
}

} // verus!
