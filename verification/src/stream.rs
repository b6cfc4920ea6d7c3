//! The streaming body rules: a body at most `SMALL_BODY_CAP` long is
//! delivered as one buffered chunk; a longer one is streamed in reads of at
//! most `CHUNK_SIZE` bytes, which for any larger body means at least two
//! chunks. The capture of a streamed binary body is recorded so that what
//! goes to disk is byte-for-byte what goes to the client.

use vstd::prelude::*;

use crate::pathmap::vviews;

verus! {

/// Bodies up to this many bytes are sent as a single chunk.
pub const SMALL_BODY_CAP: u64 = 262144;

/// Streamed bodies are read this many bytes at a time.
pub const CHUNK_SIZE: usize = 4096;

#[derive(Clone, Copy, PartialEq, Eq, Structural, Debug)]
pub enum Delivery {
    Single,
    Chunked,
}

/// How a body of the given length is delivered.
pub fn choose_delivery(len: u64) -> (d: Delivery)
    ensures
        d == Delivery::Single <==> len <= SMALL_BODY_CAP,
{
    if len > SMALL_BODY_CAP {
        Delivery::Chunked
    } else {
        Delivery::Single
    }
}

/// The concatenation of a sequence of chunks.
pub open spec fn concat_chunks(cs: Seq<Seq<u8>>) -> Seq<u8>
    decreases cs.len(),
{
    if cs.len() == 0 {
        Seq::empty()
    } else {
        cs.first() + concat_chunks(cs.drop_first())
    }
}

proof fn lemma_concat_snoc(cs: Seq<Seq<u8>>, c: Seq<u8>)
    ensures
        concat_chunks(cs.push(c)) == concat_chunks(cs) + c,
    decreases cs.len(),
{
    if cs.len() == 0 {
        assert(cs.push(c).drop_first() =~= Seq::<Seq<u8>>::empty());
        assert(cs.push(c).first() == c);
        assert(concat_chunks(cs.push(c)) == c + concat_chunks(cs.push(c).drop_first()));
        assert(c + Seq::<u8>::empty() =~= c);
        assert(concat_chunks(cs) + c =~= c);
    } else {
        assert(cs.push(c).drop_first() =~= cs.drop_first().push(c));
        assert(cs.push(c).first() == cs.first());
        lemma_concat_snoc(cs.drop_first(), c);
        assert(concat_chunks(cs.push(c)) =~= concat_chunks(cs) + c);
    }
}

/// Cut a buffered body into transmission chunks: nothing is lost or
/// reordered, every chunk is non-empty and at most `CHUNK_SIZE` long, and a
/// body longer than one chunk yields at least two.
pub fn split_chunks(data: &Vec<u8>) -> (cs: Vec<Vec<u8>>)
    ensures
        concat_chunks(vviews(cs@)) == data@,
        forall|i: int|
            0 <= i < cs@.len() ==> 0 < (#[trigger] cs@[i])@.len() <= CHUNK_SIZE,
        data@.len() == 0 ==> cs@.len() == 0,
        data@.len() > CHUNK_SIZE ==> cs@.len() >= 2,
        data@.len() > SMALL_BODY_CAP ==> cs@.len() >= 2,
{
    let mut cs: Vec<Vec<u8>> = Vec::new();
    let n = data.len();
    let mut pos: usize = 0;
    proof {
        assert(vviews(cs@) =~= Seq::<Seq<u8>>::empty());
        assert(data@.subrange(0, 0) =~= Seq::<u8>::empty());
        assert(concat_chunks(vviews(cs@)) =~= data@.subrange(0, 0));
    }
    while pos < n
        invariant
            n == data@.len(),
            0 <= pos <= n,
            concat_chunks(vviews(cs@)) == data@.subrange(0, pos as int),
            forall|i: int|
                0 <= i < cs@.len() ==> 0 < (#[trigger] cs@[i])@.len() <= CHUNK_SIZE,
            pos > CHUNK_SIZE ==> cs@.len() >= 2,
            pos > 0 ==> cs@.len() >= 1,
            pos < n ==> pos == cs@.len() * CHUNK_SIZE,
        decreases n - pos,
    {
        let end = if n - pos > CHUNK_SIZE {
            pos + CHUNK_SIZE
        } else {
            n
        };
        let mut chunk: Vec<u8> = Vec::new();
        crate::bytepat::extend_range(&mut chunk, data.as_slice(), pos, end);
        let ghost before = vviews(cs@);
        cs.push(chunk);
        proof {
            assert(vviews(cs@) =~= before.push(data@.subrange(pos as int, end as int)));
            lemma_concat_snoc(before, data@.subrange(pos as int, end as int));
            assert(data@.subrange(0, pos as int) + data@.subrange(pos as int, end as int)
                =~= data@.subrange(0, end as int));
        }
        pos = end;
    }
    proof {
        assert(data@.subrange(0, n as int) =~= data@);
    }
    cs
}

/// The capture record of a streamed binary response: what has been written
/// to the archive file and what has been sent to the client. Both grow chunk
/// by chunk, always by the same bytes, so the file on disk and the bytes the
/// client received are equal — their digests with any hash agree.
pub struct BinaryTee {
    pub file_bytes: Ghost<Seq<u8>>,
    pub sent_bytes: Ghost<Seq<u8>>,
}

impl BinaryTee {
    /// The capture invariant: the file holds exactly what was sent.
    pub open spec fn wf(self) -> bool {
        self.file_bytes@ == self.sent_bytes@
    }

    /// Begin a capture: nothing written, nothing sent.
    pub fn new() -> (r: BinaryTee)
        ensures
            r.wf(),
            r.file_bytes@ == Seq::<u8>::empty(),
    {
        BinaryTee { file_bytes: Ghost(Seq::empty()), sent_bytes: Ghost(Seq::empty()) }
    }

    /// Record one chunk, written to the file and sent to the client alike.
    pub fn record_chunk(&mut self, chunk: &Vec<u8>)
        requires
            old(self).wf(),
        ensures
            final(self).wf(),
            final(self).file_bytes@ == old(self).file_bytes@ + chunk@,
            final(self).sent_bytes@ == old(self).sent_bytes@ + chunk@,
    {
        let ghost f = self.file_bytes@ + chunk@;
        let ghost s = self.sent_bytes@ + chunk@;
        self.file_bytes = Ghost(f);
        self.sent_bytes = Ghost(s);
    }

    /// What reached the disk is what reached the client.
    pub proof fn lemma_capture_matches_stream(self)
        requires
            self.wf(),
        ensures
            self.file_bytes@ == self.sent_bytes@,
    {
    }
}

} // verus!
