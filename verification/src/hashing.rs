//! Content hashing: a file's bytes are streamed chunk by chunk through
//! std's 64-bit `DefaultHasher`. The hash of a byte sequence is defined
//! through its chunk decomposition, so it depends on the bytes alone:
//! byte-identical content always hashes alike.

use vstd::prelude::*;
use vstd::std_specs::hash::DefaultHasherAdditionalSpecFns;
use std::collections::hash_map::DefaultHasher;
use core::hash::Hasher;

verus! {

/// Bytes are folded into the hasher this many at a time.
pub const CHUNK: usize = 131072;

/// `bytes` cut into successive chunks of `CHUNK` bytes each, the last
/// chunk possibly shorter.
pub open spec fn chunks_of(bytes: Seq<u8>) -> Seq<Seq<u8>>
    decreases bytes.len(),
{
    if bytes.len() == 0 {
        Seq::empty()
    } else if bytes.len() <= CHUNK {
        seq![bytes]
    } else {
        seq![bytes.take(CHUNK as int)] + chunks_of(bytes.skip(CHUNK as int))
    }
}

/// The 64-bit content hash of `bytes`: what `DefaultHasher` yields
/// after absorbing `bytes` in successive chunks. A function of the
/// bytes alone.
pub open spec fn hash_of(bytes: Seq<u8>) -> u64 {
    DefaultHasher::spec_finish(chunks_of(bytes))
}

/// Extending a chunk-aligned byte sequence by one more chunk extends
/// its chunk decomposition by exactly that chunk.
proof fn lemma_chunks_push(b: Seq<u8>, c: Seq<u8>)
    requires
        b.len() % (CHUNK as nat) == 0,
        0 < c.len() <= CHUNK,
    ensures
        chunks_of(b + c) == chunks_of(b).push(c),
    decreases b.len(),
{
    if b.len() == 0 {
        assert(b + c =~= c);
        assert(chunks_of(c) =~= seq![c]);
        assert(chunks_of(b).push(c) =~= seq![c]);
    } else {
        assert(b.len() >= CHUNK);
        assert((b + c).len() > CHUNK);
        assert((b + c).take(CHUNK as int) =~= b.take(CHUNK as int));
        assert((b + c).skip(CHUNK as int) =~= b.skip(CHUNK as int) + c);
        assert(b.skip(CHUNK as int).len() % (CHUNK as nat) == 0) by {
            assert(b.skip(CHUNK as int).len() == b.len() - CHUNK);
        }
        lemma_chunks_push(b.skip(CHUNK as int), c);
        if b.len() == CHUNK {
            assert(b.skip(CHUNK as int) =~= Seq::<u8>::empty());
            assert(chunks_of(b.skip(CHUNK as int)) =~= Seq::<Seq<u8>>::empty());
            assert(b.take(CHUNK as int) =~= b);
            assert(chunks_of(b) =~= seq![b.take(CHUNK as int)] + chunks_of(
                b.skip(CHUNK as int),
            ));
        }
        assert(chunks_of(b + c) =~= chunks_of(b).push(c));
    }
}

/// A streaming content hasher: std's `DefaultHasher` together with the
/// bytes it has absorbed so far. Feed it whole chunks of `CHUNK` bytes
/// and at most one shorter final chunk, then `finish`.
pub struct ContentHasher {
    inner: DefaultHasher,
    absorbed: Ghost<Seq<u8>>,
}

impl ContentHasher {
    /// Every byte absorbed so far, in order.
    pub closed spec fn bytes(self) -> Seq<u8> {
        self.absorbed@
    }

    /// The inner hasher has been fed exactly the chunk decomposition
    /// of the absorbed bytes.
    pub closed spec fn wf(self) -> bool {
        self.inner@ == chunks_of(self.absorbed@)
    }

    /// A fresh hasher with nothing absorbed.
    pub fn new() -> (r: ContentHasher)
        ensures
            r.wf(),
            r.bytes() == Seq::<u8>::empty(),
    {
        let h = DefaultHasher::new();
        ContentHasher { inner: h, absorbed: Ghost(Seq::empty()) }
    }

    /// Absorb one chunk. All but the last chunk of a file must be
    /// exactly `CHUNK` bytes long, which is what keeps the final hash
    /// a function of the file's bytes alone.
    pub fn update(&mut self, chunk: &Vec<u8>)
        requires
            old(self).wf(),
            old(self).bytes().len() % (CHUNK as nat) == 0,
            0 < chunk@.len() <= CHUNK,
        ensures
            final(self).wf(),
            final(self).bytes() == old(self).bytes() + chunk@,
    {
        proof {
            lemma_chunks_push(self.absorbed@, chunk@);
        }
        self.inner.write(chunk.as_slice());
        self.absorbed = Ghost(self.absorbed@ + chunk@);
    }

    /// The hash of everything absorbed.
    pub fn finish(&self) -> (h: u64)
        requires
            self.wf(),
        ensures
            h == hash_of(self.bytes()),
    {
        self.inner.finish()
    }
}

/// Hash a whole byte sequence held in memory, chunking it exactly as
/// the streaming hasher asks.
pub fn hash_content(data: &Vec<u8>) -> (h: u64)
    ensures
        h == hash_of(data@),
{
    let mut hasher = ContentHasher::new();
    let n = data.len();
    let mut i: usize = 0;
    proof {
        assert(data@.take(0) =~= Seq::<u8>::empty());
    }
    while i < n
        invariant
            n == data@.len(),
            i <= n,
            i % CHUNK == 0 || i == n,
            hasher.wf(),
            hasher.bytes() == data@.take(i as int),
        decreases n - i,
    {
        let end = if n - i < CHUNK {
            n
        } else {
            i + CHUNK
        };
        let mut chunk: Vec<u8> = Vec::new();
        let mut j = i;
        proof {
            assert(data@.subrange(i as int, i as int) =~= Seq::<u8>::empty());
        }
        while j < end
            invariant
                i <= j <= end,
                end <= n,
                n == data@.len(),
                chunk@ == data@.subrange(i as int, j as int),
            decreases end - j,
        {
            proof {
                assert(data@.subrange(i as int, j as int + 1) =~= data@.subrange(
                    i as int,
                    j as int,
                ).push(data@[j as int]));
            }
            chunk.push(data[j]);
            j = j + 1;
        }
        hasher.update(&chunk);
        proof {
            assert(data@.take(i as int) + data@.subrange(i as int, end as int) =~= data@.take(
                end as int,
            ));
        }
        i = end;
    }
    proof {
        assert(data@.take(n as int) =~= data@);
    }
    hasher.finish()
}

/// Byte-identical content always gets the same hash: the content hash
/// is a function of the bytes alone, whichever file, worker, or run
/// produced them.
pub proof fn lemma_hash_deterministic(a: Seq<u8>, b: Seq<u8>)
    requires
        a == b,
    ensures
        hash_of(a) == hash_of(b),
{
}

} // verus!
