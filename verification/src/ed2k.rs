//! Linear chunk engine: the ed2k scheme over MD4.
//!
//! The stream is cut into fixed-size chunks.  A stream that fits in a single
//! chunk digests as a plain MD4 hash; a longer stream digests as the MD4
//! hash of the concatenation of the per-chunk MD4 digests.  A chunk that has
//! filled is only closed when bytes belonging to the next chunk arrive
//! (the lazy-boundary rule), so a stream of exactly one chunk still takes
//! the single-chunk path.

use vstd::prelude::*;
use crate::primitives::{md4_digest, md4_of, BLOCK_SIZE};
use crate::concat_of;

verus! {

/// Number of bytes in one chunk of the linear scheme.
pub const UNIT_SIZE: usize = 9_728_000;

/// Concatenated MD4 digests of each full chunk of `bytes`, in stream order;
/// meant for a `bytes` that is a whole number of chunks (a remainder shorter
/// than a chunk contributes no digest).
pub open spec fn closed_chunk_digests(bytes: Seq<u8>) -> Seq<u8>
    decreases bytes.len(),
{
    if bytes.len() < UNIT_SIZE {
        Seq::empty()
    } else {
        md4_of(bytes.take(UNIT_SIZE as int)) + closed_chunk_digests(bytes.skip(UNIT_SIZE as int))
    }
}

/// Concatenated MD4 digests of every chunk of `bytes`, the last chunk being
/// whatever remains at the end (at most one full chunk).
pub open spec fn chunk_digests(bytes: Seq<u8>) -> Seq<u8>
    decreases bytes.len(),
{
    if bytes.len() <= UNIT_SIZE {
        md4_of(bytes)
    } else {
        md4_of(bytes.take(UNIT_SIZE as int)) + chunk_digests(bytes.skip(UNIT_SIZE as int))
    }
}

/// The ed2k digest of a whole byte stream: the plain MD4 digest when the
/// stream fits in one chunk (the single-chunk shortcut, empty stream
/// included), else the MD4 digest of the concatenated chunk digests.
pub open spec fn ed2k_spec(bytes: Seq<u8>) -> Seq<u8> {
    if bytes.len() <= UNIT_SIZE {
        md4_of(bytes)
    } else {
        md4_of(chunk_digests(bytes))
    }
}

/// Empty input: the linear scheme returns the base primitive's digest of
/// the empty string.
pub proof fn lemma_linear_empty()
    ensures
        ed2k_spec(Seq::<u8>::empty()) == md4_of(Seq::<u8>::empty()),
{
}

/// Single-unit shortcut: any input no longer than one chunk digests exactly
/// as its plain MD4 hash, with no combiner wrapping.
pub proof fn lemma_linear_single_unit(bytes: Seq<u8>)
    requires
        bytes.len() <= UNIT_SIZE,
    ensures
        ed2k_spec(bytes) == md4_of(bytes),
{
}

/// Closing one more full chunk appends exactly that chunk's digest to the
/// concatenation of closed-chunk digests.
proof fn lemma_closed_chunk_digests_append(p: Seq<u8>, u: Seq<u8>)
    requires
        p.len() % (UNIT_SIZE as nat) == 0,
        u.len() == UNIT_SIZE,
    ensures
        closed_chunk_digests(p + u) == closed_chunk_digests(p) + md4_of(u),
    decreases p.len(),
{
    if p.len() == 0 {
        assert(p + u =~= u);
        assert(u.take(UNIT_SIZE as int) =~= u);
        assert(u.skip(UNIT_SIZE as int) =~= Seq::<u8>::empty());
        assert(closed_chunk_digests(Seq::<u8>::empty()) == Seq::<u8>::empty());
        assert(closed_chunk_digests(u) == md4_of(u.take(UNIT_SIZE as int))
            + closed_chunk_digests(u.skip(UNIT_SIZE as int)));
        assert(closed_chunk_digests(u) =~= md4_of(u));
        assert(closed_chunk_digests(p) + md4_of(u) =~= md4_of(u));
    } else {
        assert(p.len() >= UNIT_SIZE);
        assert((p + u).take(UNIT_SIZE as int) =~= p.take(UNIT_SIZE as int));
        assert((p + u).skip(UNIT_SIZE as int) =~= p.skip(UNIT_SIZE as int) + u);
        assert(p.skip(UNIT_SIZE as int).len() % (UNIT_SIZE as nat) == 0);
        lemma_closed_chunk_digests_append(p.skip(UNIT_SIZE as int), u);
        assert(closed_chunk_digests(p + u) =~= closed_chunk_digests(p) + md4_of(u));
    }
}

/// A stream of more than `k` chunks splits as: digests of the first `k`
/// (full) chunks, then the digest of the remainder.
proof fn lemma_chunk_digests_decompose(bytes: Seq<u8>, k: nat)
    requires
        k * (UNIT_SIZE as nat) < bytes.len() <= (k + 1) * (UNIT_SIZE as nat),
    ensures
        chunk_digests(bytes) == closed_chunk_digests(bytes.take((k * (UNIT_SIZE as nat)) as int))
            + md4_of(bytes.skip((k * (UNIT_SIZE as nat)) as int)),
    decreases k,
{
    let u = UNIT_SIZE as int;
    if k == 0 {
        assert(bytes.take(0) =~= Seq::<u8>::empty());
        assert(bytes.skip(0) =~= bytes);
        assert(closed_chunk_digests(bytes.take(0)) + md4_of(bytes) =~= md4_of(bytes));
    } else {
        let kl = (k * (UNIT_SIZE as nat)) as int;
        assert(kl == k * u);
        let tail = bytes.skip(u);
        lemma_chunk_digests_decompose(tail, (k - 1) as nat);
        let jl = ((k - 1) as nat * (UNIT_SIZE as nat)) as int;
        assert(jl == kl - u);
        let p = bytes.take(kl);
        assert(p.len() == kl >= u);
        assert(p.take(u) =~= bytes.take(u));
        assert(p.skip(u) =~= tail.take(jl));
        assert(closed_chunk_digests(p) == md4_of(bytes.take(u))
            + closed_chunk_digests(tail.take(jl)));
        assert(tail.skip(jl) =~= bytes.skip(kl));
        assert(chunk_digests(bytes) == md4_of(bytes.take(u)) + chunk_digests(tail));
        assert(chunk_digests(bytes) =~= closed_chunk_digests(p) + md4_of(bytes.skip(kl)));
    }
}

/// A whole number of chunks digests chunk by chunk: the concatenated chunk
/// digests equal the concatenation of the digests of each chunk taken
/// independently.
proof fn lemma_chunks_as_list(bytes: Seq<u8>, k: nat)
    requires
        k >= 1,
        bytes.len() == k * (UNIT_SIZE as nat),
    ensures
        chunk_digests(bytes) == concat_of(
            Seq::new(k, |i: int| md4_of(bytes.subrange(i * (UNIT_SIZE as int), (i + 1) * (UNIT_SIZE as int)))),
        ),
    decreases k,
{
    let u = UNIT_SIZE as int;
    let ds = Seq::new(k, |i: int| md4_of(bytes.subrange(i * u, (i + 1) * u)));
    if k == 1 {
        assert(bytes.subrange(0, u) =~= bytes);
        assert(ds.skip(1) =~= Seq::<Seq<u8>>::empty());
        assert(concat_of(ds) =~= ds[0] + concat_of(ds.skip(1)));
        assert(ds[0] + concat_of(ds.skip(1)) =~= md4_of(bytes));
    } else {
        assert(bytes.len() > u);
        let tail = bytes.skip(u);
        assert(tail.len() == (k - 1) as nat * (UNIT_SIZE as nat));
        lemma_chunks_as_list(tail, (k - 1) as nat);
        let dt = Seq::new((k - 1) as nat, |i: int| md4_of(tail.subrange(i * u, (i + 1) * u)));
        assert(ds.skip(1) =~= dt) by {
            assert forall|i: int| 0 <= i < k - 1 implies ds.skip(1)[i] == dt[i] by {
                assert(tail.subrange(i * u, (i + 1) * u) =~= bytes.subrange((i + 1) * u, (i + 2) * u));
            }
        }
        assert(bytes.take(u) =~= bytes.subrange(0 * u, 1 * u));
        assert(chunk_digests(bytes) == md4_of(bytes.take(u)) + chunk_digests(tail));
        assert(concat_of(ds) == ds[0] + concat_of(ds.skip(1)));
        assert(chunk_digests(bytes) == concat_of(ds));
    }
}

/// Exact-multiple boundary: a stream of exactly `k` full chunks (`k >= 2`)
/// digests as the MD4 hash of the concatenation of the `k` chunk digests,
/// each chunk hashed independently and plainly.
pub proof fn lemma_linear_exact_multiple(bytes: Seq<u8>, k: nat)
    requires
        k >= 2,
        bytes.len() == k * (UNIT_SIZE as nat),
    ensures
        ed2k_spec(bytes) == md4_of(concat_of(
            Seq::new(k, |i: int| md4_of(bytes.subrange(i * (UNIT_SIZE as int), (i + 1) * (UNIT_SIZE as int)))),
        )),
{
    assert(bytes.len() > UNIT_SIZE);
    lemma_chunks_as_list(bytes, k);
}

/// Streaming state of the linear (ed2k) scheme.
///
/// `unit_buf` holds the bytes of the chunk now open; `closed_digests` holds
/// the concatenated digests of the chunks already closed, in stream order.
#[derive(Clone)]
pub struct Ed2kCore {
    unit_buf: Vec<u8>,
    closed_digests: Vec<u8>,
    units_closed: usize,
    absorbed: Ghost<Seq<u8>>,
}

impl Ed2kCore {
    /// All bytes fed to the engine so far.
    pub closed spec fn fed(self) -> Seq<u8> {
        self.absorbed@
    }

    spec fn closed_len(self) -> int {
        self.units_closed as int * (UNIT_SIZE as int)
    }

    spec fn basic_inv(self) -> bool {
        &&& self.absorbed@.len() == self.closed_len() + self.unit_buf@.len()
        &&& self.unit_buf@ == self.absorbed@.skip(self.closed_len())
        &&& self.unit_buf@.len() <= UNIT_SIZE
        &&& self.closed_digests@ == closed_chunk_digests(self.absorbed@.take(self.closed_len()))
        &&& self.closed_digests@.len() == self.units_closed as int * 16
    }

    /// Well-formed engine state, as holds between any two operations.
    /// A filled chunk is not closed until bytes beyond it arrive, so a
    /// closed chunk always leaves the open chunk non-empty.
    pub closed spec fn wf(self) -> bool {
        &&& self.basic_inv()
        &&& (self.units_closed > 0 ==> self.unit_buf@.len() > 0)
    }

    /// Name of the scheme, as reported alongside rendered digests.
    pub fn alg_name() -> (s: String)
        ensures
            s@ == "Ed2k"@,
    {
        "Ed2k".to_string()
    }

    /// A fresh engine with nothing absorbed.
    pub fn new() -> (c: Self)
        ensures
            c.wf(),
            c.fed() == Seq::<u8>::empty(),
    {
        let c = Ed2kCore {
            unit_buf: Vec::new(),
            closed_digests: Vec::new(),
            units_closed: 0,
            absorbed: Ghost(Seq::empty()),
        };
        proof {
            assert(c.absorbed@.take(0) =~= Seq::<u8>::empty());
            assert(c.absorbed@.skip(0) =~= Seq::<u8>::empty());
        }
        c
    }

    /// Finalize the filled open chunk into a digest and feed it to the
    /// combiner; the next chunk starts empty.
    fn close_unit(&mut self)
        requires
            old(self).basic_inv(),
            old(self).unit_buf@.len() == UNIT_SIZE,
        ensures
            final(self).basic_inv(),
            final(self).unit_buf@.len() == 0,
            final(self).absorbed@ == old(self).absorbed@,
            final(self).units_closed == old(self).units_closed + 1,
    {
        let n = self.closed_digests.len();
        proof {
            assert(n as int == old(self).units_closed as int * 16);
        }
        let mut d = md4_digest(self.unit_buf.as_slice());
        self.unit_buf.clear();
        self.closed_digests.append(&mut d);
        self.units_closed = self.units_closed + 1;
        proof {
            let oldcl = old(self).closed_len();
            let newcl = self.closed_len();
            assert(newcl == oldcl + UNIT_SIZE);
            assert(old(self).absorbed@.take(oldcl).len() % (UNIT_SIZE as nat) == 0);
            lemma_closed_chunk_digests_append(
                old(self).absorbed@.take(oldcl),
                old(self).unit_buf@,
            );
            assert(old(self).absorbed@.take(oldcl) + old(self).unit_buf@
                =~= self.absorbed@.take(newcl));
            assert(self.absorbed@.skip(newcl) =~= Seq::<u8>::empty());
        }
    }

    /// Absorb a run of bytes, closing each chunk only when bytes beyond it
    /// arrive.
    pub fn update_data(&mut self, data: &[u8])
        requires
            old(self).wf(),
        ensures
            final(self).wf(),
            final(self).fed() == old(self).fed() + data@,
    {
        let mut pos: usize = 0;
        while pos < data.len()
            invariant
                pos <= data@.len(),
                self.wf(),
                self.absorbed@ == old(self).absorbed@ + data@.take(pos as int),
            decreases data@.len() - pos,
        {
            if self.unit_buf.len() == UNIT_SIZE {
                self.close_unit();
            }
            let ghost pre = *self;
            let b = data[pos];
            self.unit_buf.push(b);
            self.absorbed = Ghost(self.absorbed@.push(b));
            pos = pos + 1;
            proof {
                let cl = self.closed_len();
                assert(self.absorbed@.skip(cl) =~= pre.absorbed@.skip(cl).push(b));
                assert(self.absorbed@.take(cl) =~= pre.absorbed@.take(cl));
                assert(old(self).absorbed@ + data@.take(pos as int)
                    =~= (old(self).absorbed@ + data@.take(pos as int - 1)).push(b));
            }
        }
        proof {
            assert(data@.take(data@.len() as int) =~= data@);
        }
    }

    /// Absorb one base-primitive block.
    pub fn absorb_block(&mut self, block: &[u8; BLOCK_SIZE])
        requires
            old(self).wf(),
        ensures
            final(self).wf(),
            final(self).fed() == old(self).fed() + block@,
    {
        self.update_data(block.as_slice());
    }

    /// Absorb a run of base-primitive blocks, in stream order.
    pub fn absorb_blocks(&mut self, blocks: &[[u8; BLOCK_SIZE]])
        requires
            old(self).wf(),
        ensures
            final(self).wf(),
            final(self).fed() == old(self).fed()
                + concat_of(blocks@.map_values(|b: [u8; BLOCK_SIZE]| b@)),
    {
        let ghost bs = blocks@.map_values(|b: [u8; BLOCK_SIZE]| b@);
        proof {
            assert(bs.skip(0) =~= bs);
        }
        let mut i: usize = 0;
        while i < blocks.len()
            invariant
                i <= bs.len(),
                bs == blocks@.map_values(|b: [u8; BLOCK_SIZE]| b@),
                self.wf(),
                old(self).fed() + concat_of(bs) == self.fed() + concat_of(bs.skip(i as int)),
            decreases bs.len() - i,
        {
            proof {
                assert(bs.skip(i as int)[0] == bs[i as int]);
                assert(bs.skip(i as int).skip(1) =~= bs.skip(i as int + 1));
                assert(concat_of(bs.skip(i as int))
                    == bs[i as int] + concat_of(bs.skip(i as int + 1)));
            }
            self.absorb_block(&blocks[i]);
            i = i + 1;
        }
        proof {
            assert(bs.skip(bs.len() as int) =~= Seq::<Seq<u8>>::empty());
            assert(old(self).fed() + concat_of(bs) =~= self.fed());
        }
    }

    /// Return the engine to its initial empty state.
    pub fn reset(&mut self)
        ensures
            final(self).wf(),
            final(self).fed() == Seq::<u8>::empty(),
    {
        let fresh = Ed2kCore::new();
        *self = fresh;
    }

    /// Absorb the trailing bytes of the stream and produce the ed2k digest
    /// of everything fed since the engine was fresh; the engine is left
    /// reset to its initial empty state.
    pub fn finalize(&mut self, tail: &[u8]) -> (out: Vec<u8>)
        requires
            old(self).wf(),
        ensures
            out@ == ed2k_spec(old(self).fed() + tail@),
            out@.len() == 16,
            final(self).wf(),
            final(self).fed() == Seq::<u8>::empty(),
    {
        self.update_data(tail);
        let ghost total = self.absorbed@;
        let out: Vec<u8>;
        if self.units_closed == 0 {
            proof {
                assert(total =~= self.unit_buf@);
            }
            out = md4_digest(self.unit_buf.as_slice());
        } else {
            let ghost pre = *self;
            let ghost k = pre.units_closed as nat;
            let mut d = md4_digest(self.unit_buf.as_slice());
            self.closed_digests.append(&mut d);
            out = md4_digest(self.closed_digests.as_slice());
            proof {
                let cl = (k * (UNIT_SIZE as nat)) as int;
                assert(cl == pre.closed_len());
                assert(pre.unit_buf@ == total.skip(cl));
                assert(0 < pre.unit_buf@.len() <= UNIT_SIZE);
                assert(cl < total.len() <= cl + UNIT_SIZE);
                lemma_chunk_digests_decompose(total, k);
                assert(self.closed_digests@
                    == closed_chunk_digests(total.take(cl)) + md4_of(total.skip(cl)));
                assert(self.closed_digests@ == chunk_digests(total));
                assert(cl >= UNIT_SIZE);
                assert(total.len() > UNIT_SIZE);
                assert(ed2k_spec(total) == md4_of(chunk_digests(total)));
            }
        }
        self.reset();
        out
    }
}

impl Default for Ed2kCore {
    /// A fresh engine with nothing absorbed.
    fn default() -> (c: Self)
        ensures
            c.wf(),
            c.fed() == Seq::<u8>::empty(),
    {
        Ed2kCore::new()
    }
}

} // verus!
