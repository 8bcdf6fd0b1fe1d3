//! Tree reduction engine: the Tiger tree hash scheme.
//!
//! The stream is cut into fixed-size leaves.  Each leaf is hashed with a
//! leaf sigil prefixed (domain separation from interior nodes) the moment
//! it fills — eagerly, unlike the linear scheme.  The ordered leaf digests
//! are then combined level by level: pairs are hashed under a node sigil,
//! and an unpaired final digest passes through to the next level unchanged,
//! until one digest remains.  An empty stream reduces to the digest of the
//! bare leaf sigil.

use vstd::prelude::*;
use crate::primitives::{tiger_digest, tiger_of, BLOCK_SIZE};
use crate::{concat_of, push_all};

verus! {

/// Number of bytes in one leaf of the tree scheme.
pub const LEAF_SIZE: usize = 1024;

/// Byte prefixed to leaf content before hashing.
pub const LEAF_SIGIL: u8 = 0;

/// Byte prefixed to a pair of child digests before hashing.
pub const NODE_SIGIL: u8 = 1;

/// The bytes actually hashed for a leaf holding `bytes`.
pub open spec fn leaf_content(bytes: Seq<u8>) -> Seq<u8> {
    seq![LEAF_SIGIL] + bytes
}

/// The digest of an interior node over two child digests.
pub open spec fn node_of(left: Seq<u8>, right: Seq<u8>) -> Seq<u8> {
    tiger_of(seq![NODE_SIGIL] + left + right)
}

/// The views of a list of digest vectors.
pub open spec fn digests_view(vs: Seq<Vec<u8>>) -> Seq<Seq<u8>> {
    vs.map_values(|v: Vec<u8>| v@)
}

/// The ordered leaf digests of a byte stream: one digest per full leaf,
/// plus one for the trailing short leaf if any bytes remain.  An empty
/// stream has no leaves.
pub open spec fn leaf_digests(bytes: Seq<u8>) -> Seq<Seq<u8>>
    decreases bytes.len(),
{
    if bytes.len() == 0 {
        Seq::empty()
    } else if bytes.len() <= LEAF_SIZE {
        seq![tiger_of(leaf_content(bytes))]
    } else {
        seq![tiger_of(leaf_content(bytes.take(LEAF_SIZE as int)))]
            + leaf_digests(bytes.skip(LEAF_SIZE as int))
    }
}

/// One level of the reduction: digests are paired left to right by index,
/// each pair is hashed under the node sigil, and an unpaired last digest
/// passes through unchanged.
pub open spec fn reduce_level(ds: Seq<Seq<u8>>) -> Seq<Seq<u8>> {
    Seq::new((ds.len() + 1) / 2, |i: int|
        if 2 * i + 1 < ds.len() {
            node_of(ds[2 * i], ds[2 * i + 1])
        } else {
            ds[2 * i]
        })
}

/// The root of the reduction over an ordered list of digests.  An empty
/// list is treated as the single canonical empty-input leaf digest.
pub open spec fn reduce(ds: Seq<Seq<u8>>) -> Seq<u8>
    decreases ds.len(),
{
    if ds.len() == 0 {
        tiger_of(seq![LEAF_SIGIL])
    } else if ds.len() == 1 {
        ds[0]
    } else {
        reduce(reduce_level(ds))
    }
}

/// The tree-hash digest of a whole byte stream.
pub open spec fn tth_spec(bytes: Seq<u8>) -> Seq<u8> {
    reduce(leaf_digests(bytes))
}

/// Empty input: the tree scheme returns the digest of the bare leaf sigil.
pub proof fn lemma_tree_empty()
    ensures
        tth_spec(Seq::<u8>::empty()) == tiger_of(seq![LEAF_SIGIL]),
{
}

/// Single-leaf: input of at most one leaf digests as the leaf-sigil-prefixed
/// hash of that input alone, with no node hashing.
pub proof fn lemma_single_leaf(bytes: Seq<u8>)
    requires
        bytes.len() <= LEAF_SIZE,
    ensures
        tth_spec(bytes) == tiger_of(leaf_content(bytes)),
{
    if bytes.len() == 0 {
        assert(seq![LEAF_SIGIL] + bytes =~= seq![LEAF_SIGIL]);
    } else {
        let ds = leaf_digests(bytes);
        assert(reduce(ds) == ds[0]);
    }
}

/// Odd-leaf passthrough: with exactly three leaf digests, the third leaf
/// passes through the first level unchanged, and the root is the node hash
/// of the first pair's node hash with it.
pub proof fn lemma_odd_passthrough(l1: Seq<u8>, l2: Seq<u8>, l3: Seq<u8>)
    ensures
        reduce(seq![l1, l2, l3]) == node_of(node_of(l1, l2), l3),
{
    let ds = seq![l1, l2, l3];
    let lv = reduce_level(ds);
    assert(lv =~= seq![node_of(l1, l2), l3]);
    let lv2 = reduce_level(lv);
    assert(lv2 =~= seq![node_of(node_of(l1, l2), l3)]);
    assert(reduce(lv2) == lv2[0]);
    assert(reduce(lv) == reduce(lv2));
    assert(reduce(ds) == reduce(lv));
}

/// Reduction works level by level: combining one level of pairs first —
/// respecting the pairing order and the odd passthrough — and then reducing
/// what remains yields the same root as reducing the full list.  The
/// root is a function of leaf order and count alone.
pub proof fn lemma_reduce_by_levels(ds: Seq<Seq<u8>>)
    requires
        ds.len() >= 2,
    ensures
        reduce(ds) == reduce(reduce_level(ds)),
{
}

/// Appending one more (full or final short) leaf to a whole number of full
/// leaves appends exactly that leaf's digest to the digest list.
proof fn lemma_leaf_digests_append(p: Seq<u8>, l: Seq<u8>)
    requires
        p.len() % (LEAF_SIZE as nat) == 0,
        0 < l.len() <= LEAF_SIZE,
    ensures
        leaf_digests(p + l) == leaf_digests(p).push(tiger_of(leaf_content(l))),
    decreases p.len(),
{
    if p.len() == 0 {
        assert(p + l =~= l);
        assert(leaf_digests(p) == Seq::<Seq<u8>>::empty());
        assert(leaf_digests(l) =~= leaf_digests(p).push(tiger_of(leaf_content(l))));
    } else {
        assert(p.len() >= LEAF_SIZE);
        assert((p + l).len() > LEAF_SIZE);
        assert((p + l).take(LEAF_SIZE as int) =~= p.take(LEAF_SIZE as int));
        assert((p + l).skip(LEAF_SIZE as int) =~= p.skip(LEAF_SIZE as int) + l);
        assert(p.skip(LEAF_SIZE as int).len() % (LEAF_SIZE as nat) == 0);
        lemma_leaf_digests_append(p.skip(LEAF_SIZE as int), l);
        if p.len() == LEAF_SIZE {
            assert(p.take(LEAF_SIZE as int) =~= p);
            assert(p.skip(LEAF_SIZE as int) =~= Seq::<u8>::empty());
            assert(leaf_digests(Seq::<u8>::empty()) == Seq::<Seq<u8>>::empty());
            assert(leaf_digests(p + l) =~= leaf_digests(p).push(tiger_of(leaf_content(l))));
        } else {
            assert(leaf_digests(p) == seq![tiger_of(leaf_content(p.take(LEAF_SIZE as int)))]
                + leaf_digests(p.skip(LEAF_SIZE as int)));
            assert(leaf_digests(p + l) =~= leaf_digests(p).push(tiger_of(leaf_content(l))));
        }
    }
}

/// Digest of one leaf: the leaf sigil, then the leaf's bytes.
fn leaf_digest(bytes: &[u8]) -> (out: Vec<u8>)
    ensures
        out@ == tiger_of(leaf_content(bytes@)),
        out@.len() == 24,
{
    let mut content: Vec<u8> = Vec::new();
    content.push(LEAF_SIGIL);
    push_all(&mut content, bytes);
    proof {
        assert(content@ =~= leaf_content(bytes@));
    }
    tiger_digest(content.as_slice())
}

/// Digest of one interior node: the node sigil, then both child digests.
fn node_digest(left: &Vec<u8>, right: &Vec<u8>) -> (out: Vec<u8>)
    ensures
        out@ == node_of(left@, right@),
        out@.len() == 24,
{
    let mut content: Vec<u8> = Vec::new();
    content.push(NODE_SIGIL);
    push_all(&mut content, left.as_slice());
    push_all(&mut content, right.as_slice());
    proof {
        assert(content@ =~= seq![NODE_SIGIL] + left@ + right@);
    }
    tiger_digest(content.as_slice())
}

/// Copy one digest unchanged to the next level (the odd passthrough).
fn clone_digest(v: &Vec<u8>) -> (out: Vec<u8>)
    ensures
        out@ == v@,
{
    let mut out: Vec<u8> = Vec::new();
    push_all(&mut out, v.as_slice());
    proof {
        assert(Seq::<u8>::empty() + v@ =~= v@);
    }
    out
}

/// Reduce an ordered list of digests to the root digest, level by level.
pub(crate) fn hash_nodes(hashes: Vec<Vec<u8>>) -> (out: Vec<u8>)
    requires
        forall|i: int| 0 <= i < hashes@.len() ==> (#[trigger] hashes@[i])@.len() == 24,
    ensures
        out@ == reduce(digests_view(hashes@)),
        out@.len() == 24,
{
    let ghost orig = hashes@;
    let mut cur = hashes;
    while cur.len() >= 2
        invariant
            forall|i: int| 0 <= i < cur@.len() ==> (#[trigger] cur@[i])@.len() == 24,
            reduce(digests_view(cur@)) == reduce(digests_view(orig)),
        decreases cur@.len(),
    {
        let ghost dv = digests_view(cur@);
        let level_len = (cur.len() - 1) / 2 + 1;
        proof {
            assert(level_len == (dv.len() + 1) / 2);
        }
        let mut next: Vec<Vec<u8>> = Vec::new();
        let mut j: usize = 0;
        while j < level_len
            invariant
                dv == digests_view(cur@),
                dv.len() == cur@.len(),
                2 <= cur@.len(),
                level_len == (dv.len() + 1) / 2,
                forall|i: int| 0 <= i < cur@.len() ==> (#[trigger] cur@[i])@.len() == 24,
                j <= level_len,
                next@.len() == j,
                forall|i: int| 0 <= i < j ==> (#[trigger] next@[i])@ == reduce_level(dv)[i],
                forall|i: int| 0 <= i < j ==> (#[trigger] next@[i])@.len() == 24,
            decreases level_len - j,
        {
            let n = cur.len();
            proof {
                assert(2 * j < cur@.len());
            }
            let d: Vec<u8>;
            if 2 * j + 1 < n {
                d = node_digest(&cur[2 * j], &cur[2 * j + 1]);
            } else {
                d = clone_digest(&cur[2 * j]);
            }
            next.push(d);
            j = j + 1;
        }
        proof {
            assert(digests_view(next@) =~= reduce_level(dv));
            assert(reduce(dv) == reduce(reduce_level(dv)));
            assert((dv.len() + 1) / 2 < dv.len());
        }
        cur = next;
    }
    if cur.len() == 0 {
        proof {
            assert(digests_view(cur@) =~= Seq::<Seq<u8>>::empty());
        }
        let mut content: Vec<u8> = Vec::new();
        content.push(LEAF_SIGIL);
        proof {
            assert(content@ =~= seq![LEAF_SIGIL]);
        }
        tiger_digest(content.as_slice())
    } else {
        let out = match cur.pop() {
            Some(v) => v,
            None => {
                proof {
                    assert(false);
                }
                Vec::new()
            },
        };
        proof {
            assert(out@ == digests_view(cur@.push(out))[0]);
        }
        out
    }
}

/// Streaming state of the tree (Tiger tree hash) scheme.
///
/// `leaf_buf` holds the bytes of the leaf now filling; `leaves` holds the
/// digests of the leaves already closed, in stream order.
#[derive(Clone)]
pub struct TigerTreeCore {
    leaf_buf: Vec<u8>,
    leaves: Vec<Vec<u8>>,
    absorbed: Ghost<Seq<u8>>,
}

impl TigerTreeCore {
    /// All bytes fed to the engine so far.
    pub closed spec fn fed(self) -> Seq<u8> {
        self.absorbed@
    }

    spec fn closed_len(self) -> int {
        self.leaves@.len() as int * (LEAF_SIZE as int)
    }

    /// Well-formed engine state, as holds between any two operations.
    /// A leaf is closed eagerly the moment it fills, so the filling leaf
    /// is always short of full.
    pub closed spec fn wf(self) -> bool {
        &&& self.leaf_buf@.len() < LEAF_SIZE
        &&& self.absorbed@.len() == self.closed_len() + self.leaf_buf@.len()
        &&& self.leaf_buf@ == self.absorbed@.skip(self.closed_len())
        &&& digests_view(self.leaves@) == leaf_digests(self.absorbed@.take(self.closed_len()))
        &&& forall|i: int| 0 <= i < self.leaves@.len() ==> (#[trigger] self.leaves@[i])@.len() == 24
    }

    /// Name of the scheme, as reported alongside rendered digests.
    pub fn alg_name() -> (s: String)
        ensures
            s@ == "TigerTree"@,
    {
        "TigerTree".to_string()
    }

    /// A fresh engine with nothing absorbed.
    pub fn new() -> (c: Self)
        ensures
            c.wf(),
            c.fed() == Seq::<u8>::empty(),
    {
        let c = TigerTreeCore {
            leaf_buf: Vec::new(),
            leaves: Vec::new(),
            absorbed: Ghost(Seq::empty()),
        };
        proof {
            assert(c.absorbed@.take(0) =~= Seq::<u8>::empty());
            assert(c.absorbed@.skip(0) =~= Seq::<u8>::empty());
            assert(digests_view(c.leaves@) =~= Seq::<Seq<u8>>::empty());
        }
        c
    }

    /// Digest the filled leaf, append it to the closed leaves, and start
    /// the next leaf empty.
    fn close_leaf(&mut self)
        requires
            old(self).leaf_buf@.len() == LEAF_SIZE,
            old(self).absorbed@.len() == old(self).closed_len() + (LEAF_SIZE as int),
            old(self).leaf_buf@ == old(self).absorbed@.skip(old(self).closed_len()),
            digests_view(old(self).leaves@) == leaf_digests(
                old(self).absorbed@.take(old(self).closed_len()),
            ),
            forall|i: int|
                0 <= i < old(self).leaves@.len() ==> (#[trigger] old(self).leaves@[i])@.len() == 24,
        ensures
            final(self).wf(),
            final(self).absorbed@ == old(self).absorbed@,
    {
        let d = leaf_digest(self.leaf_buf.as_slice());
        let ghost dv = d@;
        self.leaves.push(d);
        self.leaf_buf.clear();
        proof {
            let oldcl = old(self).closed_len();
            let newcl = self.closed_len();
            assert(newcl == oldcl + (LEAF_SIZE as int));
            assert(old(self).absorbed@.take(oldcl).len() % (LEAF_SIZE as nat) == 0);
            lemma_leaf_digests_append(old(self).absorbed@.take(oldcl), old(self).leaf_buf@);
            assert(old(self).absorbed@.take(oldcl) + old(self).leaf_buf@
                =~= self.absorbed@.take(newcl));
            assert(digests_view(self.leaves@) =~= digests_view(old(self).leaves@).push(dv));
            assert(self.absorbed@.skip(newcl) =~= Seq::<u8>::empty());
        }
    }

    /// Absorb a run of bytes, closing each leaf the moment it fills.
    pub fn update_data(&mut self, data: &[u8])
        requires
            old(self).wf(),
        ensures
            final(self).wf(),
            final(self).fed() == old(self).fed() + data@,
    {
        let mut pos: usize = 0;
        while pos < data.len()
            invariant
                pos <= data@.len(),
                self.wf(),
                self.absorbed@ == old(self).absorbed@ + data@.take(pos as int),
            decreases data@.len() - pos,
        {
            let ghost pre = *self;
            let b = data[pos];
            self.leaf_buf.push(b);
            self.absorbed = Ghost(self.absorbed@.push(b));
            pos = pos + 1;
            proof {
                let cl = self.closed_len();
                assert(self.absorbed@.skip(cl) =~= pre.absorbed@.skip(cl).push(b));
                assert(self.absorbed@.take(cl) =~= pre.absorbed@.take(cl));
                assert(old(self).absorbed@ + data@.take(pos as int)
                    =~= (old(self).absorbed@ + data@.take(pos as int - 1)).push(b));
            }
            if self.leaf_buf.len() == LEAF_SIZE {
                self.close_leaf();
            }
        }
        proof {
            assert(data@.take(data@.len() as int) =~= data@);
        }
    }

    /// Absorb one base-primitive block.
    pub fn absorb_block(&mut self, block: &[u8; BLOCK_SIZE])
        requires
            old(self).wf(),
        ensures
            final(self).wf(),
            final(self).fed() == old(self).fed() + block@,
    {
        self.update_data(block.as_slice());
    }

    /// Absorb a run of base-primitive blocks, in stream order.
    pub fn absorb_blocks(&mut self, blocks: &[[u8; BLOCK_SIZE]])
        requires
            old(self).wf(),
        ensures
            final(self).wf(),
            final(self).fed() == old(self).fed()
                + concat_of(blocks@.map_values(|b: [u8; BLOCK_SIZE]| b@)),
    {
        let ghost bs = blocks@.map_values(|b: [u8; BLOCK_SIZE]| b@);
        proof {
            assert(bs.skip(0) =~= bs);
        }
        let mut i: usize = 0;
        while i < blocks.len()
            invariant
                i <= bs.len(),
                bs == blocks@.map_values(|b: [u8; BLOCK_SIZE]| b@),
                self.wf(),
                old(self).fed() + concat_of(bs)
                    == self.fed() + concat_of(bs.skip(i as int)),
            decreases bs.len() - i,
        {
            proof {
                assert(bs.skip(i as int)[0] == bs[i as int]);
                assert(bs.skip(i as int).skip(1) =~= bs.skip(i as int + 1));
                assert(concat_of(bs.skip(i as int))
                    == bs[i as int] + concat_of(bs.skip(i as int + 1)));
            }
            self.absorb_block(&blocks[i]);
            i = i + 1;
        }
        proof {
            assert(bs.skip(bs.len() as int) =~= Seq::<Seq<u8>>::empty());
            assert(old(self).fed() + concat_of(bs) =~= self.fed());
        }
    }

    /// Return the engine to its initial empty state.
    pub fn reset(&mut self)
        ensures
            final(self).wf(),
            final(self).fed() == Seq::<u8>::empty(),
    {
        let fresh = TigerTreeCore::new();
        *self = fresh;
    }

    /// Absorb the trailing bytes of the stream, close the final short leaf
    /// if any bytes remain in it, and produce the tree-hash digest of
    /// everything fed since the engine was fresh; the engine is left reset
    /// to its initial empty state.
    pub fn finalize(&mut self, tail: &[u8]) -> (out: Vec<u8>)
        requires
            old(self).wf(),
        ensures
            out@ == tth_spec(old(self).fed() + tail@),
            out@.len() == 24,
            final(self).wf(),
            final(self).fed() == Seq::<u8>::empty(),
    {
        self.update_data(tail);
        let ghost total = self.absorbed@;
        if self.leaf_buf.len() > 0 {
            let ghost pre = *self;
            let d = leaf_digest(self.leaf_buf.as_slice());
            let ghost dv = d@;
            self.leaves.push(d);
            proof {
                let cl = pre.closed_len();
                assert(total.take(cl).len() % (LEAF_SIZE as nat) == 0);
                lemma_leaf_digests_append(total.take(cl), total.skip(cl));
                assert(total.take(cl) + total.skip(cl) =~= total);
                assert(digests_view(self.leaves@) =~= digests_view(pre.leaves@).push(dv));
                assert(digests_view(self.leaves@) == leaf_digests(total));
            }
        } else {
            proof {
                assert(total.take(self.closed_len()) =~= total);
            }
        }
        let mut hs: Vec<Vec<u8>> = Vec::new();
        core::mem::swap(&mut hs, &mut self.leaves);
        let out = hash_nodes(hs);
        self.reset();
        out
    }
}

impl Default for TigerTreeCore {
    /// A fresh engine with nothing absorbed.
    fn default() -> (c: Self)
        ensures
            c.wf(),
            c.fed() == Seq::<u8>::empty(),
    {
        TigerTreeCore::new()
    }
}

} // verus!
