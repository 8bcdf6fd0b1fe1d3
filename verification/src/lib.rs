//! Whole-stream integrity digests built from a fixed-block base hash:
//! a chunked linear scheme (ed2k over MD4) and a binary Merkle tree
//! scheme (Tiger tree hash).

use vstd::prelude::*;

pub mod ed2k;
pub mod primitives;
pub mod tth;

pub use ed2k::Ed2kCore;
pub use tth::TigerTreeCore;

verus! {

/// Append every byte of `src` to `dst`.
pub(crate) fn push_all(dst: &mut Vec<u8>, src: &[u8])
    ensures
        final(dst)@ == old(dst)@ + src@,
{
    let mut i: usize = 0;
    while i < src.len()
        invariant
            i <= src@.len(),
            dst@ == old(dst)@ + src@.take(i as int),
        decreases src@.len() - i,
    {
        let b = src[i];
        dst.push(b);
        proof {
            assert(old(dst)@ + src@.take(i as int + 1)
                =~= (old(dst)@ + src@.take(i as int)).push(b));
        }
        i = i + 1;
    }
    proof {
        assert(src@.take(src@.len() as int) =~= src@);
    }
}

/// Concatenation of a sequence of byte strings into one byte stream.
pub open spec fn concat_of(pieces: Seq<Seq<u8>>) -> Seq<u8>
    decreases pieces.len(),
{
    if pieces.len() == 0 {
        Seq::empty()
    } else {
        pieces[0] + concat_of(pieces.skip(1))
    }
}

/// Feeding a stream of pieces in two runs delivers the same bytes as
/// feeding all of them in one run: input chunking cannot change what
/// an engine has absorbed, and so cannot change the digest.
pub proof fn lemma_concat_of_split(a: Seq<Seq<u8>>, b: Seq<Seq<u8>>)
    ensures
        concat_of(a + b) == concat_of(a) + concat_of(b),
    decreases a.len(),
{
    if a.len() == 0 {
        assert(a + b =~= b);
        assert(concat_of(a) + concat_of(b) =~= concat_of(b));
    } else {
        assert((a + b).skip(1) =~= a.skip(1) + b);
        lemma_concat_of_split(a.skip(1), b);
        assert(concat_of(a + b) =~= concat_of(a) + concat_of(b));
    }
}

} // verus!
