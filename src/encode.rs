//! The encoded stream: an eight-byte length header, then the parent nodes and chunks of the
//! tree in pre-order. The outboard form holds the header and the parent nodes only.
use vstd::prelude::*;
use vstd::slice::slice_subrange;
use crate::hash::{
    encode_len, hash_node, le_bytes, lemma_split_len_bounds, parent_node, root_hash, split_len,
    tree_hash, Finalization, CHUNK_SIZE, PARENT_SIZE,
};
use crate::simple::{chunk_count, encoded_len, lemma_split_encoded_len};

verus! {

/// The parent nodes of the tree over `input` in pre-order, each before the subtrees it covers,
/// with the chunks in their places when `with_chunks` holds.
pub open spec fn tree_nodes(input: Seq<u8>, with_chunks: bool) -> Seq<u8>
    decreases input.len(),
{
    if input.len() <= CHUNK_SIZE {
        if with_chunks {
            input
        } else {
            seq![]
        }
    } else {
        let k = split_len(input.len()) as int;
        if 0 < k < input.len() {
            let left = input.subrange(0, k);
            let right = input.subrange(k, input.len() as int);
            tree_hash(left, Finalization::NotRoot) + tree_hash(right, Finalization::NotRoot)
                + tree_nodes(left, with_chunks) + tree_nodes(right, with_chunks)
        } else {
            seq![]
        }
    }
}

/// The combined encoding of `input`: the length header, then parents and chunks.
pub open spec fn encoded_stream(input: Seq<u8>) -> Seq<u8> {
    le_bytes(input.len() as u64) + tree_nodes(input, true)
}

/// The outboard encoding of `input`: the length header, then the parents alone.
pub open spec fn outboard_stream(input: Seq<u8>) -> Seq<u8> {
    le_bytes(input.len() as u64) + tree_nodes(input, false)
}

/// The length of the combined encoding of `n` bytes.
pub open spec fn spec_encoded_size(n: nat) -> nat {
    8 + n + 64 * ((chunk_count(n) - 1) as nat)
}

/// The length of the outboard encoding of `n` bytes.
pub open spec fn spec_outboard_size(n: nat) -> nat {
    8 + 64 * ((chunk_count(n) - 1) as nat)
}

/// The pre-order nodes of a tree over `n` bytes take one parent node per chunk but one, plus
/// the chunks themselves in the combined form.
pub proof fn lemma_tree_nodes_len(input: Seq<u8>)
    ensures
        tree_nodes(input, true).len() == encoded_len(input.len()),
        tree_nodes(input, false).len() == encoded_len(input.len()) - input.len(),
    decreases input.len(),
{
    let n = input.len();
    if n > CHUNK_SIZE {
        let k = split_len(n) as int;
        lemma_split_len_bounds(n);
        lemma_split_encoded_len(n);
        crate::hash::lemma_tree_hash_len(input.subrange(0, k), Finalization::NotRoot);
        crate::hash::lemma_tree_hash_len(input.subrange(k, n as int), Finalization::NotRoot);
        lemma_tree_nodes_len(input.subrange(0, k));
        lemma_tree_nodes_len(input.subrange(k, n as int));
    } else {
        assert(chunk_count(n) == 1) by (nonlinear_arith)
            requires n <= 4096, chunk_count(n) == if n == 0 { 1 } else { (n + 4095) / 4096 };
    }
}

/// The encoded stream of any input is `8 + N + 64 * (chunks - 1)` bytes long, and its outboard
/// form `8 + 64 * (chunks - 1)`.
pub proof fn lemma_encoded_size(input: Seq<u8>)
    requires
        input.len() <= u64::MAX,
    ensures
        encoded_stream(input).len() == spec_encoded_size(input.len()),
        outboard_stream(input).len() == spec_outboard_size(input.len()),
{
    lemma_tree_nodes_len(input);
}

/// The length of the combined encoding of `content_len` bytes.
pub fn encoded_size(content_len: u64) -> (r: u128)
    ensures
        r == spec_encoded_size(content_len as nat),
{
    outboard_size(content_len) + content_len as u128
}

/// The length of the outboard encoding of `content_len` bytes.
pub fn outboard_size(content_len: u64) -> (r: u128)
    ensures
        r == spec_outboard_size(content_len as nat),
{
    let chunks: u128 = if content_len == 0 {
        1
    } else {
        (content_len as u128 + 4095) / CHUNK_SIZE as u128
    };
    proof {
        assert(chunks >= 1 && chunks <= 0x10000000000000) by (nonlinear_arith)
            requires chunks == if content_len == 0 { 1 } else { (content_len + 4095) / 4096 }, content_len <= 0xffff_ffff_ffff_ffff;
    }
    8 + PARENT_SIZE as u128 * (chunks - 1)
}

/// Appends the pre-order nodes of the tree over `input` to `out` (with the chunks when
/// `with_chunks` holds) and returns the hash of its top node, finished as `fin`. Each parent's
/// place is reserved before its subtrees are written and filled in after.
fn encode_recurse(input: &[u8], fin: Finalization, with_chunks: bool, out: &mut Vec<u8>) -> (r:
    crate::hash::Hash)
    requires
        old(out)@.len() + encoded_len(input@.len()) <= usize::MAX,
    ensures
        final(out)@ == old(out)@ + tree_nodes(input@, with_chunks),
        r@ == tree_hash(input@, fin),
    decreases input@.len(),
{
    proof {
        lemma_tree_nodes_len(input@);
    }
    if input.len() <= CHUNK_SIZE {
        if with_chunks {
            out.extend_from_slice(input);
        } else {
            assert(out@ =~= out@ + tree_nodes(input@, with_chunks));
        }
        return hash_node(input, fin);
    }
    let ghost start = out@;
    let k = crate::hash::left_len(input.len() as u64) as usize;
    proof {
        lemma_split_len_bounds(input@.len());
        lemma_split_encoded_len(input@.len());
    }
    let pos = out.len();
    let mut i: usize = 0;
    while i < PARENT_SIZE
        invariant
            i <= PARENT_SIZE,
            pos == start.len(),
            out@.len() == pos + i,
            out@.subrange(0, pos as int) == start,
            pos + encoded_len(input@.len()) <= usize::MAX,
            encoded_len(input@.len()) > 64,
        decreases PARENT_SIZE - i,
    {
        out.push(0u8);
        assert(out@.subrange(0, pos as int) =~= start);
        i = i + 1;
    }
    let ghost reserved = out@;
    assert(reserved.subrange(0, pos as int) == start);
    let left = slice_subrange(input, 0, k);
    let right = slice_subrange(input, k, input.len());
    proof {
        lemma_tree_nodes_len(left@);
        lemma_tree_nodes_len(right@);
    }
    let left_hash = encode_recurse(left, Finalization::NotRoot, with_chunks, out);
    let right_hash = encode_recurse(right, Finalization::NotRoot, with_chunks, out);
    let ghost filled = out@;
    let ghost nodes_l = tree_nodes(left@, with_chunks);
    let ghost nodes_r = tree_nodes(right@, with_chunks);
    assert(filled == reserved + nodes_l + nodes_r);
    assert(filled.len() <= usize::MAX);
    let node = parent_node(&left_hash, &right_hash);
    let mut j: usize = 0;
    while j < PARENT_SIZE
        invariant
            j <= PARENT_SIZE,
            out@.len() == filled.len(),
            pos + PARENT_SIZE <= filled.len() <= usize::MAX,
            forall|x: int| 0 <= x < pos ==> out@[x] == filled[x],
            forall|x: int| pos + PARENT_SIZE <= x < filled.len() ==> out@[x] == filled[x],
            forall|x: int| 0 <= x < j ==> out@[pos + x] == node@[x],
        decreases PARENT_SIZE - j,
    {
        out[pos + j] = node[j];
        j = j + 1;
    }
    proof {
        let whole = tree_nodes(input@, with_chunks);
        assert(whole == node@ + nodes_l + nodes_r);
        assert forall|x: int| 0 <= x < out@.len() implies out@[x] == (start + whole)[x] by {
            if x < pos {
                assert(out@[x] == filled[x]);
                assert(filled[x] == reserved[x]);
                assert(reserved[x] == reserved.subrange(0, pos as int)[x]);
            } else if x < pos + PARENT_SIZE {
            } else {
                assert(out@[x] == filled[x]);
            }
        }
        assert(out@ =~= start + whole);
    }
    crate::hash::parent_hash(&left_hash, &right_hash, fin)
}

/// The combined encoding of `input` and its root hash.
pub fn encode(input: &[u8]) -> (r: (Vec<u8>, crate::hash::Hash))
    requires
        spec_encoded_size(input@.len()) <= usize::MAX,
    ensures
        r.0@ == encoded_stream(input@),
        r.1@ == root_hash(input@),
{
    let header = encode_len(input.len() as u64);
    let mut out: Vec<u8> = Vec::new();
    out.extend_from_slice(header.as_slice());
    let root = encode_recurse(input, Finalization::Root(input.len() as u64), true, &mut out);
    (out, root)
}

/// The outboard encoding of `input` and its root hash.
pub fn encode_outboard(input: &[u8]) -> (r: (Vec<u8>, crate::hash::Hash))
    requires
        spec_encoded_size(input@.len()) <= usize::MAX,
    ensures
        r.0@ == outboard_stream(input@),
        r.1@ == root_hash(input@),
{
    let header = encode_len(input.len() as u64);
    let mut out: Vec<u8> = Vec::new();
    out.extend_from_slice(header.as_slice());
    let root = encode_recurse(input, Finalization::Root(input.len() as u64), false, &mut out);
    (out, root)
}

} // verus!
