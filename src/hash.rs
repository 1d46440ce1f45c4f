//! The tree hash: geometry of the tree, node finalization, and the recursive hash of a buffer.
use vstd::prelude::*;
use vstd::slice::slice_to_vec;
use vstd::slice::slice_subrange;

verus! {

/// The length of every hash in the tree.
pub const HASH_SIZE: usize = 32;

/// A parent node: the hashes of its two children.
pub const PARENT_SIZE: usize = 64;

/// The little-endian content length at the start of an encoding.
pub const HEADER_SIZE: usize = 8;

/// The length of every chunk but the last.
pub const CHUNK_SIZE: usize = 4096;

/// Room for pending subtrees: more than the 52 that the longest input needs.
pub const MAX_DEPTH: usize = 64;

/// Inputs up to this length are hashed on one thread.
pub const MAX_SINGLE_THREADED: usize = 16384;

pub type Hash = [u8; 32];

pub type ParentNode = [u8; 64];

/// How a node is finished: an interior node, or the root of a tree of the given length.
#[derive(Clone, Copy, Debug, PartialEq, Eq, Structural)]
pub enum Finalization {
    NotRoot,
    Root(u64),
}

/// The 32-byte BLAKE2b digest of `input`, with the BLAKE2 last-node flag as given.
pub uninterp spec fn blake2b_256(input: Seq<u8>, last_node: bool) -> Seq<u8>;

/// The eight little-endian bytes of `n`.
pub open spec fn le_bytes(n: u64) -> Seq<u8> {
    seq![
        (n & 0xff) as u8,
        ((n >> 8u64) & 0xff) as u8,
        ((n >> 16u64) & 0xff) as u8,
        ((n >> 24u64) & 0xff) as u8,
        ((n >> 32u64) & 0xff) as u8,
        ((n >> 40u64) & 0xff) as u8,
        ((n >> 48u64) & 0xff) as u8,
        ((n >> 56u64) & 0xff) as u8,
    ]
}

/// The hash of one node body: a root is suffixed with its length and hashed as the last node.
pub open spec fn node_hash(body: Seq<u8>, fin: Finalization) -> Seq<u8> {
    let digest = match fin {
        Finalization::NotRoot => blake2b_256(body, false),
        Finalization::Root(n) => blake2b_256(body + le_bytes(n), true),
    };
    Seq::new(32, |i: int| digest[i])
}

/// The largest power of two that is at most `n`, and 1 when `n` is 0.
pub open spec fn pow2_leq(n: nat) -> nat
    decreases n,
{
    if n <= 1 {
        1
    } else {
        2 * pow2_leq(n / 2)
    }
}

/// Where a tree of `n > CHUNK_SIZE` bytes splits: the largest perfect tree of chunks that
/// leaves at least one byte to the right.
pub open spec fn split_len(n: nat) -> nat {
    pow2_leq(((n - 1) as nat) / (CHUNK_SIZE as nat)) * (CHUNK_SIZE as nat)
}

pub proof fn lemma_pow2_leq_bounds(n: nat)
    ensures
        1 <= pow2_leq(n),
        n >= 1 ==> pow2_leq(n) <= n,
        n < 2 * pow2_leq(n),
    decreases n,
{
    if n > 1 {
        lemma_pow2_leq_bounds(n / 2);
    }
}

pub proof fn lemma_split_len_bounds(n: nat)
    requires
        n > CHUNK_SIZE,
    ensures
        CHUNK_SIZE <= split_len(n) < n,
        split_len(n) % (CHUNK_SIZE as nat) == 0,
{
    let full = ((n - 1) as nat) / (CHUNK_SIZE as nat);
    lemma_pow2_leq_bounds(full);
    assert(full >= 1);
    assert(pow2_leq(full) * 4096 <= full * 4096) by (nonlinear_arith)
        requires pow2_leq(full) <= full;
    assert(split_len(n) % 4096 == 0) by (nonlinear_arith)
        requires split_len(n) == pow2_leq(full) * 4096;
}

/// The hash of the tree over `input`, with its top node finished as `fin`.
pub open spec fn tree_hash(input: Seq<u8>, fin: Finalization) -> Seq<u8>
    decreases input.len(),
{
    if input.len() <= CHUNK_SIZE {
        node_hash(input, fin)
    } else {
        let k = split_len(input.len()) as int;
        if 0 < k < input.len() {
            node_hash(
                tree_hash(input.subrange(0, k), Finalization::NotRoot) + tree_hash(
                    input.subrange(k, input.len() as int),
                    Finalization::NotRoot,
                ),
                fin,
            )
        } else {
            seq![]
        }
    }
}

/// Every hash in the tree is 32 bytes long, as BLAKE2b with a 32-byte output gives.
pub proof fn lemma_tree_hash_len(input: Seq<u8>, fin: Finalization)
    ensures
        tree_hash(input, fin).len() == HASH_SIZE,
    decreases input.len(),
{
    if input.len() > CHUNK_SIZE {
        lemma_split_len_bounds(input.len());
    }
}

/// The root hash of `input`.
pub open spec fn root_hash(input: Seq<u8>) -> Seq<u8> {
    tree_hash(input, Finalization::Root(input.len() as u64))
}

/// Relies on blake2b_simd::Params::hash with a 32-byte output and the last-node flag set as
/// given: the digest depends on the input and the flag alone.
#[verifier::external_body]
fn blake2b_hash(input: &[u8], last_node: bool) -> (r: Hash)
    ensures
        r@ == blake2b_256(input@, last_node),
{
    let digest = blake2b_simd::Params::new().hash_length(HASH_SIZE).last_node(last_node).hash(
        input,
    );
    let mut out = [0u8; HASH_SIZE];
    out.copy_from_slice(digest.as_bytes());
    out
}

/// Encodes `n` as eight little-endian bytes.
pub fn encode_len(n: u64) -> (r: [u8; 8])
    ensures
        r@ == le_bytes(n),
{
    let mut r = [0u8; 8];
    r[0] = (n & 0xff) as u8;
    r[1] = ((n >> 8u64) & 0xff) as u8;
    r[2] = ((n >> 16u64) & 0xff) as u8;
    r[3] = ((n >> 24u64) & 0xff) as u8;
    r[4] = ((n >> 32u64) & 0xff) as u8;
    r[5] = ((n >> 40u64) & 0xff) as u8;
    r[6] = ((n >> 48u64) & 0xff) as u8;
    r[7] = ((n >> 56u64) & 0xff) as u8;
    assert(r@ =~= le_bytes(n));
    r
}

/// Hashes one node body with its finalization.
pub fn finalize_hash(body: &[u8], fin: Finalization) -> (r: Hash)
    ensures
        r@ == node_hash(body@, fin),
{
    match fin {
        Finalization::NotRoot => {
            let r = blake2b_hash(body, false);
            assert(r@ =~= node_hash(body@, fin));
            r
        },
        Finalization::Root(n) => {
            let mut full = slice_to_vec(body);
            let len_bytes = encode_len(n);
            full.extend_from_slice(len_bytes.as_slice());
            assert(full@ == body@ + le_bytes(n));
            let r = blake2b_hash(full.as_slice(), true);
            assert(r@ =~= node_hash(body@, fin));
            r
        },
    }
}

/// Hashes one chunk of at most `CHUNK_SIZE` bytes.
pub fn hash_node(chunk: &[u8], fin: Finalization) -> (r: Hash)
    requires
        chunk@.len() <= CHUNK_SIZE,
    ensures
        r@ == tree_hash(chunk@, fin),
{
    finalize_hash(chunk, fin)
}

/// The 64 bytes of a parent node: the left child's hash, then the right's.
pub fn parent_node(left: &Hash, right: &Hash) -> (r: ParentNode)
    ensures
        r@ == left@ + right@,
{
    let mut r = [0u8; PARENT_SIZE];
    let mut i: usize = 0;
    while i < HASH_SIZE
        invariant
            i <= HASH_SIZE,
            forall|j: int| 0 <= j < i ==> r@[j] == left@[j],
            forall|j: int| 0 <= j < i ==> r@[j + 32] == right@[j],
        decreases HASH_SIZE - i,
    {
        r[i] = left[i];
        r[i + HASH_SIZE] = right[i];
        i = i + 1;
    }
    assert(r@ =~= left@ + right@);
    r
}

/// Hashes a parent node made of two child hashes.
pub fn parent_hash(left: &Hash, right: &Hash, fin: Finalization) -> (r: Hash)
    ensures
        r@ == node_hash(left@ + right@, fin),
{
    let node = parent_node(left, right);
    finalize_hash(node.as_slice(), fin)
}

/// The largest power of two that is at most `n`; 1 for 0.
pub fn largest_power_of_two_leq(n: u64) -> (r: u64)
    ensures
        r == pow2_leq(n as nat),
{
    let mut m: u64 = n;
    let mut p: u64 = 1;
    proof {
        lemma_pow2_leq_bounds(n as nat);
    }
    while m > 1
        invariant
            p * pow2_leq(m as nat) == pow2_leq(n as nat),
            pow2_leq(n as nat) <= u64::MAX,
            p >= 1,
        decreases m,
    {
        proof {
            lemma_pow2_leq_bounds((m / 2) as nat);
            assert(p * 2 <= p * pow2_leq(m as nat)) by (nonlinear_arith)
                requires pow2_leq(m as nat) >= 2, p >= 1;
            assert(p * pow2_leq(m as nat) == (p * 2) * pow2_leq((m / 2) as nat)) by (nonlinear_arith)
                requires pow2_leq(m as nat) == 2 * pow2_leq((m / 2) as nat);
        }
        m = m / 2;
        p = p * 2;
    }
    assert(pow2_leq(m as nat) == 1);
    assert(p == pow2_leq(n as nat)) by (nonlinear_arith)
        requires p * pow2_leq(m as nat) == pow2_leq(n as nat), pow2_leq(m as nat) == 1;
    p
}

/// The length of the left subtree of a tree of `content_len > CHUNK_SIZE` bytes.
pub fn left_len(content_len: u64) -> (r: u64)
    requires
        content_len > CHUNK_SIZE,
    ensures
        r == split_len(content_len as nat),
        CHUNK_SIZE <= r < content_len,
        r % (CHUNK_SIZE as u64) == 0,
{
    proof {
        lemma_split_len_bounds(content_len as nat);
    }
    let full_chunks = (content_len - 1) / CHUNK_SIZE as u64;
    largest_power_of_two_leq(full_chunks) * CHUNK_SIZE as u64
}


/// Relies on rayon::join: both closures run, possibly in parallel, and both results come back
/// in order. Each closure hashes one half with the serial recursive hash.
#[verifier::external_body]
fn join_subtrees(left: &[u8], right: &[u8]) -> (r: (Hash, Hash))
    ensures
        r.0@ == tree_hash(left@, Finalization::NotRoot),
        r.1@ == tree_hash(right@, Finalization::NotRoot),
{
    rayon::join(
        || hash_recurse(left, Finalization::NotRoot),
        || hash_recurse(right, Finalization::NotRoot),
    )
}

/// Hashes `input` as a tree, one subtree after the other.
pub fn hash_recurse(input: &[u8], fin: Finalization) -> (r: Hash)
    ensures
        r@ == tree_hash(input@, fin),
    decreases input@.len(),
{
    if input.len() <= CHUNK_SIZE {
        return hash_node(input, fin);
    }
    let k = left_len(input.len() as u64) as usize;
    let left = slice_subrange(input, 0, k);
    let right = slice_subrange(input, k, input.len());
    let left_hash = hash_recurse(left, Finalization::NotRoot);
    let right_hash = hash_recurse(right, Finalization::NotRoot);
    parent_hash(&left_hash, &right_hash, fin)
}

/// Hashes `input` as a tree, the two halves of the top split in parallel. The result is the
/// same as that of the serial hash.
pub fn hash_recurse_rayon(input: &[u8], fin: Finalization) -> (r: Hash)
    ensures
        r@ == tree_hash(input@, fin),
{
    if input.len() <= CHUNK_SIZE {
        return hash_node(input, fin);
    }
    let k = left_len(input.len() as u64) as usize;
    let left = slice_subrange(input, 0, k);
    let right = slice_subrange(input, k, input.len());
    let (left_hash, right_hash) = join_subtrees(left, right);
    parent_hash(&left_hash, &right_hash, fin)
}

/// Hashes a whole buffer at once: the root hash of its tree. Inputs above a few chunks are
/// hashed in parallel.
pub fn hash(input: &[u8]) -> (r: Hash)
    ensures
        r@ == root_hash(input@),
{
    if input.len() <= MAX_SINGLE_THREADED {
        hash_recurse(input, Finalization::Root(input.len() as u64))
    } else {
        hash_recurse_rayon(input, Finalization::Root(input.len() as u64))
    }
}

} // verus!
