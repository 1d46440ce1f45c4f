//! Verifying decoders of the combined encoding: every byte handed out has been checked against
//! the root hash, through every parent above it.
use vstd::prelude::*;
use vstd::slice::slice_subrange;
use vstd::slice::slice_to_vec;
use crate::hash::{
    finalize_hash, le_bytes, lemma_split_len_bounds, lemma_tree_hash_len, node_hash, root_hash,
    split_len, tree_hash, Finalization, CHUNK_SIZE, HASH_SIZE, HEADER_SIZE, PARENT_SIZE,
};
use crate::simple::{digest_at, encoded_len, lemma_split_encoded_len, slices_equal, DecodeError};
use crate::encode::{encoded_stream, lemma_tree_nodes_len, outboard_stream, tree_nodes};

verus! {

/// The content length that an eight-byte little-endian header holds.
pub open spec fn header_len(h: Seq<u8>) -> u64 {
    (h[0] as u64) | ((h[1] as u64) << 8u64) | ((h[2] as u64) << 16u64) | ((h[3] as u64) << 24u64)
        | ((h[4] as u64) << 32u64) | ((h[5] as u64) << 40u64) | ((h[6] as u64) << 48u64) | ((
    h[7] as u64) << 56u64)
}

/// Reading back the header of a length gives that length.
pub proof fn lemma_header_len_le_bytes(n: u64)
    ensures
        header_len(le_bytes(n)) == n,
{
    let b = le_bytes(n);
    let (b0, b1, b2, b3, b4, b5, b6, b7) = (b[0], b[1], b[2], b[3], b[4], b[5], b[6], b[7]);
    assert((b0 as u64) | ((b1 as u64) << 8u64) | ((b2 as u64) << 16u64) | ((b3 as u64) << 24u64)
        | ((b4 as u64) << 32u64) | ((b5 as u64) << 40u64) | ((b6 as u64) << 48u64) | ((b7 as u64)
        << 56u64) == n) by (bit_vector)
        requires
            b0 == (n & 0xff) as u8,
            b1 == ((n >> 8u64) & 0xff) as u8,
            b2 == ((n >> 16u64) & 0xff) as u8,
            b3 == ((n >> 24u64) & 0xff) as u8,
            b4 == ((n >> 32u64) & 0xff) as u8,
            b5 == ((n >> 40u64) & 0xff) as u8,
            b6 == ((n >> 48u64) & 0xff) as u8,
            b7 == ((n >> 56u64) & 0xff) as u8,
    ;
}

/// Reads the content length from the first eight bytes of `b`.
pub fn decode_len(b: &[u8]) -> (r: u64)
    requires
        b@.len() >= HEADER_SIZE,
    ensures
        r == header_len(b@),
{
    (b[0] as u64) | ((b[1] as u64) << 8u64) | ((b[2] as u64) << 16u64) | ((b[3] as u64) << 24u64)
        | ((b[4] as u64) << 32u64) | ((b[5] as u64) << 40u64) | ((b[6] as u64) << 48u64) | ((
    b[7] as u64) << 56u64)
}

/// The content of the subtree of `n` bytes that `enc` encodes exactly, when its top node hashes
/// to `d` as `fin` and every node below matches the parent above it.
pub open spec fn tree_decode(enc: Seq<u8>, n: nat, d: Seq<u8>, fin: Finalization) -> Option<
    Seq<u8>,
>
    decreases n,
{
    if n <= CHUNK_SIZE {
        if enc.len() == n && node_hash(enc, fin) == d {
            Some(enc)
        } else {
            None
        }
    } else {
        let k = split_len(n);
        let left_end = 64 + encoded_len(k);
        if !(0 < k < n) || enc.len() != encoded_len(n) || left_end > enc.len() || node_hash(
            enc.subrange(0, 64),
            fin,
        ) != d {
            None
        } else {
            match (
                tree_decode(enc.subrange(64, left_end as int), k, enc.subrange(0, 32), Finalization::NotRoot),
                tree_decode(
                    enc.subrange(left_end as int, enc.len() as int),
                    (n - k) as nat,
                    enc.subrange(32, 64),
                    Finalization::NotRoot,
                ),
            ) {
                (Some(l), Some(r)) => Some(l + r),
                _ => None,
            }
        }
    }
}

/// Decoded content is as long as the subtree says.
pub proof fn lemma_tree_decode_len(enc: Seq<u8>, n: nat, d: Seq<u8>, fin: Finalization)
    ensures
        tree_decode(enc, n, d, fin) matches Some(c) ==> c.len() == n,
    decreases n,
{
    if n > CHUNK_SIZE {
        let k = split_len(n);
        let left_end = 64 + encoded_len(k);
        if 0 < k < n && left_end <= enc.len() {
            lemma_tree_decode_len(enc.subrange(64, left_end as int), k, enc.subrange(0, 32), Finalization::NotRoot);
            lemma_tree_decode_len(enc.subrange(left_end as int, enc.len() as int), (n - k) as nat, enc.subrange(32, 64), Finalization::NotRoot);
        }
    }
}

/// The content of the combined encoding `stream` when it verifies against `root`: the header
/// gives the length, and the tree after it must match. Bytes after the tree are not read.
pub open spec fn stream_decode(stream: Seq<u8>, root: Seq<u8>) -> Option<Seq<u8>> {
    if stream.len() < HEADER_SIZE {
        None
    } else {
        let n = header_len(stream) as nat;
        if stream.len() - HEADER_SIZE < encoded_len(n) {
            None
        } else {
            tree_decode(
                stream.subrange(8, 8 + encoded_len(n) as int),
                n,
                root,
                Finalization::Root(n as u64),
            )
        }
    }
}

/// Checks in constant time that `body` hashes to `expected` as `fin`.
pub(crate) fn verify_node(body: &[u8], fin: Finalization, expected: &crate::hash::Hash) -> (r: bool)
    ensures
        r == (node_hash(body@, fin) == expected@),
{
    let computed = finalize_hash(body, fin);
    slices_equal(computed.as_slice(), expected.as_slice()).is_ok()
}

/// Verifies the subtree of `n` bytes that `enc` encodes and appends its content to `out`.
fn decode_recurse(
    enc: &[u8],
    n: usize,
    expected: &crate::hash::Hash,
    fin: Finalization,
    out: &mut Vec<u8>,
) -> (r: Result<(), DecodeError>)
    requires
        old(out)@.len() + n <= usize::MAX,
    ensures
        r is Ok <==> tree_decode(enc@, n as nat, expected@, fin) is Some,
        r is Ok ==> final(out)@ == old(out)@ + tree_decode(enc@, n as nat, expected@, fin)->Some_0,
        r is Err ==> r == Err::<(), DecodeError>(DecodeError::Mismatch),
    decreases n,
{
    if n <= CHUNK_SIZE {
        if enc.len() != n || !verify_node(enc, fin, expected) {
            return Err(DecodeError::Mismatch);
        }
        out.extend_from_slice(enc);
        return Ok(());
    }
    let k = crate::hash::left_len(n as u64) as usize;
    proof {
        lemma_split_len_bounds(n as nat);
        lemma_split_encoded_len(n as nat);
    }
    let whole = crate::encode::encoded_size(n as u64) - HEADER_SIZE as u128;
    if enc.len() as u128 != whole {
        return Err(DecodeError::Mismatch);
    }
    let left_end = PARENT_SIZE + (crate::encode::encoded_size(k as u64) - HEADER_SIZE as u128) as usize;
    let parent = slice_subrange(enc, 0, PARENT_SIZE);
    if !verify_node(parent, fin, expected) {
        return Err(DecodeError::Mismatch);
    }
    let left_hash = digest_at(enc, 0);
    let right_hash = digest_at(enc, HASH_SIZE);
    let left = decode_recurse(slice_subrange(enc, PARENT_SIZE, left_end), k, &left_hash, Finalization::NotRoot, out);
    if left.is_err() {
        return Err(DecodeError::Mismatch);
    }
    proof {
        lemma_tree_decode_len(enc@.subrange(64, left_end as int), k as nat, enc@.subrange(0, 32), Finalization::NotRoot);
    }
    let right = decode_recurse(slice_subrange(enc, left_end, enc.len()), n - k, &right_hash, Finalization::NotRoot, out);
    if right.is_err() {
        return Err(DecodeError::Mismatch);
    }
    proof {
        let l = tree_decode(enc@.subrange(64, left_end as int), k as nat, enc@.subrange(0, 32), Finalization::NotRoot)->Some_0;
        let r = tree_decode(enc@.subrange(left_end as int, enc@.len() as int), (n - k) as nat, enc@.subrange(32, 64), Finalization::NotRoot)->Some_0;
        assert(final(out)@ =~= old(out)@ + (l + r));
    }
    Ok(())
}

/// Verifies the combined encoding `encoded` against `root` and returns its content.
pub fn decode(encoded: &[u8], root: &crate::hash::Hash) -> (r: Result<Vec<u8>, DecodeError>)
    ensures
        match r {
            Ok(v) => stream_decode(encoded@, root@) == Some(v@),
            Err(e) => stream_decode(encoded@, root@) is None && e == DecodeError::Mismatch,
        },
{
    if encoded.len() < HEADER_SIZE {
        return Err(DecodeError::Mismatch);
    }
    let n = decode_len(encoded);
    let body_len = crate::encode::encoded_size(n) - HEADER_SIZE as u128;
    if ((encoded.len() - HEADER_SIZE) as u128) < body_len {
        return Err(DecodeError::Mismatch);
    }
    let body = slice_subrange(encoded, HEADER_SIZE, HEADER_SIZE + body_len as usize);
    let mut out: Vec<u8> = Vec::new();
    match decode_recurse(body, n as usize, root, Finalization::Root(n), &mut out) {
        Ok(()) => {
            assert(out@ =~= Seq::<u8>::empty() + out@);
            Ok(out)
        },
        Err(e) => Err(e),
    }
}


proof fn lemma_tree_round_trip(input: Seq<u8>, fin: Finalization)
    ensures
        tree_decode(tree_nodes(input, true), input.len(), tree_hash(input, fin), fin) == Some(
            input,
        ),
    decreases input.len(),
{
    let n = input.len();
    if n > CHUNK_SIZE {
        let k = split_len(n);
        lemma_split_len_bounds(n);
        lemma_split_encoded_len(n);
        let l = input.subrange(0, k as int);
        let r = input.subrange(k as int, n as int);
        lemma_tree_hash_len(l, Finalization::NotRoot);
        lemma_tree_hash_len(r, Finalization::NotRoot);
        lemma_tree_nodes_len(input);
        lemma_tree_nodes_len(l);
        lemma_tree_nodes_len(r);
        lemma_tree_round_trip(l, Finalization::NotRoot);
        lemma_tree_round_trip(r, Finalization::NotRoot);
        let hl = tree_hash(l, Finalization::NotRoot);
        let hr = tree_hash(r, Finalization::NotRoot);
        let nl = tree_nodes(l, true);
        let nr = tree_nodes(r, true);
        let enc = tree_nodes(input, true);
        assert(enc == hl + hr + nl + nr);
        let left_end = 64 + encoded_len(k);
        assert(enc.subrange(0, 64) =~= hl + hr);
        assert(enc.subrange(0, 32) =~= hl);
        assert(enc.subrange(32, 64) =~= hr);
        assert(enc.subrange(64, left_end as int) =~= nl);
        assert(enc.subrange(left_end as int, enc.len() as int) =~= nr);
        assert(l + r =~= input);
    }
}

/// Decoding the combined encoding of any input against its root hash gives the input back.
pub proof fn lemma_decode_encode(input: Seq<u8>)
    requires
        input.len() <= u64::MAX,
    ensures
        stream_decode(encoded_stream(input), root_hash(input)) == Some(input),
{
    let n = input.len();
    let s = encoded_stream(input);
    lemma_header_len_le_bytes(n as u64);
    lemma_tree_nodes_len(input);
    assert(s.subrange(0, 8) =~= le_bytes(n as u64));
    assert(header_len(s) == header_len(s.subrange(0, 8)));
    assert(s.subrange(8, 8 + encoded_len(n) as int) =~= tree_nodes(input, true));
    lemma_tree_round_trip(input, Finalization::Root(n as u64));
}


/// The hash of the top node of the subtree of `n` bytes that `enc` encodes exactly, computed
/// from its chunks up, when every parent holds the hashes of its two children.
pub open spec fn tree_root(enc: Seq<u8>, n: nat, fin: Finalization) -> Option<Seq<u8>>
    decreases n,
{
    if n <= CHUNK_SIZE {
        if enc.len() == n {
            Some(node_hash(enc, fin))
        } else {
            None
        }
    } else {
        let k = split_len(n);
        let left_end = 64 + encoded_len(k);
        if !(0 < k < n) || enc.len() != encoded_len(n) || left_end > enc.len() {
            None
        } else {
            match (
                tree_root(enc.subrange(64, left_end as int), k, Finalization::NotRoot),
                tree_root(
                    enc.subrange(left_end as int, enc.len() as int),
                    (n - k) as nat,
                    Finalization::NotRoot,
                ),
            ) {
                (Some(l), Some(r)) => if l == enc.subrange(0, 32) && r == enc.subrange(32, 64) {
                    Some(node_hash(enc.subrange(0, 64), fin))
                } else {
                    None
                },
                _ => None,
            }
        }
    }
}

/// The root hash of the combined encoding `stream`, when its tree is consistent.
pub open spec fn stream_root(stream: Seq<u8>) -> Option<Seq<u8>> {
    if stream.len() < HEADER_SIZE {
        None
    } else {
        let n = header_len(stream) as nat;
        if stream.len() - HEADER_SIZE < encoded_len(n) {
            None
        } else {
            tree_root(stream.subrange(8, 8 + encoded_len(n) as int), n, Finalization::Root(n as u64))
        }
    }
}

fn root_recurse(enc: &[u8], n: usize, fin: Finalization) -> (r: Result<crate::hash::Hash, DecodeError>)
    ensures
        match r {
            Ok(h) => tree_root(enc@, n as nat, fin) == Some(h@),
            Err(e) => tree_root(enc@, n as nat, fin) is None && e == DecodeError::Mismatch,
        },
    decreases n,
{
    if n <= CHUNK_SIZE {
        if enc.len() != n {
            return Err(DecodeError::Mismatch);
        }
        return Ok(finalize_hash(enc, fin));
    }
    let k = crate::hash::left_len(n as u64) as usize;
    proof {
        lemma_split_len_bounds(n as nat);
        lemma_split_encoded_len(n as nat);
    }
    let whole = crate::encode::encoded_size(n as u64) - HEADER_SIZE as u128;
    if enc.len() as u128 != whole {
        return Err(DecodeError::Mismatch);
    }
    let left_end = PARENT_SIZE + (crate::encode::encoded_size(k as u64) - HEADER_SIZE as u128) as usize;
    let left = root_recurse(slice_subrange(enc, PARENT_SIZE, left_end), k, Finalization::NotRoot);
    let left_hash = match left {
        Ok(h) => h,
        Err(e) => return Err(e),
    };
    let right = root_recurse(slice_subrange(enc, left_end, enc.len()), n - k, Finalization::NotRoot);
    let right_hash = match right {
        Ok(h) => h,
        Err(e) => return Err(e),
    };
    let left_ok = slices_equal(left_hash.as_slice(), slice_subrange(enc, 0, HASH_SIZE)).is_ok();
    let right_ok = slices_equal(right_hash.as_slice(), slice_subrange(enc, HASH_SIZE, PARENT_SIZE)).is_ok();
    if !left_ok || !right_ok {
        return Err(DecodeError::Mismatch);
    }
    Ok(finalize_hash(slice_subrange(enc, 0, PARENT_SIZE), fin))
}

/// Computes the root hash of the combined encoding `encoded` from its content up, checking that
/// every parent holds the hashes of its children.
pub fn hash_from_encoded(encoded: &[u8]) -> (r: Result<crate::hash::Hash, DecodeError>)
    ensures
        match r {
            Ok(h) => stream_root(encoded@) == Some(h@),
            Err(e) => stream_root(encoded@) is None && e == DecodeError::Mismatch,
        },
{
    if encoded.len() < HEADER_SIZE {
        return Err(DecodeError::Mismatch);
    }
    let n = decode_len(encoded);
    let body_len = crate::encode::encoded_size(n) - HEADER_SIZE as u128;
    if ((encoded.len() - HEADER_SIZE) as u128) < body_len {
        return Err(DecodeError::Mismatch);
    }
    let body = slice_subrange(encoded, HEADER_SIZE, HEADER_SIZE + body_len as usize);
    root_recurse(body, n as usize, Finalization::Root(n))
}

proof fn lemma_tree_root_of_nodes(input: Seq<u8>, fin: Finalization)
    ensures
        tree_root(tree_nodes(input, true), input.len(), fin) == Some(tree_hash(input, fin)),
    decreases input.len(),
{
    let n = input.len();
    if n > CHUNK_SIZE {
        let k = split_len(n);
        lemma_split_len_bounds(n);
        lemma_split_encoded_len(n);
        let l = input.subrange(0, k as int);
        let r = input.subrange(k as int, n as int);
        lemma_tree_hash_len(l, Finalization::NotRoot);
        lemma_tree_hash_len(r, Finalization::NotRoot);
        lemma_tree_nodes_len(input);
        lemma_tree_nodes_len(l);
        lemma_tree_nodes_len(r);
        lemma_tree_root_of_nodes(l, Finalization::NotRoot);
        lemma_tree_root_of_nodes(r, Finalization::NotRoot);
        let hl = tree_hash(l, Finalization::NotRoot);
        let hr = tree_hash(r, Finalization::NotRoot);
        let nl = tree_nodes(l, true);
        let nr = tree_nodes(r, true);
        let enc = tree_nodes(input, true);
        assert(enc == hl + hr + nl + nr);
        let left_end = 64 + encoded_len(k);
        assert(enc.subrange(0, 64) =~= hl + hr);
        assert(enc.subrange(0, 32) =~= hl);
        assert(enc.subrange(32, 64) =~= hr);
        assert(enc.subrange(64, left_end as int) =~= nl);
        assert(enc.subrange(left_end as int, enc.len() as int) =~= nr);
    }
}

/// The root hash computed from the combined encoding of any input is the root hash of the
/// input.
pub proof fn lemma_hash_from_encoded(input: Seq<u8>)
    requires
        input.len() <= u64::MAX,
    ensures
        stream_root(encoded_stream(input)) == Some(root_hash(input)),
{
    let n = input.len();
    let s = encoded_stream(input);
    lemma_header_len_le_bytes(n as u64);
    lemma_tree_nodes_len(input);
    assert(s.subrange(0, 8) =~= le_bytes(n as u64));
    assert(header_len(s) == header_len(s.subrange(0, 8)));
    assert(s.subrange(8, 8 + encoded_len(n) as int) =~= tree_nodes(input, true));
    lemma_tree_root_of_nodes(input, Finalization::Root(n as u64));
}


/// The exact encoding of a subtree of `n` bytes rebuilt from its parent nodes `tree` (in
/// pre-order) and its content, or `None` when the lengths do not fit.
pub open spec fn combine(tree: Seq<u8>, content: Seq<u8>, n: nat) -> Option<Seq<u8>>
    decreases n,
{
    if content.len() != n {
        None
    } else if n <= CHUNK_SIZE {
        if tree.len() == 0 {
            Some(content)
        } else {
            None
        }
    } else {
        let k = split_len(n);
        let left_end = 64 + (encoded_len(k) - k);
        if !(0 < k < n) || tree.len() != encoded_len(n) - n || left_end > tree.len() {
            None
        } else {
            match (
                combine(tree.subrange(64, left_end as int), content.subrange(0, k as int), k),
                combine(
                    tree.subrange(left_end as int, tree.len() as int),
                    content.subrange(k as int, n as int),
                    (n - k) as nat,
                ),
            ) {
                (Some(l), Some(r)) => Some(tree.subrange(0, 64) + l + r),
                _ => None,
            }
        }
    }
}

/// The combined encoding rebuilt from an outboard encoding and the content it describes.
pub open spec fn combine_stream(outboard: Seq<u8>, content: Seq<u8>) -> Option<Seq<u8>> {
    if outboard.len() < HEADER_SIZE {
        None
    } else {
        let n = header_len(outboard) as nat;
        let tree_len = encoded_len(n) - n;
        if outboard.len() - HEADER_SIZE < tree_len || content.len() != n {
            None
        } else {
            match combine(outboard.subrange(8, 8 + tree_len), content, n) {
                Some(body) => Some(outboard.subrange(0, 8) + body),
                None => None,
            }
        }
    }
}

proof fn lemma_combine_len(tree: Seq<u8>, content: Seq<u8>, n: nat)
    ensures
        combine(tree, content, n) matches Some(x) ==> x.len() == tree.len() + content.len(),
    decreases n,
{
    if n > CHUNK_SIZE && content.len() == n {
        let k = split_len(n);
        let left_end = 64 + (encoded_len(k) - k);
        if 0 < k < n && left_end <= tree.len() && tree.len() >= 64 {
            lemma_combine_len(tree.subrange(64, left_end as int), content.subrange(0, k as int), k);
            lemma_combine_len(tree.subrange(left_end as int, tree.len() as int), content.subrange(k as int, n as int), (n - k) as nat);
        }
    }
}

fn combine_recurse(tree: &[u8], content: &[u8], n: usize, out: &mut Vec<u8>) -> (r: Result<
    (),
    DecodeError,
>)
    requires
        old(out)@.len() + tree@.len() + content@.len() <= usize::MAX,
    ensures
        r is Ok <==> combine(tree@, content@, n as nat) is Some,
        r is Ok ==> final(out)@ == old(out)@ + combine(tree@, content@, n as nat)->Some_0,
        r is Err ==> r == Err::<(), DecodeError>(DecodeError::Mismatch),
    decreases n,
{
    if content.len() != n {
        return Err(DecodeError::Mismatch);
    }
    if n <= CHUNK_SIZE {
        if tree.len() != 0 {
            return Err(DecodeError::Mismatch);
        }
        out.extend_from_slice(content);
        return Ok(());
    }
    let k = crate::hash::left_len(n as u64) as usize;
    proof {
        lemma_split_len_bounds(n as nat);
        lemma_split_encoded_len(n as nat);
    }
    let whole = crate::encode::outboard_size(n as u64) - HEADER_SIZE as u128;
    if tree.len() as u128 != whole {
        return Err(DecodeError::Mismatch);
    }
    let left_end = PARENT_SIZE + (crate::encode::outboard_size(k as u64) - HEADER_SIZE as u128) as usize;
    let ghost start = out@;
    out.extend_from_slice(slice_subrange(tree, 0, PARENT_SIZE));
    let tl = slice_subrange(tree, PARENT_SIZE, left_end);
    let tr = slice_subrange(tree, left_end, tree.len());
    let cl = slice_subrange(content, 0, k);
    let cr = slice_subrange(content, k, n);
    proof {
        lemma_combine_len(tl@, cl@, k as nat);
    }
    if combine_recurse(tl, cl, k, out).is_err() {
        return Err(DecodeError::Mismatch);
    }
    if combine_recurse(tr, cr, n - k, out).is_err() {
        return Err(DecodeError::Mismatch);
    }
    proof {
        let xl = combine(tl@, cl@, k as nat)->Some_0;
        let xr = combine(tr@, cr@, (n - k) as nat)->Some_0;
        assert(out@ =~= start + (tree@.subrange(0, 64) + xl + xr));
    }
    Ok(())
}

/// Rebuilds the combined encoding from an outboard encoding and the content beside it, so that
/// it can be verified and decoded. Nothing is verified here.
pub fn combine_outboard(outboard: &[u8], content: &[u8]) -> (r: Result<Vec<u8>, DecodeError>)
    requires
        outboard@.len() + content@.len() <= usize::MAX,
    ensures
        match r {
            Ok(v) => combine_stream(outboard@, content@) == Some(v@),
            Err(e) => combine_stream(outboard@, content@) is None && e == DecodeError::Mismatch,
        },
{
    if outboard.len() < HEADER_SIZE {
        return Err(DecodeError::Mismatch);
    }
    let n = decode_len(outboard);
    if content.len() as u64 != n {
        return Err(DecodeError::Mismatch);
    }
    let tree_len = crate::encode::outboard_size(n) - HEADER_SIZE as u128;
    if ((outboard.len() - HEADER_SIZE) as u128) < tree_len {
        return Err(DecodeError::Mismatch);
    }
    let tree = slice_subrange(outboard, HEADER_SIZE, HEADER_SIZE + tree_len as usize);
    let mut out: Vec<u8> = Vec::new();
    out.extend_from_slice(slice_subrange(outboard, 0, HEADER_SIZE));
    match combine_recurse(tree, content, content.len(), &mut out) {
        Ok(()) => Ok(out),
        Err(e) => Err(e),
    }
}

proof fn lemma_combine_nodes(input: Seq<u8>)
    ensures
        combine(tree_nodes(input, false), input, input.len()) == Some(tree_nodes(input, true)),
    decreases input.len(),
{
    let n = input.len();
    if n > CHUNK_SIZE {
        let k = split_len(n);
        lemma_split_len_bounds(n);
        lemma_split_encoded_len(n);
        let l = input.subrange(0, k as int);
        let r = input.subrange(k as int, n as int);
        lemma_tree_hash_len(l, Finalization::NotRoot);
        lemma_tree_hash_len(r, Finalization::NotRoot);
        lemma_tree_nodes_len(input);
        lemma_tree_nodes_len(l);
        lemma_tree_nodes_len(r);
        lemma_combine_nodes(l);
        lemma_combine_nodes(r);
        let hl = tree_hash(l, Finalization::NotRoot);
        let hr = tree_hash(r, Finalization::NotRoot);
        let tree = tree_nodes(input, false);
        let ol = tree_nodes(l, false);
        let orr = tree_nodes(r, false);
        assert(tree == hl + hr + ol + orr);
        let left_end = 64 + (encoded_len(k) - k);
        assert(tree.subrange(0, 64) =~= hl + hr);
        assert(tree.subrange(64, left_end as int) =~= ol);
        assert(tree.subrange(left_end as int, tree.len() as int) =~= orr);
        assert(tree_nodes(input, true) =~= (hl + hr) + tree_nodes(l, true) + tree_nodes(r, true));
    }
}

/// The outboard encoding of any input, put back together with the input, is its combined
/// encoding.
pub proof fn lemma_combine_outboard(input: Seq<u8>)
    requires
        input.len() <= u64::MAX,
    ensures
        combine_stream(outboard_stream(input), input) == Some(encoded_stream(input)),
{
    let n = input.len();
    let o = outboard_stream(input);
    lemma_header_len_le_bytes(n as u64);
    lemma_tree_nodes_len(input);
    assert(o.subrange(0, 8) =~= le_bytes(n as u64));
    assert(header_len(o) == header_len(o.subrange(0, 8)));
    assert(o.subrange(8, 8 + (encoded_len(n) - n)) =~= tree_nodes(input, false));
    lemma_combine_nodes(input);
    assert(encoded_stream(input) =~= o.subrange(0, 8) + tree_nodes(input, true));
}


/// A streaming reader of the combined encoding, as decisions only: it says how many bytes of
/// the stream it needs next (the header, a parent node or a chunk), verifies what it is given,
/// and hands out each chunk once it and every parent above it have matched. The caller does
/// the reading.
pub struct Reader {
    root: crate::hash::Hash,
    started: bool,
    pending: Vec<(crate::hash::Hash, u64, Finalization)>,
}

impl Reader {
    /// The subtrees still to be read, as expected hash, content length and finalization, the
    /// next one last.
    pub closed spec fn pending(&self) -> Seq<(Seq<u8>, nat, Finalization)> {
        self.pending@.map_values(|e: (crate::hash::Hash, u64, Finalization)| (e.0@, e.1 as nat, e.2))
    }

    /// Whether the header has been read.
    pub closed spec fn started(&self) -> bool {
        self.started
    }

    /// The root hash that the content must match.
    pub closed spec fn root(&self) -> Seq<u8> {
        self.root@
    }

    /// A reader that checks the stream against `root`.
    pub fn new(root: &crate::hash::Hash) -> (r: Self)
        ensures
            !r.started(),
            r.root() == root@,
            r.pending().len() == 0,
    {
        Reader { root: *root, started: false, pending: Vec::new() }
    }

    /// Whether the whole tree has been read.
    pub fn is_done(&self) -> (r: bool)
        ensures
            r == (self.started() && self.pending().len() == 0),
    {
        self.started && self.pending.len() == 0
    }

    /// Whether a parent node comes next; with the outboard encoding, parents and the header are
    /// read from the tree stream and chunks from the content.
    pub fn wants_parent(&self) -> (r: bool)
        ensures
            r == (self.started() && self.pending().len() > 0 && self.pending().last().1
                > CHUNK_SIZE),
    {
        self.started && self.pending.len() > 0 && self.pending[self.pending.len() - 1].1
            > CHUNK_SIZE as u64
    }

    /// How many bytes of the stream come next: the header, a parent node, or the next chunk.
    pub fn wanted(&self) -> (r: usize)
        requires
            !self.started() || self.pending().len() > 0,
        ensures
            !self.started() ==> r == HEADER_SIZE,
            self.started() ==> r == (if self.pending().last().1 > CHUNK_SIZE {
                PARENT_SIZE as nat
            } else {
                self.pending().last().1
            }),
    {
        if !self.started {
            return HEADER_SIZE;
        }
        let (_, len, _) = self.pending[self.pending.len() - 1];
        if len > CHUNK_SIZE as u64 {
            PARENT_SIZE
        } else {
            len as usize
        }
    }

    /// Takes the bytes that `wanted` asked for. The header starts the walk at the root; a
    /// parent node is verified and replaced by its two children; a chunk is verified and
    /// returned. On a mismatch nothing changes.
    pub fn feed(&mut self, bytes: &[u8]) -> (r: Result<Option<Vec<u8>>, DecodeError>)
        requires
            !old(self).started() ==> bytes@.len() == HEADER_SIZE,
            old(self).started() ==> old(self).pending().len() > 0 && bytes@.len() == (
            if old(self).pending().last().1 > CHUNK_SIZE {
                PARENT_SIZE as nat
            } else {
                old(self).pending().last().1
            }),
        ensures
            final(self).started(),
            final(self).root() == old(self).root(),
            !old(self).started() ==> ({
                let n = header_len(bytes@);
                &&& r matches Ok(None)
                &&& final(self).pending() == seq![(old(self).root(), n as nat, Finalization::Root(n))]
            }),
            old(self).started() ==> ({
                let s = old(self).pending();
                let (d, n, fin) = s.last();
                if node_hash(bytes@, fin) != d {
                    r == Err::<Option<Vec<u8>>, DecodeError>(DecodeError::Mismatch)
                        && final(self).pending() == s
                } else if n > CHUNK_SIZE {
                    &&& r matches Ok(None)
                    &&& final(self).pending() == s.drop_last().push(
                        (bytes@.subrange(32, 64), (n - split_len(n)) as nat, Finalization::NotRoot),
                    ).push((bytes@.subrange(0, 32), split_len(n), Finalization::NotRoot))
                } else {
                    &&& r matches Ok(Some(v)) && v@ == bytes@
                    &&& final(self).pending() == s.drop_last()
                }
            }),
    {
        if !self.started {
            let n = decode_len(bytes);
            self.pending = Vec::new();
            self.pending.push((self.root, n, Finalization::Root(n)));
            self.started = true;
            assert(self.pending() =~= seq![(old(self).root(), n as nat, Finalization::Root(n))]);
            return Ok(None);
        }
        let ghost s = self.pending();
        let (expected, len, fin) = self.pending[self.pending.len() - 1];
        if !verify_node(bytes, fin, &expected) {
            return Err(DecodeError::Mismatch);
        }
        self.pending.pop();
        if len > CHUNK_SIZE as u64 {
            let k = crate::hash::left_len(len);
            let left_hash = digest_at(bytes, 0);
            let right_hash = digest_at(bytes, HASH_SIZE);
            self.pending.push((right_hash, len - k, Finalization::NotRoot));
            self.pending.push((left_hash, k, Finalization::NotRoot));
            assert(self.pending() =~= s.drop_last().push(
                (bytes@.subrange(32, 64), (len - split_len(len as nat)) as nat, Finalization::NotRoot),
            ).push((bytes@.subrange(0, 32), split_len(len as nat), Finalization::NotRoot)));
            Ok(None)
        } else {
            assert(self.pending() =~= s.drop_last());
            Ok(Some(slice_to_vec(bytes)))
        }
    }
}

} // verus!
