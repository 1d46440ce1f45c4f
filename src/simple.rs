//! A simple form of the tree encoding: the tree is written out in pre-order, each parent node
//! holding the truncated SHA-512 digests of its two children, with no header and no root
//! finalization.
use vstd::prelude::*;
use vstd::slice::slice_subrange;
use vstd::slice::slice_to_vec;
use crate::hash::{lemma_pow2_leq_bounds, lemma_split_len_bounds, pow2_leq, split_len};

verus! {

pub const CHUNK_SIZE: usize = 4096;

pub const DIGEST_SIZE: usize = 32;

pub type Digest = [u8; 32];

#[verifier::external_type_specification]
#[verifier::external_body]
pub struct ExUnspecified(ring::error::Unspecified);

/// Why decoding failed.
#[derive(Clone, Copy, Debug, PartialEq, Eq, Structural)]
pub enum DecodeError {
    /// A node or chunk does not match its digest, or the encoding is cut short.
    Mismatch,
    /// The requested chunk is beyond the end of the content.
    NoSuchChunk,
}

/// The SHA-512 digest of `input`.
pub uninterp spec fn sha512(input: Seq<u8>) -> Seq<u8>;

/// The digest used in the simple encoding: the first 32 bytes of SHA-512.
pub open spec fn digest_of(input: Seq<u8>) -> Seq<u8> {
    Seq::new(32, |i: int| sha512(input)[i])
}

/// Relies on ring::digest::digest with SHA512: a 64-byte digest of the input.
#[verifier::external_body]
fn sha512_digest(input: &[u8]) -> (r: [u8; 64])
    ensures
        r@ == sha512(input@),
{
    let d = ring::digest::digest(&ring::digest::SHA512, input);
    let mut out = [0u8; 64];
    out.copy_from_slice(d.as_ref());
    out
}

/// Relies on ring::constant_time::verify_slices_are_equal: `Ok` exactly when the two slices
/// are equal, compared in constant time.
#[verifier::external_body]
pub(crate) fn slices_equal(a: &[u8], b: &[u8]) -> (r: Result<(), ring::error::Unspecified>)
    ensures
        r is Ok <==> a@ == b@,
{
    #[allow(deprecated)]
    ring::constant_time::verify_slices_are_equal(a, b)
}

/// The truncated SHA-512 digest of `input`.
pub fn hash(input: &[u8]) -> (r: Digest)
    ensures
        r@ == digest_of(input@),
{
    let full = sha512_digest(input);
    let mut r = [0u8; DIGEST_SIZE];
    let mut i: usize = 0;
    while i < DIGEST_SIZE
        invariant
            i <= DIGEST_SIZE,
            forall|j: int| 0 <= j < i ==> r@[j] == full@[j],
        decreases DIGEST_SIZE - i,
    {
        r[i] = full[i];
        i = i + 1;
    }
    assert(r@ =~= digest_of(input@));
    r
}

/// Checks `input` against `digest`, in constant time.
pub fn verify(input: &[u8], digest: &Digest) -> (r: Result<(), DecodeError>)
    ensures
        r is Ok <==> digest_of(input@) == digest@,
        r is Err ==> r == Err::<(), DecodeError>(DecodeError::Mismatch),
{
    let computed = hash(input);
    match slices_equal(digest.as_slice(), computed.as_slice()) {
        Ok(()) => Ok(()),
        Err(_) => Err(DecodeError::Mismatch),
    }
}

/// The length of the left subtree of `n > CHUNK_SIZE` bytes: the largest power of two times
/// the chunk size that is strictly less than `n`.
pub fn left_plaintext_len(input_len: usize) -> (r: usize)
    requires
        input_len > CHUNK_SIZE,
    ensures
        r == split_len(input_len as nat),
{
    proof {
        lemma_split_len_bounds(input_len as nat);
    }
    let mut size: usize = CHUNK_SIZE;
    while size < input_len - size
        invariant
            is_pow2((size / CHUNK_SIZE) as nat),
            size % CHUNK_SIZE == 0,
            CHUNK_SIZE <= size < input_len,
            size <= split_len(input_len as nat),
        decreases input_len - size,
    {
        proof {
            lemma_pow2_chunks_le_split(input_len as nat, (2 * (size / CHUNK_SIZE)) as nat);
        }
        size = size * 2;
    }
    proof {
        let c = (size / CHUNK_SIZE) as nat;
        let m = ((input_len - 1) as nat) / (CHUNK_SIZE as nat);
        assert(c <= m && m < 2 * c) by (nonlinear_arith)
            requires size == c * 4096, size < input_len, input_len <= 2 * size, m == (input_len - 1) / 4096;
        lemma_pow2_leq_unique(m, c);
    }
    size
}

/// Whether `n` is a power of two.
pub open spec fn is_pow2(n: nat) -> bool
    decreases n,
{
    if n <= 1 {
        n == 1
    } else {
        n % 2 == 0 && is_pow2(n / 2)
    }
}

pub proof fn lemma_pow2_leq_is_pow2(n: nat)
    ensures
        is_pow2(pow2_leq(n)),
    decreases n,
{
    if n > 1 {
        lemma_pow2_leq_is_pow2(n / 2);
        lemma_pow2_leq_bounds(n / 2);
        assert(pow2_leq(n) / 2 == pow2_leq(n / 2));
    }
}

/// A power of two `c` with `c <= m < 2c` is the largest power of two at most `m`.
pub proof fn lemma_pow2_leq_unique(m: nat, c: nat)
    requires
        is_pow2(c),
        c <= m < 2 * c,
    ensures
        pow2_leq(m) == c,
    decreases c,
{
    if c > 1 {
        lemma_pow2_leq_unique(m / 2, c / 2);
    }
}

proof fn lemma_pow2_chunks_le_split(n: nat, c: nat)
    requires
        n > CHUNK_SIZE,
        is_pow2(c),
        c * 4096 < n,
    ensures
        c * 4096 <= split_len(n),
{
    let m = ((n - 1) as nat) / 4096;
    assert(c <= m) by (nonlinear_arith)
        requires c * 4096 < n, m == (n - 1) / 4096;
    lemma_pow2_leq_bounds(m);
    lemma_pow2_leq_is_pow2(m);
    lemma_pow2_le_pow2_leq(m, c);
}

/// Every power of two at most `m` is at most the largest one.
proof fn lemma_pow2_le_pow2_leq(m: nat, c: nat)
    requires
        is_pow2(c),
        c <= m,
    ensures
        c <= pow2_leq(m),
    decreases c,
{
    lemma_pow2_leq_bounds(m);
    if c > 1 {
        lemma_pow2_le_pow2_leq(m / 2, c / 2);
        assert(pow2_leq(m) == 2 * pow2_leq(m / 2));
    }
}


/// The number of chunks of `n` bytes of content: at least one, the last possibly short.
pub open spec fn chunk_count(n: nat) -> nat {
    if n == 0 {
        1
    } else {
        (n + 4095) / 4096
    }
}

/// The length of the encoding of `n` bytes: the content and one parent node per chunk but one.
pub open spec fn encoded_len(n: nat) -> nat {
    n + 64 * ((chunk_count(n) - 1) as nat)
}

/// The number of chunks in the left subtree of an encoding of `e > CHUNK_SIZE` bytes.
pub open spec fn left_chunks(e: nat) -> nat {
    pow2_leq((e + 63) / 4160)
}

/// The encoding of `input` and the digest of its root.
pub open spec fn encoding(input: Seq<u8>) -> (Seq<u8>, Seq<u8>)
    decreases input.len(),
{
    if input.len() <= CHUNK_SIZE {
        (input, digest_of(input))
    } else {
        let k = split_len(input.len()) as int;
        if 0 < k < input.len() {
            let l = encoding(input.subrange(0, k));
            let r = encoding(input.subrange(k, input.len() as int));
            let node = l.1 + r.1;
            (node + l.0 + r.0, digest_of(node))
        } else {
            (seq![], seq![])
        }
    }
}

/// The content that `enc` holds when every node and chunk in it matches `d` and the digests
/// in the parents above it, and `None` otherwise.
pub open spec fn decoding(enc: Seq<u8>, d: Seq<u8>) -> Option<Seq<u8>>
    decreases enc.len(),
{
    if enc.len() <= CHUNK_SIZE {
        if digest_of(enc) == d {
            Some(enc)
        } else {
            None
        }
    } else {
        let left_end = left_chunks(enc.len()) * 4160;
        if digest_of(enc.subrange(0, 64)) != d || left_end > enc.len() || left_end < 64 {
            None
        } else {
            match (
                decoding(enc.subrange(64, left_end as int), enc.subrange(0, 32)),
                decoding(enc.subrange(left_end as int, enc.len() as int), enc.subrange(32, 64)),
            ) {
                (Some(l), Some(r)) => Some(l + r),
                _ => None,
            }
        }
    }
}

/// The chunk numbered `i` of the content that `enc` holds, when it and every parent above it
/// match.
pub open spec fn decoding_chunk(enc: Seq<u8>, d: Seq<u8>, i: nat) -> Result<Seq<u8>, DecodeError>
    decreases enc.len(),
{
    if enc.len() <= CHUNK_SIZE {
        if i != 0 {
            Err(DecodeError::NoSuchChunk)
        } else if digest_of(enc) == d {
            Ok(enc)
        } else {
            Err(DecodeError::Mismatch)
        }
    } else {
        let c = left_chunks(enc.len());
        let left_end = c * 4160;
        if digest_of(enc.subrange(0, 64)) != d || left_end > enc.len() || left_end < 64 {
            Err(DecodeError::Mismatch)
        } else if i < c {
            decoding_chunk(enc.subrange(64, left_end as int), enc.subrange(0, 32), i)
        } else {
            decoding_chunk(
                enc.subrange(left_end as int, enc.len() as int),
                enc.subrange(32, 64),
                (i - c) as nat,
            )
        }
    }
}

pub proof fn lemma_split_encoded_len(n: nat)
    requires
        n > CHUNK_SIZE,
    ensures
        encoded_len(n) == 64 + encoded_len(split_len(n)) + encoded_len(
            (n - split_len(n)) as nat,
        ),
        encoded_len(n) > CHUNK_SIZE,
        left_chunks(encoded_len(n)) * 4096 == split_len(n),
        left_chunks(encoded_len(n)) * 4160 == 64 + encoded_len(split_len(n)),
{
    lemma_split_len_bounds(n);
    let m = ((n - 1) as nat) / 4096;
    let p = pow2_leq(m);
    let k = split_len(n);
    lemma_pow2_leq_bounds(m);
    lemma_pow2_leq_is_pow2(m);
    let ch = (n + 4095) / 4096;
    assert(p <= m < 2 * p);
    assert(k == p * 4096);
    assert(p * 4096 < n <= 2 * p * 4096) by (nonlinear_arith)
        requires p <= m, m < 2 * p, m == (n - 1) / 4096, n >= 1;
    assert(p + 1 <= ch <= 2 * p) by (nonlinear_arith)
        requires p * 4096 < n, n <= 2 * p * 4096, ch == (n + 4095) / 4096;
    assert(chunk_count(k) == p) by (nonlinear_arith)
        requires k == p * 4096, p >= 1, chunk_count(k) == (k + 4095) / 4096;
    assert(chunk_count((n - k) as nat) == ch - p) by (nonlinear_arith)
        requires k == p * 4096, n > k, ch == (n + 4095) / 4096, chunk_count((n - k) as nat) == ((n - k) + 4095) / 4096;
    let e = encoded_len(n);
    assert(e == n + 64 * (ch - 1));
    let q = (e + 63) / 4160;
    assert(p <= q < 2 * p) by (nonlinear_arith)
        requires e == n + 64 * (ch - 1), q == (e + 63) / 4160, p + 1 <= ch, ch <= 2 * p, p * 4096 < n, n <= ch * 4096;
    lemma_pow2_leq_unique(q, p);
}

/// The encoding of `n` bytes of content is `encoded_len(n)` bytes long, and its root digest is
/// a digest.
pub proof fn lemma_encoding_len(input: Seq<u8>)
    ensures
        encoding(input).0.len() == encoded_len(input.len()),
        encoding(input).1.len() == DIGEST_SIZE,
    decreases input.len(),
{
    if input.len() > CHUNK_SIZE {
        let n = input.len();
        let k = split_len(n) as int;
        lemma_split_len_bounds(n);
        lemma_split_encoded_len(n);
        lemma_encoding_len(input.subrange(0, k));
        lemma_encoding_len(input.subrange(k, n as int));
    } else {
        assert(chunk_count(input.len()) == 1) by (nonlinear_arith)
            requires input.len() <= 4096, chunk_count(input.len()) == if input.len() == 0 { 1 } else { (input.len() + 4095) / 4096 };
    }
}

/// Decoding an encoding with its root digest gives back the content.
pub proof fn lemma_decode_encode(input: Seq<u8>)
    ensures
        decoding(encoding(input).0, encoding(input).1) == Some(input),
    decreases input.len(),
{
    if input.len() > CHUNK_SIZE {
        let n = input.len();
        let k = split_len(n) as int;
        lemma_split_len_bounds(n);
        lemma_split_encoded_len(n);
        let lin = input.subrange(0, k);
        let rin = input.subrange(k, n as int);
        lemma_encoding_len(lin);
        lemma_encoding_len(rin);
        lemma_encoding_len(input);
        lemma_decode_encode(lin);
        lemma_decode_encode(rin);
        let l = encoding(lin);
        let r = encoding(rin);
        let node = l.1 + r.1;
        let enc = node + l.0 + r.0;
        let left_end = left_chunks(enc.len()) * 4160;
        assert(left_end == 64 + l.0.len());
        assert(enc.subrange(0, 64) =~= node);
        assert(enc.subrange(0, 32) =~= l.1);
        assert(enc.subrange(32, 64) =~= r.1);
        assert(enc.subrange(64, left_end as int) =~= l.0);
        assert(enc.subrange(left_end as int, enc.len() as int) =~= r.0);
        assert(lin + rin =~= input);
    }
}


/// Copies the digest that starts at `start` out of `b`.
pub(crate) fn digest_at(b: &[u8], start: usize) -> (r: Digest)
    requires
        start + DIGEST_SIZE <= b@.len(),
    ensures
        r@ == b@.subrange(start as int, start + DIGEST_SIZE),
{
    let mut r = [0u8; DIGEST_SIZE];
    let mut i: usize = 0;
    let len = b.len();
    while i < DIGEST_SIZE
        invariant
            i <= DIGEST_SIZE,
            len == b@.len(),
            start + DIGEST_SIZE <= b@.len(),
            forall|j: int| 0 <= j < i ==> r@[j] == b@[start + j],
        decreases DIGEST_SIZE - i,
    {
        r[i] = b[start + i];
        i = i + 1;
    }
    assert(r@ =~= b@.subrange(start as int, start + DIGEST_SIZE));
    r
}

/// Encodes `input` as a tree and returns the encoding with the digest of its root.
pub fn encode(input: &[u8]) -> (r: (Vec<u8>, Digest))
    requires
        encoded_len(input@.len()) <= usize::MAX,
    ensures
        r.0@ == encoding(input@).0,
        r.1@ == encoding(input@).1,
    decreases input@.len(),
{
    if input.len() <= CHUNK_SIZE {
        return (slice_to_vec(input), hash(input));
    }
    let left_len = left_plaintext_len(input.len());
    proof {
        lemma_split_len_bounds(input@.len());
        lemma_split_encoded_len(input@.len());
    }
    let (left_encoded, left_hash) = encode(slice_subrange(input, 0, left_len));
    let (right_encoded, right_hash) = encode(slice_subrange(input, left_len, input.len()));
    let mut node = [0u8; 64];
    let mut i: usize = 0;
    while i < DIGEST_SIZE
        invariant
            i <= DIGEST_SIZE,
            forall|j: int| 0 <= j < i ==> node@[j] == left_hash@[j],
            forall|j: int| 0 <= j < i ==> node@[j + 32] == right_hash@[j],
        decreases DIGEST_SIZE - i,
    {
        node[i] = left_hash[i];
        node[i + DIGEST_SIZE] = right_hash[i];
        i = i + 1;
    }
    assert(node@ =~= left_hash@ + right_hash@);
    let node_hash = hash(node.as_slice());
    let mut encoded = Vec::new();
    encoded.extend_from_slice(node.as_slice());
    encoded.extend_from_slice(left_encoded.as_slice());
    encoded.extend_from_slice(right_encoded.as_slice());
    assert(encoded@ =~= node@ + left_encoded@ + right_encoded@);
    (encoded, node_hash)
}

/// The encoded length and the chunk count of the left subtree of an encoding of
/// `encoded_len > CHUNK_SIZE` bytes.
pub fn left_subtree_len_and_chunk_count(encoded_len: usize) -> (r: (usize, usize))
    requires
        encoded_len > CHUNK_SIZE,
    ensures
        r.1 == left_chunks(encoded_len as nat),
        r.0 == r.1 * 4160 - 64,
{
    let mut encoded_size: usize = CHUNK_SIZE;
    let mut chunk_count: usize = 1;
    loop
        invariant
            is_pow2(chunk_count as nat),
            chunk_count >= 1,
            encoded_size == chunk_count * 4160 - 64,
            encoded_size < encoded_len,
        decreases encoded_len - encoded_size,
    {
        if encoded_size >= (encoded_len - 63) / 2 {
            proof {
                let q = ((encoded_len + 63) / 4160) as nat;
                assert(chunk_count <= q && q < 2 * chunk_count) by (nonlinear_arith)
                    requires encoded_size == chunk_count * 4160 - 64, encoded_size < encoded_len,
                        encoded_size >= (encoded_len - 63) / 2, q == (encoded_len + 63) / 4160, encoded_len > 4096;
                lemma_pow2_leq_unique(q, chunk_count as nat);
            }
            return (encoded_size, chunk_count);
        }
        encoded_size = 2 * encoded_size + 2 * DIGEST_SIZE;
        chunk_count = chunk_count * 2;
    }
}


/// Verifies `encoded` against `digest` and returns the content it holds.
pub fn decode(encoded: &[u8], digest: &Digest) -> (r: Result<Vec<u8>, DecodeError>)
    ensures
        match r {
            Ok(v) => decoding(encoded@, digest@) == Some(v@),
            Err(e) => decoding(encoded@, digest@) is None && e == DecodeError::Mismatch,
        },
    decreases encoded@.len(),
{
    if encoded.len() <= CHUNK_SIZE {
        return match verify(encoded, digest) {
            Ok(()) => Ok(slice_to_vec(encoded)),
            Err(e) => Err(e),
        };
    }
    let node = slice_subrange(encoded, 0, 2 * DIGEST_SIZE);
    if let Err(e) = verify(node, digest) {
        return Err(e);
    }
    let (left_len, _) = left_subtree_len_and_chunk_count(encoded.len());
    let left_start = 2 * DIGEST_SIZE;
    if left_len > encoded.len() - left_start {
        return Err(DecodeError::Mismatch);
    }
    let left_end = left_start + left_len;
    let left_digest = digest_at(encoded, 0);
    let right_digest = digest_at(encoded, DIGEST_SIZE);
    let left = decode(slice_subrange(encoded, left_start, left_end), &left_digest);
    let mut left_plaintext = match left {
        Ok(v) => v,
        Err(e) => return Err(e),
    };
    let right = decode(slice_subrange(encoded, left_end, encoded.len()), &right_digest);
    let right_plaintext = match right {
        Ok(v) => v,
        Err(e) => return Err(e),
    };
    let ghost l = left_plaintext@;
    left_plaintext.extend_from_slice(right_plaintext.as_slice());
    assert(left_plaintext@ == l + right_plaintext@);
    Ok(left_plaintext)
}

/// Verifies the chunk numbered `chunk_num` of `encoded`, and the parents above it, against
/// `digest`, and returns that chunk.
pub fn decode_chunk<'a>(encoded: &'a [u8], digest: &Digest, chunk_num: usize) -> (r: Result<
    &'a [u8],
    DecodeError,
>)
    ensures
        match r {
            Ok(v) => decoding_chunk(encoded@, digest@, chunk_num as nat) == Ok::<
                Seq<u8>,
                DecodeError,
            >(v@),
            Err(e) => decoding_chunk(encoded@, digest@, chunk_num as nat) == Err::<
                Seq<u8>,
                DecodeError,
            >(e),
        },
    decreases encoded@.len(),
{
    if encoded.len() <= CHUNK_SIZE {
        if chunk_num == 0 {
            match verify(encoded, digest) {
                Ok(()) => Ok(encoded),
                Err(e) => Err(e),
            }
        } else {
            Err(DecodeError::NoSuchChunk)
        }
    } else {
        let node = slice_subrange(encoded, 0, 2 * DIGEST_SIZE);
        if let Err(e) = verify(node, digest) {
            return Err(e);
        }
        let (left_len, left_chunk_count) = left_subtree_len_and_chunk_count(encoded.len());
        let left_start = 2 * DIGEST_SIZE;
        if left_len > encoded.len() - left_start {
            return Err(DecodeError::Mismatch);
        }
        let left_end = left_start + left_len;
        let left_digest = digest_at(encoded, 0);
        let right_digest = digest_at(encoded, DIGEST_SIZE);
        if chunk_num < left_chunk_count {
            decode_chunk(slice_subrange(encoded, left_start, left_end), &left_digest, chunk_num)
        } else {
            decode_chunk(
                slice_subrange(encoded, left_end, encoded.len()),
                &right_digest,
                chunk_num - left_chunk_count,
            )
        }
    }
}


/// A streaming reader of the simple encoding, as decisions only: it says how many bytes of the
/// encoded stream it needs next, and verifies what it is given. The caller does the reading.
pub struct RahReader {
    traversal_stack: Vec<(Digest, usize)>,
}

impl RahReader {
    /// The subtrees still to be read, as expected digest and content length, the next one last.
    pub closed spec fn pending(&self) -> Seq<(Seq<u8>, nat)> {
        self.traversal_stack@.map_values(|e: (Digest, usize)| (e.0@, e.1 as nat))
    }

    /// A reader of content of `plaintext_len` bytes whose root digest is `digest`.
    pub fn new(digest: &Digest, plaintext_len: usize) -> (r: Self)
        ensures
            r.pending() == seq![(digest@, plaintext_len as nat)],
    {
        let r = RahReader { traversal_stack: vec![(*digest, plaintext_len)] };
        assert(r.pending() =~= seq![(digest@, plaintext_len as nat)]);
        r
    }

    /// Whether every subtree has been read.
    pub fn is_done(&self) -> (r: bool)
        ensures
            r == (self.pending().len() == 0),
    {
        self.traversal_stack.len() == 0
    }

    /// How many bytes of the encoded stream come next: a parent node, or the next chunk.
    pub fn wanted(&self) -> (r: usize)
        requires
            self.pending().len() > 0,
        ensures
            ({
                let top = self.pending().last();
                r == if top.1 > CHUNK_SIZE { 2 * DIGEST_SIZE as nat } else { top.1 }
            }),
    {
        let (_, plaintext_len) = self.traversal_stack[self.traversal_stack.len() - 1];
        if plaintext_len > CHUNK_SIZE {
            2 * DIGEST_SIZE
        } else {
            plaintext_len
        }
    }

    /// Takes the bytes that `wanted` asked for. A parent node is verified and replaced by its two
    /// children; a chunk is verified and returned. On a mismatch nothing changes.
    pub fn feed(&mut self, bytes: &[u8]) -> (r: Result<Option<Vec<u8>>, DecodeError>)
        requires
            old(self).pending().len() > 0,
            bytes@.len() == (if old(self).pending().last().1 > CHUNK_SIZE {
                2 * DIGEST_SIZE as nat
            } else {
                old(self).pending().last().1
            }),
        ensures
            ({
                let s = old(self).pending();
                let (d, n) = s.last();
                if digest_of(bytes@) != d {
                    r == Err::<Option<Vec<u8>>, DecodeError>(DecodeError::Mismatch)
                        && final(self).pending() == s
                } else if n > CHUNK_SIZE {
                    &&& r matches Ok(None)
                    &&& final(self).pending() == s.drop_last().push(
                        (bytes@.subrange(32, 64), (n - split_len(n)) as nat),
                    ).push((bytes@.subrange(0, 32), split_len(n)))
                } else {
                    &&& r matches Ok(Some(v)) && v@ == bytes@
                    &&& final(self).pending() == s.drop_last()
                }
            }),
    {
        let ghost s = self.pending();
        let (digest, plaintext_len) = self.traversal_stack[self.traversal_stack.len() - 1];
        if let Err(e) = verify(bytes, &digest) {
            return Err(e);
        }
        self.traversal_stack.pop();
        if plaintext_len > CHUNK_SIZE {
            let left_len = left_plaintext_len(plaintext_len);
            proof {
                lemma_split_len_bounds(plaintext_len as nat);
            }
            let left_digest = digest_at(bytes, 0);
            let right_digest = digest_at(bytes, DIGEST_SIZE);
            self.traversal_stack.push((right_digest, plaintext_len - left_len));
            self.traversal_stack.push((left_digest, left_len));
            assert(self.pending() =~= s.drop_last().push(
                (bytes@.subrange(32, 64), (plaintext_len - split_len(plaintext_len as nat)) as nat),
            ).push((bytes@.subrange(0, 32), split_len(plaintext_len as nat))));
            Ok(None)
        } else {
            assert(self.pending() =~= s.drop_last());
            Ok(Some(slice_to_vec(bytes)))
        }
    }
}

} // verus!
