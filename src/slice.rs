//! Slices: a self-contained part of the combined encoding that covers a range of the content
//! and still verifies against the root hash of the whole, and the reader that verifies one.
use vstd::prelude::*;
use vstd::slice::slice_subrange;
use crate::hash::{
    le_bytes, lemma_split_len_bounds, lemma_tree_hash_len, node_hash, root_hash,
    split_len, tree_hash, Finalization, CHUNK_SIZE, HASH_SIZE, HEADER_SIZE, PARENT_SIZE,
};
use crate::simple::{digest_at, encoded_len, lemma_split_encoded_len, DecodeError};
use crate::encode::{encoded_stream, lemma_tree_nodes_len, tree_nodes};
use crate::decode::{decode_len, header_len, lemma_header_len_le_bytes, verify_node};

verus! {

/// Whether the subtree over content `[a, b)` belongs in a slice of `[s, e)`: it overlaps that
/// range, or holds the byte `p` that anchors the slice, or is the empty root.
pub open spec fn touches(a: nat, b: nat, s: nat, e: nat, p: nat) -> bool {
    (a < e && s < b) || (a <= p && p < b) || a == b
}

/// The end of the slice of `len` bytes from `start` in content of `n` bytes, clamped to `n`.
pub open spec fn slice_end(n: nat, start: nat, len: nat) -> nat {
    if start + len < n {
        start + len
    } else {
        n
    }
}

/// The byte that anchors a slice: its start, or the last byte when it starts past the end.
pub open spec fn slice_point(n: nat, start: nat) -> nat {
    if start < n {
        start
    } else if n > 0 {
        (n - 1) as nat
    } else {
        0
    }
}

/// The part of `x`, which sits at content offset `a`, that lies in `[s, e)`.
pub open spec fn clip(x: Seq<u8>, a: nat, s: nat, e: nat) -> Seq<u8> {
    let lo = if a < s { s } else { a };
    let hi = if a + x.len() < e { a + x.len() } else { e };
    if lo < hi {
        x.subrange(lo - a, hi - a)
    } else {
        seq![]
    }
}

/// The nodes of the tree over `x` (at content offset `a`) that a slice of `[s, e)` anchored at
/// `p` holds, in pre-order.
pub open spec fn slice_nodes(x: Seq<u8>, a: nat, s: nat, e: nat, p: nat) -> Seq<u8>
    decreases x.len(),
{
    if !touches(a, a + x.len(), s, e, p) {
        seq![]
    } else if x.len() <= CHUNK_SIZE {
        x
    } else {
        let k = split_len(x.len()) as int;
        if 0 < k < x.len() {
            let l = x.subrange(0, k);
            let r = x.subrange(k, x.len() as int);
            tree_hash(l, Finalization::NotRoot) + tree_hash(r, Finalization::NotRoot)
                + slice_nodes(l, a, s, e, p) + slice_nodes(r, a + k as nat, s, e, p)
        } else {
            seq![]
        }
    }
}

/// What the extractor takes from the exact encoding `enc` of a subtree of `n` bytes at offset
/// `a`: the nodes that touch the slice, or `None` where the encoding is malformed.
pub open spec fn extract(enc: Seq<u8>, n: nat, a: nat, s: nat, e: nat, p: nat) -> Option<Seq<u8>>
    decreases n,
{
    if !touches(a, a + n, s, e, p) {
        Some(seq![])
    } else if n <= CHUNK_SIZE {
        if enc.len() == n {
            Some(enc)
        } else {
            None
        }
    } else {
        let k = split_len(n);
        let left_end = 64 + encoded_len(k);
        if !(0 < k < n) || enc.len() != encoded_len(n) || left_end > enc.len() {
            None
        } else {
            match (
                extract(enc.subrange(64, left_end as int), k, a, s, e, p),
                extract(enc.subrange(left_end as int, enc.len() as int), (n - k) as nat, a + k, s, e, p),
            ) {
                (Some(l), Some(r)) => Some(enc.subrange(0, 64) + l + r),
                _ => None,
            }
        }
    }
}

/// The slice of `[start, start + len)` extracted from the combined encoding `stream`: its
/// header, then the nodes that touch the range.
pub open spec fn extract_stream(stream: Seq<u8>, start: nat, len: nat) -> Option<Seq<u8>> {
    if stream.len() < HEADER_SIZE {
        None
    } else {
        let n = header_len(stream) as nat;
        if stream.len() - HEADER_SIZE < encoded_len(n) {
            None
        } else {
            match extract(
                stream.subrange(8, 8 + encoded_len(n) as int),
                n,
                0,
                start,
                slice_end(n, start, len),
                slice_point(n, start),
            ) {
                Some(body) => Some(stream.subrange(0, 8) + body),
                None => None,
            }
        }
    }
}

/// Reads the nodes of a subtree of `n` bytes at offset `a` from the front of `st`, verifying
/// each against the hash expected of it: the content of the range found there, and how many
/// bytes were read.
pub open spec fn slice_decode(
    st: Seq<u8>,
    n: nat,
    a: nat,
    s: nat,
    e: nat,
    p: nat,
    d: Seq<u8>,
    fin: Finalization,
) -> Option<(Seq<u8>, nat)>
    decreases n,
{
    if !touches(a, a + n, s, e, p) {
        Some((seq![], 0))
    } else if n <= CHUNK_SIZE {
        if st.len() >= n && node_hash(st.subrange(0, n as int), fin) == d {
            Some((clip(st.subrange(0, n as int), a, s, e), n))
        } else {
            None
        }
    } else {
        let k = split_len(n);
        if !(0 < k < n) || st.len() < 64 || node_hash(st.subrange(0, 64), fin) != d {
            None
        } else {
            match slice_decode(
                st.subrange(64, st.len() as int),
                k,
                a,
                s,
                e,
                p,
                st.subrange(0, 32),
                Finalization::NotRoot,
            ) {
                None => None,
                Some((c1, u1)) => if 64 + u1 > st.len() {
                    None
                } else {
                    match slice_decode(
                        st.subrange(64 + u1 as int, st.len() as int),
                        (n - k) as nat,
                        a + k,
                        s,
                        e,
                        p,
                        st.subrange(32, 64),
                        Finalization::NotRoot,
                    ) {
                        None => None,
                        Some((c2, u2)) => Some((c1 + c2, 64 + u1 + u2)),
                    }
                },
            }
        }
    }
}

/// The content that a slice of `[start, start + len)` holds, when it verifies against `root`.
pub open spec fn decode_slice_spec(slice: Seq<u8>, root: Seq<u8>, start: nat, len: nat) -> Option<
    Seq<u8>,
> {
    if slice.len() < HEADER_SIZE {
        None
    } else {
        let n = header_len(slice) as nat;
        match slice_decode(
            slice.subrange(8, slice.len() as int),
            n,
            0,
            start,
            slice_end(n, start, len),
            slice_point(n, start),
            root,
            Finalization::Root(n as u64),
        ) {
            Some((c, _)) => Some(c),
            None => None,
        }
    }
}


proof fn lemma_clip_split(x: Seq<u8>, k: nat, a: nat, s: nat, e: nat)
    requires
        k <= x.len(),
    ensures
        clip(x, a, s, e) == clip(x.subrange(0, k as int), a, s, e) + clip(
            x.subrange(k as int, x.len() as int),
            a + k,
            s,
            e,
        ),
{
    let l = x.subrange(0, k as int);
    let r = x.subrange(k as int, x.len() as int);
    let lo = if a < s { s } else { a };
    let hi = if a + x.len() < e { a + x.len() } else { e };
    if lo < hi {
        if hi <= a + k {
            assert(clip(l, a, s, e) =~= x.subrange(lo - a, hi - a));
            assert(clip(r, a + k, s, e) =~= seq![]);
        } else if lo >= a + k {
            assert(clip(l, a, s, e) =~= seq![]);
            assert(clip(r, a + k, s, e) =~= x.subrange(lo - a, hi - a));
        } else {
            assert(clip(l, a, s, e) =~= x.subrange(lo - a, k as int));
            assert(clip(r, a + k, s, e) =~= x.subrange(k as int, hi - a));
        }
        assert(clip(x, a, s, e) =~= clip(l, a, s, e) + clip(r, a + k, s, e));
    } else {
        assert(clip(l, a, s, e) =~= seq![]);
        assert(clip(r, a + k, s, e) =~= seq![]);
        assert(clip(x, a, s, e) =~= clip(l, a, s, e) + clip(r, a + k, s, e));
    }
}

proof fn lemma_extract_nodes(x: Seq<u8>, a: nat, s: nat, e: nat, p: nat)
    ensures
        extract(tree_nodes(x, true), x.len(), a, s, e, p) == Some(slice_nodes(x, a, s, e, p)),
    decreases x.len(),
{
    let n = x.len();
    if n > CHUNK_SIZE && touches(a, a + n, s, e, p) {
        let k = split_len(n);
        lemma_split_len_bounds(n);
        lemma_split_encoded_len(n);
        let l = x.subrange(0, k as int);
        let r = x.subrange(k as int, n as int);
        lemma_tree_hash_len(l, Finalization::NotRoot);
        lemma_tree_hash_len(r, Finalization::NotRoot);
        lemma_tree_nodes_len(x);
        lemma_tree_nodes_len(l);
        lemma_tree_nodes_len(r);
        lemma_extract_nodes(l, a, s, e, p);
        lemma_extract_nodes(r, a + k, s, e, p);
        let hl = tree_hash(l, Finalization::NotRoot);
        let hr = tree_hash(r, Finalization::NotRoot);
        let nl = tree_nodes(l, true);
        let nr = tree_nodes(r, true);
        let enc = tree_nodes(x, true);
        assert(enc == hl + hr + nl + nr);
        let left_end = 64 + encoded_len(k);
        assert(enc.subrange(0, 64) =~= hl + hr);
        assert(enc.subrange(64, left_end as int) =~= nl);
        assert(enc.subrange(left_end as int, enc.len() as int) =~= nr);
        assert(slice_nodes(x, a, s, e, p) =~= (hl + hr) + slice_nodes(l, a, s, e, p) + slice_nodes(r, a + k, s, e, p));
    }
}

proof fn lemma_decode_slice_nodes(
    x: Seq<u8>,
    rest: Seq<u8>,
    a: nat,
    s: nat,
    e: nat,
    p: nat,
    fin: Finalization,
)
    ensures
        slice_decode(slice_nodes(x, a, s, e, p) + rest, x.len(), a, s, e, p, tree_hash(x, fin), fin)
            == Some((clip(x, a, s, e), slice_nodes(x, a, s, e, p).len())),
    decreases x.len(),
{
    let n = x.len();
    let sn = slice_nodes(x, a, s, e, p);
    let st = sn + rest;
    if !touches(a, a + n, s, e, p) {
        assert(clip(x, a, s, e) =~= seq![]);
    } else if n <= CHUNK_SIZE {
        assert(st.subrange(0, n as int) =~= x);
    } else {
        let k = split_len(n);
        lemma_split_len_bounds(n);
        let l = x.subrange(0, k as int);
        let r = x.subrange(k as int, n as int);
        lemma_tree_hash_len(l, Finalization::NotRoot);
        lemma_tree_hash_len(r, Finalization::NotRoot);
        let hl = tree_hash(l, Finalization::NotRoot);
        let hr = tree_hash(r, Finalization::NotRoot);
        let sl = slice_nodes(l, a, s, e, p);
        let sr = slice_nodes(r, a + k, s, e, p);
        assert(sn == hl + hr + sl + sr);
        assert(st.subrange(0, 64) =~= hl + hr);
        assert(st.subrange(0, 32) =~= hl);
        assert(st.subrange(32, 64) =~= hr);
        assert(st.subrange(64, st.len() as int) =~= sl + (sr + rest));
        lemma_decode_slice_nodes(l, sr + rest, a, s, e, p, Finalization::NotRoot);
        assert(st.subrange(64 + sl.len() as int, st.len() as int) =~= sr + rest);
        lemma_decode_slice_nodes(r, rest, a + k, s, e, p, Finalization::NotRoot);
        lemma_clip_split(x, k, a, s, e);
    }
}

/// A slice extracted from the combined encoding of any input, for any start and length,
/// verifies against the root hash of the input and gives back the content of the range,
/// clamped to the end of the input.
pub proof fn lemma_slice_round_trip(input: Seq<u8>, start: nat, len: nat)
    requires
        input.len() <= u64::MAX,
    ensures
        extract_stream(encoded_stream(input), start, len) matches Some(slice) && decode_slice_spec(
            slice,
            root_hash(input),
            start,
            len,
        ) == Some(
            if start < input.len() {
                input.subrange(start as int, slice_end(input.len(), start, len) as int)
            } else {
                seq![]
            },
        ),
{
    let n = input.len();
    let stream = encoded_stream(input);
    let e = slice_end(n, start, len);
    let pt = slice_point(n, start);
    lemma_header_len_le_bytes(n as u64);
    lemma_tree_nodes_len(input);
    assert(stream.subrange(0, 8) =~= le_bytes(n as u64));
    assert(header_len(stream) == header_len(stream.subrange(0, 8)));
    assert(stream.subrange(8, 8 + encoded_len(n) as int) =~= tree_nodes(input, true));
    lemma_extract_nodes(input, 0, start, e, pt);
    let body = slice_nodes(input, 0, start, e, pt);
    let slice = stream.subrange(0, 8) + body;
    assert(header_len(slice) == header_len(stream.subrange(0, 8)));
    assert(slice.subrange(8, slice.len() as int) =~= body + seq![]);
    lemma_decode_slice_nodes(input, seq![], 0, start, e, pt, Finalization::Root(n as u64));
    if start < n {
        assert(clip(input, 0, start, e) =~= input.subrange(start as int, e as int));
    } else {
        assert(clip(input, 0, start, e) =~= seq![]);
    }
}


proof fn lemma_extract_len(enc: Seq<u8>, n: nat, a: nat, s: nat, e: nat, p: nat)
    ensures
        extract(enc, n, a, s, e, p) matches Some(x) ==> x.len() <= enc.len(),
    decreases n,
{
    if n > CHUNK_SIZE && touches(a, a + n, s, e, p) {
        let k = split_len(n);
        let left_end = 64 + encoded_len(k);
        if 0 < k < n && left_end <= enc.len() {
            lemma_extract_len(enc.subrange(64, left_end as int), k, a, s, e, p);
            lemma_extract_len(enc.subrange(left_end as int, enc.len() as int), (n - k) as nat, a + k, s, e, p);
        }
    }
}

proof fn lemma_slice_decode_bounds(
    st: Seq<u8>,
    n: nat,
    a: nat,
    s: nat,
    e: nat,
    p: nat,
    d: Seq<u8>,
    fin: Finalization,
)
    ensures
        slice_decode(st, n, a, s, e, p, d, fin) matches Some((c, u)) ==> c.len() <= u && u
            <= st.len(),
    decreases n,
{
    if n > CHUNK_SIZE && touches(a, a + n, s, e, p) {
        let k = split_len(n);
        if 0 < k < n && st.len() >= 64 {
            let st1 = st.subrange(64, st.len() as int);
            lemma_slice_decode_bounds(st1, k, a, s, e, p, st.subrange(0, 32), Finalization::NotRoot);
            if let Some((c1, u1)) = slice_decode(st1, k, a, s, e, p, st.subrange(0, 32), Finalization::NotRoot) {
                if 64 + u1 <= st.len() {
                    lemma_slice_decode_bounds(
                        st.subrange(64 + u1 as int, st.len() as int),
                        (n - k) as nat,
                        a + k,
                        s,
                        e,
                        p,
                        st.subrange(32, 64),
                        Finalization::NotRoot,
                    );
                }
            }
        }
    }
}

fn touches_exec(a: u64, n: u64, s: u64, e: u64, p: u64) -> (r: bool)
    requires
        a + n <= u64::MAX,
    ensures
        r == touches(a as nat, (a + n) as nat, s as nat, e as nat, p as nat),
{
    (a < e && s < a + n) || (a <= p && p < a + n) || n == 0
}

fn extract_recurse(
    enc: &[u8],
    n: u64,
    a: u64,
    s: u64,
    e: u64,
    p: u64,
    out: &mut Vec<u8>,
) -> (r: Result<(), DecodeError>)
    requires
        a + n <= u64::MAX,
        old(out)@.len() + enc@.len() <= usize::MAX,
    ensures
        r is Ok <==> extract(enc@, n as nat, a as nat, s as nat, e as nat, p as nat) is Some,
        r is Ok ==> final(out)@ == old(out)@ + extract(
            enc@,
            n as nat,
            a as nat,
            s as nat,
            e as nat,
            p as nat,
        )->Some_0,
        r is Err ==> r == Err::<(), DecodeError>(DecodeError::Mismatch),
    decreases n,
{
    if !touches_exec(a, n, s, e, p) {
        assert(out@ =~= out@ + seq![]);
        return Ok(());
    }
    if n <= CHUNK_SIZE as u64 {
        if enc.len() as u64 != n {
            return Err(DecodeError::Mismatch);
        }
        out.extend_from_slice(enc);
        return Ok(());
    }
    let k = crate::hash::left_len(n);
    proof {
        lemma_split_len_bounds(n as nat);
        lemma_split_encoded_len(n as nat);
    }
    let whole = crate::encode::encoded_size(n) - HEADER_SIZE as u128;
    if enc.len() as u128 != whole {
        return Err(DecodeError::Mismatch);
    }
    let left_end = PARENT_SIZE + (crate::encode::encoded_size(k) - HEADER_SIZE as u128) as usize;
    let ghost start = out@;
    out.extend_from_slice(slice_subrange(enc, 0, PARENT_SIZE));
    let left = slice_subrange(enc, PARENT_SIZE, left_end);
    let right = slice_subrange(enc, left_end, enc.len());
    proof {
        lemma_extract_len(left@, k as nat, a as nat, s as nat, e as nat, p as nat);
        lemma_extract_len(right@, (n - k) as nat, (a + k) as nat, s as nat, e as nat, p as nat);
    }
    if extract_recurse(left, k, a, s, e, p, out).is_err() {
        return Err(DecodeError::Mismatch);
    }
    if extract_recurse(right, n - k, a + k, s, e, p, out).is_err() {
        return Err(DecodeError::Mismatch);
    }
    proof {
        let xl = extract(left@, k as nat, a as nat, s as nat, e as nat, p as nat)->Some_0;
        let xr = extract(right@, (n - k) as nat, (a + k) as nat, s as nat, e as nat, p as nat)->Some_0;
        assert(out@ =~= start + (enc@.subrange(0, 64) + xl + xr));
    }
    Ok(())
}

/// The end of a slice, clamped to the content length.
fn slice_end_exec(n: u64, start: u64, len: u64) -> (r: u64)
    ensures
        r == slice_end(n as nat, start as nat, len as nat),
{
    if (start as u128) + (len as u128) < n as u128 {
        start + len
    } else {
        n
    }
}

fn slice_point_exec(n: u64, start: u64) -> (r: u64)
    ensures
        r == slice_point(n as nat, start as nat),
{
    if start < n {
        start
    } else if n > 0 {
        n - 1
    } else {
        0
    }
}

/// Extracts from the combined encoding `encoded` the slice that covers `len` bytes from
/// `start`: the header, and every parent and chunk on the way to the range. The encoding is
/// not verified here; the slice reader does that.
pub fn slice_extract(encoded: &[u8], start: u64, len: u64) -> (r: Result<Vec<u8>, DecodeError>)
    ensures
        match r {
            Ok(v) => extract_stream(encoded@, start as nat, len as nat) == Some(v@),
            Err(e) => extract_stream(encoded@, start as nat, len as nat) is None && e
                == DecodeError::Mismatch,
        },
{
    if encoded.len() < HEADER_SIZE {
        return Err(DecodeError::Mismatch);
    }
    let n = decode_len(encoded);
    let body_len = crate::encode::encoded_size(n) - HEADER_SIZE as u128;
    if ((encoded.len() - HEADER_SIZE) as u128) < body_len {
        return Err(DecodeError::Mismatch);
    }
    let body = slice_subrange(encoded, HEADER_SIZE, HEADER_SIZE + body_len as usize);
    let e = slice_end_exec(n, start, len);
    let p = slice_point_exec(n, start);
    let mut out: Vec<u8> = Vec::new();
    out.extend_from_slice(slice_subrange(encoded, 0, HEADER_SIZE));
    match extract_recurse(body, n, 0, start, e, p, &mut out) {
        Ok(()) => Ok(out),
        Err(err) => Err(err),
    }
}

fn decode_slice_recurse(
    st: &[u8],
    n: u64,
    a: u64,
    s: u64,
    e: u64,
    p: u64,
    expected: &crate::hash::Hash,
    fin: Finalization,
    out: &mut Vec<u8>,
) -> (r: Result<usize, DecodeError>)
    requires
        a + n <= u64::MAX,
        old(out)@.len() + st@.len() <= usize::MAX,
    ensures
        r is Ok <==> slice_decode(st@, n as nat, a as nat, s as nat, e as nat, p as nat, expected@, fin) is Some,
        r matches Ok(u) ==> ({
            let (c, used) = slice_decode(st@, n as nat, a as nat, s as nat, e as nat, p as nat, expected@, fin)->Some_0;
            &&& final(out)@ == old(out)@ + c
            &&& u == used
        }),
        r is Err ==> r == Err::<usize, DecodeError>(DecodeError::Mismatch),
    decreases n,
{
    if !touches_exec(a, n, s, e, p) {
        assert(out@ =~= out@ + seq![]);
        return Ok(0);
    }
    if n <= CHUNK_SIZE as u64 {
        if (st.len() as u64) < n {
            return Err(DecodeError::Mismatch);
        }
        let chunk = slice_subrange(st, 0, n as usize);
        if !verify_node(chunk, fin, expected) {
            return Err(DecodeError::Mismatch);
        }
        let lo = if a < s { s } else { a };
        let hi = if a + n < e { a + n } else { e };
        if lo < hi {
            out.extend_from_slice(slice_subrange(chunk, (lo - a) as usize, (hi - a) as usize));
        } else {
            assert(out@ =~= out@ + seq![]);
        }
        return Ok(n as usize);
    }
    let k = crate::hash::left_len(n);
    proof {
        lemma_split_len_bounds(n as nat);
    }
    if st.len() < PARENT_SIZE {
        return Err(DecodeError::Mismatch);
    }
    if !verify_node(slice_subrange(st, 0, PARENT_SIZE), fin, expected) {
        return Err(DecodeError::Mismatch);
    }
    let left_hash = digest_at(st, 0);
    let right_hash = digest_at(st, HASH_SIZE);
    let ghost start = out@;
    let rest = slice_subrange(st, PARENT_SIZE, st.len());
    proof {
        lemma_slice_decode_bounds(rest@, k as nat, a as nat, s as nat, e as nat, p as nat, left_hash@, Finalization::NotRoot);
    }
    let u1 = match decode_slice_recurse(rest, k, a, s, e, p, &left_hash, Finalization::NotRoot, out) {
        Ok(u) => u,
        Err(err) => return Err(err),
    };
    if u1 > st.len() - PARENT_SIZE {
        return Err(DecodeError::Mismatch);
    }
    let ghost mid = out@;
    let rest2 = slice_subrange(st, PARENT_SIZE + u1, st.len());
    proof {
        lemma_slice_decode_bounds(rest2@, (n - k) as nat, (a + k) as nat, s as nat, e as nat, p as nat, right_hash@, Finalization::NotRoot);
    }
    let u2 = match decode_slice_recurse(rest2, n - k, a + k, s, e, p, &right_hash, Finalization::NotRoot, out) {
        Ok(u) => u,
        Err(err) => return Err(err),
    };
    proof {
        let (c1, _) = slice_decode(rest@, k as nat, a as nat, s as nat, e as nat, p as nat, left_hash@, Finalization::NotRoot)->Some_0;
        let (c2, _) = slice_decode(rest2@, (n - k) as nat, (a + k) as nat, s as nat, e as nat, p as nat, right_hash@, Finalization::NotRoot)->Some_0;
        assert(out@ =~= start + (c1 + c2));
    }
    Ok(PARENT_SIZE + u1 + u2)
}

/// Verifies a slice of `len` bytes from `start` against the root hash of the whole content, and
/// returns the content of the range, clamped to the end of the content.
pub fn decode_slice(slice: &[u8], root: &crate::hash::Hash, start: u64, len: u64) -> (r: Result<
    Vec<u8>,
    DecodeError,
>)
    ensures
        match r {
            Ok(v) => decode_slice_spec(slice@, root@, start as nat, len as nat) == Some(v@),
            Err(e) => decode_slice_spec(slice@, root@, start as nat, len as nat) is None && e
                == DecodeError::Mismatch,
        },
{
    if slice.len() < HEADER_SIZE {
        return Err(DecodeError::Mismatch);
    }
    let n = decode_len(slice);
    let e = slice_end_exec(n, start, len);
    let p = slice_point_exec(n, start);
    let body = slice_subrange(slice, HEADER_SIZE, slice.len());
    let mut out: Vec<u8> = Vec::new();
    match decode_slice_recurse(
        body,
        n,
        0,
        start,
        e,
        p,
        root,
        Finalization::Root(n),
        &mut out,
    ) {
        Ok(_) => {
            assert(out@ =~= Seq::<u8>::empty() + out@);
            Ok(out)
        },
        Err(err) => Err(err),
    }
}

} // verus!
