use bao::decode::{combine_outboard, decode, decode_len, hash_from_encoded, Reader};
use bao::encode::{encode, encode_outboard, encoded_size, outboard_size};
use bao::hash::{hash, hash_node, parent_hash, Finalization, CHUNK_SIZE};
use bao::simple::DecodeError;

const SIZES: &[usize] = &[
    0, 1, 10, 4095, 4096, 4097, 8191, 8192, 8193, 12287, 12288, 12289, 16383, 16384, 16385,
    65535, 65536, 65537,
];

fn parents(n: u64) -> u64 {
    if n == 0 {
        0
    } else {
        (n + 4095) / 4096 - 1
    }
}

#[test]
fn encoded_sizes_follow_the_size_law() {
    for &n in SIZES {
        let input = vec![0x11u8; n];
        let (encoded, root) = encode(&input);
        let (outboard, outboard_root) = encode_outboard(&input);
        assert_eq!(encoded.len() as u64, 8 + n as u64 + 64 * parents(n as u64));
        assert_eq!(encoded_size(n as u64), encoded.len() as u128);
        assert_eq!(outboard.len() as u64, 8 + 64 * parents(n as u64));
        assert_eq!(outboard_size(n as u64), outboard.len() as u128);
        assert_eq!(root, hash(&input));
        assert_eq!(outboard_root, root);
    }
}

#[test]
fn largest_sizes_do_not_overflow() {
    assert_eq!(encoded_size(u64::MAX), 8 + u64::MAX as u128 + 64 * (0x10000000000000 - 1));
    assert_eq!(outboard_size(0), 8);
}

#[test]
fn round_trip_at_boundaries() {
    for &n in SIZES {
        let input: Vec<u8> = (0..n).map(|i| (i % 253) as u8).collect();
        let (encoded, root) = encode(&input);
        assert_eq!(decode(&encoded, &root), Ok(input.clone()));
        assert_eq!(hash_from_encoded(&encoded), Ok(root));
    }
}

#[test]
fn empty_input_encoding() {
    let (encoded, root) = encode(b"");
    assert_eq!(encoded, vec![0u8; 8]);
    assert_eq!(root, hash_node(b"", Finalization::Root(0)));
    assert_eq!(decode(&encoded, &root), Ok(Vec::new()));
}

#[test]
fn abc_encoding() {
    let (encoded, root) = encode(b"abc");
    assert_eq!(encoded.len(), 11);
    assert_eq!(&encoded[..8], &[3, 0, 0, 0, 0, 0, 0, 0]);
    assert_eq!(&encoded[8..], b"abc");
    assert_eq!(decode(&encoded, &root), Ok(b"abc".to_vec()));
    assert_eq!(decode_len(&encoded), 3);
}

#[test]
fn two_zero_chunks_encoding() {
    let input = vec![0u8; 8192];
    let (encoded, root) = encode(&input);
    assert_eq!(encoded.len(), 8264);
    let leaf = hash_node(&input[..4096], Finalization::NotRoot);
    assert_eq!(&encoded[8..40], &leaf);
    assert_eq!(&encoded[40..72], &leaf);
    assert_eq!(root, parent_hash(&leaf, &leaf, Finalization::Root(8192)));
}

#[test]
fn unbalanced_tree_encoding() {
    let input = vec![0u8; 8193];
    let (encoded, root) = encode(&input);
    assert_eq!(encoded.len(), 8329);
    let leaf = hash_node(&input[..4096], Finalization::NotRoot);
    let last = hash_node(&input[..1], Finalization::NotRoot);
    let left = parent_hash(&leaf, &leaf, Finalization::NotRoot);
    assert_eq!(&encoded[8..40], &left);
    assert_eq!(&encoded[40..72], &last);
    assert_eq!(&encoded[72..104], &leaf);
    assert_eq!(&encoded[104..136], &leaf);
    assert_eq!(&encoded[136..8328], &input[..8192]);
    assert_eq!(encoded[8328], 0);
    assert_eq!(root, parent_hash(&left, &last, Finalization::Root(8193)));
    assert_eq!(decode(&encoded, &root), Ok(input));
}

#[test]
fn outboard_holds_header_and_parents() {
    let input = vec![5u8; 3 * CHUNK_SIZE];
    let (encoded, _) = encode(&input);
    let (outboard, _) = encode_outboard(&input);
    assert_eq!(&outboard[..72], &encoded[..72]);
    assert_eq!(outboard.len(), 8 + 128);
}

#[test]
fn tampering_is_detected_everywhere() {
    let input = vec![0u8; 8193];
    let (encoded, root) = encode(&input);
    for &pos in &[0usize, 7, 8, 39, 71, 72, 135, 136, 4231, 4232, 8327, 8328] {
        let mut bad = encoded.clone();
        bad[pos] ^= 1;
        assert_eq!(decode(&bad, &root), Err(DecodeError::Mismatch), "flip at {}", pos);
    }
}

#[test]
fn short_or_long_header_fails() {
    let (encoded, root) = encode(&vec![1u8; 5000]);
    assert_eq!(decode(&encoded[..7], &root), Err(DecodeError::Mismatch));
    assert_eq!(decode(&encoded[..encoded.len() - 1], &root), Err(DecodeError::Mismatch));
    let mut longer = encoded.clone();
    longer[0] = 0x89;
    assert_eq!(decode(&longer, &root), Err(DecodeError::Mismatch));
    assert_eq!(hash_from_encoded(&longer), Err(DecodeError::Mismatch));
}

#[test]
fn hash_from_encoded_rejects_inconsistent_parent() {
    let (mut encoded, _) = encode(&vec![1u8; 5000]);
    encoded[8] ^= 1;
    assert_eq!(hash_from_encoded(&encoded), Err(DecodeError::Mismatch));
}

#[test]
fn outboard_and_content_rebuild_the_encoding() {
    for &n in &[0usize, 1, 4096, 4097, 8193, 16385] {
        let input: Vec<u8> = (0..n).map(|i| (i % 13) as u8).collect();
        let (encoded, root) = encode(&input);
        let (outboard, _) = encode_outboard(&input);
        let combined = combine_outboard(&outboard, &input).unwrap();
        assert_eq!(combined, encoded);
        assert_eq!(decode(&combined, &root), Ok(input.clone()));
        if n > 0 {
            assert_eq!(combine_outboard(&outboard, &input[1..]), Err(DecodeError::Mismatch));
        }
    }
}

fn stream(encoded: &[u8], root: &[u8; 32]) -> Result<Vec<u8>, DecodeError> {
    let mut reader = Reader::new(root);
    let mut pos = 0;
    let mut output = Vec::new();
    while !reader.is_done() {
        let want = reader.wanted();
        if pos + want > encoded.len() {
            return Err(DecodeError::Mismatch);
        }
        if let Some(chunk) = reader.feed(&encoded[pos..pos + want])? {
            output.extend_from_slice(&chunk);
        }
        pos += want;
    }
    Ok(output)
}

#[test]
fn streaming_reader_matches_decode() {
    for &n in SIZES {
        let input: Vec<u8> = (0..n).map(|i| (i % 211) as u8).collect();
        let (encoded, root) = encode(&input);
        assert_eq!(stream(&encoded, &root), Ok(input));
    }
}

#[test]
fn streaming_reader_stops_at_tampered_chunk() {
    let input = vec![0u8; 8193];
    let (mut encoded, root) = encode(&input);
    *encoded.last_mut().unwrap() ^= 1;
    let mut reader = Reader::new(&root);
    let mut pos = 0;
    let mut emitted = 0;
    let result = loop {
        let want = reader.wanted();
        match reader.feed(&encoded[pos..pos + want]) {
            Ok(Some(chunk)) => emitted += chunk.len(),
            Ok(None) => {}
            Err(e) => break e,
        }
        pos += want;
    };
    assert_eq!(result, DecodeError::Mismatch);
    assert_eq!(emitted, 8192);
}

#[test]
fn streaming_reader_reads_outboard_and_content_apart() {
    let input: Vec<u8> = (0..12289).map(|i| (i % 199) as u8).collect();
    let (outboard, root) = encode_outboard(&input);
    let mut reader = Reader::new(&root);
    let (mut tree_pos, mut content_pos) = (0, 0);
    let mut output = Vec::new();
    let mut first = true;
    while !reader.is_done() {
        let want = reader.wanted();
        if first || reader.wants_parent() {
            assert_eq!(reader.feed(&outboard[tree_pos..tree_pos + want]), Ok(None));
            tree_pos += want;
        } else {
            let chunk = reader.feed(&input[content_pos..content_pos + want]).unwrap().unwrap();
            output.extend_from_slice(&chunk);
            content_pos += want;
        }
        first = false;
    }
    assert_eq!(tree_pos, outboard.len());
    assert_eq!(output, input);
}
