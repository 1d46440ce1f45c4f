use bao::simple::{
    decode, decode_chunk, encode, hash, left_plaintext_len, left_subtree_len_and_chunk_count,
    verify, DecodeError, RahReader, CHUNK_SIZE, DIGEST_SIZE,
};

#[test]
fn test_hash() {
    let inputs: &[&[u8]] = &[b"", b"f", b"foo"];
    for input in inputs {
        verify(input, &hash(input)).unwrap();
    }
}

#[test]
fn test_left_plaintext_len() {
    let cases = &[
        (CHUNK_SIZE + 1, CHUNK_SIZE),
        (2 * CHUNK_SIZE - 1, CHUNK_SIZE),
        (2 * CHUNK_SIZE, CHUNK_SIZE),
        (2 * CHUNK_SIZE + 2, 2 * CHUNK_SIZE),
    ];
    for &case in cases {
        println!("testing {} and {}", case.0, case.1);
        assert_eq!(left_plaintext_len(case.0), case.1);
    }
}

#[test]
fn test_left_subtree_len_and_chunk_count() {
    let cases = &[
        (CHUNK_SIZE + 1, (CHUNK_SIZE, 1)),
        (2 * CHUNK_SIZE + 2 * DIGEST_SIZE - 1, (CHUNK_SIZE, 1)),
        (2 * CHUNK_SIZE + 2 * DIGEST_SIZE, (CHUNK_SIZE, 1)),
        (2 * CHUNK_SIZE + 2 * DIGEST_SIZE + 1, (2 * CHUNK_SIZE + 2 * DIGEST_SIZE, 2)),
        (4 * CHUNK_SIZE + 6 * DIGEST_SIZE - 1, (2 * CHUNK_SIZE + 2 * DIGEST_SIZE, 2)),
        (4 * CHUNK_SIZE + 6 * DIGEST_SIZE, (2 * CHUNK_SIZE + 2 * DIGEST_SIZE, 2)),
        (4 * CHUNK_SIZE + 6 * DIGEST_SIZE + 1, (4 * CHUNK_SIZE + 6 * DIGEST_SIZE, 4)),
    ];
    for &case in cases {
        println!("testing {:?} and {:?}", case.0, case.1);
        assert_eq!(left_subtree_len_and_chunk_count(case.0), case.1);
    }
}

fn debug_sample(input: &[u8]) -> String {
    let sample_len = std::cmp::min(60, input.len());
    let mut ret = String::from_utf8_lossy(&input[..sample_len]).into_owned();
    if sample_len < input.len() {
        ret += &*format!("... (len {})", input.len());
    }
    ret
}

fn decode_one(input: &[u8]) {
    println!("input: {:?}", debug_sample(input));
    let (encoded, digest) = encode(input);
    let output = decode(&encoded, &digest).expect("decode failed");
    assert_eq!(input.len(), output.len(), "input and output lengths don't match");
    assert_eq!(input, &*output, "input and output data doesn't match");
    println!("DONE!!!");
}

#[test]
fn test_decode() {
    decode_one(b"");
    decode_one(b"foo");
    decode_one(&vec![0; CHUNK_SIZE - 1]);
    decode_one(&vec![0; CHUNK_SIZE]);
    decode_one(&vec![0; CHUNK_SIZE + 1]);

    const BIGGER: usize = 2 * CHUNK_SIZE + 2 * DIGEST_SIZE;
    decode_one(&vec![0; BIGGER - 1]);
    decode_one(&vec![0; BIGGER]);
    decode_one(&vec![0; BIGGER + 1]);

    const BIGGEST: usize = 2 * BIGGER + 2 * DIGEST_SIZE;
    decode_one(&vec![0; BIGGEST - 1]);
    decode_one(&vec![0; BIGGEST]);
    decode_one(&vec![0; BIGGEST + 1]);
}

#[test]
fn test_decode_chunk() {
    let chunks: &[&[u8]] = &[&[0; CHUNK_SIZE], &[1; CHUNK_SIZE], &[2, 2, 2]];
    let mut input = Vec::new();
    for chunk in chunks {
        input.extend_from_slice(chunk);
    }
    let (mut encoded, digest) = encode(&input);
    for i in 0..chunks.len() {
        let decoded_chunk = decode_chunk(&encoded, &digest, i).expect("decode_chunk failed!");
        assert_eq!(chunks[i], decoded_chunk);
    }

    *encoded.last_mut().unwrap() ^= 1;
    assert!(decode_chunk(&encoded, &digest, 0).is_ok());
    assert!(decode_chunk(&encoded, &digest, 1).is_ok());
    assert!(decode_chunk(&encoded, &digest, 2).is_err());

    *encoded.first_mut().unwrap() ^= 1;
    assert!(decode_chunk(&encoded, &digest, 0).is_err());
    assert!(decode_chunk(&encoded, &digest, 1).is_err());
    assert!(decode_chunk(&encoded, &digest, 2).is_err());
}

#[test]
fn decode_chunk_past_the_end() {
    let (encoded, digest) = encode(b"abc");
    assert_eq!(decode_chunk(&encoded, &digest, 1), Err(DecodeError::NoSuchChunk));
}

#[test]
fn simple_encoded_sizes() {
    for &(n, size) in &[(0usize, 0usize), (3, 3), (4096, 4096), (4097, 4097 + 64), (8193, 8193 + 128)] {
        let (encoded, _) = encode(&vec![9u8; n]);
        assert_eq!(encoded.len(), size);
    }
}

#[test]
fn simple_small_encoding_is_the_content() {
    let (encoded, digest) = encode(b"abc");
    assert_eq!(encoded, b"abc".to_vec());
    assert_eq!(digest, hash(b"abc"));
    assert_ne!(digest, [0u8; DIGEST_SIZE]);
}

#[test]
fn decode_wrong_digest_fails() {
    let (encoded, mut digest) = encode(&vec![1u8; 3 * CHUNK_SIZE]);
    digest[0] ^= 1;
    assert_eq!(decode(&encoded, &digest), Err(DecodeError::Mismatch));
    assert!(verify(b"foo", &digest).is_err());
}

#[test]
fn decode_truncated_fails() {
    let (encoded, digest) = encode(&vec![1u8; 3 * CHUNK_SIZE]);
    assert_eq!(decode(&encoded[..encoded.len() - 1], &digest), Err(DecodeError::Mismatch));
}

#[test]
fn rah_reader_streams_content() {
    let input: Vec<u8> = (0..(2 * CHUNK_SIZE + 5)).map(|i| (i % 7) as u8).collect();
    let (encoded, digest) = encode(&input);
    let mut reader = RahReader::new(&digest, input.len());
    let mut pos = 0;
    let mut output = Vec::new();
    while !reader.is_done() {
        let want = reader.wanted();
        let got = reader.feed(&encoded[pos..pos + want]).expect("verified");
        pos += want;
        if let Some(chunk) = got {
            output.extend_from_slice(&chunk);
        }
    }
    assert_eq!(pos, encoded.len());
    assert_eq!(output, input);
}

#[test]
fn rah_reader_rejects_tampered_parent() {
    let input = vec![3u8; 2 * CHUNK_SIZE];
    let (mut encoded, digest) = encode(&input);
    encoded[0] ^= 1;
    let mut reader = RahReader::new(&digest, input.len());
    assert_eq!(reader.wanted(), 2 * DIGEST_SIZE);
    assert_eq!(reader.feed(&encoded[..64]), Err(DecodeError::Mismatch));
}

#[test]
fn digest_is_truncated_sha512() {
    let expected = "ddaf35a193617abacc417349ae20413112e6fa4e89a97ea20a9eeee64b55d39a";
    let hex: String = hash(b"abc").iter().map(|b| format!("{:02x}", b)).collect();
    assert_eq!(hex, expected);
}
