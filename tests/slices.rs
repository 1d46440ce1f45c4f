use bao::encode::encode;
use bao::simple::DecodeError;
use bao::slice::{decode_slice, slice_extract};

fn content(n: usize) -> Vec<u8> {
    (0..n).map(|i| (i % 241) as u8).collect()
}

#[test]
fn slice_of_one_byte_in_unbalanced_tree() {
    let input = vec![0u8; 8193];
    let (encoded, root) = encode(&input);
    let slice = slice_extract(&encoded, 4096, 1).unwrap();
    assert_eq!(slice.len(), 8 + 64 + 64 + 4096);
    assert_eq!(&slice[..72], &encoded[..72]);
    assert_eq!(&slice[72..136], &encoded[72..136]);
    assert_eq!(&slice[136..], &encoded[4232..8328]);
    assert_eq!(decode_slice(&slice, &root, 4096, 1), Ok(vec![0u8]));
}

#[test]
fn tampered_last_chunk_fails_only_its_slice() {
    let input = vec![0u8; 8193];
    let (mut encoded, root) = encode(&input);
    *encoded.last_mut().unwrap() ^= 1;
    let first = slice_extract(&encoded, 0, 4096).unwrap();
    assert_eq!(decode_slice(&first, &root, 0, 4096), Ok(vec![0u8; 4096]));
    let second = slice_extract(&encoded, 4096, 4096).unwrap();
    assert_eq!(decode_slice(&second, &root, 4096, 4096), Ok(vec![0u8; 4096]));
    let third = slice_extract(&encoded, 8192, 1).unwrap();
    assert_eq!(decode_slice(&third, &root, 8192, 1), Err(DecodeError::Mismatch));
}

#[test]
fn slices_give_back_their_ranges() {
    for &n in &[0usize, 1, 4096, 4097, 8192, 12289, 65537] {
        let input = content(n);
        let (encoded, root) = encode(&input);
        for &(start, len) in &[(0usize, 1usize), (0, n), (n / 2, 1), (n / 3, 5000), (4095, 2)] {
            if start + len > n {
                continue;
            }
            let slice = slice_extract(&encoded, start as u64, len as u64).unwrap();
            assert!(slice.len() <= encoded.len());
            let out = decode_slice(&slice, &root, start as u64, len as u64).unwrap();
            assert_eq!(out, &input[start..start + len], "n {} start {} len {}", n, start, len);
        }
    }
}

#[test]
fn slice_past_the_end_is_clamped() {
    let input = content(10000);
    let (encoded, root) = encode(&input);
    let slice = slice_extract(&encoded, 9000, 5000).unwrap();
    assert_eq!(decode_slice(&slice, &root, 9000, 5000), Ok(input[9000..].to_vec()));
}

#[test]
fn slice_starting_past_the_end_is_empty_but_verified() {
    let input = content(10000);
    let (encoded, root) = encode(&input);
    let slice = slice_extract(&encoded, 20000, 10).unwrap();
    assert!(slice.len() > 8);
    assert_eq!(decode_slice(&slice, &root, 20000, 10), Ok(Vec::new()));
    let mut wrong_root = root;
    wrong_root[0] ^= 1;
    assert_eq!(decode_slice(&slice, &wrong_root, 20000, 10), Err(DecodeError::Mismatch));
}

#[test]
fn whole_slice_equals_encoding() {
    let input = content(12289);
    let (encoded, _) = encode(&input);
    assert_eq!(slice_extract(&encoded, 0, 12289).unwrap(), encoded);
}

#[test]
fn slice_with_other_range_fails() {
    let input = content(3 * 4096);
    let (encoded, root) = encode(&input);
    let slice = slice_extract(&encoded, 0, 10).unwrap();
    assert!(decode_slice(&slice, &root, 8192, 10).is_err());
}

#[test]
fn truncated_encoding_cannot_be_sliced() {
    let (encoded, _) = encode(&content(5000));
    assert_eq!(slice_extract(&encoded[..100], 0, 1), Err(DecodeError::Mismatch));
    assert_eq!(slice_extract(&encoded[..4], 0, 1), Err(DecodeError::Mismatch));
}
