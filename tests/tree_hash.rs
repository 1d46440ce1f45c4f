use bao::hash::{
    hash, hash_node, hash_recurse, hash_recurse_rayon, largest_power_of_two_leq, left_len,
    parent_hash, Finalization, CHUNK_SIZE,
};
use bao::state::{State, StateFinish, Writer};

const TEST_CASES: &[usize] = &[
    0,
    1,
    10,
    CHUNK_SIZE - 1,
    CHUNK_SIZE,
    CHUNK_SIZE + 1,
    2 * CHUNK_SIZE - 1,
    2 * CHUNK_SIZE,
    2 * CHUNK_SIZE + 1,
    3 * CHUNK_SIZE - 1,
    3 * CHUNK_SIZE,
    3 * CHUNK_SIZE + 1,
    4 * CHUNK_SIZE - 1,
    4 * CHUNK_SIZE,
    4 * CHUNK_SIZE + 1,
    16 * CHUNK_SIZE - 1,
    16 * CHUNK_SIZE,
    16 * CHUNK_SIZE + 1,
];

#[test]
fn test_power_of_two() {
    let input_output = &[
        (0, 1),
        (1, 1),
        (2, 2),
        (3, 2),
        (4, 4),
        (5, 4),
        (6, 4),
        (7, 4),
        (8, 8),
        (0xffffffffffffffff, 0x8000000000000000),
    ];
    for &(input, output) in input_output {
        assert_eq!(
            output,
            largest_power_of_two_leq(input),
            "wrong output for n={}",
            input
        );
    }
}

#[test]
fn test_left_subtree_len() {
    let s = CHUNK_SIZE as u64;
    let input_output = &[(s + 1, s), (2 * s - 1, s), (2 * s, s), (2 * s + 1, 2 * s)];
    for &(input, output) in input_output {
        println!("testing {} and {}", input, output);
        assert_eq!(left_len(input), output);
    }
}

#[test]
fn test_serial_vs_parallel() {
    for &case in TEST_CASES {
        println!("case {}", case);
        let input = vec![0x42; case];
        let hash_serial = hash_recurse(&input, Finalization::Root(case as u64));
        let hash_parallel = hash_recurse_rayon(&input, Finalization::Root(case as u64));
        let hash_highlevel = hash(&input);
        assert_eq!(hash_serial, hash_parallel, "hashes don't match");
        assert_eq!(hash_serial, hash_highlevel, "hashes don't match");
    }
}

fn drive_state(mut input: &[u8]) -> [u8; 32] {
    let mut state = State::new();
    let finalization = if input.len() <= CHUNK_SIZE {
        Finalization::Root(input.len() as u64)
    } else {
        Finalization::NotRoot
    };
    while input.len() > CHUNK_SIZE {
        let hash = hash_node(&input[..CHUNK_SIZE], Finalization::NotRoot);
        state.push_subtree(&hash, CHUNK_SIZE);
        input = &input[CHUNK_SIZE..];
    }
    let hash = hash_node(input, finalization);
    state.push_subtree(&hash, input.len());
    state.finish()
}

#[test]
fn test_state() {
    for &case in TEST_CASES {
        println!("case {}", case);
        let input = vec![0x42; case];
        let expected = hash(&input);
        let found = drive_state(&input);
        assert_eq!(expected, found, "hashes don't match");
    }
}

#[test]
fn test_writer() {
    for &case in TEST_CASES {
        println!("case {}", case);
        let input = vec![0x42; case];
        let expected = hash(&input);

        let mut writer = Writer::new();
        writer.update(&input);
        let found = writer.finish();
        assert_eq!(expected, found, "hashes don't match");
    }
}

#[test]
fn writer_in_uneven_pieces_matches_hash() {
    let input: Vec<u8> = (0..(3 * CHUNK_SIZE + 17)).map(|i| (i % 251) as u8).collect();
    let mut writer = Writer::new();
    for piece in input.chunks(1000) {
        writer.update(piece);
    }
    assert_eq!(writer.finish(), hash(&input));
}

#[test]
fn root_differs_from_interior_hash() {
    let chunk = vec![7u8; 100];
    let root = hash_node(&chunk, Finalization::Root(100));
    let interior = hash_node(&chunk, Finalization::NotRoot);
    assert_ne!(root, interior);
    assert_eq!(root, hash(&chunk));
}

#[test]
fn two_chunk_root_is_parent_of_chunks() {
    let input = vec![0u8; 2 * CHUNK_SIZE];
    let leaf = hash_node(&input[..CHUNK_SIZE], Finalization::NotRoot);
    let root = parent_hash(&leaf, &leaf, Finalization::Root(2 * CHUNK_SIZE as u64));
    assert_eq!(hash(&input), root);
}

#[test]
fn hash_is_deterministic() {
    let input = vec![0x42u8; 5 * CHUNK_SIZE + 3];
    assert_eq!(hash(&input), hash(&input.clone()));
}

#[test]
fn interior_chunk_hash_is_plain_blake2b_256() {
    let expected = "bddd813c634239723171ef3fee98579b94964e3bb1cb3e427262c8c068d52319";
    let found = hash_node(b"abc", Finalization::NotRoot);
    let hex: String = found.iter().map(|b| format!("{:02x}", b)).collect();
    assert_eq!(hex, expected);
}

#[test]
fn state_yields_parent_nodes() {
    use_state_parents();
}

fn use_state_parents() {
    let chunk = vec![1u8; CHUNK_SIZE];
    let leaf = hash_node(&chunk, Finalization::NotRoot);
    let mut state = State::new();
    state.push_subtree(&leaf, CHUNK_SIZE);
    assert!(state.merge_parent().is_none());
    state.push_subtree(&leaf, CHUNK_SIZE);
    let parent = state.merge_parent().expect("two chunks merge");
    assert_eq!(&parent[..32], &leaf);
    assert_eq!(&parent[32..], &leaf);
    assert!(state.merge_parent().is_none());
    let last = hash_node(&[1u8; 5], Finalization::NotRoot);
    state.push_subtree(&last, 5);
    assert_eq!(state.count(), 2 * CHUNK_SIZE as u64 + 5);
    match state.merge_finish() {
        StateFinish::Parent(p) => {
            let left = parent_hash(&leaf, &leaf, Finalization::NotRoot);
            assert_eq!(&p[..32], &left);
            assert_eq!(&p[32..], &last);
        }
        StateFinish::Root(_) => panic!("expected a parent"),
    }
    let mut input = vec![1u8; 2 * CHUNK_SIZE + 5];
    input.truncate(2 * CHUNK_SIZE + 5);
    match state.merge_finish() {
        StateFinish::Root(root) => assert_eq!(root, hash(&input)),
        StateFinish::Parent(_) => panic!("expected the root"),
    }
}
