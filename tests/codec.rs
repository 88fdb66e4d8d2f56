use gato::blob::{Blob, IndexData};
use gato::chunker::{cut, MAX_CHUNK, MIN_CHUNK};
use gato::commit::Commit;
use gato::compression::{compress, decompress, CompressionConfig, CompressionMethod};
use gato::hashing::{compute_hash, hash_hex, to_hex};
use gato::tree::{Tree, TreeEntry};

#[test]
fn blake3_of_empty_input() {
    let h = compute_hash(&[]);
    assert_eq!(h.len(), 32);
    assert_eq!(
        to_hex(&h),
        "af1349b9f5f9a1a6a0404dea36dcc9499bcb25c9adc112b7cc9a93cae41f3262"
    );
    assert_eq!(hash_hex(&[]), to_hex(&h));
}

#[test]
fn hex_is_lowercase_two_digits_per_byte() {
    assert_eq!(to_hex(&[0x00, 0xff, 0x1a]), "00ff1a");
    assert_eq!(to_hex(&[]), "");
}

#[test]
fn zstd_round_trip_by_default() {
    let data = b"hello\nhello\nhello\n".to_vec();
    let c = compress(&data, &None).unwrap();
    assert_ne!(c, data);
    assert_eq!(decompress(&c, &None).unwrap(), data);
}

#[test]
fn zlib_round_trip() {
    let cfg = Some(CompressionConfig { level: None, method: CompressionMethod::Zlib });
    let data: Vec<u8> = (0..5000u32).map(|i| (i % 251) as u8).collect();
    let c = compress(&data, &cfg).unwrap();
    assert_eq!(decompress(&c, &cfg).unwrap(), data);
}

#[test]
fn zstd_level_round_trip_and_empty_input() {
    let cfg = Some(CompressionConfig { level: Some(9), method: CompressionMethod::Zstd });
    let c = compress(&[], &cfg).unwrap();
    assert_eq!(decompress(&c, &cfg).unwrap(), Vec::<u8>::new());
    let data = vec![7u8; 10_000];
    let c = compress(&data, &cfg).unwrap();
    assert!(c.len() < data.len());
    assert_eq!(decompress(&c, &cfg).unwrap(), data);
}

#[test]
fn chunker_on_empty_and_short_input() {
    assert!(cut(&[]).is_empty());
    let data = vec![1u8; 1000];
    assert_eq!(cut(&data), vec![(0, 1000)]);
}

#[test]
fn chunker_on_identical_bytes_respects_bounds() {
    let data = vec![0u8; 20 * 1024 * 1024];
    let ws = cut(&data);
    assert!(ws.len() >= 3);
    let mut next = 0usize;
    for (i, (off, len)) in ws.iter().enumerate() {
        assert_eq!(*off, next);
        assert!(*len <= MAX_CHUNK);
        if i + 1 < ws.len() {
            assert!(*len >= MIN_CHUNK);
        }
        next = off + len;
    }
    assert_eq!(next, data.len());
    assert_eq!(cut(&data), ws);
}

#[test]
fn blob_encoding_is_tagged_and_little_endian() {
    let bytes = Blob::encode_normal(vec![1, 2]);
    assert_eq!(bytes, vec![0, 2, 0, 0, 0, 0, 0, 0, 0, 1, 2]);
    let chunked = Blob::encode_chunked(vec![vec![9]]);
    assert_eq!(chunked, vec![1, 1, 0, 0, 0, 0, 0, 0, 0, 1, 0, 0, 0, 0, 0, 0, 0, 9]);
}

#[test]
fn blob_decoding_round_trips_and_rejects_bad_input() {
    let bytes = Blob::ChunksMap(IndexData { path: vec![vec![1, 2, 3], vec![]] }).encode();
    match Blob::decode(&bytes) {
        Some(Blob::ChunksMap(ix)) => assert_eq!(ix.path, vec![vec![1, 2, 3], vec![]]),
        _ => panic!("expected a chunk list"),
    }
    let normal = Blob::encode_normal(vec![5, 6, 7]);
    match Blob::decode(&normal) {
        Some(Blob::Normal(d)) => assert_eq!(d, vec![5, 6, 7]),
        _ => panic!("expected a normal blob"),
    }
    let mut unknown = normal.clone();
    unknown[0] = 2;
    assert!(Blob::decode(&unknown).is_none());
    let mut trailing = normal.clone();
    trailing.push(0);
    assert!(Blob::decode(&trailing).is_none());
    assert!(Blob::decode(&normal[..5]).is_none());
    assert!(Blob::decode(&[]).is_none());
}

#[test]
fn tree_round_trip_and_lookup() {
    let mut t = Tree::new("root".to_string());
    t.add_entry(TreeEntry::Blob("a.txt".to_string(), vec![1; 32]));
    t.add_entry(TreeEntry::Tree("src".to_string(), vec![2; 32]));
    let bytes = t.encode();
    let back = Tree::decode(&bytes).unwrap();
    assert_eq!(back.name, "root");
    assert_eq!(back.entries.len(), 2);
    assert_eq!(back.encode(), bytes);
    assert_eq!(back.hash(), t.hash());
    assert_eq!(t.get_entry(&"src".to_string()).unwrap().hash(), vec![2; 32]);
    assert!(t.get_entry(&"nope".to_string()).is_none());
    assert_eq!(t.get_entry_hash(&"a.txt".to_string()).unwrap(), "01".repeat(32));
    match t.into_entry() {
        TreeEntry::Tree(n, h) => {
            assert_eq!(n, "root");
            assert_eq!(h, t.hash());
        }
        _ => panic!("a tree becomes a tree entry"),
    }
    let mut bad = bytes.clone();
    bad.push(1);
    assert!(Tree::decode(&bad).is_none());
}

#[test]
fn tree_names_keep_unicode() {
    let mut t = Tree::new("répertoire".to_string());
    t.add_entry(TreeEntry::Blob("日本.txt".to_string(), vec![]));
    let back = Tree::decode(&t.encode()).unwrap();
    assert_eq!(back.name, "répertoire");
    assert_eq!(back.entries[0].name(), "日本.txt");
}

#[test]
fn commit_round_trip_both_variants() {
    let v1 = Commit::V1 {
        message: "m1".to_string(),
        author: "ann".to_string(),
        timestamp: 1_700_000_000,
        email: Some("ann@example.org".to_string()),
        tree_hash: vec![3; 32],
        parent_hash: None,
        dependencies: vec!["ab".to_string(), "cd".to_string()],
    };
    let back = Commit::decode(&v1.encode()).unwrap();
    assert_eq!(back.encode(), v1.encode());
    assert_eq!(back.parent_hash(), None);
    assert_eq!(back.message(), "m1");
    assert_eq!(back.dependices(), vec!["ab".to_string(), "cd".to_string()]);
    let merged = Commit::MergedCommitV1 {
        message: "merge".to_string(),
        author: "ann".to_string(),
        timestamp: 5,
        email: None,
        tree_hash: vec![4; 32],
        parent_hash1: vec![0xab; 32],
        parent_hash2: vec![0xcd; 32],
        dependencies: vec![],
    };
    let back = Commit::decode(&merged.encode()).unwrap();
    assert_eq!(back.parent_hash(), Some("ab".repeat(32)));
    assert_eq!(back.tree_hash(), vec![4; 32]);
    assert_eq!(back.hash(), merged.hash());
    assert_ne!(merged.hash(), v1.hash());
    let mut bad = merged.encode();
    bad[0] = 7;
    assert!(Commit::decode(&bad).is_none());
}
