use gato::builder::create_from_index;
use gato::hashing::{compute_hash, to_hex};
use gato::index::{Index, IndexEntry};
use gato::repo::{commit, verify_commit};
use gato::staging::{add_all, add_as_chunk, file_hash, FileStatus, StagedFile, SMALL_FILE_LIMIT};
use gato::store::{ObjectStore, Refs};

fn file(path: &str, content: &[u8]) -> StagedFile {
    StagedFile {
        path: path.split('/').map(|s| s.to_string()).collect(),
        content: content.to_vec(),
        mtime: 7,
        mode: 0o755,
    }
}

#[test]
fn index_round_trips_through_its_encoding() {
    let mut store = ObjectStore::new();
    let mut index = Index::new();
    add_all(&mut store, &mut index, &vec![file("z", b"1"), file("a/b", b"2")], &None);
    let bytes = index.encode();
    let back = Index::decode(&bytes).unwrap();
    assert_eq!(back.encode(), bytes);
    assert_eq!(back.entries.len(), 2);
    assert_eq!(back.entries[0].0, vec!["a".to_string(), "b".to_string()]);
    assert_eq!(back.entries[1].1.mtime, 7);
    assert_eq!(back.entries[1].1.mode, 0o755);
    assert_eq!(back.dependencies, index.dependencies);
    let mut bad = bytes.clone();
    bad.push(0);
    assert!(Index::decode(&bad).is_none());
    assert!(Index::decode(&[]).is_none());
}

#[test]
fn index_out_of_order_is_rejected() {
    let entry = |h: u8| IndexEntry { hash: vec![h], size: 1, mtime: 0, mode: 0 };
    let unsorted = Index {
        entries: vec![(vec!["b".to_string()], entry(1)), (vec!["a".to_string()], entry(2))],
        dependencies: vec![],
    };
    assert!(Index::decode(&unsorted.encode()).is_none());
    let empty = Index::new();
    assert_eq!(Index::decode(&empty.encode()).unwrap().entries.len(), 0);
}

#[test]
fn root_hash_depends_on_entries_only() {
    let mut s1 = ObjectStore::new();
    let mut s2 = ObjectStore::new();
    let mut i1 = Index::new();
    let mut i2 = Index::new();
    add_all(&mut s1, &mut i1, &vec![file("a/x", b"1"), file("b", b"2"), file("a/y/z", b"3")], &None);
    add_all(&mut s2, &mut i2, &vec![file("a/y/z", b"3"), file("b", b"2"), file("a/x", b"1")], &None);
    let (r1, _) = create_from_index(&i1, &mut s1);
    let (r2, deps2) = create_from_index(&i2, &mut s2);
    assert_eq!(r1, r2);
    let (again, _) = create_from_index(&i1, &mut s1);
    assert_eq!(again, r1);
    assert_eq!(deps2.len(), 3 + 3);
    assert_eq!(deps2.last().unwrap(), &to_hex(&r2));
}

#[test]
fn dry_hash_matches_staging() {
    assert_eq!(file_hash(b"abc"), compute_hash(b"abc"));
    let data: Vec<u8> = (0..(SMALL_FILE_LIMIT + 1)).map(|i| (i % 253) as u8).collect();
    let mut store = ObjectStore::new();
    let (outer, _) = add_as_chunk(&mut store, &data, &None);
    assert_eq!(file_hash(&data), outer);
    assert_ne!(file_hash(&data), compute_hash(&data));
}

#[test]
fn file_status_classification() {
    let p = vec!["a".to_string()];
    let deps = vec!["aa".to_string()];
    assert_eq!(
        FileStatus::from(p.clone(), &deps, None, &"aa".to_string()),
        FileStatus::UntrackedFiles { path: p.clone() }
    );
    assert_eq!(FileStatus::from(p.clone(), &deps, Some("bb".to_string()), &"aa".to_string()), FileStatus::Unmodified);
    assert_eq!(
        FileStatus::from(p.clone(), &deps, Some("cc".to_string()), &"cc".to_string()),
        FileStatus::ToBeCommited { path: p.clone() }
    );
    assert_eq!(
        FileStatus::from(p.clone(), &deps, Some("cc".to_string()), &"dd".to_string()),
        FileStatus::NotStagedForCommit { path: p }
    );
}

#[test]
fn commit_verification_detects_missing_objects() {
    let mut store = ObjectStore::new();
    let mut refs = Refs::setup("master".to_string());
    let mut index = Index::new();
    let data: Vec<u8> = (0..(SMALL_FILE_LIMIT + 5)).map(|i| (i * 7 % 256) as u8).collect();
    add_all(&mut store, &mut index, &vec![file("small", b"s"), file("big", &data)], &None);
    let c = commit(&mut store, &mut refs, &index, &"ann".to_string(), &None, "m".to_string());
    assert!(verify_commit(&c, &store, &None));
    store.remove(&to_hex(&compute_hash(b"s")));
    assert!(!verify_commit(&c, &store, &None));
}
