use gato::commit::Commit;
use gato::config::{is_ignored, Config};
use gato::error::GatoError;
use gato::gc::Gc;
use gato::hashing::{compute_hash, to_hex};
use gato::index::Index;
use gato::repo::{commit, merge, soft_reset};
use gato::staging::{add_all, add_as_chunk, add_file, StagedFile, SMALL_FILE_LIMIT};
use gato::store::{ObjectStore, Refs, StorageError};
use gato::tree::{Tree, TreeEntry};

fn file(path: &str, content: &[u8]) -> StagedFile {
    StagedFile {
        path: path.split('/').map(|s| s.to_string()).collect(),
        content: content.to_vec(),
        mtime: 0,
        mode: 0o644,
    }
}

fn stage(store: &mut ObjectStore, files: Vec<StagedFile>) -> Index {
    let mut index = Index::new();
    add_all(store, &mut index, &files, &None);
    index
}

fn commit_files(store: &mut ObjectStore, refs: &mut Refs, files: Vec<StagedFile>, msg: &str) -> Commit {
    let index = stage(store, files);
    commit(store, refs, &index, &"ann".to_string(), &None, msg.to_string())
}

fn tip(refs: &Refs) -> String {
    to_hex(&refs.active_tip().unwrap())
}

fn tree_of(store: &ObjectStore, c: &Commit) -> Tree {
    Tree::load(&to_hex(&c.tree_hash()), store).unwrap()
}

fn files_of(store: &ObjectStore, c: &Commit) -> Vec<(Vec<String>, Vec<u8>)> {
    c.write_tree(store, &None).unwrap()
}

#[test]
fn first_commit_has_one_blob_one_tree_and_no_parent() {
    let mut store = ObjectStore::new();
    let mut refs = Refs::setup("master".to_string());
    let c = commit_files(&mut store, &mut refs, vec![file("a.txt", b"hello\n")], "m1");
    assert_eq!(store.objects.rows.len(), 3);
    match &c {
        Commit::V1 { parent_hash, message, .. } => {
            assert!(parent_hash.is_none());
            assert_eq!(message, "m1");
        }
        _ => panic!("a plain commit"),
    }
    assert_eq!(refs.read_ref(&"master".to_string()).unwrap(), c.hash());
    let tree = tree_of(&store, &c);
    assert_eq!(tree.name, "root");
    assert_eq!(tree.entries.len(), 1);
    match &tree.entries[0] {
        TreeEntry::Blob(n, h) => {
            assert_eq!(n, "a.txt");
            assert_eq!(*h, compute_hash(b"hello\n"));
        }
        _ => panic!("a file entry"),
    }
    let stored = Commit::load(&tip(&refs), &store).unwrap();
    assert_eq!(stored.encode(), c.encode());
}

#[test]
fn second_commit_points_at_the_first() {
    let mut store = ObjectStore::new();
    let mut refs = Refs::setup("master".to_string());
    let m1 = commit_files(&mut store, &mut refs, vec![file("a.txt", b"hello\n")], "m1");
    let m2 = commit_files(&mut store, &mut refs, vec![file("a.txt", b"hello\nworld\n")], "m2");
    assert_eq!(store.objects.rows.len(), 6);
    assert_ne!(m1.tree_hash(), m2.tree_hash());
    assert_eq!(m2.parent_hash(), Some(to_hex(&m1.hash())));
    assert!(store.exist(&to_hex(&compute_hash(b"hello\nworld\n"))));
    assert_eq!(Commit::get_hash_from_index(1, &refs, &store), Some(to_hex(&m1.hash())));
    assert_eq!(Commit::get_hash_from_index(2, &refs, &store), None);
    assert_eq!(Commit::parents_hashes(&tip(&refs), &store).unwrap(), vec![to_hex(&m1.hash())]);
}

#[test]
fn checkout_writes_only_the_tree_of_the_commit() {
    let mut store = ObjectStore::new();
    let mut refs = Refs::setup("master".to_string());
    let m1 = commit_files(&mut store, &mut refs, vec![file("a.txt", b"hello\n")], "m1");
    refs.new_branch("b".to_string()).unwrap();
    refs.change_branch("b".to_string());
    commit_files(&mut store, &mut refs, vec![file("b.txt", b"x")], "m3");
    refs.change_branch("master".to_string());
    let master = Commit::load(&tip(&refs), &store).unwrap();
    assert_eq!(master.hash(), m1.hash());
    let files = files_of(&store, &master);
    assert_eq!(files, vec![(vec!["a.txt".to_string()], b"hello\n".to_vec())]);
}

#[test]
fn merge_takes_each_side_that_changed() {
    let mut store = ObjectStore::new();
    let mut refs = Refs::setup("master".to_string());
    commit_files(&mut store, &mut refs, vec![file("a.txt", b"hello\n")], "m1");
    refs.new_branch("b".to_string()).unwrap();
    let m2 = commit_files(&mut store, &mut refs, vec![file("a.txt", b"hello\nworld\n")], "m2");
    refs.change_branch("b".to_string());
    let on_b = commit_files(
        &mut store,
        &mut refs,
        vec![file("a.txt", b"hello\n"), file("b.txt", b"x")],
        "on b",
    );
    refs.change_branch("master".to_string());
    let (c, conflicts) =
        merge(&mut store, &mut refs, &"b".to_string(), "merge b".to_string(), &"ann".to_string(), &None, &None)
            .unwrap();
    assert!(conflicts.is_empty());
    match &c {
        Commit::MergedCommitV1 { parent_hash1, parent_hash2, .. } => {
            assert_eq!(*parent_hash1, m2.hash());
            assert_eq!(*parent_hash2, on_b.hash());
        }
        _ => panic!("a merged commit"),
    }
    assert_eq!(refs.active_tip().unwrap(), c.hash());
    let mut files = files_of(&store, &c);
    files.sort();
    assert_eq!(
        files,
        vec![
            (vec!["a.txt".to_string()], b"hello\nworld\n".to_vec()),
            (vec!["b.txt".to_string()], b"x".to_vec()),
        ]
    );
}

#[test]
fn conflicting_edits_are_marked_and_committed() {
    let mut store = ObjectStore::new();
    let mut refs = Refs::setup("master".to_string());
    commit_files(&mut store, &mut refs, vec![file("a.txt", b"1\n2\n3\n")], "base");
    refs.new_branch("b".to_string()).unwrap();
    commit_files(&mut store, &mut refs, vec![file("a.txt", b"1\nC\n3\n")], "current");
    refs.change_branch("b".to_string());
    commit_files(&mut store, &mut refs, vec![file("a.txt", b"1\nT\n3\n")], "target");
    refs.change_branch("master".to_string());
    let (c, conflicts) =
        merge(&mut store, &mut refs, &"b".to_string(), "merge".to_string(), &"ann".to_string(), &None, &None)
            .unwrap();
    assert_eq!(conflicts, vec!["a.txt".to_string()]);
    let files = files_of(&store, &c);
    assert_eq!(files.len(), 1);
    let text = String::from_utf8(files[0].1.clone()).unwrap();
    assert!(text.starts_with("1\n<<<<<<<"));
    assert!(text.contains("C\n"));
    assert!(text.contains("T\n"));
    assert!(text.contains(">>>>>>>"));
    assert!(text.ends_with("3\n"));
}

#[test]
fn gc_keeps_what_the_remaining_repository_reaches() {
    let mut store = ObjectStore::new();
    let mut r1 = Refs::setup("master".to_string());
    let mut r2 = Refs::setup("master".to_string());
    let c1 = commit_files(&mut store, &mut r1, vec![file("one.txt", b"only in one")], "one");
    let c2 = commit_files(
        &mut store,
        &mut r2,
        vec![file("two.txt", b"only in two"), file("d/shared.txt", b"shared")],
        "two",
    );
    let before = store.objects.rows.len();
    assert_eq!(before, 8);
    let gc = Gc::new(vec![r2]);
    gc.collect(&mut store, false).unwrap();
    assert!(!store.exist(&to_hex(&c1.hash())));
    assert!(!store.exist(&to_hex(&c1.tree_hash())));
    assert!(!store.exist(&to_hex(&compute_hash(b"only in one"))));
    assert!(store.exist(&to_hex(&c2.hash())));
    assert!(store.exist(&to_hex(&c2.tree_hash())));
    assert!(store.exist(&to_hex(&compute_hash(b"only in two"))));
    assert!(store.exist(&to_hex(&compute_hash(b"shared"))));
    assert_eq!(store.objects.rows.len(), 5);
    assert_eq!(files_of(&store, &c2).len(), 2);
}

#[test]
fn gc_is_refused_while_files_are_staged() {
    let mut store = ObjectStore::new();
    let mut refs = Refs::setup("master".to_string());
    commit_files(&mut store, &mut refs, vec![file("a.txt", b"a")], "m");
    let n = store.objects.rows.len();
    let gc = Gc::new(vec![refs]);
    assert_eq!(gc.collect(&mut store, true), Err(GatoError::GcError));
    assert_eq!(store.objects.rows.len(), n);
}

#[test]
fn commit_checkout_commit_gives_the_same_tree() {
    let mut store = ObjectStore::new();
    let mut refs = Refs::setup("master".to_string());
    let c1 = commit_files(
        &mut store,
        &mut refs,
        vec![file("src/main.rs", b"fn main() {}\n"), file("README", b"hi"), file("src/x/y.rs", b"")],
        "one",
    );
    let files = files_of(&store, &c1);
    assert_eq!(files.len(), 3);
    let restaged: Vec<StagedFile> = files
        .into_iter()
        .map(|(path, content)| StagedFile { path, content, mtime: 9, mode: 0o600 })
        .collect();
    let c2 = commit_files(&mut store, &mut refs, restaged, "two");
    assert_eq!(c1.tree_hash(), c2.tree_hash());
}

#[test]
fn merging_a_branch_with_the_same_tip_keeps_the_tree() {
    let mut store = ObjectStore::new();
    let mut refs = Refs::setup("master".to_string());
    commit_files(&mut store, &mut refs, vec![file("a.txt", b"1")], "m1");
    let m2 = commit_files(&mut store, &mut refs, vec![file("a.txt", b"2"), file("d/b", b"3")], "m2");
    refs.new_branch("same".to_string()).unwrap();
    let (c, conflicts) =
        merge(&mut store, &mut refs, &"same".to_string(), "noop".to_string(), &"ann".to_string(), &None, &None)
            .unwrap();
    assert!(conflicts.is_empty());
    assert_eq!(c.tree_hash(), m2.tree_hash());
}

#[test]
fn merge_without_common_base_is_refused() {
    let mut store = ObjectStore::new();
    let mut refs = Refs::setup("master".to_string());
    commit_files(&mut store, &mut refs, vec![file("a.txt", b"1")], "m1");
    refs.change_branch("other".to_string());
    commit_files(&mut store, &mut refs, vec![file("b.txt", b"2")], "o1");
    refs.change_branch("master".to_string());
    let r = merge(&mut store, &mut refs, &"other".to_string(), "m".to_string(), &"ann".to_string(), &None, &None);
    assert!(matches!(r, Err(GatoError::NoCommonBase)));
    let r = merge(&mut store, &mut refs, &"missing".to_string(), "m".to_string(), &"ann".to_string(), &None, &None);
    assert!(matches!(r, Err(GatoError::Storage(StorageError::ReadError))));
}

#[test]
fn empty_index_commits_an_empty_root() {
    let mut store = ObjectStore::new();
    let mut refs = Refs::setup("master".to_string());
    let c = commit(&mut store, &mut refs, &Index::new(), &"ann".to_string(), &None, "empty".to_string());
    assert_eq!(c.tree_hash(), Tree::new("root".to_string()).hash());
    let tree = tree_of(&store, &c);
    assert!(tree.entries.is_empty());
    assert!(c.parent_hash().is_none());
}

#[test]
fn small_file_is_stored_once() {
    let mut store = ObjectStore::new();
    let (h, deps) = add_file(&mut store, b"data", &None);
    assert_eq!(h, compute_hash(b"data"));
    assert_eq!(deps, vec![to_hex(&h)]);
    assert_eq!(store.objects.rows.len(), 1);
    let again = add_file(&mut store, b"data", &None);
    assert_eq!(again.0, h);
    assert_eq!(store.objects.rows.len(), 1);
    add_file(&mut store, b"other", &None);
    assert_eq!(store.objects.rows.len(), 2);
}

#[test]
fn file_of_exactly_eight_mib_takes_the_small_path() {
    let mut store = ObjectStore::new();
    let data = vec![5u8; SMALL_FILE_LIMIT];
    let index = stage(&mut store, vec![file("big.bin", &data)]);
    assert_eq!(index.entries[0].1.hash, compute_hash(&data));
    assert_eq!(index.entries[0].1.size, SMALL_FILE_LIMIT as u64);
    assert_eq!(store.objects.rows.len(), 1);
}

#[test]
fn large_file_is_chunked_and_restaged_for_free() {
    let mut store = ObjectStore::new();
    let data: Vec<u8> = (0..(SMALL_FILE_LIMIT + 3 * 1024 * 1024))
        .map(|i| ((i * 2654435761usize) >> 13) as u8)
        .collect();
    let (outer, deps) = add_as_chunk(&mut store, &data, &None);
    assert!(deps.len() >= 3);
    assert_eq!(deps.last().unwrap(), &to_hex(&outer));
    let n = store.objects.rows.len();
    assert!(n <= deps.len());
    let (outer2, deps2) = add_as_chunk(&mut store, &data, &None);
    assert_eq!(outer2, outer);
    assert_eq!(deps2, deps);
    assert_eq!(store.objects.rows.len(), n);
    let mut refs = Refs::setup("master".to_string());
    let c = commit_files(&mut store, &mut refs, vec![file("big.bin", &data)], "big");
    assert_eq!(files_of(&store, &c), vec![(vec!["big.bin".to_string()], data)]);
}

#[test]
fn index_entries_stay_sorted_and_unique() {
    let mut store = ObjectStore::new();
    let index = stage(
        &mut store,
        vec![file("b", b"1"), file("a/z", b"2"), file("a-b", b"3"), file("b", b"4")],
    );
    let paths: Vec<Vec<String>> = index.entries.iter().map(|e| e.0.clone()).collect();
    assert_eq!(
        paths,
        vec![
            vec!["a".to_string(), "z".to_string()],
            vec!["a-b".to_string()],
            vec!["b".to_string()],
        ]
    );
    assert_eq!(index.entries[2].1.hash, compute_hash(b"4"));
    assert!(index.get_entry(&vec!["a-b".to_string()]).is_some());
    assert!(index.get_entry(&vec!["a".to_string()]).is_none());
    assert_eq!(index.dependencies.len(), 4);
}

#[test]
fn branches_and_resets() {
    let mut store = ObjectStore::new();
    let mut refs = Refs::setup("master".to_string());
    assert_eq!(refs.new_branch("b".to_string()), Err(StorageError::ReadError));
    let m1 = commit_files(&mut store, &mut refs, vec![file("a", b"1")], "m1");
    commit_files(&mut store, &mut refs, vec![file("a", b"2")], "m2");
    refs.new_branch("b".to_string()).unwrap();
    let mut names = refs.list_branches();
    names.sort();
    assert_eq!(names, vec!["b".to_string(), "master".to_string()]);
    assert_eq!(refs.delete_branch(&"master".to_string()), Err(GatoError::ActiveBranchDeletionError));
    assert_eq!(refs.delete_branch(&"b".to_string()), Ok(()));
    assert_eq!(refs.list_branches(), vec!["master".to_string()]);
    assert!(soft_reset(&mut refs, &store, 1));
    assert_eq!(refs.active_tip().unwrap(), m1.hash());
    assert!(!soft_reset(&mut refs, &store, 5));
    assert_eq!(refs.active_tip().unwrap(), m1.hash());
    assert_eq!(Commit::base(&to_hex(&m1.hash()), &to_hex(&m1.hash()), &store).unwrap(), None);
}

#[test]
fn ignore_rules() {
    let cfg = Config {
        title: "t".to_string(),
        id: "id".to_string(),
        author: "ann".to_string(),
        email: None,
        description: String::new(),
        compression: None,
        ignore: vec!["target".to_string()],
    };
    let ignored = cfg.ignored();
    assert_eq!(ignored, vec!["target".to_string(), ".gato".to_string(), "gato.toml".to_string()]);
    let p = |s: &str| s.split('/').map(|c| c.to_string()).collect::<Vec<String>>();
    assert!(is_ignored(&p("target/debug/x"), &ignored));
    assert!(is_ignored(&p("gato.toml"), &ignored));
    assert!(!is_ignored(&p("src/targets.rs"), &ignored));
}

#[test]
fn file_against_directory_is_a_merge_conflict() {
    let mut store = ObjectStore::new();
    let mut refs = Refs::setup("master".to_string());
    commit_files(&mut store, &mut refs, vec![file("x", b"1")], "base");
    refs.new_branch("b".to_string()).unwrap();
    commit_files(&mut store, &mut refs, vec![file("x", b"2")], "file");
    refs.change_branch("b".to_string());
    commit_files(&mut store, &mut refs, vec![file("x/y", b"3")], "dir");
    refs.change_branch("master".to_string());
    let r = merge(&mut store, &mut refs, &"b".to_string(), "m".to_string(), &"ann".to_string(), &None, &None);
    assert!(matches!(r, Err(GatoError::MergeConflict(n)) if n == "x"));
}
