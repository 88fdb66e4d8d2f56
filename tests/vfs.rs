use gato::hashing::to_hex;
use gato::merge::{decide, MergeChoice};
use gato::repo::commit;
use gato::staging::{add_all, StagedFile};
use gato::index::Index;
use gato::store::{ObjectStore, Refs};
use gato::tree::Tree;
use gato::vfs::{GatoFS, TreeNode, TreeNodes, VFSError, DIR_PERM, DIR_SIZE, FILE_PERM};
use gato::tree::TreeEntry;

fn setup() -> (ObjectStore, Tree) {
    let mut store = ObjectStore::new();
    let mut refs = Refs::setup("master".to_string());
    let files = vec![
        StagedFile { path: vec!["hello.txt".to_string()], content: b"hello world".to_vec(), mtime: 0, mode: 0 },
        StagedFile {
            path: vec!["dir".to_string(), "inner.txt".to_string()],
            content: b"inner".to_vec(),
            mtime: 0,
            mode: 0,
        },
    ];
    let mut index = Index::new();
    add_all(&mut store, &mut index, &files, &None);
    let c = commit(&mut store, &mut refs, &index, &"ann".to_string(), &None, "m".to_string());
    let root = Tree::load(&to_hex(&c.tree_hash()), &store).unwrap();
    (store, root)
}

#[test]
fn root_is_inode_one() {
    let (store, root) = setup();
    let fs = GatoFS::new(&root);
    assert_eq!(fs.next, 2);
    assert_eq!(fs.inodes.data.len(), 1);
    assert_eq!(fs.inodes.data[0].entry.name(), ".");
    let attr = fs.getattr(1, &store, &None).unwrap();
    assert!(attr.is_dir);
    assert_eq!(attr.size, DIR_SIZE);
    assert_eq!(attr.perm, DIR_PERM);
    assert_eq!(attr.nlink, 2);
    assert_eq!(fs.getattr(9, &store, &None), Err(VFSError::NodeNotLoaded));
}

#[test]
fn readdir_loads_children_once() {
    let (store, root) = setup();
    let mut fs = GatoFS::new(&root);
    let listing = fs.readdir(1, &store);
    let names: Vec<String> = listing.iter().map(|e| e.2.clone()).collect();
    assert_eq!(names, vec!["..".to_string(), "hello.txt".to_string(), "dir".to_string()]);
    assert_eq!(listing[1].0, 2);
    assert!(!listing[1].1);
    assert!(listing[2].1);
    assert_eq!(fs.inodes.data.len(), 3);
    fs.readdir(1, &store);
    assert_eq!(fs.inodes.data.len(), 3);
    let sub = fs.readdir(3, &store);
    let names: Vec<String> = sub.iter().map(|e| e.2.clone()).collect();
    assert_eq!(names, vec![".".to_string(), "..".to_string(), "inner.txt".to_string()]);
    assert_eq!(sub[1].0, 1);
    let attr = fs.lookup(3, &"inner.txt".to_string(), &store, &None).unwrap();
    assert_eq!(attr.size, 5);
    assert_eq!(attr.perm, FILE_PERM);
    assert_eq!(attr.nlink, 1);
    assert!(fs.lookup(1, &"nope".to_string(), &store, &None).is_err());
}

#[test]
fn reads_are_cut_at_the_end_of_the_file() {
    let (store, root) = setup();
    let mut fs = GatoFS::new(&root);
    fs.readdir(1, &store);
    assert_eq!(fs.read(2, 0, 5, &store, &None).unwrap(), b"hello".to_vec());
    assert_eq!(fs.read(2, 6, 100, &store, &None).unwrap(), b"world".to_vec());
    assert_eq!(fs.read(2, 50, 10, &store, &None).unwrap(), Vec::<u8>::new());
    assert_eq!(fs.read(3, 0, 10, &store, &None), Err(VFSError::NotAFile));
    assert_eq!(fs.read(42, 0, 10, &store, &None), Err(VFSError::NodeNotLoaded));
}

#[test]
fn node_table_operations() {
    let mut nodes = TreeNodes::new();
    nodes.add_entry(TreeNode::new(1, 1, TreeEntry::Tree(".".to_string(), vec![0])));
    nodes.add_entries(vec![
        TreeNode::new(2, 1, TreeEntry::Blob("a".to_string(), vec![1])),
        TreeNode::new(3, 1, TreeEntry::Blob("b".to_string(), vec![2])),
    ]);
    assert_eq!(nodes.find_with_name(1, &"b".to_string()).unwrap().inode, 3);
    assert!(nodes.find_with_name(2, &"b".to_string()).is_err());
    assert!(nodes.get_node(2).unwrap().is_file());
    assert_eq!(nodes.get_by_parent(1).len(), 3);
    let mut n = nodes.get_node(3).unwrap();
    let old = n.replace_entry(TreeEntry::Blob("c".to_string(), vec![9]));
    assert_eq!(old.name(), "b");
    nodes.replace_node(n).unwrap();
    assert_eq!(nodes.get_node(3).unwrap().entry.name(), "c");
    assert_eq!(nodes.replace_node(TreeNode::new(8, 1, TreeEntry::Blob("x".to_string(), vec![]))), Err(VFSError::NodeNotLoaded));
}

#[test]
fn merge_decisions() {
    let s = |x: &str| Some(x.to_string());
    assert_eq!(decide(&s("b"), &s("c"), &s("c")), MergeChoice::KeepCurrent);
    assert_eq!(decide(&None, &None, &None), MergeChoice::KeepCurrent);
    assert_eq!(decide(&s("b"), &s("b"), &s("t")), MergeChoice::TakeTarget);
    assert_eq!(decide(&None, &None, &s("t")), MergeChoice::TakeTarget);
    assert_eq!(decide(&s("b"), &s("c"), &s("b")), MergeChoice::KeepCurrent);
    assert_eq!(decide(&s("b"), &None, &s("b")), MergeChoice::KeepCurrent);
    assert_eq!(decide(&s("b"), &s("c"), &s("t")), MergeChoice::BothChanged);
    assert_eq!(decide(&None, &s("c"), &s("t")), MergeChoice::BothChanged);
}

#[test]
fn chunked_files_report_their_length_and_refuse_reads() {
    let mut store = ObjectStore::new();
    let mut refs = Refs::setup("master".to_string());
    let data: Vec<u8> = (0..(gato::staging::SMALL_FILE_LIMIT + 10)).map(|i| (i % 241) as u8).collect();
    let files = vec![StagedFile { path: vec!["big".to_string()], content: data.clone(), mtime: 0, mode: 0 }];
    let mut index = Index::new();
    add_all(&mut store, &mut index, &files, &None);
    let c = commit(&mut store, &mut refs, &index, &"ann".to_string(), &None, "m".to_string());
    let root = Tree::load(&to_hex(&c.tree_hash()), &store).unwrap();
    let mut fs = GatoFS::new(&root);
    fs.readdir(1, &store);
    let attr = fs.getattr(2, &store, &None).unwrap();
    assert_eq!(attr.size, data.len() as u64);
    assert_eq!(fs.read(2, 0, 10, &store, &None), Err(VFSError::ChunkedBlob));
}
