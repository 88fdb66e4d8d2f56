//! A read-only view of a committed tree as a filesystem: an inode table
//! filled lazily, attributes, directory listings and reads.
use crate::blob::{blob_bytes, Blob, BlobV};
use crate::compression::{compressed_form, decompress, CompressionConfig};
use crate::hashing::{hex_of, to_hex};
use crate::store::ObjectStore;
use crate::tree::{tree_at, Tree, TreeEntry, TreeEntryV};
use vstd::prelude::*;

verus! {

#[derive(Debug, Clone, PartialEq, Eq)]
pub enum VFSError {
    LockPoisoned,
    NodeNotLoaded,
    TreeNotFound(String),
    GatoError(String),
    NotAFile,
    ChunkedBlob,
}

#[derive(Debug, Clone)]
pub struct TreeNode {
    pub entry: TreeEntry,
    pub inode: u64,
    pub parent: u64,
}

pub struct TreeNodeV {
    pub entry: TreeEntryV,
    pub inode: u64,
    pub parent: u64,
}

impl View for TreeNode {
    type V = TreeNodeV;

    open spec fn view(&self) -> TreeNodeV {
        TreeNodeV { entry: self.entry@, inode: self.inode, parent: self.parent }
    }
}

impl TreeNode {
    pub fn new(inode: u64, parent: u64, entry: TreeEntry) -> (r: TreeNode)
        ensures
            r@ == (TreeNodeV { entry: entry@, inode, parent }),
    {
        TreeNode { entry, inode, parent }
    }

    pub fn is_file(&self) -> (r: bool)
        ensures
            r == (self.entry@ is Blob),
    {
        self.entry.is_blob()
    }

    /// Puts `entry` in place and returns the one it replaces.
    pub fn replace_entry(&mut self, entry: TreeEntry) -> (r: TreeEntry)
        ensures
            r@ == old(self).entry@,
            final(self)@ == (TreeNodeV { entry: entry@, ..old(self)@ }),
    {
        let old_entry = self.entry.clone_entry();
        self.entry = entry;
        old_entry
    }

    pub fn clone_node(&self) -> (r: TreeNode)
        ensures
            r@ == self@,
    {
        TreeNode { entry: self.entry.clone_entry(), inode: self.inode, parent: self.parent }
    }
}

pub open spec fn nodes_view(s: Seq<TreeNode>) -> Seq<TreeNodeV> {
    s.map_values(|n: TreeNode| n@)
}

/// The position of the first node satisfying `p`.
pub open spec fn first_index(s: Seq<TreeNodeV>, p: spec_fn(TreeNodeV) -> bool, i: int) -> bool {
    0 <= i < s.len() && p(s[i]) && forall|j: int| 0 <= j < i ==> !p(#[trigger] s[j])
}

/// The inode table.
pub struct TreeNodes {
    pub data: Vec<TreeNode>,
}

impl TreeNodes {
    pub open spec fn nodes(&self) -> Seq<TreeNodeV> {
        nodes_view(self.data@)
    }

    pub fn new() -> (r: TreeNodes)
        ensures
            r.nodes() == Seq::<TreeNodeV>::empty(),
    {
        let r = TreeNodes { data: Vec::new() };
        assert(r.nodes() =~= Seq::<TreeNodeV>::empty());
        r
    }

    pub fn add_entry(&mut self, entry: TreeNode)
        ensures
            final(self).nodes() == old(self).nodes().push(entry@),
    {
        self.data.push(entry);
        assert(self.nodes() =~= old(self).nodes().push(entry@));
    }

    /// Appends every node of `new_nodes`, in order.
    pub fn add_entries(&mut self, new_nodes: Vec<TreeNode>)
        ensures
            final(self).nodes() == old(self).nodes() + nodes_view(new_nodes@),
    {
        let mut i: usize = 0;
        while i < new_nodes.len()
            invariant
                i <= new_nodes@.len(),
                self.nodes() == old(self).nodes() + nodes_view(new_nodes@.subrange(0, i as int)),
            decreases new_nodes@.len() - i,
        {
            let ghost before = self.nodes();
            self.data.push(new_nodes[i].clone_node());
            assert(self.nodes() =~= before.push(new_nodes@[i as int]@));
            assert(nodes_view(new_nodes@.subrange(0, i + 1)) =~= nodes_view(
                new_nodes@.subrange(0, i as int),
            ).push(new_nodes@[i as int]@));
            assert(self.nodes() =~= old(self).nodes() + nodes_view(
                new_nodes@.subrange(0, i + 1),
            ));
            i += 1;
        }
        assert(new_nodes@.subrange(0, i as int) =~= new_nodes@);
    }

    /// The first node under `parent` called `name`.
    pub fn find_with_name(&self, parent: u64, name: &String) -> (r: Result<TreeNode, VFSError>)
        ensures
            match r {
                Ok(n) => exists|i: int|
                    first_index(
                        self.nodes(),
                        |m: TreeNodeV| m.entry.name() == name@ && m.parent == parent,
                        i,
                    ) && self.nodes()[i] == n@,
                Err(e) => e == VFSError::NodeNotLoaded && forall|i: int|
                    0 <= i < self.nodes().len() ==> !(#[trigger] self.nodes()[i].entry.name() == name@
                        && self.nodes()[i].parent == parent),
            },
    {
        let mut i: usize = 0;
        while i < self.data.len()
            invariant
                i <= self.data@.len(),
                forall|j: int|
                    0 <= j < i ==> !(#[trigger] self.nodes()[j].entry.name() == name@
                        && self.nodes()[j].parent == parent),
            decreases self.data@.len() - i,
        {
            assert(self.nodes()[i as int] == self.data@[i as int]@);
            if *self.data[i].entry.name() == *name && self.data[i].parent == parent {
                let n = self.data[i].clone_node();
                assert(first_index(
                    self.nodes(),
                    |m: TreeNodeV| m.entry.name() == name@ && m.parent == parent,
                    i as int,
                ));
                return Ok(n);
            }
            i += 1;
        }
        Err(VFSError::NodeNotLoaded)
    }

    /// The first node with inode `inode`.
    pub fn get_node(&self, inode: u64) -> (r: Result<TreeNode, VFSError>)
        ensures
            match r {
                Ok(n) => exists|i: int|
                    first_index(self.nodes(), |m: TreeNodeV| m.inode == inode, i) && self.nodes()[i]
                        == n@,
                Err(e) => e == VFSError::NodeNotLoaded && forall|i: int|
                    0 <= i < self.nodes().len() ==> #[trigger] self.nodes()[i].inode != inode,
            },
    {
        let mut i: usize = 0;
        while i < self.data.len()
            invariant
                i <= self.data@.len(),
                forall|j: int| 0 <= j < i ==> #[trigger] self.nodes()[j].inode != inode,
            decreases self.data@.len() - i,
        {
            assert(self.nodes()[i as int] == self.data@[i as int]@);
            if self.data[i].inode == inode {
                let n = self.data[i].clone_node();
                assert(first_index(self.nodes(), |m: TreeNodeV| m.inode == inode, i as int));
                return Ok(n);
            }
            i += 1;
        }
        Err(VFSError::NodeNotLoaded)
    }

    /// Replaces the first node that has the same inode as `new_node`.
    pub fn replace_node(&mut self, new_node: TreeNode) -> (r: Result<(), VFSError>)
        ensures
            match r {
                Ok(()) => exists|i: int|
                    first_index(old(self).nodes(), |m: TreeNodeV| m.inode == new_node.inode, i)
                        && final(self).nodes() == old(self).nodes().update(i, new_node@),
                Err(e) => e == VFSError::NodeNotLoaded && final(self).nodes() == old(self).nodes()
                    && forall|i: int|
                    0 <= i < old(self).nodes().len() ==> #[trigger] old(self).nodes()[i].inode
                        != new_node.inode,
            },
    {
        let mut i: usize = 0;
        while i < self.data.len()
            invariant
                i <= self.data@.len(),
                self.data@ == old(self).data@,
                forall|j: int| 0 <= j < i ==> #[trigger] self.nodes()[j].inode != new_node.inode,
            decreases self.data@.len() - i,
        {
            assert(self.nodes()[i as int] == self.data@[i as int]@);
            if self.data[i].inode == new_node.inode {
                assert(first_index(
                    old(self).nodes(),
                    |m: TreeNodeV| m.inode == new_node.inode,
                    i as int,
                ));
                let ghost nv = new_node@;
                self.data.set(i, new_node);
                assert(self.nodes() =~= old(self).nodes().update(i as int, nv));
                return Ok(());
            }
            i += 1;
        }
        Err(VFSError::NodeNotLoaded)
    }

    /// The nodes under `parent`, in table order.
    pub fn get_by_parent(&self, parent: u64) -> (r: Vec<TreeNode>)
        ensures
            nodes_view(r@) == self.nodes().filter(|m: TreeNodeV| m.parent == parent),
    {
        let mut r: Vec<TreeNode> = Vec::new();
        let mut i: usize = 0;
        while i < self.data.len()
            invariant
                i <= self.data@.len(),
                nodes_view(r@) == self.nodes().subrange(0, i as int).filter(
                    |m: TreeNodeV| m.parent == parent,
                ),
            decreases self.data@.len() - i,
        {
            let ghost pre = self.nodes().subrange(0, i as int);
            assert(self.nodes().subrange(0, i + 1).drop_last() =~= pre);
            assert(self.nodes()[i as int] == self.data@[i as int]@);
            let ghost rb = nodes_view(r@);
            if self.data[i].parent == parent {
                r.push(self.data[i].clone_node());
                assert(nodes_view(r@) =~= rb.push(self.nodes()[i as int]));
            }
            proof {
                reveal(Seq::filter);
            }
            assert(nodes_view(r@) =~= self.nodes().subrange(0, i + 1).filter(
                |m: TreeNodeV| m.parent == parent,
            ));
            i += 1;
        }
        assert(self.nodes().subrange(0, i as int) =~= self.nodes());
        r
    }
}

} // verus!

verus! {

/// The attributes reported for a node.
#[derive(Debug, Clone, Copy, PartialEq, Eq, Structural)]
pub struct NodeAttr {
    pub ino: u64,
    pub size: u64,
    pub is_dir: bool,
    pub perm: u16,
    pub nlink: u32,
}

pub const DIR_SIZE: u64 = 4096;

pub const DIR_PERM: u16 = 0o755;

pub const FILE_PERM: u16 = 0o644;

/// The byte window `[offset, offset + size)` of `data`, cut at its end.
pub open spec fn window(data: Seq<u8>, offset: int, size: int) -> Seq<u8> {
    let start = if offset < data.len() { offset } else { data.len() as int };
    let end = if start + size < data.len() { start + size } else { data.len() as int };
    data.subrange(start, end)
}

/// The listing entries as (inode, is a directory, name).
pub open spec fn listing(v: Seq<(u64, bool, String)>) -> Seq<(u64, bool, Seq<char>)> {
    v.map_values(|e: (u64, bool, String)| (e.0, e.1, e.2@))
}

/// The children of `inode` in table order, but not `inode` itself.
pub open spec fn child_listing(nodes: Seq<TreeNodeV>, inode: u64) -> Seq<(u64, bool, Seq<char>)>
    decreases nodes.len(),
{
    if nodes.len() == 0 {
        Seq::empty()
    } else {
        let r = child_listing(nodes.drop_last(), inode);
        let n = nodes.last();
        if n.parent == inode && n.inode != inode {
            r.push((n.inode, n.entry is Tree, n.entry.name()))
        } else {
            r
        }
    }
}

/// The attributes that `make_attr` reports for `node`: a directory's fixed
/// ones; a file's, sized by its uncompressed content when that is stored.
pub open spec fn attr_ok(
    m: Map<Seq<char>, Seq<u8>>,
    cfg: Option<CompressionConfig>,
    node: TreeNodeV,
    r: Result<NodeAttr, VFSError>,
) -> bool {
    &&& node.entry is Tree ==> r == Ok::<NodeAttr, VFSError>(
        NodeAttr { ino: node.inode, size: DIR_SIZE, is_dir: true, perm: DIR_PERM, nlink: 2 },
    )
    &&& node.entry is Blob ==> (r matches Ok(a) ==> a.ino == node.inode && !a.is_dir && a.perm == FILE_PERM
        && a.nlink == 1)
    &&& node.entry is Blob ==> forall|x: Seq<u8>|
        m.contains_key(hex_of(node.entry.hash())) && m[hex_of(node.entry.hash())] == blob_bytes(
            BlobV::Normal(compressed_form(cfg, x)),
        ) ==> (r is Ok && r->Ok_0.size == x.len())
    &&& node.entry is Blob ==> forall|hs: Seq<Seq<u8>>, xs: Seq<Seq<u8>>|
        m.contains_key(hex_of(node.entry.hash())) && m[hex_of(node.entry.hash())] == blob_bytes(
            BlobV::Chunked(hs),
        ) && #[trigger] crate::merge::chunks_stored(m, cfg, hs, xs) ==> (r is Ok && r->Ok_0.size
            == crate::merge::joined(xs).len())
}

/// What `read` gives for `node`: not a file for a directory; the window of
/// a stored `Normal` file; a defined error for a `Chunked` one.
pub open spec fn read_ok(
    m: Map<Seq<char>, Seq<u8>>,
    cfg: Option<CompressionConfig>,
    node: TreeNodeV,
    offset: int,
    size: int,
    r: Result<Vec<u8>, VFSError>,
) -> bool {
    &&& node.entry is Tree ==> r == Err::<Vec<u8>, VFSError>(VFSError::NotAFile)
    &&& node.entry is Blob ==> forall|x: Seq<u8>|
        m.contains_key(hex_of(node.entry.hash())) && m[hex_of(node.entry.hash())] == blob_bytes(
            BlobV::Normal(compressed_form(cfg, x)),
        ) ==> (r is Ok && r->Ok_0@ == window(x, offset, size))
    &&& node.entry is Blob ==> forall|hs: Seq<Seq<u8>>|
        m.contains_key(hex_of(node.entry.hash())) && m[hex_of(node.entry.hash())] == blob_bytes(
            BlobV::Chunked(hs),
        ) ==> r == Err::<Vec<u8>, VFSError>(VFSError::ChunkedBlob)
}

/// `i` is the first position of inode `inode` in `nodes`.
pub open spec fn inode_at(nodes: Seq<TreeNodeV>, inode: u64, i: int) -> bool {
    0 <= i < nodes.len() && nodes[i].inode == inode && forall|j: int| 0 <= j < i ==> nodes[j].inode != inode
}

/// The nodes that loading a directory adds: one per entry of its tree, in
/// order, under `parent`, numbered from `start`.
pub open spec fn child_nodes(es: Seq<TreeEntryV>, parent: u64, start: u64) -> Seq<TreeNodeV> {
    Seq::new(es.len(), |i: int| TreeNodeV { entry: es[i], inode: (start + i) as u64, parent })
}

/// The tree that directory `inode` of `nodes` names, when the node exists
/// and its tree is stored.
pub open spec fn dir_tree(m: Map<Seq<char>, Seq<u8>>, nodes: Seq<TreeNodeV>, inode: u64) -> Option<crate::tree::TreeV> {
    if exists|i: int| #[trigger] inode_at(nodes, inode, i) {
        let i = choose|i: int| #[trigger] inode_at(nodes, inode, i);
        tree_at(m, hex_of(nodes[i].entry.hash()))
    } else {
        None
    }
}

pub struct GatoFS {
    pub inodes: TreeNodes,
    pub next: u64,
    pub loaded: Vec<u64>,
}

/// The content of a `Normal` blob stored under `hash`.
fn normal_content(hash: &String, store: &ObjectStore, cfg: &Option<CompressionConfig>) -> (r: Result<
    Vec<u8>,
    VFSError,
>)
    requires
        store.wf(),
    ensures
        forall|x: Seq<u8>|
            store@.contains_key(hash@) && store@[hash@] == blob_bytes(
                BlobV::Normal(compressed_form(*cfg, x)),
            ) ==> (r is Ok && r->Ok_0@ == x),
        forall|hs: Seq<Seq<u8>>|
            store@.contains_key(hash@) && store@[hash@] == blob_bytes(BlobV::Chunked(hs)) ==> r
                == Err::<Vec<u8>, VFSError>(VFSError::ChunkedBlob),
{
    let bytes = match store.get(hash) {
        Ok(b) => b,
        Err(_) => return Err(VFSError::GatoError("object not found".to_owned())),
    };
    proof {
        assert forall|hs: Seq<Seq<u8>>, x: Seq<u8>|
            bytes@ == blob_bytes(BlobV::Chunked(hs)) implies bytes@ != blob_bytes(BlobV::Normal(x)) by {
            if bytes@ == blob_bytes(BlobV::Normal(x)) {
                assert(blob_bytes(BlobV::Chunked(hs))[0] == 1u8);
                assert(blob_bytes(BlobV::Normal(x))[0] == 0u8);
            }
        }
    }
    match Blob::decode(bytes.as_slice()) {
        Some(Blob::Normal(c)) => match decompress(c.as_slice(), cfg) {
            Some(v) => Ok(v),
            None => Err(VFSError::GatoError("decompression failed".to_owned())),
        },
        Some(Blob::ChunksMap(_)) => Err(VFSError::ChunkedBlob),
        None => Err(VFSError::GatoError("not a blob".to_owned())),
    }
}

impl GatoFS {
    /// Inode numbers handed out so far are below `next`, and `next` starts
    /// after the root's.
    pub open spec fn wf(&self) -> bool {
        &&& self.next >= 2
        &&& forall|i: int| 0 <= i < self.inodes.nodes().len() ==> #[trigger] self.inodes.nodes()[i].inode < self.next
    }

    /// A filesystem whose root, inode 1, is `root_tree` under the name ".".
    pub fn new(root_tree: &Tree) -> (r: GatoFS)
        ensures
            r.inodes.nodes().len() == 1,
            r.inodes.nodes()[0].inode == 1,
            r.inodes.nodes()[0].parent == 1,
            r.inodes.nodes()[0].entry is Tree,
            r.inodes.nodes()[0].entry.name() == seq!['.'],
            r.inodes.nodes()[0].entry.hash() == crate::tree::tree_digest(root_tree@),
            r.next == 2,
            r.loaded@.len() == 0,
            r.wf(),
    {
        let mut root_entry = root_tree.into_entry();
        let dot = ".".to_owned();
        proof {
            reveal_strlit(".");
            assert(dot@ =~= seq!['.']);
        }
        root_entry.change_name(dot);
        let mut inodes = TreeNodes::new();
        inodes.add_entry(TreeNode::new(1, 1, root_entry));
        GatoFS { inodes, next: 2, loaded: Vec::new() }
    }

    /// Hands out a fresh inode number.
    pub fn next_inode(&mut self) -> (r: u64)
        requires
            old(self).next < u64::MAX,
        ensures
            r == old(self).next,
            old(self).wf() ==> r >= 2 && forall|i: int|
                0 <= i < old(self).inodes.nodes().len() ==> #[trigger] old(self).inodes.nodes()[i].inode != r,
            final(self).next == old(self).next + 1,
            final(self).inodes == old(self).inodes,
            final(self).loaded == old(self).loaded,
    {
        let r = self.next;
        self.next = self.next + 1;
        r
    }

    /// Adds the children of directory `inode` to the table, once.
    pub fn load(&mut self, inode: u64, store: &ObjectStore) -> (r: Result<(), VFSError>)
        requires
            store.wf(),
        ensures
            r is Ok ==> crate::gc::listed_u64(final(self).loaded@, inode),
            crate::gc::listed_u64(old(self).loaded@, inode) ==> r is Ok && final(self).inodes.nodes()
                == old(self).inodes.nodes(),
            final(self).inodes.nodes().subrange(0, old(self).inodes.nodes().len() as int) == old(
                self,
            ).inodes.nodes(),
            forall|i: int|
                old(self).inodes.nodes().len() <= i < final(self).inodes.nodes().len() ==> (
                #[trigger] final(self).inodes.nodes()[i]).parent == inode && final(self).inodes.nodes()[i].inode
                    >= old(self).next,
            old(self).wf() ==> final(self).wf(),
            !crate::gc::listed_u64(old(self).loaded@, inode) && r is Ok ==> dir_tree(
                store@,
                old(self).inodes.nodes(),
                inode,
            ) is Some && final(self).inodes.nodes() == old(self).inodes.nodes() + child_nodes(
                dir_tree(store@, old(self).inodes.nodes(), inode)->0.entries,
                inode,
                old(self).next,
            ) && final(self).next == old(self).next + dir_tree(
                store@,
                old(self).inodes.nodes(),
                inode,
            )->0.entries.len(),
            !crate::gc::listed_u64(old(self).loaded@, inode) && dir_tree(store@, old(self).inodes.nodes(), inode) is Some
                && old(self).next + dir_tree(store@, old(self).inodes.nodes(), inode)->0.entries.len()
                < u64::MAX ==> r is Ok,
    {
        if crate::gc::contains_u64(&self.loaded, inode) {
            assert(self.inodes.nodes().subrange(0, self.inodes.nodes().len() as int) =~= self.inodes.nodes());
            return Ok(());
        }
        let node = self.inodes.get_node(inode)?;
        proof {
            let i = choose|i: int| first_index(self.inodes.nodes(), |n: TreeNodeV| n.inode == inode, i) && self.inodes.nodes()[i] == node@;
            assert(inode_at(self.inodes.nodes(), inode, i));
            let i2 = choose|i: int| #[trigger] inode_at(self.inodes.nodes(), inode, i);
            assert(i == i2) by {
                if i < i2 {
                    assert(self.inodes.nodes()[i].inode != inode);
                } else if i2 < i {
                    assert(!((|n: TreeNodeV| n.inode == inode)(self.inodes.nodes()[i2])));
                }
            }
            assert(dir_tree(store@, self.inodes.nodes(), inode) == tree_at(store@, hex_of(node@.entry.hash())));
        }
        let key = to_hex(node.entry.hash().as_slice());
        let tree = match Tree::load(&key, store) {
            Ok(t) => t,
            Err(_) => {
                assert(self.inodes.nodes().subrange(0, self.inodes.nodes().len() as int) =~= self.inodes.nodes());
                return Err(VFSError::TreeNotFound(node.entry.name().clone()));
            },
        };
        let ghost start = self.next;
        let mut nodes: Vec<TreeNode> = Vec::new();
        let mut i: usize = 0;
        while i < tree.entries.len()
            invariant
                i <= tree.entries@.len(),
                self.inodes == old(self).inodes,
                self.loaded == old(self).loaded,
                !crate::gc::listed_u64(old(self).loaded@, inode),
                start == old(self).next,
                start <= self.next,
                self.next == start + i,
                tree_at(store@, key@) == Some(tree@),
                dir_tree(store@, old(self).inodes.nodes(), inode) == Some(tree@),
                forall|j: int| 0 <= j < nodes@.len() ==> (#[trigger] nodes@[j]).parent == inode
                    && nodes@[j].inode >= start,
                nodes_view(nodes@) == child_nodes(tree@.entries.subrange(0, i as int), inode, start),
            decreases tree.entries@.len() - i,
        {
            if self.next == u64::MAX {
                assert(self.inodes.nodes().subrange(0, self.inodes.nodes().len() as int) =~= self.inodes.nodes());
                return Err(VFSError::GatoError("inode numbers exhausted".to_owned()));
            }
            let ino = self.next_inode();
            let ghost nb = nodes_view(nodes@);
            let nd = TreeNode::new(ino, inode, tree.entries[i].clone_entry());
            assert(nd@ == TreeNodeV { entry: tree@.entries[i as int], inode: (start + i) as u64, parent: inode });
            nodes.push(nd);
            assert(nodes_view(nodes@) =~= nb.push(nd@));
            assert(nodes_view(nodes@) =~= child_nodes(tree@.entries.subrange(0, i + 1), inode, start));
            i += 1;
        }
        let ghost before = self.inodes.nodes();
        self.inodes.add_entries(nodes);
        self.loaded.push(inode);
        proof {
            assert(self.inodes.nodes().subrange(0, before.len() as int) =~= before);
            assert(tree@.entries.subrange(0, i as int) =~= tree@.entries);
            assert(self.loaded@[self.loaded@.len() - 1] == inode);
            if old(self).wf() {
                assert forall|k: int| 0 <= k < self.inodes.nodes().len() implies #[trigger] self.inodes.nodes()[k].inode < self.next by {
                    if k < before.len() {
                        assert(self.inodes.nodes()[k] == before[k]);
                    } else {
                        assert(self.inodes.nodes()[k] == nodes_view(nodes@)[k - before.len()]);
                    }
                }
            }
            assert forall|i: int| before.len() <= i < self.inodes.nodes().len() implies (
            #[trigger] self.inodes.nodes()[i]).parent == inode && self.inodes.nodes()[i].inode
                >= old(self).next by {
                assert(self.inodes.nodes()[i] == nodes_view(nodes@)[i - before.len()]);
            }
        }
        Ok(())
    }

    /// The attributes of `node`: directories report 4096 bytes, mode 0o755
    /// and two links; files their uncompressed length, mode 0o644 and one link.
    pub fn make_attr(node: &TreeNode, store: &ObjectStore, cfg: &Option<CompressionConfig>) -> (r:
        Result<NodeAttr, VFSError>)
        requires
            store.wf(),
        ensures
            attr_ok(store@, *cfg, node@, r),
            r matches Ok(a) ==> a.ino == node.inode && a.is_dir == (node.entry@ is Tree),
    {
        match &node.entry {
            TreeEntry::Tree(..) => Ok(
                NodeAttr { ino: node.inode, size: DIR_SIZE, is_dir: true, perm: DIR_PERM, nlink: 2 },
            ),
            TreeEntry::Blob(_, h) => {
                let data = match crate::merge::restore_data(&to_hex(h.as_slice()), store, cfg) {
                    Ok(d) => d,
                    Err(_) => return Err(VFSError::GatoError("file content unavailable".to_owned())),
                };
                Ok(
                    NodeAttr {
                        ino: node.inode,
                        size: data.len() as u64,
                        is_dir: false,
                        perm: FILE_PERM,
                        nlink: 1,
                    },
                )
            },
        }
    }

    pub fn getattr(&self, inode: u64, store: &ObjectStore, cfg: &Option<CompressionConfig>) -> (r:
        Result<NodeAttr, VFSError>)
        requires
            store.wf(),
        ensures
            (forall|i: int|
                0 <= i < self.inodes.nodes().len() ==> #[trigger] self.inodes.nodes()[i].inode
                    != inode) ==> r == Err::<NodeAttr, VFSError>(VFSError::NodeNotLoaded),
            r matches Ok(a) ==> a.ino == inode,
            forall|i: int|
                first_index(self.inodes.nodes(), |m: TreeNodeV| m.inode == inode, i) ==> attr_ok(
                    store@,
                    *cfg,
                    self.inodes.nodes()[i],
                    r,
                ),
    {
        let node = self.inodes.get_node(inode)?;
        GatoFS::make_attr(&node, store, cfg)
    }

    pub fn lookup(&self, parent: u64, name: &String, store: &ObjectStore, cfg: &Option<CompressionConfig>) -> (r:
        Result<NodeAttr, VFSError>)
        requires
            store.wf(),
        ensures
            (forall|i: int|
                0 <= i < self.inodes.nodes().len() ==> !(#[trigger] self.inodes.nodes()[i].entry.name()
                    == name@ && self.inodes.nodes()[i].parent == parent)) ==> r == Err::<
                NodeAttr,
                VFSError,
            >(VFSError::NodeNotLoaded),
            forall|i: int|
                first_index(
                    self.inodes.nodes(),
                    |m: TreeNodeV| m.entry.name() == name@ && m.parent == parent,
                    i,
                ) ==> attr_ok(store@, *cfg, self.inodes.nodes()[i], r),
    {
        let node = self.inodes.find_with_name(parent, name)?;
        GatoFS::make_attr(&node, store, cfg)
    }

    /// The listing of directory `inode`: "." (but for the root), "..", then
    /// its children in table order, each as (inode, is a directory, name).
    /// The root, its own parent, is not listed among its children.
    pub fn readdir(&mut self, inode: u64, store: &ObjectStore) -> (r: Vec<(u64, bool, String)>)
        requires
            store.wf(),
        ensures
            final(self).inodes.nodes().subrange(0, old(self).inodes.nodes().len() as int) == old(
                self,
            ).inodes.nodes(),
            old(self).wf() ==> final(self).wf(),
            r@.len() >= 1,
            inode != 1 ==> r@[0].0 == inode && r@[0].1,
            forall|i: int| #[trigger] inode_at(final(self).inodes.nodes(), inode, i) ==> r@[if inode != 1 { 1int } else { 0int }].0
                == final(self).inodes.nodes()[i].parent,
            (forall|i: int| 0 <= i < final(self).inodes.nodes().len() ==> #[trigger] final(self).inodes.nodes()[i].inode != inode)
                ==> r@[if inode != 1 { 1int } else { 0int }].0 == 1,
            !crate::gc::listed_u64(old(self).loaded@, inode) && dir_tree(store@, old(self).inodes.nodes(), inode) is Some
                && old(self).next + dir_tree(store@, old(self).inodes.nodes(), inode)->0.entries.len()
                < u64::MAX ==> final(self).inodes.nodes() == old(self).inodes.nodes() + child_nodes(
                dir_tree(store@, old(self).inodes.nodes(), inode)->0.entries,
                inode,
                old(self).next,
            ),
            ({
                let k: int = if inode != 1 { 1 } else { 0 };
                &&& r@[k].1
                &&& listing(r@.subrange(k + 1, r@.len() as int)) == child_listing(
                    final(self).inodes.nodes(),
                    inode,
                )
            }),
    {
        let _ = self.load(inode, store);
        let mut parent_ino: u64 = 1;
        if let Ok(n) = self.inodes.get_node(inode) {
            parent_ino = n.parent;
            proof {
                let i = choose|i: int| first_index(self.inodes.nodes(), |m: TreeNodeV| m.inode == inode, i) && self.inodes.nodes()[i] == n@;
                assert(inode_at(self.inodes.nodes(), inode, i));
                assert forall|i2: int| #[trigger] inode_at(self.inodes.nodes(), inode, i2) implies i2 == i by {
                    if i2 < i {
                        assert(!((|m: TreeNodeV| m.inode == inode)(self.inodes.nodes()[i2])));
                    } else if i < i2 {
                        assert(self.inodes.nodes()[i].inode != inode);
                    }
                }
            }
        }
        let mut entries: Vec<(u64, bool, String)> = Vec::new();
        if inode != 1 {
            entries.push((inode, true, ".".to_owned()));
        }
        entries.push((parent_ino, true, "..".to_owned()));
        let ghost k: int = if inode != 1 { 1 } else { 0 };
        let ghost nodes = self.inodes.nodes();
        assert(entries@[k].0 == parent_ino);
        let mut i: usize = 0;
        assert(listing(entries@.subrange(k + 1, entries@.len() as int)) =~= child_listing(
            nodes.subrange(0, 0),
            inode,
        ));
        while i < self.inodes.data.len()
            invariant
                i <= self.inodes.data@.len(),
                nodes == self.inodes.nodes(),
                entries@.len() >= k + 1,
                k == (if inode != 1 { 1int } else { 0int }),
                inode != 1 ==> entries@[0].0 == inode && entries@[0].1,
                entries@[k].1,
                entries@[k].0 == parent_ino,
                listing(entries@.subrange(k + 1, entries@.len() as int)) == child_listing(
                    nodes.subrange(0, i as int),
                    inode,
                ),
            decreases self.inodes.data@.len() - i,
        {
            let ghost before = entries@;
            assert(nodes.subrange(0, i + 1).drop_last() =~= nodes.subrange(0, i as int));
            assert(nodes[i as int] == self.inodes.data@[i as int]@);
            let c = &self.inodes.data[i];
            if c.parent == inode && c.inode != inode {
                entries.push((c.inode, !c.is_file(), c.entry.name().clone()));
                assert(entries@.subrange(k + 1, entries@.len() as int) =~= before.subrange(
                    k + 1,
                    before.len() as int,
                ).push(entries@.last()));
            } else {
                assert(entries@ == before);
            }
            assert(listing(entries@.subrange(k + 1, entries@.len() as int)) =~= child_listing(
                nodes.subrange(0, i + 1),
                inode,
            ));
            i += 1;
        }
        assert(nodes.subrange(0, i as int) =~= nodes);
        entries
    }

    /// Reads `size` bytes at `offset` of file `inode`, cut at its end.
    pub fn read(
        &self,
        inode: u64,
        offset: u64,
        size: u32,
        store: &ObjectStore,
        cfg: &Option<CompressionConfig>,
    ) -> (r: Result<Vec<u8>, VFSError>)
        requires
            store.wf(),
        ensures
            (forall|i: int|
                0 <= i < self.inodes.nodes().len() ==> #[trigger] self.inodes.nodes()[i].inode
                    != inode) ==> r == Err::<Vec<u8>, VFSError>(VFSError::NodeNotLoaded),
            forall|i: int|
                first_index(self.inodes.nodes(), |m: TreeNodeV| m.inode == inode, i) ==> read_ok(
                    store@,
                    *cfg,
                    self.inodes.nodes()[i],
                    offset as int,
                    size as int,
                    r,
                ),
    {
        let node = self.inodes.get_node(inode)?;
        if !node.is_file() {
            return Err(VFSError::NotAFile);
        }
        let data = normal_content(&to_hex(node.entry.hash().as_slice()), store, cfg)?;
        let len = data.len();
        let start: usize = if (offset as u128) < (len as u128) {
            offset as usize
        } else {
            len
        };
        let end: usize = if (start as u128) + (size as u128) < (len as u128) {
            start + size as usize
        } else {
            len
        };
        let out = vstd::slice::slice_to_vec(vstd::slice::slice_subrange(data.as_slice(), start, end));
        Ok(out)
    }
}

} // verus!
