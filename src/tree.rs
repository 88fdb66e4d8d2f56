//! Directory trees: ordered entries naming blobs and subtrees by digest.
use crate::encoding::{
    at, frame, frame_list, lemma_at_all, lemma_at_concat, lemma_at_whole, push_frame,
    push_frame_list, push_str, read_byte, read_frame, read_frame_list, read_str, str_frame,
};
use crate::error::GatoError;
use crate::hashing::{blake3_of, compute_hash, hex_of, object_key, to_hex};
use crate::store::{put_result, ObjectStore};
use vstd::prelude::*;

verus! {

#[derive(Debug, Clone)]
pub enum TreeEntry {
    Blob(String, Vec<u8>),
    Tree(String, Vec<u8>),
}

pub enum TreeEntryV {
    Blob(Seq<char>, Seq<u8>),
    Tree(Seq<char>, Seq<u8>),
}

impl View for TreeEntry {
    type V = TreeEntryV;

    open spec fn view(&self) -> TreeEntryV {
        match self {
            TreeEntry::Blob(n, h) => TreeEntryV::Blob(n@, h@),
            TreeEntry::Tree(n, h) => TreeEntryV::Tree(n@, h@),
        }
    }
}

impl TreeEntryV {
    pub open spec fn tag(self) -> u8 {
        match self {
            TreeEntryV::Blob(..) => 0u8,
            TreeEntryV::Tree(..) => 1u8,
        }
    }

    pub open spec fn name(self) -> Seq<char> {
        match self {
            TreeEntryV::Blob(n, _) => n,
            TreeEntryV::Tree(n, _) => n,
        }
    }

    pub open spec fn hash(self) -> Seq<u8> {
        match self {
            TreeEntryV::Blob(_, h) => h,
            TreeEntryV::Tree(_, h) => h,
        }
    }
}

pub open spec fn entry_bytes(e: TreeEntryV) -> Seq<u8> {
    seq![e.tag()] + str_frame(e.name()) + frame(e.hash())
}

#[derive(Debug, Clone)]
pub struct Tree {
    pub name: String,
    pub entries: Vec<TreeEntry>,
}

pub struct TreeV {
    pub name: Seq<char>,
    pub entries: Seq<TreeEntryV>,
}

pub open spec fn entries_view(es: Seq<TreeEntry>) -> Seq<TreeEntryV> {
    es.map_values(|e: TreeEntry| e@)
}

impl View for Tree {
    type V = TreeV;

    open spec fn view(&self) -> TreeV {
        TreeV { name: self.name@, entries: entries_view(self.entries@) }
    }
}

pub open spec fn entry_list_bytes(es: Seq<TreeEntryV>) -> Seq<Seq<u8>> {
    es.map_values(|e: TreeEntryV| entry_bytes(e))
}

/// The serialized form of a tree.
pub open spec fn tree_bytes(t: TreeV) -> Seq<u8> {
    str_frame(t.name) + frame_list(entry_list_bytes(t.entries))
}

/// The digest that identifies a tree.
pub open spec fn tree_digest(t: TreeV) -> Seq<u8> {
    blake3_of(tree_bytes(t))
}

/// The tree stored under `k`, if the object there is one.
pub open spec fn tree_at(m: Map<Seq<char>, Seq<u8>>, k: Seq<char>) -> Option<TreeV> {
    if m.contains_key(k) && exists|v: TreeV| tree_bytes(v) == m[k] {
        Some(choose|v: TreeV| tree_bytes(v) == m[k])
    } else {
        None
    }
}

/// The first entry of `es` called `name`, if any.
pub open spec fn first_named(es: Seq<TreeEntryV>, name: Seq<char>) -> Option<TreeEntryV>
    decreases es.len(),
{
    if es.len() == 0 {
        None
    } else if es[0].name() == name {
        Some(es[0])
    } else {
        first_named(es.drop_first(), name)
    }
}

proof fn lemma_entry_parts(bs: Seq<u8>, v: TreeEntryV)
    requires
        entry_bytes(v) == bs,
    ensures
        at(bs, 0, seq![v.tag()]),
        at(bs, 1, str_frame(v.name())),
        at(bs, 1 + str_frame(v.name()).len() as int, frame(v.hash())),
        bs.len() == 1 + str_frame(v.name()).len() + frame(v.hash()).len(),
{
    lemma_at_whole(bs);
    lemma_at_concat(bs, 0, seq![v.tag()] + str_frame(v.name()), frame(v.hash()));
    lemma_at_concat(bs, 0, seq![v.tag()], str_frame(v.name()));
}

impl TreeEntry {
    pub fn name(&self) -> (r: &String)
        ensures
            r@ == self@.name(),
    {
        match self {
            TreeEntry::Blob(name, _) => name,
            TreeEntry::Tree(name, _) => name,
        }
    }

    pub fn hash(&self) -> (r: Vec<u8>)
        ensures
            r@ == self@.hash(),
    {
        match self {
            TreeEntry::Blob(_, h) => h.clone(),
            TreeEntry::Tree(_, h) => h.clone(),
        }
    }

    pub fn is_blob(&self) -> (r: bool)
        ensures
            r == (self@ is Blob),
    {
        match self {
            TreeEntry::Blob(..) => true,
            TreeEntry::Tree(..) => false,
        }
    }

    /// The same entry under another name.
    pub fn change_name(&mut self, name: String)
        ensures
            final(self)@.name() == name@,
            final(self)@.hash() == old(self)@.hash(),
            final(self)@.tag() == old(self)@.tag(),
    {
        match self {
            TreeEntry::Blob(n, _) => {
                *n = name;
            },
            TreeEntry::Tree(n, _) => {
                *n = name;
            },
        }
    }

    pub fn encode(&self) -> (r: Vec<u8>)
        ensures
            r@ == entry_bytes(self@),
    {
        let mut out: Vec<u8> = Vec::new();
        let (tag, name, hash) = match self {
            TreeEntry::Blob(n, h) => (0u8, n, h),
            TreeEntry::Tree(n, h) => (1u8, n, h),
        };
        out.push(tag);
        push_str(&mut out, name);
        push_frame(&mut out, hash.as_slice());
        assert(out@ =~= entry_bytes(self@));
        out
    }

    pub fn decode(bytes: &[u8]) -> (r: Option<TreeEntry>)
        ensures
            r matches Some(e) ==> entry_bytes(e@) == bytes@,
            forall|v: TreeEntryV| entry_bytes(v) == bytes@ ==> (r is Some && r->0@ == v),
    {
        let ghost bs = bytes@;
        let (tag, q1) = match read_byte(bytes, 0) {
            Some(x) => x,
            None => {
                assert forall|v: TreeEntryV| entry_bytes(v) != bs by {
                    if entry_bytes(v) == bs {
                        lemma_entry_parts(bs, v);
                    }
                }
                return None;
            },
        };
        if tag > 1 {
            assert forall|v: TreeEntryV| entry_bytes(v) != bs by {
                if entry_bytes(v) == bs {
                    lemma_entry_parts(bs, v);
                }
            }
            return None;
        }
        let (name, q2) = match read_str(bytes, q1) {
            Some(x) => x,
            None => {
                assert forall|v: TreeEntryV| entry_bytes(v) != bs by {
                    if entry_bytes(v) == bs {
                        lemma_entry_parts(bs, v);
                    }
                }
                return None;
            },
        };
        let (hash, q3) = match read_frame(bytes, q2) {
            Some(x) => x,
            None => {
                assert forall|v: TreeEntryV| entry_bytes(v) != bs by {
                    if entry_bytes(v) == bs {
                        lemma_entry_parts(bs, v);
                    }
                }
                return None;
            },
        };
        if q3 != bytes.len() {
            assert forall|v: TreeEntryV| entry_bytes(v) != bs by {
                if entry_bytes(v) == bs {
                    lemma_entry_parts(bs, v);
                }
            }
            return None;
        }
        let e = if tag == 0 {
            TreeEntry::Blob(name, hash)
        } else {
            TreeEntry::Tree(name, hash)
        };
        proof {
            lemma_at_concat(bs, 0, seq![tag], str_frame(e@.name()));
            lemma_at_concat(bs, 0, seq![tag] + str_frame(e@.name()), frame(e@.hash()));
            lemma_at_all(bs, entry_bytes(e@));
            assert forall|v: TreeEntryV| entry_bytes(v) == bs implies e@ == v by {
                lemma_entry_parts(bs, v);
            }
        }
        Some(e)
    }
}

proof fn lemma_tree_parts(bs: Seq<u8>, v: TreeV)
    requires
        tree_bytes(v) == bs,
    ensures
        at(bs, 0, str_frame(v.name)),
        at(bs, str_frame(v.name).len() as int, frame_list(entry_list_bytes(v.entries))),
        bs.len() == str_frame(v.name).len() + frame_list(entry_list_bytes(v.entries)).len(),
{
    lemma_at_whole(bs);
    lemma_at_concat(bs, 0, str_frame(v.name), frame_list(entry_list_bytes(v.entries)));
}

impl Tree {
    pub fn new(name: String) -> (r: Tree)
        ensures
            r@.name == name@,
            r@.entries == Seq::<TreeEntryV>::empty(),
    {
        let r = Tree { name, entries: Vec::new() };
        assert(r@.entries =~= Seq::<TreeEntryV>::empty());
        r
    }

    pub fn add_entry(&mut self, entry: TreeEntry)
        ensures
            final(self)@.name == old(self)@.name,
            final(self)@.entries == old(self)@.entries.push(entry@),
    {
        self.entries.push(entry);
        assert(self@.entries =~= old(self)@.entries.push(entry@));
    }

    /// The first entry called `name`.
    pub fn get_entry(&self, name: &String) -> (r: Option<TreeEntry>)
        ensures
            match r {
                Some(e) => first_named(self@.entries, name@) == Some(e@),
                None => first_named(self@.entries, name@) is None,
            },
    {
        let mut i: usize = 0;
        assert(self@.entries.subrange(0, self@.entries.len() as int) =~= self@.entries);
        while i < self.entries.len()
            invariant
                i <= self.entries@.len(),
                first_named(self@.entries, name@) == first_named(
                    self@.entries.subrange(i as int, self@.entries.len() as int),
                    name@,
                ),
            decreases self.entries@.len() - i,
        {
            let ghost rest = self@.entries.subrange(i as int, self@.entries.len() as int);
            assert(rest[0] == self.entries@[i as int]@);
            let n = self.entries[i].name();
            if *n == *name {
                assert(first_named(rest, name@) == Some(rest[0]));
                return Some(self.entries[i].clone_entry());
            }
            assert(first_named(rest, name@) == first_named(rest.drop_first(), name@));
            assert(rest.drop_first() =~= self@.entries.subrange(i + 1, self@.entries.len() as int));
            i += 1;
        }
        None
    }

    /// The hex digest of the entry called `name`.
    pub fn get_entry_hash(&self, name: &String) -> (r: Option<String>)
        ensures
            match r {
                Some(h) => first_named(self@.entries, name@) is Some && h@ == hex_of(
                    first_named(self@.entries, name@)->0.hash(),
                ),
                None => first_named(self@.entries, name@) is None,
            },
    {
        match self.get_entry(name) {
            Some(e) => {
                let h = e.hash();
                Some(to_hex(h.as_slice()))
            },
            None => None,
        }
    }

    pub fn encode(&self) -> (r: Vec<u8>)
        ensures
            r@ == tree_bytes(self@),
    {
        let mut out: Vec<u8> = Vec::new();
        push_str(&mut out, &self.name);
        let mut parts: Vec<Vec<u8>> = Vec::new();
        let mut i: usize = 0;
        while i < self.entries.len()
            invariant
                i <= self.entries@.len(),
                parts@.len() == i,
                forall|j: int| 0 <= j < i ==> #[trigger] parts@[j]@ == entry_bytes(self.entries@[j]@),
            decreases self.entries@.len() - i,
        {
            parts.push(self.entries[i].encode());
            i += 1;
        }
        push_frame_list(&mut out, &parts);
        assert(parts@.map_values(|v: Vec<u8>| v@) =~= entry_list_bytes(self@.entries));
        assert(out@ =~= tree_bytes(self@));
        out
    }

    pub fn decode(bytes: &[u8]) -> (r: Option<Tree>)
        ensures
            r matches Some(t) ==> tree_bytes(t@) == bytes@,
            forall|v: TreeV| tree_bytes(v) == bytes@ ==> (r is Some && r->0@ == v),
    {
        let ghost bs = bytes@;
        let (name, q1) = match read_str(bytes, 0) {
            Some(x) => x,
            None => {
                assert forall|v: TreeV| tree_bytes(v) != bs by {
                    if tree_bytes(v) == bs {
                        lemma_tree_parts(bs, v);
                    }
                }
                return None;
            },
        };
        let (parts, q2) = match read_frame_list(bytes, q1) {
            Some(x) => x,
            None => {
                assert forall|v: TreeV| tree_bytes(v) != bs by {
                    if tree_bytes(v) == bs {
                        lemma_tree_parts(bs, v);
                    }
                }
                return None;
            },
        };
        if q2 != bytes.len() {
            assert forall|v: TreeV| tree_bytes(v) != bs by {
                if tree_bytes(v) == bs {
                    lemma_tree_parts(bs, v);
                }
            }
            return None;
        }
        let ghost pv = parts@.map_values(|v: Vec<u8>| v@);
        proof {
            assert forall|v: TreeV| tree_bytes(v) == bs implies v.name == name@ && pv
                == entry_list_bytes(v.entries) by {
                lemma_tree_parts(bs, v);
            }
        }
        let mut entries: Vec<TreeEntry> = Vec::new();
        let mut i: usize = 0;
        while i < parts.len()
            invariant
                i <= parts@.len(),
                bs == bytes@,
                pv == parts@.map_values(|v: Vec<u8>| v@),
                entries@.len() == i,
                forall|j: int| 0 <= j < i ==> entry_bytes(#[trigger] entries@[j]@) == pv[j],
                forall|j: int, w: TreeEntryV|
                    0 <= j < i && #[trigger] entry_bytes(w) == #[trigger] pv[j] ==> entries@[j]@ == w,
                forall|v: TreeV| tree_bytes(v) == bs ==> v.name == name@ && pv == entry_list_bytes(
                    v.entries,
                ),
            decreases parts@.len() - i,
        {
            assert(pv[i as int] == parts@[i as int]@);
            let ghost part = parts@[i as int]@;
            let decoded = TreeEntry::decode(parts[i].as_slice());
            assert(forall|w: TreeEntryV| entry_bytes(w) == part ==> decoded is Some);
            match decoded {
                Some(e) => {
                    entries.push(e);
                },
                None => {
                    assert forall|v: TreeV| tree_bytes(v) != bs by {
                        if tree_bytes(v) == bs {
                            assert(entry_list_bytes(v.entries)[i as int] == entry_bytes(
                                v.entries[i as int],
                            ));
                            assert(pv[i as int] == entry_bytes(v.entries[i as int]));
                            assert(entry_bytes(v.entries[i as int]) == part);
                        }
                    }
                    return None;
                },
            }
            i += 1;
        }
        let t = Tree { name, entries };
        proof {
            assert(entry_list_bytes(t@.entries) =~= pv);
            lemma_at_concat(bs, 0, str_frame(name@), frame_list(pv));
            lemma_at_all(bs, tree_bytes(t@));
            assert forall|v: TreeV| tree_bytes(v) == bs implies t@ == v by {
                assert forall|j: int| 0 <= j < v.entries.len() implies t@.entries[j] == v.entries[j] by {
                    assert(entry_list_bytes(v.entries)[j] == entry_bytes(v.entries[j]));
                    assert(pv[j] == entry_bytes(v.entries[j]));
                }
                assert(t@.entries =~= v.entries);
            }
        }
        Some(t)
    }

    /// The digest of the serialized tree.
    pub fn hash(&self) -> (r: Vec<u8>)
        ensures
            r@ == tree_digest(self@),
    {
        let bytes = self.encode();
        compute_hash(bytes.as_slice())
    }

    /// This tree as an entry of its parent.
    pub fn into_entry(&self) -> (r: TreeEntry)
        ensures
            r@ == TreeEntryV::Tree(self@.name, tree_digest(self@)),
    {
        TreeEntry::Tree(self.name.clone(), self.hash())
    }

    /// Stores the tree and returns its key.
    pub fn save(&self, store: &mut ObjectStore) -> (r: String)
        requires
            old(store).wf(),
        ensures
            final(store).wf(),
            r@ == object_key(tree_bytes(self@)),
            final(store)@ == put_result(old(store)@, r@, tree_bytes(self@)),
    {
        store.put_object(self.encode())
    }

    /// Loads the tree stored under `hash`.
    pub fn load(hash: &String, store: &ObjectStore) -> (r: Result<Tree, GatoError>)
        requires
            store.wf(),
        ensures
            r is Ok ==> store@.contains_key(hash@) && tree_bytes(r->Ok_0@) == store@[hash@],
            !store@.contains_key(hash@) ==> r is Err,
            store@.contains_key(hash@) ==> (forall|v: TreeV| tree_bytes(v) == store@[hash@] ==> (r is Ok
                && r->Ok_0@ == v)),
            r is Ok <==> (tree_at(store@, hash@) is Some),
            r matches Ok(t) ==> tree_at(store@, hash@) == Some(t@),
    {
        match store.get(hash) {
            Err(e) => Err(GatoError::Storage(e)),
            Ok(bytes) => match Tree::decode(bytes.as_slice()) {
                Some(t) => {
                    proof {
                        let v = choose|v: TreeV| tree_bytes(v) == store@[hash@];
                        assert(tree_bytes(t@) == store@[hash@]);
                    }
                    Ok(t)
                },
                None => Err(GatoError::Decode),
            },
        }
    }
}

impl TreeEntry {
    pub fn clone_entry(&self) -> (r: TreeEntry)
        ensures
            r@ == self@,
    {
        match self {
            TreeEntry::Blob(n, h) => TreeEntry::Blob(n.clone(), h.clone()),
            TreeEntry::Tree(n, h) => TreeEntry::Tree(n.clone(), h.clone()),
        }
    }
}

} // verus!
