//! The content-addressed object store and the per-repository references.
use crate::hashing::{hash_hex, object_key};
use crate::table::Table;
use vstd::prelude::*;

verus! {

#[derive(Debug, Clone, Copy, PartialEq, Eq, Structural)]
pub enum StorageError {
    ReadError,
    WriteError,
}

/// Objects keyed by the hex form of their BLAKE3 digest.
#[derive(Debug)]
pub struct ObjectStore {
    pub objects: Table,
}

impl View for ObjectStore {
    type V = Map<Seq<char>, Seq<u8>>;

    open spec fn view(&self) -> Map<Seq<char>, Seq<u8>> {
        self.objects@
    }
}

/// What a put leaves behind: nothing changes when the key is already there.
pub open spec fn put_result(m: Map<Seq<char>, Seq<u8>>, k: Seq<char>, data: Seq<u8>) -> Map<
    Seq<char>,
    Seq<u8>,
> {
    if m.contains_key(k) {
        m
    } else {
        m.insert(k, data)
    }
}

impl ObjectStore {
    pub open spec fn wf(&self) -> bool {
        self.objects.wf()
    }

    pub fn new() -> (r: ObjectStore)
        ensures
            r.wf(),
            r@ == Map::<Seq<char>, Seq<u8>>::empty(),
    {
        ObjectStore { objects: Table::new() }
    }

    pub fn exist(&self, hash: &String) -> (r: bool)
        requires
            self.wf(),
        ensures
            r == self@.contains_key(hash@),
    {
        self.objects.contains(hash)
    }

    pub fn get(&self, hash: &String) -> (r: Result<Vec<u8>, StorageError>)
        requires
            self.wf(),
        ensures
            r is Ok <==> self@.contains_key(hash@),
            r matches Ok(v) ==> v@ == self@[hash@],
            r matches Err(e) ==> e == StorageError::ReadError,
    {
        match self.objects.get(hash) {
            Some(v) => Ok(v),
            None => Err(StorageError::ReadError),
        }
    }

    /// Stores `data` under `hash` unless that key is already present; an
    /// existing object is never overwritten. The caller computes the key.
    pub fn put(&mut self, hash: &String, data: Vec<u8>)
        requires
            old(self).wf(),
        ensures
            final(self).wf(),
            final(self)@ == put_result(old(self)@, hash@, data@),
    {
        if !self.objects.contains(hash) {
            self.objects.set(hash.clone(), data);
        }
    }

    /// Stores `data` under its own key and returns that key.
    pub fn put_object(&mut self, data: Vec<u8>) -> (r: String)
        requires
            old(self).wf(),
        ensures
            final(self).wf(),
            r@ == object_key(data@),
            final(self)@ == put_result(old(self)@, r@, data@),
    {
        let key = hash_hex(data.as_slice());
        self.put(&key, data);
        key
    }

    pub fn remove(&mut self, hash: &String)
        requires
            old(self).wf(),
        ensures
            final(self).wf(),
            final(self)@ == old(self)@.remove(hash@),
    {
        self.objects.remove(hash);
    }

    /// The key of every stored object, once each.
    pub fn list_all_hashes(&self) -> (r: Vec<String>)
        requires
            self.wf(),
        ensures
            forall|i: int| 0 <= i < r@.len() ==> self@.contains_key(#[trigger] r@[i]@),
            forall|k: Seq<char>| #[trigger] self@.contains_key(k) ==> exists|i: int|
                0 <= i < r@.len() && r@[i]@ == k,
    {
        self.objects.keys()
    }
}

/// The references of one repository: branch tips and the active branch.
#[derive(Debug)]
pub struct Refs {
    pub head: String,
    pub branches: Table,
}

impl Refs {
    pub open spec fn wf(&self) -> bool {
        self.branches.wf()
    }

    pub open spec fn tips(&self) -> Map<Seq<char>, Seq<u8>> {
        self.branches@
    }

    /// A repository with no commits yet, on branch `head`.
    pub fn setup(head: String) -> (r: Refs)
        ensures
            r.wf(),
            r.head@ == head@,
            r.tips() == Map::<Seq<char>, Seq<u8>>::empty(),
    {
        Refs { head, branches: Table::new() }
    }

    pub fn get_active_branch(&self) -> (r: String)
        ensures
            r@ == self.head@,
    {
        self.head.clone()
    }

    /// Points `branch` at the commit whose digest is `hash`.
    pub fn write_ref(&mut self, branch: String, hash: Vec<u8>)
        requires
            old(self).wf(),
        ensures
            final(self).wf(),
            final(self).head == old(self).head,
            final(self).tips() == old(self).tips().insert(branch@, hash@),
    {
        self.branches.set(branch, hash);
    }

    pub fn read_ref(&self, branch: &String) -> (r: Result<Vec<u8>, StorageError>)
        requires
            self.wf(),
        ensures
            r is Ok <==> self.tips().contains_key(branch@),
            r matches Ok(v) ==> v@ == self.tips()[branch@],
            r matches Err(e) ==> e == StorageError::ReadError,
    {
        match self.branches.get(branch) {
            Some(v) => Ok(v),
            None => Err(StorageError::ReadError),
        }
    }

    /// The tip of the active branch, if it has one.
    pub fn active_tip(&self) -> (r: Option<Vec<u8>>)
        requires
            self.wf(),
        ensures
            r is Some <==> self.tips().contains_key(self.head@),
            r matches Some(v) ==> v@ == self.tips()[self.head@],
    {
        self.branches.get(&self.head)
    }

    /// Creates `name` at the tip of the active branch.
    pub fn new_branch(&mut self, name: String) -> (r: Result<(), StorageError>)
        requires
            old(self).wf(),
        ensures
            final(self).wf(),
            final(self).head == old(self).head,
            r is Ok <==> old(self).tips().contains_key(old(self).head@),
            r is Ok ==> final(self).tips() == old(self).tips().insert(
                name@,
                old(self).tips()[old(self).head@],
            ),
            r matches Err(e) ==> e == StorageError::ReadError && final(self).tips() == old(
                self,
            ).tips(),
    {
        match self.active_tip() {
            Some(tip) => {
                self.branches.set(name, tip);
                Ok(())
            },
            None => Err(StorageError::ReadError),
        }
    }

    pub fn change_branch(&mut self, name: String)
        ensures
            final(self).head@ == name@,
            final(self).branches == old(self).branches,
    {
        self.head = name;
    }

    pub fn list_branches(&self) -> (r: Vec<String>)
        requires
            self.wf(),
        ensures
            forall|i: int| 0 <= i < r@.len() ==> self.tips().contains_key(#[trigger] r@[i]@),
            forall|k: Seq<char>| #[trigger] self.tips().contains_key(k) ==> exists|i: int|
                0 <= i < r@.len() && r@[i]@ == k,
    {
        self.branches.keys()
    }

    /// Deletes a branch other than the active one.
    pub fn delete_branch(&mut self, name: &String) -> (r: Result<(), crate::error::GatoError>)
        requires
            old(self).wf(),
        ensures
            final(self).wf(),
            final(self).head == old(self).head,
            r is Err <==> name@ == old(self).head@,
            r matches Err(e) ==> e == crate::error::GatoError::ActiveBranchDeletionError,
            r is Err ==> final(self).tips() == old(self).tips(),
            r is Ok ==> final(self).tips() == old(self).tips().remove(name@),
    {
        if *name == self.head {
            return Err(crate::error::GatoError::ActiveBranchDeletionError);
        }
        self.branches.remove(name);
        Ok(())
    }
}

} // verus!
