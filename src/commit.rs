//! Commits: immutable snapshots naming a root tree and their parents.
use crate::encoding::{
    at, frame, le64, lemma_at_all, lemma_at_concat, lemma_at_whole, opt_frame, opt_str_frame,
    push_frame, push_opt, push_opt_str, push_str, push_str_list, push_u64, read_byte, read_frame,
    read_opt_frame, read_opt_str, read_str, read_str_list, read_u64, str_frame, str_list,
};
use crate::error::GatoError;
use crate::hashing::{blake3_of, compute_hash, hex_of, to_hex};
use crate::store::{put_result, ObjectStore, Refs};
use vstd::prelude::*;

verus! {

#[derive(Debug, Clone)]
pub enum Commit {
    V1 {
        message: String,
        author: String,
        timestamp: u64,
        email: Option<String>,
        tree_hash: Vec<u8>,
        parent_hash: Option<Vec<u8>>,
        dependencies: Vec<String>,
    },
    MergedCommitV1 {
        message: String,
        author: String,
        timestamp: u64,
        email: Option<String>,
        tree_hash: Vec<u8>,
        parent_hash1: Vec<u8>,
        parent_hash2: Vec<u8>,
        dependencies: Vec<String>,
    },
}

pub enum CommitV {
    V1 {
        message: Seq<char>,
        author: Seq<char>,
        timestamp: u64,
        email: Option<Seq<char>>,
        tree_hash: Seq<u8>,
        parent_hash: Option<Seq<u8>>,
        dependencies: Seq<Seq<char>>,
    },
    Merged {
        message: Seq<char>,
        author: Seq<char>,
        timestamp: u64,
        email: Option<Seq<char>>,
        tree_hash: Seq<u8>,
        parent_hash1: Seq<u8>,
        parent_hash2: Seq<u8>,
        dependencies: Seq<Seq<char>>,
    },
}

pub open spec fn opt_str_view(o: Option<String>) -> Option<Seq<char>> {
    match o {
        Some(s) => Some(s@),
        None => None,
    }
}

pub open spec fn opt_bytes_view(o: Option<Vec<u8>>) -> Option<Seq<u8>> {
    match o {
        Some(v) => Some(v@),
        None => None,
    }
}

pub open spec fn strs_view(v: Seq<String>) -> Seq<Seq<char>> {
    v.map_values(|s: String| s@)
}

impl View for Commit {
    type V = CommitV;

    open spec fn view(&self) -> CommitV {
        match self {
            Commit::V1 {
                message,
                author,
                timestamp,
                email,
                tree_hash,
                parent_hash,
                dependencies,
            } => CommitV::V1 {
                message: message@,
                author: author@,
                timestamp: *timestamp,
                email: opt_str_view(*email),
                tree_hash: tree_hash@,
                parent_hash: opt_bytes_view(*parent_hash),
                dependencies: strs_view(dependencies@),
            },
            Commit::MergedCommitV1 {
                message,
                author,
                timestamp,
                email,
                tree_hash,
                parent_hash1,
                parent_hash2,
                dependencies,
            } => CommitV::Merged {
                message: message@,
                author: author@,
                timestamp: *timestamp,
                email: opt_str_view(*email),
                tree_hash: tree_hash@,
                parent_hash1: parent_hash1@,
                parent_hash2: parent_hash2@,
                dependencies: strs_view(dependencies@),
            },
        }
    }
}

impl CommitV {
    pub open spec fn message(self) -> Seq<char> {
        match self {
            CommitV::V1 { message, .. } => message,
            CommitV::Merged { message, .. } => message,
        }
    }

    pub open spec fn tree_hash(self) -> Seq<u8> {
        match self {
            CommitV::V1 { tree_hash, .. } => tree_hash,
            CommitV::Merged { tree_hash, .. } => tree_hash,
        }
    }

    pub open spec fn dependencies(self) -> Seq<Seq<char>> {
        match self {
            CommitV::V1 { dependencies, .. } => dependencies,
            CommitV::Merged { dependencies, .. } => dependencies,
        }
    }

    /// The parent followed when walking history: the only parent of a
    /// plain commit, the active-branch side of a merge.
    pub open spec fn first_parent(self) -> Option<Seq<u8>> {
        match self {
            CommitV::V1 { parent_hash, .. } => parent_hash,
            CommitV::Merged { parent_hash1, .. } => Some(parent_hash1),
        }
    }

    pub open spec fn header(self) -> Seq<u8> {
        match self {
            CommitV::V1 { message, author, timestamp, email, tree_hash, .. } => seq![0u8] + str_frame(
                message,
            ) + str_frame(author) + le64(timestamp) + opt_str_frame(email) + frame(tree_hash),
            CommitV::Merged {
                message,
                author,
                timestamp,
                email,
                tree_hash,
                ..
            } => seq![1u8] + str_frame(message) + str_frame(author) + le64(timestamp)
                + opt_str_frame(email) + frame(tree_hash),
        }
    }

    pub open spec fn tail(self) -> Seq<u8> {
        match self {
            CommitV::V1 { parent_hash, dependencies, .. } => opt_frame(parent_hash) + str_list(
                dependencies,
            ),
            CommitV::Merged { parent_hash1, parent_hash2, dependencies, .. } => frame(parent_hash1)
                + frame(parent_hash2) + str_list(dependencies),
        }
    }
}

/// The serialized form of a commit.
pub open spec fn commit_bytes(c: CommitV) -> Seq<u8> {
    c.header() + c.tail()
}

proof fn lemma_commit_parts(bs: Seq<u8>, v: CommitV)
    requires
        commit_bytes(v) == bs,
    ensures
        ({
            let (tag, m, a, ts, e, t) = match v {
                CommitV::V1 { message, author, timestamp, email, tree_hash, .. } => (
                    0u8,
                    message,
                    author,
                    timestamp,
                    email,
                    tree_hash,
                ),
                CommitV::Merged { message, author, timestamp, email, tree_hash, .. } => (
                    1u8,
                    message,
                    author,
                    timestamp,
                    email,
                    tree_hash,
                ),
            };
            let o1 = 1int;
            let o2 = o1 + str_frame(m).len();
            let o3 = o2 + str_frame(a).len();
            let o4 = o3 + 8;
            let o5 = o4 + opt_str_frame(e).len();
            let o6 = o5 + frame(t).len();
            &&& at(bs, 0, seq![tag])
            &&& at(bs, o1, str_frame(m))
            &&& at(bs, o2, str_frame(a))
            &&& at(bs, o3, le64(ts))
            &&& at(bs, o4, opt_str_frame(e))
            &&& at(bs, o5, frame(t))
            &&& o6 == v.header().len()
            &&& match v {
                CommitV::V1 { parent_hash, dependencies, .. } => {
                    &&& at(bs, o6, opt_frame(parent_hash))
                    &&& at(bs, o6 + opt_frame(parent_hash).len(), str_list(dependencies))
                    &&& bs.len() == o6 + opt_frame(parent_hash).len() + str_list(dependencies).len()
                },
                CommitV::Merged { parent_hash1, parent_hash2, dependencies, .. } => {
                    &&& at(bs, o6, frame(parent_hash1))
                    &&& at(bs, o6 + frame(parent_hash1).len(), frame(parent_hash2))
                    &&& at(
                        bs,
                        o6 + frame(parent_hash1).len() + frame(parent_hash2).len(),
                        str_list(dependencies),
                    )
                    &&& bs.len() == o6 + frame(parent_hash1).len() + frame(parent_hash2).len()
                        + str_list(dependencies).len()
                },
            }
        }),
{
    crate::encoding::lemma_le64_len(
        match v {
            CommitV::V1 { timestamp, .. } => timestamp,
            CommitV::Merged { timestamp, .. } => timestamp,
        },
    );
    lemma_at_whole(bs);
    match v {
        CommitV::V1 { message, author, timestamp, email, tree_hash, parent_hash, dependencies } => {
            let h0 = seq![0u8];
            let h1 = h0 + str_frame(message);
            let h2 = h1 + str_frame(author);
            let h3 = h2 + le64(timestamp);
            let h4 = h3 + opt_str_frame(email);
            let h5 = h4 + frame(tree_hash);
            let t1 = h5 + opt_frame(parent_hash);
            assert(bs =~= t1 + str_list(dependencies));
            lemma_at_concat(bs, 0, t1, str_list(dependencies));
            lemma_at_concat(bs, 0, h5, opt_frame(parent_hash));
            lemma_at_concat(bs, 0, h4, frame(tree_hash));
            lemma_at_concat(bs, 0, h3, opt_str_frame(email));
            lemma_at_concat(bs, 0, h2, le64(timestamp));
            lemma_at_concat(bs, 0, h1, str_frame(author));
            lemma_at_concat(bs, 0, h0, str_frame(message));
        },
        CommitV::Merged {
            message,
            author,
            timestamp,
            email,
            tree_hash,
            parent_hash1,
            parent_hash2,
            dependencies,
        } => {
            let h0 = seq![1u8];
            let h1 = h0 + str_frame(message);
            let h2 = h1 + str_frame(author);
            let h3 = h2 + le64(timestamp);
            let h4 = h3 + opt_str_frame(email);
            let h5 = h4 + frame(tree_hash);
            let t1 = h5 + frame(parent_hash1);
            let t2 = t1 + frame(parent_hash2);
            assert(bs =~= t2 + str_list(dependencies));
            lemma_at_concat(bs, 0, t2, str_list(dependencies));
            lemma_at_concat(bs, 0, t1, frame(parent_hash2));
            lemma_at_concat(bs, 0, h5, frame(parent_hash1));
            lemma_at_concat(bs, 0, h4, frame(tree_hash));
            lemma_at_concat(bs, 0, h3, opt_str_frame(email));
            lemma_at_concat(bs, 0, h2, le64(timestamp));
            lemma_at_concat(bs, 0, h1, str_frame(author));
            lemma_at_concat(bs, 0, h0, str_frame(message));
        },
    }
}

/// The parts of a commit, found one after another and filling the input, are its encoding.
proof fn lemma_commit_parts_back(bs: Seq<u8>, v: CommitV)
    requires
        ({
            let (tag, m, a, ts, e, t) = match v {
                CommitV::V1 { message, author, timestamp, email, tree_hash, .. } => (
                    0u8,
                    message,
                    author,
                    timestamp,
                    email,
                    tree_hash,
                ),
                CommitV::Merged { message, author, timestamp, email, tree_hash, .. } => (
                    1u8,
                    message,
                    author,
                    timestamp,
                    email,
                    tree_hash,
                ),
            };
            let o1 = 1int;
            let o2 = o1 + str_frame(m).len();
            let o3 = o2 + str_frame(a).len();
            let o4 = o3 + le64(ts).len();
            let o5 = o4 + opt_str_frame(e).len();
            let o6 = o5 + frame(t).len();
            &&& at(bs, 0, seq![tag])
            &&& at(bs, o1, str_frame(m))
            &&& at(bs, o2, str_frame(a))
            &&& at(bs, o3, le64(ts))
            &&& at(bs, o4, opt_str_frame(e))
            &&& at(bs, o5, frame(t))
            &&& match v {
                CommitV::V1 { parent_hash, dependencies, .. } => {
                    &&& at(bs, o6, opt_frame(parent_hash))
                    &&& at(bs, o6 + opt_frame(parent_hash).len(), str_list(dependencies))
                    &&& bs.len() == o6 + opt_frame(parent_hash).len() + str_list(dependencies).len()
                },
                CommitV::Merged { parent_hash1, parent_hash2, dependencies, .. } => {
                    &&& at(bs, o6, frame(parent_hash1))
                    &&& at(bs, o6 + frame(parent_hash1).len(), frame(parent_hash2))
                    &&& at(
                        bs,
                        o6 + frame(parent_hash1).len() + frame(parent_hash2).len(),
                        str_list(dependencies),
                    )
                    &&& bs.len() == o6 + frame(parent_hash1).len() + frame(parent_hash2).len()
                        + str_list(dependencies).len()
                },
            }
        }),
    ensures
        commit_bytes(v) == bs,
{
    match v {
        CommitV::V1 { message, author, timestamp, email, tree_hash, parent_hash, dependencies } => {
            let h0 = seq![0u8];
            let h1 = h0 + str_frame(message);
            let h2 = h1 + str_frame(author);
            let h3 = h2 + le64(timestamp);
            let h4 = h3 + opt_str_frame(email);
            let h5 = h4 + frame(tree_hash);
            let t1 = h5 + opt_frame(parent_hash);
            lemma_at_concat(bs, 0, h0, str_frame(message));
            lemma_at_concat(bs, 0, h1, str_frame(author));
            lemma_at_concat(bs, 0, h2, le64(timestamp));
            lemma_at_concat(bs, 0, h3, opt_str_frame(email));
            lemma_at_concat(bs, 0, h4, frame(tree_hash));
            lemma_at_concat(bs, 0, h5, opt_frame(parent_hash));
            lemma_at_concat(bs, 0, t1, str_list(dependencies));
            lemma_at_all(bs, t1 + str_list(dependencies));
            assert(commit_bytes(v) =~= t1 + str_list(dependencies));
        },
        CommitV::Merged {
            message,
            author,
            timestamp,
            email,
            tree_hash,
            parent_hash1,
            parent_hash2,
            dependencies,
        } => {
            let h0 = seq![1u8];
            let h1 = h0 + str_frame(message);
            let h2 = h1 + str_frame(author);
            let h3 = h2 + le64(timestamp);
            let h4 = h3 + opt_str_frame(email);
            let h5 = h4 + frame(tree_hash);
            let t1 = h5 + frame(parent_hash1);
            let t2 = t1 + frame(parent_hash2);
            lemma_at_concat(bs, 0, h0, str_frame(message));
            lemma_at_concat(bs, 0, h1, str_frame(author));
            lemma_at_concat(bs, 0, h2, le64(timestamp));
            lemma_at_concat(bs, 0, h3, opt_str_frame(email));
            lemma_at_concat(bs, 0, h4, frame(tree_hash));
            lemma_at_concat(bs, 0, h5, frame(parent_hash1));
            lemma_at_concat(bs, 0, t1, frame(parent_hash2));
            lemma_at_concat(bs, 0, t2, str_list(dependencies));
            lemma_at_all(bs, t2 + str_list(dependencies));
            assert(commit_bytes(v) =~= t2 + str_list(dependencies));
        },
    }
}

impl Commit {
    pub fn message(&self) -> (r: &String)
        ensures
            r@ == self@.message(),
    {
        match self {
            Commit::V1 { message, .. } => message,
            Commit::MergedCommitV1 { message, .. } => message,
        }
    }

    pub fn tree_hash(&self) -> (r: Vec<u8>)
        ensures
            r@ == self@.tree_hash(),
    {
        match self {
            Commit::V1 { tree_hash, .. } => tree_hash.clone(),
            Commit::MergedCommitV1 { tree_hash, .. } => tree_hash.clone(),
        }
    }

    pub fn dependices(&self) -> (r: Vec<String>)
        ensures
            strs_view(r@) == self@.dependencies(),
    {
        let deps = match self {
            Commit::V1 { dependencies, .. } => dependencies,
            Commit::MergedCommitV1 { dependencies, .. } => dependencies,
        };
        let mut r: Vec<String> = Vec::new();
        let mut i: usize = 0;
        while i < deps.len()
            invariant
                i <= deps@.len(),
                r@.len() == i,
                forall|j: int| 0 <= j < i ==> #[trigger] r@[j]@ == deps@[j]@,
            decreases deps@.len() - i,
        {
            r.push(deps[i].clone());
            i += 1;
        }
        assert(strs_view(r@) =~= strs_view(deps@));
        r
    }

    /// The hex name of the parent followed when walking history.
    pub fn parent_hash(&self) -> (r: Option<String>)
        ensures
            match self@.first_parent() {
                Some(p) => r is Some && r->0@ == hex_of(p),
                None => r is None,
            },
    {
        match self {
            Commit::V1 { parent_hash, .. } => match parent_hash {
                Some(p) => Some(to_hex(p.as_slice())),
                None => None,
            },
            Commit::MergedCommitV1 { parent_hash1, .. } => Some(to_hex(parent_hash1.as_slice())),
        }
    }

    pub fn encode(&self) -> (r: Vec<u8>)
        ensures
            r@ == commit_bytes(self@),
    {
        let mut out: Vec<u8> = Vec::new();
        match self {
            Commit::V1 {
                message,
                author,
                timestamp,
                email,
                tree_hash,
                parent_hash,
                dependencies,
            } => {
                out.push(0u8);
                push_str(&mut out, message);
                push_str(&mut out, author);
                push_u64(&mut out, *timestamp);
                push_opt_str(&mut out, email);
                push_frame(&mut out, tree_hash.as_slice());
                push_opt(&mut out, parent_hash);
                push_str_list(&mut out, dependencies);
            },
            Commit::MergedCommitV1 {
                message,
                author,
                timestamp,
                email,
                tree_hash,
                parent_hash1,
                parent_hash2,
                dependencies,
            } => {
                out.push(1u8);
                push_str(&mut out, message);
                push_str(&mut out, author);
                push_u64(&mut out, *timestamp);
                push_opt_str(&mut out, email);
                push_frame(&mut out, tree_hash.as_slice());
                push_frame(&mut out, parent_hash1.as_slice());
                push_frame(&mut out, parent_hash2.as_slice());
                push_str_list(&mut out, dependencies);
            },
        }
        assert(out@ =~= commit_bytes(self@));
        out
    }

    /// Decodes a stored commit; unknown variants and trailing bytes are rejected.
    #[verifier::rlimit(100)]
    #[verifier::spinoff_prover]
    pub fn decode(bytes: &[u8]) -> (r: Option<Commit>)
        ensures
            r matches Some(c) ==> commit_bytes(c@) == bytes@,
            forall|v: CommitV| commit_bytes(v) == bytes@ ==> (r is Some && r->0@ == v),
    {
        let ghost bs = bytes@;
        let (tag, q1) = match read_byte(bytes, 0) {
            Some(x) => x,
            None => {
                proof {
                    assert forall|v: CommitV| commit_bytes(v) != bs by {
                        if commit_bytes(v) == bs {
                            lemma_commit_parts(bs, v);
                        }
                    }
                }
                return None;
            },
        };
        if tag > 1 {
            proof {
                assert forall|v: CommitV| commit_bytes(v) != bs by {
                    if commit_bytes(v) == bs {
                        lemma_commit_parts(bs, v);
                    }
                }
            }
            return None;
        }
        let (message, q2) = match read_str(bytes, q1) {
            Some(x) => x,
            None => {
                proof {
                    assert forall|v: CommitV| commit_bytes(v) != bs by {
                        if commit_bytes(v) == bs {
                            lemma_commit_parts(bs, v);
                        }
                    }
                }
                return None;
            },
        };
        let (author, q3) = match read_str(bytes, q2) {
            Some(x) => x,
            None => {
                proof {
                    assert forall|v: CommitV| commit_bytes(v) != bs by {
                        if commit_bytes(v) == bs {
                            lemma_commit_parts(bs, v);
                        }
                    }
                }
                return None;
            },
        };
        let (timestamp, q4) = match read_u64(bytes, q3) {
            Some(x) => x,
            None => {
                proof {
                    assert forall|v: CommitV| commit_bytes(v) != bs by {
                        if commit_bytes(v) == bs {
                            lemma_commit_parts(bs, v);
                        }
                    }
                }
                return None;
            },
        };
        let (email, q5) = match read_opt_str(bytes, q4) {
            Some(x) => x,
            None => {
                proof {
                    assert forall|v: CommitV| commit_bytes(v) != bs by {
                        if commit_bytes(v) == bs {
                            lemma_commit_parts(bs, v);
                        }
                    }
                }
                return None;
            },
        };
        let (tree_hash, q6) = match read_frame(bytes, q5) {
            Some(x) => x,
            None => {
                proof {
                    assert forall|v: CommitV| commit_bytes(v) != bs by {
                        if commit_bytes(v) == bs {
                            lemma_commit_parts(bs, v);
                        }
                    }
                }
                return None;
            },
        };
        proof {
            crate::encoding::lemma_le64_len(timestamp);
        }
        if tag == 0 {
            let (parent_hash, q7) = match read_opt_frame(bytes, q6) {
                Some(x) => x,
                None => {
                    proof {
                        assert forall|v: CommitV| commit_bytes(v) != bs by {
                            if commit_bytes(v) == bs {
                                lemma_commit_parts(bs, v);
                            }
                        }
                    }
                    return None;
                },
            };
            let (dependencies, q8) = match read_str_list(bytes, q7) {
                Some(x) => x,
                None => {
                    proof {
                        assert forall|v: CommitV| commit_bytes(v) != bs by {
                            if commit_bytes(v) == bs {
                                lemma_commit_parts(bs, v);
                            }
                        }
                    }
                    return None;
                },
            };
            if q8 != bytes.len() {
                proof {
                    assert forall|v: CommitV| commit_bytes(v) != bs by {
                        if commit_bytes(v) == bs {
                            lemma_commit_parts(bs, v);
                        }
                    }
                }
                return None;
            }
            let c = Commit::V1 {
                message,
                author,
                timestamp,
                email,
                tree_hash,
                parent_hash,
                dependencies,
            };
            proof {
                lemma_commit_parts_back(bs, c@);
                assert forall|v: CommitV| commit_bytes(v) == bs implies c@ == v by {
                    lemma_commit_parts(bs, v);
                    assert(strs_view(dependencies@) =~= v.dependencies());
                }
            }
            Some(c)
        } else {
            let (parent_hash1, q7) = match read_frame(bytes, q6) {
                Some(x) => x,
                None => {
                    proof {
                        assert forall|v: CommitV| commit_bytes(v) != bs by {
                            if commit_bytes(v) == bs {
                                lemma_commit_parts(bs, v);
                            }
                        }
                    }
                    return None;
                },
            };
            let (parent_hash2, q8) = match read_frame(bytes, q7) {
                Some(x) => x,
                None => {
                    proof {
                        assert forall|v: CommitV| commit_bytes(v) != bs by {
                            if commit_bytes(v) == bs {
                                lemma_commit_parts(bs, v);
                            }
                        }
                    }
                    return None;
                },
            };
            let (dependencies, q9) = match read_str_list(bytes, q8) {
                Some(x) => x,
                None => {
                    proof {
                        assert forall|v: CommitV| commit_bytes(v) != bs by {
                            if commit_bytes(v) == bs {
                                lemma_commit_parts(bs, v);
                            }
                        }
                    }
                    return None;
                },
            };
            if q9 != bytes.len() {
                proof {
                    assert forall|v: CommitV| commit_bytes(v) != bs by {
                        if commit_bytes(v) == bs {
                            lemma_commit_parts(bs, v);
                        }
                    }
                }
                return None;
            }
            let c = Commit::MergedCommitV1 {
                message,
                author,
                timestamp,
                email,
                tree_hash,
                parent_hash1,
                parent_hash2,
                dependencies,
            };
            proof {
                lemma_commit_parts_back(bs, c@);
                assert forall|v: CommitV| commit_bytes(v) == bs implies c@ == v by {
                    lemma_commit_parts(bs, v);
                    assert(strs_view(dependencies@) =~= v.dependencies());
                }
            }
            Some(c)
        }
    }
}

} // verus!

verus! {

/// The commit stored under `k`, if the object there is one.
pub open spec fn commit_at(m: Map<Seq<char>, Seq<u8>>, k: Seq<char>) -> Option<CommitV> {
    if m.contains_key(k) && exists|v: CommitV| commit_bytes(v) == m[k] {
        Some(choose|v: CommitV| commit_bytes(v) == m[k])
    } else {
        None
    }
}

impl Commit {
    /// The digest that identifies the commit.
    pub fn hash(&self) -> (r: Vec<u8>)
        ensures
            r@ == blake3_of(commit_bytes(self@)),
            r@.len() == 32,
    {
        let bytes = self.encode();
        compute_hash(bytes.as_slice())
    }

    /// Publishes the commit: first the object, then the tip of the active
    /// branch. Returns the commit's digest.
    pub fn save(&self, store: &mut ObjectStore, refs: &mut Refs) -> (r: Vec<u8>)
        requires
            old(store).wf(),
            old(refs).wf(),
        ensures
            final(store).wf(),
            final(refs).wf(),
            r@ == blake3_of(commit_bytes(self@)),
            r@.len() == 32,
            final(store)@ == put_result(old(store)@, hex_of(r@), commit_bytes(self@)),
            final(refs).head == old(refs).head,
            final(refs).tips() == (old(refs).tips().insert(old(refs).head@, r@)),
    {
        let bytes = self.encode();
        let hash = compute_hash(bytes.as_slice());
        let key = to_hex(hash.as_slice());
        store.put(&key, bytes);
        let branch = refs.get_active_branch();
        refs.write_ref(branch, hash.clone());
        hash
    }

    /// Loads the commit stored under `hash`.
    pub fn load(hash: &String, store: &ObjectStore) -> (r: Result<Commit, GatoError>)
        requires
            store.wf(),
        ensures
            r is Ok <==> (commit_at(store@, hash@) is Some),
            r matches Ok(c) ==> commit_at(store@, hash@) == Some(c@),
    {
        match store.get(hash) {
            Err(e) => Err(GatoError::Storage(e)),
            Ok(bytes) => match Commit::decode(bytes.as_slice()) {
                Some(c) => {
                    proof {
                        let v = choose|v: CommitV| commit_bytes(v) == store@[hash@];
                        assert(commit_bytes(c@) == store@[hash@]);
                    }
                    Ok(c)
                },
                None => Err(GatoError::Decode),
            },
        }
    }
}

} // verus!
