//! Repository operations over the shared store: commit, checkout, merge and
//! reset of the active branch.
use crate::builder::{all_stored, create_from_index, keeps, root_digest, root_name};
use crate::commit::{commit_bytes, strs_view, Commit};
use crate::compression::CompressionConfig;
use crate::error::GatoError;
use crate::hashing::{blake3_of, hex_of, to_hex};
use crate::index::Index;
use crate::merge::restore_data;
use crate::store::{ObjectStore, Refs};
use crate::blob::{blob_bytes, BlobV};
use crate::compression::compressed_form;
use crate::tree::{tree_at, tree_digest, Tree, TreeEntry, TreeEntryV, TreeV};
use vstd::prelude::*;

verus! {

/// Relies on chrono::Utc::now: the current time in whole seconds since the epoch.
#[verifier::external_body]
fn now_seconds() -> (r: u64) {
    chrono::Utc::now().timestamp() as u64
}

/// Records the index as a new commit on the active branch: builds and
/// stores its trees, stores the commit, then moves the branch tip to it.
/// The parent is the previous tip, absent for the first commit.
pub fn commit(
    store: &mut ObjectStore,
    refs: &mut Refs,
    index: &Index,
    author: &String,
    email: &Option<String>,
    message: String,
) -> (r: Commit)
    requires
        old(store).wf(),
        old(refs).wf(),
        all_stored(index.dependencies@, old(store)@),
    ensures
        final(store).wf(),
        final(refs).wf(),
        keeps(old(store)@, final(store)@),
        r@ is V1,
        r@.message() == message@,
        r@->V1_author == author@,
        r@->V1_email == crate::commit::opt_str_view(*email),
        r@->V1_parent_hash == old(refs).tips().get(old(refs).head@),
        final(store)@.contains_key(hex_of(r@.tree_hash())),
        forall|i: int|
            0 <= i < r@.dependencies().len() ==> final(store)@.contains_key(#[trigger] r@.dependencies()[i]),
        r@.tree_hash() == root_digest(index.rows()),
        index.entries@.len() == 0 ==> r@.tree_hash() == tree_digest(
            TreeV { name: root_name(), entries: Seq::empty() },
        ),
        final(store)@.contains_key(hex_of(blake3_of(commit_bytes(r@)))),
        final(refs).head == old(refs).head,
        final(refs).tips() == old(refs).tips().insert(old(refs).head@, blake3_of(commit_bytes(r@))),
        final(refs).tips()[old(refs).head@].len() == 32,
{
    let (tree_hash, dependencies) = create_from_index(index, store);
    let ghost dv = dependencies@;
    let parent_hash = refs.active_tip();
    let timestamp = now_seconds();
    let c = Commit::V1 {
        message,
        author: author.clone(),
        timestamp,
        email: email.clone(),
        tree_hash,
        parent_hash,
        dependencies,
    };
    proof {
        assert(c@->V1_email == crate::commit::opt_str_view(*email));
    }
    let ghost s0 = store@;
    c.save(store, refs);
    proof {
        assert forall|i: int| 0 <= i < c@.dependencies().len() implies store@.contains_key(
            #[trigger] c@.dependencies()[i],
        ) by {
            assert(strs_view(dv)[i] == dv[i]@);
            assert(s0.contains_key(dv[i]@));
        }
    }
    c
}

/// The restored file for a blob entry `e` below `prefix` is among `files`
/// (from position `from` on): its path, and the content that was stored.
pub open spec fn file_listed(
    files: Seq<(Vec<String>, Vec<u8>)>,
    from: int,
    prefix: Seq<Seq<char>>,
    e: TreeEntryV,
    m: Map<Seq<char>, Seq<u8>>,
    cfg: Option<CompressionConfig>,
) -> bool {
    exists|j: int|
        from <= j < files.len() && crate::order::path_view(files[j].0@) == prefix.push(e.name()) && (
        forall|x: Seq<u8>|
            #![trigger compressed_form(cfg, x)]
            m.contains_key(hex_of(e.hash())) && m[hex_of(e.hash())] == blob_bytes(
                BlobV::Normal(compressed_form(cfg, x)),
            ) ==> files[j].1@ == x) && (forall|hs: Seq<Seq<u8>>, xs: Seq<Seq<u8>>|
            m.contains_key(hex_of(e.hash())) && m[hex_of(e.hash())] == blob_bytes(BlobV::Chunked(hs))
                && #[trigger] crate::merge::chunks_stored(m, cfg, hs, xs) ==> files[j].1@ == crate::merge::joined(
                xs,
            ))
}

/// The blob under digest `h` is stored with its content: compressed
/// inline, or as compressed chunks that are all stored.
pub open spec fn blob_restorable(m: Map<Seq<char>, Seq<u8>>, cfg: Option<CompressionConfig>, h: Seq<u8>) -> bool {
    m.contains_key(hex_of(h)) && ((exists|x: Seq<u8>|
        m[hex_of(h)] == blob_bytes(BlobV::Normal(compressed_form(cfg, x)))) || (exists|
        hs: Seq<Seq<u8>>,
        xs: Seq<Seq<u8>>,
    | m[hex_of(h)] == blob_bytes(BlobV::Chunked(hs)) && crate::merge::chunks_stored(m, cfg, hs, xs)))
}

/// The tree under `key` and everything below it, within `fuel` levels, is
/// stored and can be restored.
pub open spec fn restorable(m: Map<Seq<char>, Seq<u8>>, cfg: Option<CompressionConfig>, key: Seq<char>, fuel: nat) -> bool
    decreases fuel,
{
    tree_at(m, key) is Some && forall|i: int|
        0 <= i < tree_at(m, key)->0.entries.len() ==> match #[trigger] tree_at(m, key)->0.entries[i] {
            TreeEntryV::Blob(_, h) => blob_restorable(m, cfg, h),
            TreeEntryV::Tree(_, h) => fuel > 0 && restorable(m, cfg, hex_of(h), (fuel - 1) as nat),
        }
}

/// The number of files below the tree under `key`, within `fuel` levels.
pub open spec fn files_in(m: Map<Seq<char>, Seq<u8>>, key: Seq<char>, fuel: nat) -> nat
    decreases fuel, 1nat, 0nat,
{
    match tree_at(m, key) {
        Some(t) => entries_files(m, t.entries, fuel),
        None => 0,
    }
}

/// The number of files below the entries `es`, within `fuel` levels.
pub open spec fn entries_files(m: Map<Seq<char>, Seq<u8>>, es: Seq<TreeEntryV>, fuel: nat) -> nat
    decreases fuel, 0nat, es.len(),
{
    if es.len() == 0 {
        0
    } else {
        entries_files(m, es.drop_last(), fuel) + match es.last() {
            TreeEntryV::Blob(..) => 1nat,
            TreeEntryV::Tree(_, h) => if fuel > 0 {
                files_in(m, hex_of(h), (fuel - 1) as nat)
            } else {
                0nat
            },
        }
    }
}

proof fn lemma_file_listed_grows(
    f1: Seq<(Vec<String>, Vec<u8>)>,
    f2: Seq<(Vec<String>, Vec<u8>)>,
    from: int,
    prefix: Seq<Seq<char>>,
    e: TreeEntryV,
    m: Map<Seq<char>, Seq<u8>>,
    cfg: Option<CompressionConfig>,
)
    requires
        0 <= from,
        file_listed(f1, from, prefix, e, m, cfg),
        f1.len() <= f2.len(),
        f2.subrange(0, f1.len() as int) == f1,
    ensures
        file_listed(f2, from, prefix, e, m, cfg),
{
    let j = choose|j: int|
        from <= j < f1.len() && crate::order::path_view(f1[j].0@) == prefix.push(e.name()) && (forall|x: Seq<u8>|
            #![trigger compressed_form(cfg, x)]
            m.contains_key(hex_of(e.hash())) && m[hex_of(e.hash())] == blob_bytes(
                BlobV::Normal(compressed_form(cfg, x)),
            ) ==> f1[j].1@ == x) && (forall|hs: Seq<Seq<u8>>, xs: Seq<Seq<u8>>|
            m.contains_key(hex_of(e.hash())) && m[hex_of(e.hash())] == blob_bytes(BlobV::Chunked(hs))
                && #[trigger] crate::merge::chunks_stored(m, cfg, hs, xs) ==> f1[j].1@ == crate::merge::joined(
                xs,
            ));
    assert(from <= j < f1.len());
    assert(f2.subrange(0, f1.len() as int)[j] == f2[j]);
    assert(f1[j] == f2[j]);
}

/// The files of the tree stored under `key`, paths below `prefix`, with
/// their content restored, appended to `out`.
fn collect_files(
    key: &String,
    prefix: &Vec<String>,
    out: &mut Vec<(Vec<String>, Vec<u8>)>,
    store: &ObjectStore,
    cfg: &Option<CompressionConfig>,
    fuel: usize,
) -> (r: Result<(), GatoError>)
    requires
        store.wf(),
    ensures
        final(out)@.len() >= old(out)@.len(),
        final(out)@.subrange(0, old(out)@.len() as int) == old(out)@,
        r is Ok ==> tree_at(store@, key@) is Some,
        r is Ok ==> forall|i: int|
            0 <= i < tree_at(store@, key@)->0.entries.len() && (#[trigger] tree_at(
                store@,
                key@,
            )->0.entries[i]) is Blob ==> file_listed(
                final(out)@,
                old(out)@.len() as int,
                crate::order::path_view(prefix@),
                tree_at(store@, key@)->0.entries[i],
                store@,
                *cfg,
            ),
        restorable(store@, *cfg, key@, fuel as nat) ==> r is Ok,
        r is Ok ==> final(out)@.len() == old(out)@.len() + files_in(store@, key@, fuel as nat),
    decreases fuel,
{
    let ghost start = out@;
    let tree = match Tree::load(key, store) {
        Ok(t) => t,
        Err(e) => {
            assert(out@.subrange(0, out@.len() as int) =~= out@);
            return Err(e);
        },
    };
    let ghost pv = crate::order::path_view(prefix@);
    let mut i: usize = 0;
    assert(out@.subrange(0, start.len() as int) =~= start);
    assert(tree@.entries.subrange(0, 0) =~= Seq::<TreeEntryV>::empty());
    while i < tree.entries.len()
        invariant
            i <= tree.entries@.len(),
            store.wf(),
            tree_at(store@, key@) == Some(tree@),
            pv == crate::order::path_view(prefix@),
            start == old(out)@,
            out@.len() >= start.len(),
            out@.subrange(0, start.len() as int) == start,
            forall|k: int|
                0 <= k < i && (#[trigger] tree@.entries[k]) is Blob ==> file_listed(
                    out@,
                    start.len() as int,
                    pv,
                    tree@.entries[k],
                    store@,
                    *cfg,
                ),
            out@.len() == start.len() + entries_files(store@, tree@.entries.subrange(0, i as int), fuel as nat),
        decreases tree.entries@.len() - i,
    {
        let ghost before = out@;
        let mut path = crate::order::clone_path(prefix);
        path.push(tree.entries[i].name().clone());
        proof {
            assert(crate::order::path_view(path@) =~= pv.push(tree@.entries[i as int].name()));
        }
        match &tree.entries[i] {
            TreeEntry::Blob(_, h) => {
                proof {
                    if restorable(store@, *cfg, key@, fuel as nat) {
                        assert(blob_restorable(store@, *cfg, h@));
                        if exists|x: Seq<u8>| store@[hex_of(h@)] == blob_bytes(BlobV::Normal(compressed_form(*cfg, x))) {
                            let x = choose|x: Seq<u8>| store@[hex_of(h@)] == blob_bytes(BlobV::Normal(compressed_form(*cfg, x)));
                        } else {
                            let (hs, xs) = choose|hs: Seq<Seq<u8>>, xs: Seq<Seq<u8>>|
                                store@[hex_of(h@)] == blob_bytes(BlobV::Chunked(hs)) && crate::merge::chunks_stored(store@, *cfg, hs, xs);
                            assert(crate::merge::chunks_stored(store@, *cfg, hs, xs));
                        }
                    }
                }
                let data = restore_data(&to_hex(h.as_slice()), store, cfg)?;
                out.push((path, data));
                proof {
                    assert(out@[before.len() as int].1@ == data@);
                    assert(file_listed(out@, start.len() as int, pv, tree@.entries[i as int], store@, *cfg));
                }
            },
            TreeEntry::Tree(_, h) => {
                proof {
                    if restorable(store@, *cfg, key@, fuel as nat) {
                        assert(fuel > 0 && restorable(store@, *cfg, hex_of(h@), (fuel - 1) as nat));
                    }
                }
                if fuel == 0 {
                    return Err(GatoError::CorruptHistory);
                }
                let r = collect_files(&to_hex(h.as_slice()), &path, out, store, cfg, fuel - 1);
                proof {
                    assert(out@.subrange(0, before.len() as int) == before);
                    assert(out@.subrange(0, start.len() as int) =~= before.subrange(0, start.len() as int));
                }
                r?;
            },
        }
        proof {
            assert(out@.subrange(0, before.len() as int) == before) by {
                assert(out@.subrange(0, before.len() as int) =~= before);
            }
            assert(out@.subrange(0, start.len() as int) =~= start);
            assert forall|k: int|
                0 <= k < i + 1 && (#[trigger] tree@.entries[k]) is Blob implies file_listed(
                    out@,
                    start.len() as int,
                    pv,
                    tree@.entries[k],
                    store@,
                    *cfg,
                ) by {
                if k < i {
                    lemma_file_listed_grows(before, out@, start.len() as int, pv, tree@.entries[k], store@, *cfg);
                }
            }
            assert(tree@.entries.subrange(0, i + 1).drop_last() =~= tree@.entries.subrange(0, i as int));
        }
        i += 1;
    }
    proof {
        assert(tree@.entries.subrange(0, i as int) =~= tree@.entries);
    }
    Ok(())
}

impl Commit {
    /// The files of a commit's tree, each with its working-directory path and
    /// restored content, in tree order.
    pub fn write_tree(&self, store: &ObjectStore, cfg: &Option<CompressionConfig>) -> (r: Result<
        Vec<(Vec<String>, Vec<u8>)>,
        GatoError,
    >)
        requires
            store.wf(),
        ensures
            r is Ok ==> tree_at(store@, hex_of(self@.tree_hash())) is Some,
        restorable(store@, *cfg, hex_of(self@.tree_hash()), store.objects.rows@.len() as nat) ==> r is Ok,
        r matches Ok(files) ==> files@.len() == files_in(
            store@,
            hex_of(self@.tree_hash()),
            store.objects.rows@.len() as nat,
        ),
            r matches Ok(files) ==> forall|i: int|
                0 <= i < tree_at(store@, hex_of(self@.tree_hash()))->0.entries.len() && (#[trigger] tree_at(
                    store@,
                    hex_of(self@.tree_hash()),
                )->0.entries[i]) is Blob ==> file_listed(
                    files@,
                    0,
                    Seq::empty(),
                    tree_at(store@, hex_of(self@.tree_hash()))->0.entries[i],
                    store@,
                    *cfg,
                ),
    {
        let mut out: Vec<(Vec<String>, Vec<u8>)> = Vec::new();
        let key = to_hex(self.tree_hash().as_slice());
        let prefix: Vec<String> = Vec::new();
        assert(crate::order::path_view(prefix@) =~= Seq::<Seq<char>>::empty());
        collect_files(&key, &prefix, &mut out, store, cfg, store.objects.rows.len())?;
        Ok(out)
    }
}

/// The merge of the commits under `cur` and `tgt` against the commit under
/// `base` can be carried out: the three commits and their trees are stored
/// and the trees can be merged.
pub open spec fn merge_possible(
    m: Map<Seq<char>, Seq<u8>>,
    cfg: Option<CompressionConfig>,
    cur: Seq<char>,
    tgt: Seq<char>,
    base: Seq<char>,
    fuel: nat,
) -> bool {
    &&& crate::commit::commit_at(m, cur) is Some
    &&& crate::commit::commit_at(m, tgt) is Some
    &&& crate::commit::commit_at(m, base) is Some
    &&& tree_at(m, hex_of(crate::commit::commit_at(m, cur)->0.tree_hash())) is Some
    &&& tree_at(m, hex_of(crate::commit::commit_at(m, tgt)->0.tree_hash())) is Some
    &&& tree_at(m, hex_of(crate::commit::commit_at(m, base)->0.tree_hash())) is Some
    &&& crate::merge::mergeable(
        m,
        cfg,
        tree_at(m, hex_of(crate::commit::commit_at(m, base)->0.tree_hash()))->0,
        tree_at(m, hex_of(crate::commit::commit_at(m, cur)->0.tree_hash()))->0,
        tree_at(m, hex_of(crate::commit::commit_at(m, tgt)->0.tree_hash()))->0,
        fuel,
    )
}

/// `k` lies strictly before both `a` and `b` on their first-parent chains.
pub open spec fn common_ancestor(m: Map<Seq<char>, Seq<u8>>, a: Seq<char>, b: Seq<char>, k: Seq<char>) -> bool {
    crate::history::strict_ancestor(m, a, k) && crate::history::strict_ancestor(m, b, k)
}

#[verifier::rlimit(100)]
#[verifier::spinoff_prover]
/// Merges the tip of `target_branch` into the active branch: finds their
/// common base, merges the trees and records a merged commit whose first
/// parent is the active tip and whose second is the target's. Returns the
/// commit and the files merged with conflicts.
pub fn merge(
    store: &mut ObjectStore,
    refs: &mut Refs,
    target_branch: &String,
    message: String,
    author: &String,
    email: &Option<String>,
    cfg: &Option<CompressionConfig>,
) -> (r: Result<(Commit, Vec<String>), GatoError>)
    requires
        old(store).wf(),
        old(refs).wf(),
    ensures
        final(store).wf(),
        final(refs).wf(),
        keeps(old(store)@, final(store)@),
        r is Err ==> final(refs).tips() == old(refs).tips(),
        !old(refs).tips().contains_key(old(refs).head@) ==> r is Err,
        !old(refs).tips().contains_key(target_branch@) ==> r is Err,
        ({
            let m = old(store)@;
            let limit = old(store).objects.rows@.len() as nat;
            let cur = hex_of(old(refs).tips()[old(refs).head@]);
            let tgt = hex_of(old(refs).tips()[target_branch@]);
            old(refs).tips().contains_key(old(refs).head@) && old(refs).tips().contains_key(target_branch@)
                && crate::history::history_loads(m, cur, limit) && crate::history::history_loads(m, tgt, limit)
                && (exists|k: Seq<char>| #[trigger] common_ancestor(m, cur, tgt, k)) && (forall|k: Seq<char>|
                #[trigger] common_ancestor(m, cur, tgt, k) ==> merge_possible(m, *cfg, cur, tgt, k, limit))
                ==> r is Ok
        }),
        r matches Ok((c, _)) ==> {
            let cur = crate::commit::commit_at(old(store)@, hex_of(old(refs).tips()[old(refs).head@]))->0;
            let tgt = crate::commit::commit_at(old(store)@, hex_of(old(refs).tips()[target_branch@]))->0;
            let nd = cur.dependencies().len() + tgt.dependencies().len();
            &&& final(store)@.contains_key(hex_of(c@.tree_hash()))
            &&& c@.dependencies().len() > nd
            &&& c@.dependencies().subrange(0, nd as int) == cur.dependencies() + tgt.dependencies()
            &&& c@.dependencies().last() == hex_of(c@.tree_hash())
        },
        r matches Ok((c, _)) ==> {
            &&& c@ is Merged
            &&& c@->Merged_parent_hash1 == old(refs).tips()[old(refs).head@]
            &&& c@->Merged_parent_hash2 == old(refs).tips()[target_branch@]
            &&& c@.message() == message@
            &&& final(refs).tips() == old(refs).tips().insert(
                old(refs).head@,
                blake3_of(commit_bytes(c@)),
            )
        },
{
    let current_tip = match refs.active_tip() {
        Some(t) => t,
        None => return Err(GatoError::Storage(crate::store::StorageError::ReadError)),
    };
    let target_tip = match refs.read_ref(target_branch) {
        Ok(t) => t,
        Err(e) => return Err(GatoError::Storage(e)),
    };
    let current_key = to_hex(current_tip.as_slice());
    let target_key = to_hex(target_tip.as_slice());
    let ghost limit = store.objects.rows@.len() as nat;
    let base_key = match Commit::base(&current_key, &target_key, store)? {
        Some(k) => k,
        None => {
            proof {
                assert forall|k: Seq<char>| !#[trigger] common_ancestor(store@, current_key@, target_key@, k) by {
                    if common_ancestor(store@, current_key@, target_key@, k) {
                        let i = choose|i: nat| i >= 1 && #[trigger] crate::history::ancestor(store@, current_key@, i) == Some(k);
                        assert(crate::history::ancestor(store@, current_key@, i) is Some);
                    }
                }
            }
            return Err(GatoError::NoCommonBase);
        },
    };
    proof {
        let i = choose|i: nat|
            i >= 1 && #[trigger] crate::history::ancestor(store@, current_key@, i) == Some(base_key@)
                && crate::history::strict_ancestor(store@, target_key@, base_key@) && forall|i2: nat|
                1 <= i2 < i && (#[trigger] crate::history::ancestor(store@, current_key@, i2)) is Some
                    ==> !crate::history::strict_ancestor(
                    store@,
                    target_key@,
                    crate::history::ancestor(store@, current_key@, i2)->0,
                );
        assert(common_ancestor(store@, current_key@, target_key@, base_key@));
    }
    let current = Commit::load(&current_key, store)?;
    let target = Commit::load(&target_key, store)?;
    let base_commit = Commit::load(&base_key, store)?;
    let current_tree = Tree::load(&to_hex(current.tree_hash().as_slice()), store)?;
    let target_tree = Tree::load(&to_hex(target.tree_hash().as_slice()), store)?;
    let base_tree = Tree::load(&to_hex(base_commit.tree_hash().as_slice()), store)?;
    let mut deps = current.dependices();
    let mut more = target.dependices();
    let ghost dc = deps@;
    let ghost dt = more@;
    deps.append(&mut more);
    let ghost d2 = deps@;
    proof {
        assert(strs_view(d2) =~= current@.dependencies() + target@.dependencies());
    }
    let mut conflicts: Vec<String> = Vec::new();
    let fuel = store.objects.rows.len();
    let merged = Tree::merge(
        &base_tree,
        &current_tree,
        &target_tree,
        &mut deps,
        &mut conflicts,
        store,
        cfg,
        fuel,
    )?;
    let tree_key = merged.save(store);
    deps.push(tree_key);
    proof {
        assert(strs_view(deps@).subrange(0, d2.len() as int) =~= strs_view(d2)) by {
            assert(deps@.subrange(0, d2.len() as int) =~= d2);
        }
    }
    let c = Commit::MergedCommitV1 {
        message,
        author: author.clone(),
        timestamp: now_seconds(),
        email: email.clone(),
        tree_hash: merged.hash(),
        parent_hash1: current_tip,
        parent_hash2: target_tip,
        dependencies: deps,
    };
    c.save(store, refs);
    Ok((c, conflicts))
}

/// Moves the active branch back `commit_index` first-parent steps; nothing
/// changes when the history is shorter.
pub fn soft_reset(refs: &mut Refs, store: &ObjectStore, commit_index: usize) -> (r: bool)
    requires
        old(refs).wf(),
        store.wf(),
    ensures
        final(refs).wf(),
        final(refs).head == old(refs).head,
        !r ==> final(refs).tips() == old(refs).tips(),
        r <==> (old(refs).tips().contains_key(old(refs).head@) && crate::history::ancestor(
            store@,
            hex_of(old(refs).tips()[old(refs).head@]),
            commit_index as nat,
        ) is Some),
        r ==> exists|h: Seq<u8>|
            crate::history::ancestor(
                store@,
                hex_of(old(refs).tips()[old(refs).head@]),
                commit_index as nat,
            ) == Some(hex_of(h)) && final(refs).tips() == old(refs).tips().insert(old(refs).head@, h),
{
    let tip = match refs.active_tip() {
        Some(t) => t,
        None => return false,
    };
    let ghost start = hex_of(tip@);
    let mut current = tip;
    let mut i: usize = 0;
    while i < commit_index
        invariant
            i <= commit_index,
            store.wf(),
            *refs == *old(refs),
            refs.wf(),
            refs.tips().contains_key(refs.head@),
            start == hex_of(refs.tips()[refs.head@]),
            crate::history::ancestor(store@, start, i as nat) == Some(hex_of(current@)),
        decreases commit_index - i,
    {
        let c = match Commit::load(&to_hex(current.as_slice()), store) {
            Ok(c) => c,
            Err(_) => {
                proof {
                    crate::history::lemma_ancestor_stops(store@, start, i as nat, commit_index as nat);
                }
                return false;
            },
        };
        match c {
            Commit::V1 { parent_hash: Some(p), .. } => {
                current = p;
            },
            Commit::MergedCommitV1 { parent_hash1, .. } => {
                current = parent_hash1;
            },
            _ => {
                proof {
                    crate::history::lemma_ancestor_stops(store@, start, i as nat, commit_index as nat);
                }
                return false;
            },
        }
        i += 1;
    }
    let branch = refs.get_active_branch();
    refs.write_ref(branch, current);
    true
}

} // verus!

verus! {

/// The object under `key` is consistent with its name: its own bytes hash
/// to it, or it holds compressed content, inline in a blob or as a bare
/// chunk, that does.
pub open spec fn consistent(m: Map<Seq<char>, Seq<u8>>, key: Seq<char>, cfg: Option<CompressionConfig>) -> bool {
    m.contains_key(key) && (key == crate::hashing::object_key(m[key]) || exists|x: Seq<u8>|
        key == crate::hashing::object_key(x) && (m[key] == crate::blob::blob_bytes(
            crate::blob::BlobV::Normal(crate::compression::compressed_form(cfg, x)),
        ) || m[key] == crate::compression::compressed_form(cfg, x)))
}

/// Whether the object under `key` is present and hashes back to its name.
fn verify_object(key: &String, store: &ObjectStore, cfg: &Option<CompressionConfig>) -> (r: bool)
    requires
        store.wf(),
    ensures
        r ==> store@.contains_key(key@),
        consistent(store@, key@, *cfg) ==> r,
{
    let bytes = match store.get(key) {
        Ok(b) => b,
        Err(_) => return false,
    };
    if crate::hashing::hash_hex(bytes.as_slice()) == *key {
        return true;
    }
    if let Some(crate::blob::Blob::Normal(c)) = crate::blob::Blob::decode(bytes.as_slice()) {
        if let Some(raw) = crate::compression::decompress(c.as_slice(), cfg) {
            if crate::hashing::hash_hex(raw.as_slice()) == *key {
                return true;
            }
        }
    }
    match crate::compression::decompress(bytes.as_slice(), cfg) {
        Some(raw) => crate::hashing::hash_hex(raw.as_slice()) == *key,
        None => false,
    }
}

/// Whether every dependency of the commit is stored and hashes back to its
/// name.
pub fn verify_commit(c: &Commit, store: &ObjectStore, cfg: &Option<CompressionConfig>) -> (r: bool)
    requires
        store.wf(),
    ensures
        r ==> forall|i: int|
            0 <= i < c@.dependencies().len() ==> store@.contains_key(#[trigger] c@.dependencies()[i]),
        (forall|i: int|
            0 <= i < c@.dependencies().len() ==> consistent(store@, #[trigger] c@.dependencies()[i], *cfg))
            ==> r,
{
    let deps = c.dependices();
    let mut i: usize = 0;
    while i < deps.len()
        invariant
            i <= deps@.len(),
            store.wf(),
            strs_view(deps@) == c@.dependencies(),
            forall|j: int| 0 <= j < i ==> store@.contains_key(#[trigger] deps@[j]@),
        decreases deps@.len() - i,
    {
        assert(strs_view(deps@)[i as int] == deps@[i as int]@);
        if !verify_object(&deps[i], store, cfg) {
            return false;
        }
        i += 1;
    }
    proof {
        assert forall|j: int| 0 <= j < c@.dependencies().len() implies store@.contains_key(
            #[trigger] c@.dependencies()[j],
        ) by {
            assert(strs_view(deps@)[j] == deps@[j]@);
        }
    }
    true
}

} // verus!
