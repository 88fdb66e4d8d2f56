//! Staging file contents into the store: small files as one blob, large
//! files as content-defined chunks plus a blob that lists them.
use crate::blob::{blob_bytes, bytes_views, Blob, BlobV};
use crate::chunker::{cdc_cuts, cut, lemma_window_in_bounds, window_bytes, windows_tile};
use crate::compression::{compress, compressed_form, CompressionConfig};
use crate::hashing::{blake3_of, compute_hash, hex_of, to_hex};
use crate::index::{Index, IndexEntry};
use crate::store::{put_result, ObjectStore};
use vstd::prelude::*;
use vstd::slice::{slice_subrange};

verus! {

/// Files up to this size are stored whole; larger ones are chunked.
pub const SMALL_FILE_LIMIT: usize = 8 * 1024 * 1024;

/// The digest of each chunk of `data`, in file order.
pub open spec fn chunk_digests(data: Seq<u8>) -> Seq<Seq<u8>> {
    cdc_cuts(data).map_values(|w: (usize, usize)| blake3_of(window_bytes(data, w)))
}

/// The blob that lists the chunks of a large file.
pub open spec fn chunked_blob(data: Seq<u8>) -> Seq<u8> {
    blob_bytes(BlobV::Chunked(chunk_digests(data)))
}

/// The digests that staging a large file depends on: its chunks, then the
/// blob that lists them.
pub open spec fn large_deps(data: Seq<u8>) -> Seq<Seq<char>> {
    chunk_digests(data).map_values(|h: Seq<u8>| hex_of(h)).push(hex_of(blake3_of(chunked_blob(data))))
}

pub open spec fn strs(v: Seq<String>) -> Seq<Seq<char>> {
    v.map_values(|s: String| s@)
}

/// `m2` is `m1` with some keys of `keys` added and nothing else changed.
pub open spec fn grows_within(
    m1: Map<Seq<char>, Seq<u8>>,
    m2: Map<Seq<char>, Seq<u8>>,
    keys: Seq<Seq<char>>,
) -> bool {
    &&& forall|k: Seq<char>| #[trigger] m1.contains_key(k) ==> m2.contains_key(k) && m2[k] == m1[k]
    &&& forall|k: Seq<char>| #[trigger] m2.contains_key(k) ==> m1.contains_key(k) || keys.contains(k)
}

/// The `Normal` blob that stores `content` under the configured codec.
pub open spec fn normal_blob(cfg: Option<CompressionConfig>, content: Seq<u8>) -> Seq<u8> {
    blob_bytes(BlobV::Normal(compressed_form(cfg, content)))
}

/// The store after putting the compressed windows `ws` of `data`, in order,
/// each under the digest of its raw bytes.
pub open spec fn chunk_puts(
    m: Map<Seq<char>, Seq<u8>>,
    data: Seq<u8>,
    ws: Seq<(usize, usize)>,
    cfg: Option<CompressionConfig>,
) -> Map<Seq<char>, Seq<u8>>
    decreases ws.len(),
{
    if ws.len() == 0 {
        m
    } else {
        let c = window_bytes(data, ws.last());
        put_result(chunk_puts(m, data, ws.drop_last(), cfg), hex_of(blake3_of(c)), compressed_form(cfg, c))
    }
}

/// The store after staging a large file: its chunks, then the blob that
/// lists them under that blob's own digest.
pub open spec fn large_effect(m: Map<Seq<char>, Seq<u8>>, data: Seq<u8>, cfg: Option<CompressionConfig>) -> Map<
    Seq<char>,
    Seq<u8>,
> {
    put_result(
        chunk_puts(m, data, cdc_cuts(data), cfg),
        hex_of(blake3_of(chunked_blob(data))),
        chunked_blob(data),
    )
}

/// Stores the content of a small file as a `Normal` blob under the digest of
/// its raw bytes, unless that digest is already stored. Returns the digest
/// and the digests staging depends on.
pub fn add_file(store: &mut ObjectStore, content: &[u8], cfg: &Option<CompressionConfig>) -> (r: (
    Vec<u8>,
    Vec<String>,
))
    requires
        old(store).wf(),
    ensures
        final(store).wf(),
        r.0@ == blake3_of(content@),
        strs(r.1@) == seq![hex_of(r.0@)],
        final(store)@ == put_result(old(store)@, hex_of(r.0@), normal_blob(*cfg, content@)),
{
    let hash = compute_hash(content);
    let key = to_hex(hash.as_slice());
    if !store.exist(&key) {
        let compressed = match compress(content, cfg) {
            Some(c) => c,
            None => Vec::new(),
        };
        store.put(&key, Blob::encode_normal(compressed));
    }
    let deps = vec![key];
    assert(strs(deps@) =~= seq![hex_of(hash@)]);
    (hash, deps)
}

/// Stores the chunks of a large file, each compressed under the digest of
/// its raw bytes unless already stored, then the blob that lists them under
/// its own digest. Returns that digest and the digests staging depends on.
pub fn add_as_chunk(store: &mut ObjectStore, content: &[u8], cfg: &Option<CompressionConfig>) -> (r: (
    Vec<u8>,
    Vec<String>,
))
    requires
        old(store).wf(),
    ensures
        final(store).wf(),
        final(store)@ == large_effect(old(store)@, content@, *cfg),
        grows_within(old(store)@, final(store)@, large_deps(content@)),
        r.0@ == blake3_of(chunked_blob(content@)),
        strs(r.1@) == large_deps(content@),
        forall|i: int| 0 <= i < r.1@.len() ==> final(store)@.contains_key(#[trigger] r.1@[i]@),
{
    let n = content.len();
    let windows = cut(content);
    let ghost ws = windows@;
    let ghost data = content@;
    let ghost all = large_deps(data);
    let mut hashes: Vec<Vec<u8>> = Vec::new();
    let mut deps: Vec<String> = Vec::new();
    let mut i: usize = 0;
    while i < windows.len()
        invariant
            i <= windows@.len(),
            ws == windows@,
            ws == cdc_cuts(data),
            data == content@,
            n == data.len(),
            all == large_deps(data),
            windows_tile(ws, data.len() as int),
            store.wf(),
            hashes@.len() == i,
            deps@.len() == i,
            forall|j: int| 0 <= j < i ==> #[trigger] hashes@[j]@ == chunk_digests(data)[j],
            forall|j: int| 0 <= j < i ==> #[trigger] deps@[j]@ == hex_of(chunk_digests(data)[j]),
            forall|j: int| 0 <= j < i ==> store@.contains_key(#[trigger] deps@[j]@),
            grows_within(old(store)@, store@, all),
            store@ == chunk_puts(old(store)@, data, ws.subrange(0, i as int), *cfg),
        decreases windows@.len() - i,
    {
        let (off, len) = windows[i];
        proof {
            lemma_window_in_bounds(ws, data.len() as int, i as int);
        }
        let chunk = slice_subrange(content, off, off + len);
        let h = compute_hash(chunk);
        let key = to_hex(h.as_slice());
        proof {
            assert(chunk@ == window_bytes(data, ws[i as int]));
            assert(h@ == chunk_digests(data)[i as int]);
            assert(all[i as int] == key@);
            assert(ws.subrange(0, i + 1).drop_last() =~= ws.subrange(0, i as int));
            assert(ws.subrange(0, i + 1).last() == ws[i as int]);
        }
        if !store.exist(&key) {
            let compressed = match compress(chunk, cfg) {
                Some(c) => c,
                None => Vec::new(),
            };
            store.put(&key, compressed);
        }
        hashes.push(h);
        deps.push(key);
        i += 1;
    }
    let blob = Blob::encode_chunked(hashes);
    proof {
        assert(bytes_views(hashes@) =~= chunk_digests(data));
        assert(ws.subrange(0, i as int) =~= ws);
    }
    let outer = compute_hash(blob.as_slice());
    let outer_key = to_hex(outer.as_slice());
    proof {
        assert(all[all.len() - 1] == outer_key@);
        assert(all.contains(outer_key@));
    }
    store.put(&outer_key, blob);
    deps.push(outer_key);
    proof {
        assert(strs(deps@) =~= large_deps(data));
    }
    (outer, deps)
}

} // verus!

verus! {

/// A file read from the working directory, ready to stage.
pub struct StagedFile {
    pub path: Vec<String>,
    pub content: Vec<u8>,
    pub mtime: u32,
    pub mode: u32,
}

/// The digest an index entry records for a file: that of its raw bytes for
/// a small file, that of its chunk list for a large one.
pub open spec fn file_digest(content: Seq<u8>) -> Seq<u8> {
    if content.len() <= SMALL_FILE_LIMIT {
        blake3_of(content)
    } else {
        blake3_of(chunked_blob(content))
    }
}

/// The digests that staging `content` depends on.
pub open spec fn file_deps(content: Seq<u8>) -> Seq<Seq<char>> {
    if content.len() <= SMALL_FILE_LIMIT {
        seq![hex_of(blake3_of(content))]
    } else {
        large_deps(content)
    }
}

/// The store after staging `content`.
pub open spec fn stage_effect(m: Map<Seq<char>, Seq<u8>>, content: Seq<u8>, cfg: Option<CompressionConfig>) -> Map<
    Seq<char>,
    Seq<u8>,
> {
    if content.len() <= SMALL_FILE_LIMIT {
        put_result(m, hex_of(blake3_of(content)), normal_blob(cfg, content))
    } else {
        large_effect(m, content, cfg)
    }
}

/// The store after staging `files` in order.
pub open spec fn stage_all(m: Map<Seq<char>, Seq<u8>>, files: Seq<StagedFile>, cfg: Option<CompressionConfig>) -> Map<
    Seq<char>,
    Seq<u8>,
>
    decreases files.len(),
{
    if files.len() == 0 {
        m
    } else {
        stage_effect(stage_all(m, files.drop_last(), cfg), files.last().content@, cfg)
    }
}

/// The dependencies of `files`, file after file.
pub open spec fn staged_deps(files: Seq<StagedFile>) -> Seq<Seq<char>>
    decreases files.len(),
{
    if files.len() == 0 {
        Seq::empty()
    } else {
        staged_deps(files.drop_last()) + file_deps(files.last().content@)
    }
}

/// Stages one file by its size and describes it for the index.
pub fn stage_file(store: &mut ObjectStore, file: &StagedFile, cfg: &Option<CompressionConfig>) -> (r: (
    IndexEntry,
    Vec<String>,
))
    requires
        old(store).wf(),
    ensures
        final(store).wf(),
        r.0@ == staged_entry(*file),
        strs(r.1@) == file_deps(file.content@),
        final(store)@ == stage_effect(old(store)@, file.content@, *cfg),
        forall|i: int| 0 <= i < r.1@.len() ==> final(store)@.contains_key(#[trigger] r.1@[i]@),
        file.content@.len() > SMALL_FILE_LIMIT ==> grows_within(
            old(store)@,
            final(store)@,
            large_deps(file.content@),
        ),
{
    let len = file.content.len();
    let (hash, deps) = if len <= SMALL_FILE_LIMIT {
        add_file(store, file.content.as_slice(), cfg)
    } else {
        add_as_chunk(store, file.content.as_slice(), cfg)
    };
    proof {
        if len <= SMALL_FILE_LIMIT {
            assert(strs(deps@) == seq![hex_of(hash@)]);
            assert(strs(deps@)[0] == deps@[0]@);
        }
    }
    let entry = IndexEntry { hash, size: len as u64, mtime: file.mtime, mode: file.mode };
    (entry, deps)
}

/// The index entry that staging `f` records.
pub open spec fn staged_entry(f: StagedFile) -> crate::index::IndexEntryV {
    crate::index::IndexEntryV {
        hash: file_digest(f.content@),
        size: f.content@.len() as u64,
        mtime: f.mtime,
        mode: f.mode,
    }
}

/// No later file of `files` has the path of file `i`.
pub open spec fn last_of_path(files: Seq<StagedFile>, i: int) -> bool {
    forall|j: int|
        i < j < files.len() ==> crate::order::path_view(files[j].path@) != crate::order::path_view(
            files[i].path@,
        )
}

/// No file of `files` has path `q`.
pub open spec fn not_staged(files: Seq<StagedFile>, q: Seq<Seq<char>>) -> bool {
    forall|j: int| 0 <= j < files.len() ==> crate::order::path_view(files[j].path@) != q
}

/// Stages every file, in order, then records each in the index and appends
/// its dependencies to the index's.
pub fn add_all(
    store: &mut ObjectStore,
    index: &mut Index,
    files: &Vec<StagedFile>,
    cfg: &Option<CompressionConfig>,
)
    requires
        old(store).wf(),
        old(index).wf(),
    ensures
        final(store).wf(),
        final(index).wf(),
        final(store)@ == stage_all(old(store)@, files@, *cfg),
        final(index).deps() == old(index).deps() + staged_deps(files@),
        forall|i: int|
            0 <= i < files@.len() ==> #[trigger] final(index).has_path(
                crate::order::path_view(files@[i].path@),
            ),
        forall|q: Seq<Seq<char>>| #[trigger] old(index).has_path(q) ==> final(index).has_path(q),
        forall|q: Seq<Seq<char>>, ev: crate::index::IndexEntryV|
            #[trigger] old(index).has_entry(q, ev) && not_staged(files@, q) ==> final(index).has_entry(q, ev),
        forall|i: int|
            0 <= i < files@.len() && last_of_path(files@, i) ==> #[trigger] final(index).has_entry(
                crate::order::path_view(files@[i].path@),
                staged_entry(files@[i]),
            ),
{
    let mut staged: Vec<(Vec<String>, IndexEntry, Vec<String>)> = Vec::new();
    let mut i: usize = 0;
    while i < files.len()
        invariant
            i <= files@.len(),
            store.wf(),
            staged@.len() == i,
            store@ == stage_all(old(store)@, files@.subrange(0, i as int), *cfg),
            forall|j: int| 0 <= j < i ==> #[trigger] staged@[j].0@ == files@[j].path@,
            forall|j: int| 0 <= j < i ==> #[trigger] staged@[j].1@ == staged_entry(files@[j]),
            forall|j: int| 0 <= j < i ==> strs(#[trigger] staged@[j].2@) == file_deps(files@[j].content@),
        decreases files@.len() - i,
    {
        let (entry, deps) = stage_file(store, &files[i], cfg);
        staged.push((crate::order::clone_path(&files[i].path), entry, deps));
        proof {
            assert(files@.subrange(0, i + 1).drop_last() =~= files@.subrange(0, i as int));
        }
        i += 1;
    }
    proof {
        assert(files@.subrange(0, i as int) =~= files@);
        assert(old(index).deps() + staged_deps(files@.subrange(0, 0)) =~= old(index).deps());
    }
    let mut j: usize = 0;
    while j < staged.len()
        invariant
            j <= staged@.len(),
            index.wf(),
            staged@.len() == files@.len(),
            index.deps() == old(index).deps() + staged_deps(files@.subrange(0, j as int)),
            forall|k: int| 0 <= k < staged@.len() ==> #[trigger] staged@[k].0@ == files@[k].path@,
            forall|k: int| 0 <= k < staged@.len() ==> strs(#[trigger] staged@[k].2@) == file_deps(files@[k].content@),
            forall|k: int|
                0 <= k < j ==> #[trigger] index.has_path(crate::order::path_view(files@[k].path@)),
            forall|q: Seq<Seq<char>>| #[trigger] old(index).has_path(q) ==> index.has_path(q),
            forall|q: Seq<Seq<char>>, ev: crate::index::IndexEntryV|
                #[trigger] old(index).has_entry(q, ev) && not_staged(files@.subrange(0, j as int), q)
                    ==> index.has_entry(q, ev),
            forall|k: int| 0 <= k < staged@.len() ==> #[trigger] staged@[k].1@ == staged_entry(files@[k]),
            forall|k: int|
                0 <= k < j && (forall|m: int|
                    k < m < j ==> crate::order::path_view(files@[m].path@) != crate::order::path_view(
                        files@[k].path@,
                    )) ==> #[trigger] index.has_entry(
                    crate::order::path_view(files@[k].path@),
                    staged_entry(files@[k]),
                ),
        decreases staged@.len() - j,
    {
        let path = crate::order::clone_path(&staged[j].0);
        let entry = staged[j].1.clone_entry();
        let ghost pv = crate::order::path_view(path@);
        let ghost ev = entry@;
        let ghost pre = *index;
        index.add_entry(path, entry);
        proof {
            let w = choose|w: int| 0 <= w < index.rows().len() && index.rows()[w] == (pv, ev);
            assert(index.rows()[w].0 == pv);
            assert(index.has_path(pv));
        }
        let ghost mid = *index;
        index.add_dependencies(&staged[j].2);
        proof {
            assert(index.rows() == mid.rows());
            assert(files@.subrange(0, j + 1).drop_last() =~= files@.subrange(0, j as int));
            assert(strs(staged@[j as int].2@) == file_deps(files@[j as int].content@));
            assert(index.deps() =~= old(index).deps() + staged_deps(files@.subrange(0, j + 1)));
            assert forall|k: int| 0 <= k <= j implies #[trigger] index.has_path(
                crate::order::path_view(files@[k].path@),
            ) by {
                let q = crate::order::path_view(files@[k].path@);
                if k < j {
                    assert(pre.has_path(q));
                    assert(mid.has_path(q));
                } else {
                    assert(q == pv);
                }
                let w = choose|w: int| 0 <= w < mid.rows().len() && mid.rows()[w].0 == q;
                assert(index.rows()[w].0 == q);
            }
            assert forall|q: Seq<Seq<char>>| #[trigger] old(index).has_path(q) implies index.has_path(
                q,
            ) by {
                let w = choose|w: int| 0 <= w < mid.rows().len() && mid.rows()[w].0 == q;
                assert(index.rows()[w].0 == q);
            }
            assert forall|q: Seq<Seq<char>>, e2: crate::index::IndexEntryV|
                #[trigger] old(index).has_entry(q, e2) && not_staged(files@.subrange(0, j + 1), q)
                    implies index.has_entry(q, e2) by {
                assert(files@.subrange(0, j + 1)[j as int] == files@[j as int]);
                assert(q != pv);
                assert forall|m: int| 0 <= m < j implies crate::order::path_view(
                    files@.subrange(0, j as int)[m].path@,
                ) != q by {
                    assert(files@.subrange(0, j + 1)[m] == files@.subrange(0, j as int)[m]);
                }
                assert(pre.has_entry(q, e2));
                assert(mid.has_entry(q, e2));
                let w = choose|w: int| 0 <= w < mid.rows().len() && mid.rows()[w] == (q, e2);
                assert(index.rows()[w] == (q, e2));
            }
            assert forall|k: int|
                0 <= k < j + 1 && (forall|m: int|
                    k < m < j + 1 ==> crate::order::path_view(files@[m].path@) != crate::order::path_view(
                        files@[k].path@,
                    )) implies #[trigger] index.has_entry(
                crate::order::path_view(files@[k].path@),
                staged_entry(files@[k]),
            ) by {
                let q = crate::order::path_view(files@[k].path@);
                let e3 = staged_entry(files@[k]);
                if k < j {
                    assert(pre.has_entry(q, e3));
                    assert(q != pv);
                    assert(mid.has_entry(q, e3));
                } else {
                    assert(mid.has_entry(pv, e3));
                }
                let w = choose|w: int| 0 <= w < mid.rows().len() && mid.rows()[w] == (q, e3);
                assert(index.rows()[w] == (q, e3));
            }
        }
        j += 1;
    }
    proof {
        assert(files@.subrange(0, j as int) =~= files@);
    }
}

} // verus!

verus! {

/// Putting an object that is already stored changes nothing: staging the
/// same small file twice leaves the store as the first staging left it.
pub proof fn law_put_idempotent(m: Map<Seq<char>, Seq<u8>>, k: Seq<char>, v: Seq<u8>, w: Seq<u8>)
    ensures
        put_result(put_result(m, k, v), k, w) == put_result(m, k, v),
{
}

/// A put adds exactly one object when its key is new, and none otherwise.
pub proof fn law_put_adds_one_iff_new(m: Map<Seq<char>, Seq<u8>>, k: Seq<char>, v: Seq<u8>)
    requires
        m.dom().finite(),
    ensures
        put_result(m, k, v).dom() == m.dom().insert(k),
        !m.contains_key(k) ==> put_result(m, k, v).dom().len() == m.dom().len() + 1
            && put_result(m, k, v)[k] == v,
        m.contains_key(k) <==> put_result(m, k, v) == m,
{
    if !m.contains_key(k) {
        assert(m.dom().insert(k).len() == m.dom().len() + 1);
        assert(put_result(m, k, v).contains_key(k));
        if put_result(m, k, v) == m {
            assert(false);
        }
    } else {
        assert(m.dom().insert(k) =~= m.dom());
    }
    assert(put_result(m, k, v).dom() =~= m.dom().insert(k));
}

/// Staging a large file only adds objects named by its own dependencies: its
/// chunks and the blob that lists them.
pub proof fn law_large_new_objects_are_deps(
    before: Map<Seq<char>, Seq<u8>>,
    after: Map<Seq<char>, Seq<u8>>,
    data: Seq<u8>,
)
    requires
        grows_within(before, after, large_deps(data)),
    ensures
        after.dom().difference(before.dom()).subset_of(large_deps(data).to_set()),
{
    assert forall|k: Seq<char>| after.dom().difference(before.dom()).contains(k) implies large_deps(
        data,
    ).to_set().contains(k) by {
        assert(after.contains_key(k));
    }
}

/// Staging an unchanged large file a second time, once its dependencies are
/// all stored, adds no object at all.
pub proof fn law_restage_large_adds_nothing(
    before: Map<Seq<char>, Seq<u8>>,
    after: Map<Seq<char>, Seq<u8>>,
    data: Seq<u8>,
)
    requires
        forall|i: int| 0 <= i < large_deps(data).len() ==> before.contains_key(#[trigger] large_deps(data)[i]),
        grows_within(before, after, large_deps(data)),
    ensures
        after == before,
{
    assert forall|k: Seq<char>| #[trigger] after.contains_key(k) implies before.contains_key(k) by {
        if !before.contains_key(k) {
            let i = choose|i: int| 0 <= i < large_deps(data).len() && large_deps(data)[i] == k;
        }
    }
    assert(after =~= before);
}

} // verus!

verus! {

/// The digest that staging `content` would record, computed without
/// storing anything.
pub fn file_hash(content: &[u8]) -> (r: Vec<u8>)
    ensures
        r@ == file_digest(content@),
{
    if content.len() <= SMALL_FILE_LIMIT {
        return compute_hash(content);
    }
    let n = content.len();
    let windows = cut(content);
    let ghost data = content@;
    let mut hashes: Vec<Vec<u8>> = Vec::new();
    let mut i: usize = 0;
    while i < windows.len()
        invariant
            i <= windows@.len(),
            windows@ == cdc_cuts(data),
            data == content@,
            n == data.len(),
            windows_tile(windows@, data.len() as int),
            hashes@.len() == i,
            forall|j: int| 0 <= j < i ==> #[trigger] hashes@[j]@ == chunk_digests(data)[j],
        decreases windows@.len() - i,
    {
        let (off, len) = windows[i];
        proof {
            lemma_window_in_bounds(windows@, data.len() as int, i as int);
        }
        let chunk = slice_subrange(content, off, off + len);
        hashes.push(compute_hash(chunk));
        i += 1;
    }
    proof {
        assert(bytes_views(hashes@) =~= chunk_digests(data));
    }
    let blob = Blob::encode_chunked(hashes);
    compute_hash(blob.as_slice())
}

/// Where a working-directory file stands against the index.
#[derive(Debug, Clone, PartialEq, Eq)]
pub enum FileStatus {
    ToBeCommited { path: Vec<String> },
    NotStagedForCommit { path: Vec<String> },
    UntrackedFiles { path: Vec<String> },
    Unmodified,
}

impl FileStatus {
    /// Classifies a file from its digest now and the one the index records,
    /// if any: untracked without an index entry; unmodified when its digest
    /// is among the committed dependencies `deps`; staged when it matches
    /// the index; modified otherwise.
    pub fn from(path: Vec<String>, deps: &Vec<String>, index_hash: Option<String>, hash_now: &String) -> (r:
        FileStatus)
        ensures
            index_hash is None ==> r == (FileStatus::UntrackedFiles { path }),
            index_hash is Some && crate::gc::listed(deps@, hash_now@) ==> r == FileStatus::Unmodified,
            index_hash is Some && !crate::gc::listed(deps@, hash_now@) && index_hash->0@ == hash_now@
                ==> r == (FileStatus::ToBeCommited { path }),
            index_hash is Some && !crate::gc::listed(deps@, hash_now@) && index_hash->0@ != hash_now@
                ==> r == (FileStatus::NotStagedForCommit { path }),
    {
        match index_hash {
            Some(v) => {
                if crate::gc::contains_str(deps, hash_now) {
                    FileStatus::Unmodified
                } else if v == *hash_now {
                    FileStatus::ToBeCommited { path }
                } else {
                    FileStatus::NotStagedForCommit { path }
                }
            },
            None => FileStatus::UntrackedFiles { path },
        }
    }
}

} // verus!
