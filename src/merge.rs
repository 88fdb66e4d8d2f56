//! Three-way merge of trees, with a textual merge of files changed on both
//! sides.
use crate::blob::{blob_bytes, Blob, BlobV};
use crate::hashing::{blake3_of, hex_of};
use crate::staging::normal_blob;
use crate::tree::tree_at;
use vstd::utf8::{decode_utf8, encode_utf8, valid_utf8};
use crate::builder::keeps;
use crate::compression::{compressed_form, decompress, CompressionConfig};
use crate::error::GatoError;
use crate::gc::contains_str;
use crate::hashing::{string_from_utf8, to_hex};
use crate::staging::add_file;
use crate::store::ObjectStore;
use crate::tree::{first_named, Tree, TreeEntry, TreeEntryV, TreeV};
use vstd::prelude::*;

verus! {

/// What a three-way textual merge of base, ours and theirs gives: the merged
/// text, or the text with conflict markers.
pub uninterp spec fn three_way_of(base: Seq<char>, ours: Seq<char>, theirs: Seq<char>) -> Result<
    Seq<char>,
    Seq<char>,
>;

/// Relies on diffy::merge: a clean merge as `Ok`, or the text with conflict
/// markers as `Err`.
#[verifier::external_body]
fn diffy_merge(base: &str, ours: &str, theirs: &str) -> (r: Result<String, String>)
    ensures
        match r {
            Ok(s) => three_way_of(base@, ours@, theirs@) == Ok::<Seq<char>, Seq<char>>(s@),
            Err(s) => three_way_of(base@, ours@, theirs@) == Err::<Seq<char>, Seq<char>>(s@),
        },
{
    diffy::merge(base, ours, theirs)
}

/// The outcome for one name of a three-way merge.
#[derive(Debug, Clone, Copy, PartialEq, Eq, Structural)]
pub enum MergeChoice {
    KeepCurrent,
    TakeTarget,
    BothChanged,
}

pub open spec fn choice_of(b: Option<Seq<char>>, c: Option<Seq<char>>, t: Option<Seq<char>>) -> MergeChoice {
    if c == t {
        MergeChoice::KeepCurrent
    } else if c == b {
        MergeChoice::TakeTarget
    } else if t == b {
        MergeChoice::KeepCurrent
    } else {
        MergeChoice::BothChanged
    }
}

pub open spec fn opt_view(o: Option<String>) -> Option<Seq<char>> {
    match o {
        Some(s) => Some(s@),
        None => None,
    }
}

/// Decides one name from the digests it has in the base, current and target
/// trees: unchanged on one side means the other side wins.
pub fn decide(b: &Option<String>, c: &Option<String>, t: &Option<String>) -> (r: MergeChoice)
    ensures
        r == choice_of(opt_view(*b), opt_view(*c), opt_view(*t)),
{
    if opt_eq(c, t) {
        MergeChoice::KeepCurrent
    } else if opt_eq(c, b) {
        MergeChoice::TakeTarget
    } else if opt_eq(t, b) {
        MergeChoice::KeepCurrent
    } else {
        MergeChoice::BothChanged
    }
}

fn opt_eq(a: &Option<String>, b: &Option<String>) -> (r: bool)
    ensures
        r == (opt_view(*a) == opt_view(*b)),
{
    match (a, b) {
        (Some(x), Some(y)) => *x == *y,
        (None, None) => true,
        _ => false,
    }
}

/// The uncompressed content of the blob stored under `hash`: a `Normal`
/// blob decompressed, or the chunks of a `Chunked` one decompressed and
/// joined in order.
/// Byte strings laid end to end.
pub open spec fn joined(xs: Seq<Seq<u8>>) -> Seq<u8>
    decreases xs.len(),
{
    if xs.len() == 0 {
        Seq::empty()
    } else {
        joined(xs.drop_last()) + xs.last()
    }
}

/// Each chunk digest of `hs` names the compressed form of the matching
/// content of `xs`.
pub open spec fn chunks_stored(
    m: Map<Seq<char>, Seq<u8>>,
    cfg: Option<CompressionConfig>,
    hs: Seq<Seq<u8>>,
    xs: Seq<Seq<u8>>,
) -> bool {
    xs.len() == hs.len() && forall|i: int|
        0 <= i < hs.len() ==> m.contains_key(hex_of(#[trigger] hs[i])) && m[hex_of(hs[i])]
            == compressed_form(cfg, xs[i])
}

pub fn restore_data(hash: &String, store: &ObjectStore, cfg: &Option<CompressionConfig>) -> (r:
    Result<Vec<u8>, GatoError>)
    requires
        store.wf(),
    ensures
        !store@.contains_key(hash@) ==> r is Err,
        forall|x: Seq<u8>|
            store@.contains_key(hash@) && store@[hash@] == blob_bytes(
                BlobV::Normal(compressed_form(*cfg, x)),
            ) ==> (r is Ok && r->Ok_0@ == x),
        forall|hs: Seq<Seq<u8>>, xs: Seq<Seq<u8>>|
            store@.contains_key(hash@) && store@[hash@] == blob_bytes(BlobV::Chunked(hs))
                && #[trigger] chunks_stored(store@, *cfg, hs, xs) ==> (r is Ok && r->Ok_0@ == joined(xs)),
{
    let bytes = match store.get(hash) {
        Ok(b) => b,
        Err(e) => return Err(GatoError::Storage(e)),
    };
    match Blob::decode(bytes.as_slice()) {
        None => Err(GatoError::Decode),
        Some(Blob::Normal(c)) => match decompress(c.as_slice(), cfg) {
            Some(v) => Ok(v),
            None => Err(GatoError::Compression),
        },
        Some(Blob::ChunksMap(ix)) => {
            proof {
                assert forall|x: Seq<u8>| store@[hash@] != blob_bytes(
                    BlobV::Normal(compressed_form(*cfg, x)),
                ) by {
                    if store@[hash@] == blob_bytes(BlobV::Normal(compressed_form(*cfg, x))) {
                        assert(blob_bytes(BlobV::Normal(compressed_form(*cfg, x))) == bytes@);
                    }
                }
            }
            let ghost hv = crate::blob::bytes_views(ix.path@);
            proof {
                assert forall|hs: Seq<Seq<u8>>| store@[hash@] == blob_bytes(BlobV::Chunked(hs)) implies hs == hv by {
                    assert(blob_bytes(BlobV::Chunked(hs)) == bytes@);
                }
            }
            let mut out: Vec<u8> = Vec::new();
            let mut i: usize = 0;
            while i < ix.path.len()
                invariant
                    i <= ix.path@.len(),
                    store.wf(),
                    hv == crate::blob::bytes_views(ix.path@),
                    forall|x: Seq<u8>| store@[hash@] != blob_bytes(
                        BlobV::Normal(compressed_form(*cfg, x)),
                    ),
                    forall|hs: Seq<Seq<u8>>| store@[hash@] == blob_bytes(BlobV::Chunked(hs)) ==> hs == hv,
                    forall|xs: Seq<Seq<u8>>|
                        store@[hash@] == blob_bytes(BlobV::Chunked(hv)) && #[trigger] chunks_stored(store@, *cfg, hv, xs)
                            ==> out@ == joined(xs.subrange(0, i as int)),
                decreases ix.path@.len() - i,
            {
                assert(hv[i as int] == ix.path@[i as int]@);
                let key = to_hex(ix.path[i].as_slice());
                let part = match store.get(&key) {
                    Ok(p) => p,
                    Err(e) => return Err(GatoError::Storage(e)),
                };
                let raw = match decompress(part.as_slice(), cfg) {
                    Some(v) => v,
                    None => return Err(GatoError::Compression),
                };
                let ghost before = out@;
                crate::encoding::push_bytes(&mut out, raw.as_slice());
                proof {
                    assert forall|xs: Seq<Seq<u8>>|
                        store@[hash@] == blob_bytes(BlobV::Chunked(hv)) && #[trigger] chunks_stored(store@, *cfg, hv, xs)
                            implies out@ == joined(xs.subrange(0, i + 1)) by {
                        assert(xs.subrange(0, i + 1).drop_last() =~= xs.subrange(0, i as int));
                        assert(raw@ == xs[i as int]);
                    }
                }
                i += 1;
            }
            proof {
                assert forall|xs: Seq<Seq<u8>>|
                    store@[hash@] == blob_bytes(BlobV::Chunked(hv)) && #[trigger] chunks_stored(store@, *cfg, hv, xs)
                        implies out@ == joined(xs) by {
                    assert(xs.subrange(0, i as int) =~= xs);
                }
            }
            Ok(out)
        },
    }
}

/// The content of the blob under `hash` as text.
fn restore_text(h: &Vec<u8>, store: &ObjectStore, cfg: &Option<CompressionConfig>) -> (r: Result<
    String,
    GatoError,
>)
    requires
        store.wf(),
    ensures
        forall|s: Seq<char>| #[trigger] text_stored(store@, *cfg, h@, s) ==> r is Ok && r->Ok_0@ == s,
{
    let data = restore_data(&to_hex(h.as_slice()), store, cfg)?;
    match string_from_utf8(data) {
        Some(s) => Ok(s),
        None => Err(GatoError::Decode),
    }
}

/// No two entries share a name.
pub open spec fn distinct_names(es: Seq<TreeEntryV>) -> bool {
    forall|i: int, j: int| 0 <= i < j < es.len() ==> es[i].name() != es[j].name()
}

pub open spec fn entry_names(es: Seq<TreeEntryV>) -> Seq<Seq<char>> {
    es.map_values(|e: TreeEntryV| e.name())
}

proof fn lemma_first_named_distinct(es: Seq<TreeEntryV>, i: int)
    requires
        distinct_names(es),
        0 <= i < es.len(),
    ensures
        first_named(es, es[i].name()) == Some(es[i]),
    decreases i,
{
    if i > 0 {
        assert(es[0].name() != es[i].name());
        let d = es.drop_first();
        assert(distinct_names(d));
        assert(d[i - 1] == es[i]);
        lemma_first_named_distinct(d, i - 1);
    }
}

proof fn lemma_first_named_absent(es: Seq<TreeEntryV>, name: Seq<char>)
    requires
        forall|j: int| 0 <= j < es.len() ==> es[j].name() != name,
    ensures
        first_named(es, name) is None,
    decreases es.len(),
{
    if es.len() > 0 {
        assert(es[0].name() != name);
        let d = es.drop_first();
        assert forall|j: int| 0 <= j < d.len() implies d[j].name() != name by {
            assert(d[j] == es[j + 1]);
        }
        lemma_first_named_absent(d, name);
    }
}

pub open spec fn hex_opt(o: Option<TreeEntryV>) -> Option<Seq<char>> {
    match o {
        Some(e) => Some(crate::hashing::hex_of(e.hash())),
        None => None,
    }
}

/// The decision for name `n` from the digests it has in the three trees.
pub open spec fn choice_for(base: TreeV, current: TreeV, target: TreeV, n: Seq<char>) -> MergeChoice {
    choice_of(
        hex_opt(first_named(base.entries, n)),
        hex_opt(first_named(current.entries, n)),
        hex_opt(first_named(target.entries, n)),
    )
}

/// An entry of a merged tree follows the decision for its name: the current
/// side's entry, the target side's entry, or a merge of both.
pub open spec fn justified(
    m: Map<Seq<char>, Seq<u8>>,
    cfg: Option<CompressionConfig>,
    base: TreeV,
    current: TreeV,
    target: TreeV,
    e: TreeEntryV,
) -> bool {
    match choice_for(base, current, target, e.name()) {
        MergeChoice::KeepCurrent => first_named(current.entries, e.name()) == Some(e),
        MergeChoice::TakeTarget => first_named(target.entries, e.name()) == Some(e),
        MergeChoice::BothChanged => both_changed_entry(m, cfg, base, current, target, e),
    }
}

/// `s` is the text of the `Normal` blob stored under digest `h`.
pub open spec fn text_stored(m: Map<Seq<char>, Seq<u8>>, cfg: Option<CompressionConfig>, h: Seq<u8>, s: Seq<char>) -> bool {
    m.contains_key(hex_of(h)) && exists|x: Seq<u8>|
        m[hex_of(h)] == normal_blob(cfg, x) && valid_utf8(x) && s == decode_utf8(x)
}

/// `bt` is the base text for name `n`: the stored text of a base file, or
/// empty when the base has no file of that name.
pub open spec fn base_text(m: Map<Seq<char>, Seq<u8>>, cfg: Option<CompressionConfig>, base: TreeV, n: Seq<char>, bt: Seq<char>) -> bool {
    match first_named(base.entries, n) {
        Some(TreeEntryV::Blob(_, hb)) => text_stored(m, cfg, hb, bt),
        _ => bt == Seq::<char>::empty(),
    }
}

/// The merged text, with conflict markers when the sides conflict.
pub open spec fn merged_text(bt: Seq<char>, ot: Seq<char>, tt: Seq<char>) -> Seq<char> {
    match three_way_of(bt, ot, tt) {
        Ok(s) => s,
        Err(s) => s,
    }
}

/// Both sides hold a file called `n`.
pub open spec fn both_files(current: TreeV, target: TreeV, n: Seq<char>) -> bool {
    (first_named(current.entries, n) matches Some(TreeEntryV::Blob(_, _))) && (first_named(
        target.entries,
        n,
    ) matches Some(TreeEntryV::Blob(_, _)))
}

/// Both sides hold a directory called `n`.
pub open spec fn both_dirs(current: TreeV, target: TreeV, n: Seq<char>) -> bool {
    (first_named(current.entries, n) matches Some(TreeEntryV::Tree(_, _))) && (first_named(
        target.entries,
        n,
    ) matches Some(TreeEntryV::Tree(_, _)))
}

/// The texts that the merge of file `n` reads.
pub open spec fn texts(
    m: Map<Seq<char>, Seq<u8>>,
    cfg: Option<CompressionConfig>,
    base: TreeV,
    current: TreeV,
    target: TreeV,
    n: Seq<char>,
    bt: Seq<char>,
    ot: Seq<char>,
    tt: Seq<char>,
) -> bool {
    &&& text_stored(m, cfg, first_named(current.entries, n)->0.hash(), ot)
    &&& text_stored(m, cfg, first_named(target.entries, n)->0.hash(), tt)
    &&& base_text(m, cfg, base, n, bt)
}

/// An entry for a name changed on both sides: for two files, the merged
/// text stored as a file of that name; for two directories, a directory.
pub open spec fn both_changed_entry(
    m: Map<Seq<char>, Seq<u8>>,
    cfg: Option<CompressionConfig>,
    base: TreeV,
    current: TreeV,
    target: TreeV,
    e: TreeEntryV,
) -> bool {
    &&& both_files(current, target, e.name()) ==> e is Blob && forall|bt: Seq<char>, ot: Seq<char>, tt: Seq<char>|
        #[trigger] texts(m, cfg, base, current, target, e.name(), bt, ot, tt) ==> e.hash() == blake3_of(
            encode_utf8(merged_text(bt, ot, tt)),
        )
    &&& both_dirs(current, target, e.name()) ==> e is Tree
}

/// The decision for name `n` shows in the entries `res`.
pub open spec fn outcome_kept(
    base: TreeV,
    current: TreeV,
    target: TreeV,
    res: Seq<TreeEntryV>,
    n: Seq<char>,
) -> bool {
    match choice_for(base, current, target, n) {
        MergeChoice::KeepCurrent => first_named(current.entries, n) is Some ==> res.contains(
            first_named(current.entries, n)->0,
        ),
        MergeChoice::TakeTarget => first_named(target.entries, n) is Some ==> res.contains(
            first_named(target.entries, n)->0,
        ),
        MergeChoice::BothChanged => exists|i: int| 0 <= i < res.len() && res[i].name() == n,
    }
}

pub open spec fn named_in(t: TreeV, n: Seq<char>) -> bool {
    exists|j: int| 0 <= j < t.entries.len() && t.entries[j].name() == n
}

proof fn lemma_first_named_name(es: Seq<TreeEntryV>, n: Seq<char>)
    ensures
        first_named(es, n) is Some ==> first_named(es, n)->0.name() == n,
        first_named(es, n) is Some ==> exists|j: int| 0 <= j < es.len() && es[j] == first_named(es, n)->0,
        first_named(es, n) is None ==> !(exists|j: int| 0 <= j < es.len() && es[j].name() == n),
    decreases es.len(),
{
    if es.len() > 0 {
        lemma_first_named_name(es.drop_first(), n);
        if es[0].name() != n {
            assert forall|j: int| 0 <= j < es.len() && es[j].name() == n implies first_named(es, n) is Some by {
                assert(es.drop_first()[j - 1] == es[j]);
            }
            if first_named(es, n) is Some {
                let j = choose|j: int| 0 <= j < es.drop_first().len() && es.drop_first()[j] == first_named(es, n)->0;
                assert(es[j + 1] == es.drop_first()[j]);
            }
        } else {
            assert(es[0] == first_named(es, n)->0);
        }
    }
}

proof fn lemma_outcome_push(
    base: TreeV,
    current: TreeV,
    target: TreeV,
    res: Seq<TreeEntryV>,
    x: TreeEntryV,
    n: Seq<char>,
)
    requires
        outcome_kept(base, current, target, res, n),
    ensures
        outcome_kept(base, current, target, res.push(x), n),
{
    match choice_for(base, current, target, n) {
        MergeChoice::KeepCurrent => {
            if first_named(current.entries, n) is Some {
                let j = choose|j: int| 0 <= j < res.len() && res[j] == first_named(current.entries, n)->0;
                assert(res.push(x)[j] == res[j]);
            }
        },
        MergeChoice::TakeTarget => {
            if first_named(target.entries, n) is Some {
                let j = choose|j: int| 0 <= j < res.len() && res[j] == first_named(target.entries, n)->0;
                assert(res.push(x)[j] == res[j]);
            }
        },
        MergeChoice::BothChanged => {
            let j = choose|j: int| 0 <= j < res.len() && res[j].name() == n;
            assert(res.push(x)[j] == res[j]);
        },
    }
}

/// Texts read from a store stay readable, and the same, in a store that
/// keeps its objects.
proof fn lemma_texts_keep(
    m0: Map<Seq<char>, Seq<u8>>,
    m: Map<Seq<char>, Seq<u8>>,
    cfg: Option<CompressionConfig>,
    base: TreeV,
    current: TreeV,
    target: TreeV,
    n: Seq<char>,
)
    requires
        keeps(m0, m),
    ensures
        forall|bt: Seq<char>, ot: Seq<char>, tt: Seq<char>|
            #[trigger] texts(m0, cfg, base, current, target, n, bt, ot, tt) ==> texts(m, cfg, base, current, target, n, bt, ot, tt),
        forall|h: Seq<u8>, s: Seq<char>| #[trigger] text_stored(m0, cfg, h, s) ==> text_stored(m, cfg, h, s),
{
    assert forall|h: Seq<u8>, s: Seq<char>| #[trigger] text_stored(m0, cfg, h, s) implies text_stored(m, cfg, h, s) by {
        assert(m0.contains_key(hex_of(h)));
        assert(m[hex_of(h)] == m0[hex_of(h)]);
    }
}

/// The base file called `n`, if there is one, has readable text.
pub open spec fn base_readable(m: Map<Seq<char>, Seq<u8>>, cfg: Option<CompressionConfig>, base: TreeV, n: Seq<char>) -> bool {
    match first_named(base.entries, n) {
        Some(TreeEntryV::Blob(_, hb)) => exists|bt: Seq<char>| text_stored(m, cfg, hb, bt),
        _ => true,
    }
}

/// The base directory called `n`, if there is one, is stored.
pub open spec fn base_tree_stored(m: Map<Seq<char>, Seq<u8>>, base: TreeV, n: Seq<char>) -> bool {
    match first_named(base.entries, n) {
        Some(TreeEntryV::Tree(_, hb)) => tree_at(m, hex_of(hb)) is Some,
        _ => true,
    }
}

/// The base for merging directory `n`: the base directory of that name, or
/// an empty tree.
pub open spec fn sub_base(m: Map<Seq<char>, Seq<u8>>, base: TreeV, n: Seq<char>) -> TreeV {
    match first_named(base.entries, n) {
        Some(TreeEntryV::Tree(_, hb)) => tree_at(m, hex_of(hb))->0,
        _ => TreeV { name: n, entries: Seq::empty() },
    }
}

/// The merge can be carried out: every name changed on both sides is a file
/// on both with readable texts, or a directory on both whose trees are
/// stored and can be merged in turn, within `fuel` levels.
pub open spec fn mergeable(
    m: Map<Seq<char>, Seq<u8>>,
    cfg: Option<CompressionConfig>,
    base: TreeV,
    current: TreeV,
    target: TreeV,
    fuel: nat,
) -> bool
    decreases fuel,
{
    forall|n: Seq<char>|
        #[trigger] choice_for(base, current, target, n) == MergeChoice::BothChanged ==> (both_files(
            current,
            target,
            n,
        ) && (exists|ot: Seq<char>| text_stored(m, cfg, first_named(current.entries, n)->0.hash(), ot))
            && (exists|tt: Seq<char>| text_stored(m, cfg, first_named(target.entries, n)->0.hash(), tt))
            && base_readable(m, cfg, base, n)) || (both_dirs(current, target, n) && fuel > 0 && tree_at(
            m,
            hex_of(first_named(current.entries, n)->0.hash()),
        ) is Some && tree_at(m, hex_of(first_named(target.entries, n)->0.hash())) is Some
            && base_tree_stored(m, base, n) && mergeable(
            m,
            cfg,
            sub_base(m, base, n),
            tree_at(m, hex_of(first_named(current.entries, n)->0.hash()))->0,
            tree_at(m, hex_of(first_named(target.entries, n)->0.hash()))->0,
            (fuel - 1) as nat,
        ))
}

/// A name changed on both sides that is a file on one side and a directory,
/// or nothing, on the other.
pub open spec fn kinds_differ(base: TreeV, current: TreeV, target: TreeV, n: Seq<char>) -> bool {
    choice_for(base, current, target, n) == MergeChoice::BothChanged && !both_files(current, target, n)
        && !both_dirs(current, target, n)
}

/// The conflict of file `n`, if its merge conflicts, is noted in `conflicts`.
pub open spec fn conflict_noted(
    m: Map<Seq<char>, Seq<u8>>,
    cfg: Option<CompressionConfig>,
    base: TreeV,
    current: TreeV,
    target: TreeV,
    conflicts: Seq<String>,
    n: Seq<char>,
) -> bool {
    choice_for(base, current, target, n) == MergeChoice::BothChanged && both_files(current, target, n)
        ==> forall|bt: Seq<char>, ot: Seq<char>, tt: Seq<char>|
        #[trigger] texts(m, cfg, base, current, target, n, bt, ot, tt) && three_way_of(bt, ot, tt) is Err
            ==> crate::gc::listed(conflicts, n)
}

proof fn lemma_conflict_noted_grows(
    m: Map<Seq<char>, Seq<u8>>,
    cfg: Option<CompressionConfig>,
    base: TreeV,
    current: TreeV,
    target: TreeV,
    c1: Seq<String>,
    c2: Seq<String>,
    n: Seq<char>,
)
    requires
        conflict_noted(m, cfg, base, current, target, c1, n),
        c1.len() <= c2.len(),
        c2.subrange(0, c1.len() as int) == c1,
    ensures
        conflict_noted(m, cfg, base, current, target, c2, n),
{
    if crate::gc::listed(c1, n) {
        crate::gc::lemma_listed_grows(c1, c2, n);
    }
}

proof fn lemma_tree_at_keep(m0: Map<Seq<char>, Seq<u8>>, m: Map<Seq<char>, Seq<u8>>, k: Seq<char>)
    requires
        keeps(m0, m),
        tree_at(m0, k) is Some,
    ensures
        tree_at(m, k) == tree_at(m0, k),
{
    assert(m[k] == m0[k]);
}

proof fn lemma_mergeable_keep(
    m0: Map<Seq<char>, Seq<u8>>,
    m: Map<Seq<char>, Seq<u8>>,
    cfg: Option<CompressionConfig>,
    base: TreeV,
    current: TreeV,
    target: TreeV,
    fuel: nat,
)
    requires
        keeps(m0, m),
        mergeable(m0, cfg, base, current, target, fuel),
    ensures
        mergeable(m, cfg, base, current, target, fuel),
    decreases fuel,
{
    assert forall|n: Seq<char>|
        #[trigger] choice_for(base, current, target, n) == MergeChoice::BothChanged implies (both_files(
            current,
            target,
            n,
        ) && (exists|ot: Seq<char>| text_stored(m, cfg, first_named(current.entries, n)->0.hash(), ot))
            && (exists|tt: Seq<char>| text_stored(m, cfg, first_named(target.entries, n)->0.hash(), tt))
            && base_readable(m, cfg, base, n)) || (both_dirs(current, target, n) && fuel > 0 && tree_at(
            m,
            hex_of(first_named(current.entries, n)->0.hash()),
        ) is Some && tree_at(m, hex_of(first_named(target.entries, n)->0.hash())) is Some
            && base_tree_stored(m, base, n) && mergeable(
            m,
            cfg,
            sub_base(m, base, n),
            tree_at(m, hex_of(first_named(current.entries, n)->0.hash()))->0,
            tree_at(m, hex_of(first_named(target.entries, n)->0.hash()))->0,
            (fuel - 1) as nat,
        )) by {
        lemma_texts_keep(m0, m, cfg, base, current, target, n);
        if both_files(current, target, n) && (exists|ot: Seq<char>|
            text_stored(m0, cfg, first_named(current.entries, n)->0.hash(), ot)) && (exists|tt: Seq<char>|
            text_stored(m0, cfg, first_named(target.entries, n)->0.hash(), tt)) && base_readable(
            m0,
            cfg,
            base,
            n,
        ) {
            let ot = choose|ot: Seq<char>| text_stored(m0, cfg, first_named(current.entries, n)->0.hash(), ot);
            let tt = choose|tt: Seq<char>| text_stored(m0, cfg, first_named(target.entries, n)->0.hash(), tt);
            assert(text_stored(m, cfg, first_named(current.entries, n)->0.hash(), ot));
            assert(text_stored(m, cfg, first_named(target.entries, n)->0.hash(), tt));
            if let Some(TreeEntryV::Blob(_, hb)) = first_named(base.entries, n) {
                let bt = choose|bt: Seq<char>| text_stored(m0, cfg, hb, bt);
                assert(text_stored(m, cfg, hb, bt));
            }
        } else {
            let kc = hex_of(first_named(current.entries, n)->0.hash());
            let kt = hex_of(first_named(target.entries, n)->0.hash());
            lemma_tree_at_keep(m0, m, kc);
            lemma_tree_at_keep(m0, m, kt);
            if let Some(TreeEntryV::Tree(_, hb)) = first_named(base.entries, n) {
                lemma_tree_at_keep(m0, m, hex_of(hb));
            }
            assert(sub_base(m, base, n) == sub_base(m0, base, n));
            lemma_mergeable_keep(
                m0,
                m,
                cfg,
                sub_base(m0, base, n),
                tree_at(m0, kc)->0,
                tree_at(m0, kt)->0,
                (fuel - 1) as nat,
            );
        }
    }
}

/// Adds `name` to `names` unless it is there already.
fn note_name(names: &mut Vec<String>, name: &String)
    ensures
        crate::gc::listed(final(names)@, name@),
        forall|k: Seq<char>| crate::gc::listed(old(names)@, k) ==> crate::gc::listed(final(names)@, k),
        crate::gc::listed(old(names)@, name@) ==> final(names)@ == old(names)@,
        !crate::gc::listed(old(names)@, name@) ==> final(names)@.len() == old(names)@.len() + 1
            && final(names)@.subrange(0, old(names)@.len() as int) == old(names)@
            && final(names)@[old(names)@.len() as int]@ == name@,
{
    if !contains_str(names, name) {
        let ghost before = names@;
        names.push(name.clone());
        proof {
            assert(names@.subrange(0, before.len() as int) =~= before);
            assert(names@[before.len() as int]@ == name@);
            assert forall|k: Seq<char>| crate::gc::listed(before, k) implies crate::gc::listed(names@, k) by {
                let j = choose|j: int| 0 <= j < before.len() && #[trigger] before[j]@ == k;
                assert(names@[j] == before[j]);
            }
        }
    }
}

impl Tree {
    /// Merges `current` and `target` against `base`, name by name, storing
    /// merged files and trees. Names of files merged with conflicts are added to
    /// `conflicts`; the digest of every entry taken is added to `deps`.
    pub fn merge(
        base: &Tree,
        current: &Tree,
        target: &Tree,
        deps: &mut Vec<String>,
        conflicts: &mut Vec<String>,
        store: &mut ObjectStore,
        cfg: &Option<CompressionConfig>,
        fuel: usize,
    ) -> (r: Result<Tree, GatoError>)
        requires
            old(store).wf(),
        ensures
            final(store).wf(),
            keeps(old(store)@, final(store)@),
            r matches Ok(t) ==> t@.name == current@.name,
            current@ == target@ && distinct_names(current@.entries) ==> r is Ok && r->Ok_0@ == current@,
            mergeable(old(store)@, *cfg, base@, current@, target@, fuel as nat) ==> r is Ok,
            r is Ok ==> forall|n: Seq<char>| !#[trigger] kinds_differ(base@, current@, target@, n),
            final(deps)@.len() >= old(deps)@.len(),
            final(deps)@.subrange(0, old(deps)@.len() as int) == old(deps)@,
            final(conflicts)@.len() >= old(conflicts)@.len(),
            final(conflicts)@.subrange(0, old(conflicts)@.len() as int) == old(conflicts)@,
            r matches Ok(t) ==> final(store)@.contains_key(hex_of(crate::tree::tree_digest(t@))),
            r matches Ok(t) ==> forall|i: int|
                0 <= i < t@.entries.len() ==> crate::gc::listed(final(deps)@, hex_of(#[trigger] t@.entries[i].hash())),
            r is Ok ==> forall|n: Seq<char>|
                #[trigger] conflict_noted(old(store)@, *cfg, base@, current@, target@, final(conflicts)@, n),
            r matches Ok(t) ==> forall|i: int|
                0 <= i < t@.entries.len() ==> justified(old(store)@, *cfg, base@, current@, target@, #[trigger] t@.entries[i]),
            r matches Ok(t) ==> forall|n: Seq<char>|
                named_in(current@, n) || named_in(target@, n) || named_in(base@, n) ==> #[trigger] outcome_kept(
                    base@,
                    current@,
                    target@,
                    t@.entries,
                    n,
                ),
        decreases fuel,
    {
        let ghost same = current@ == target@ && distinct_names(current@.entries);
        let ghost cur = current@.entries;
        let ghost cn = entry_names(cur);
        let mut names: Vec<String> = Vec::new();
        let mut i: usize = 0;
        while i < current.entries.len()
            invariant
                i <= current.entries@.len(),
                cur == current@.entries,
                cn == entry_names(cur),
                same == (current@ == target@ && distinct_names(current@.entries)),
                same ==> names@.map_values(|s: String| s@) == cn.subrange(0, i as int),
                forall|j: int| 0 <= j < i ==> crate::gc::listed(names@, #[trigger] current@.entries[j].name()),
            decreases current.entries@.len() - i,
        {
            let ghost before = names@;
            note_name(&mut names, current.entries[i].name());
            proof {
                if same {
                    assert(cur[i as int].name() == current.entries@[i as int]@.name());
                    if crate::gc::listed(before, cur[i as int].name()) {
                        let j = choose|j: int| 0 <= j < before.len() && #[trigger] before[j]@ == cur[i as int].name();
                        assert(before.map_values(|s: String| s@)[j] == cn[j]);
                        assert(cn[j] == cur[j].name());
                    }
                    assert(names@.map_values(|s: String| s@) =~= cn.subrange(0, i + 1)) by {
                        assert(names@.map_values(|s: String| s@).subrange(0, before.len() as int) =~= before.map_values(|s: String| s@));
                    }
                }
            }
            i += 1;
        }
        i = 0;
        while i < target.entries.len()
            invariant
                i <= target.entries@.len(),
                cur == current@.entries,
                cn == entry_names(cur),
                same == (current@ == target@ && distinct_names(current@.entries)),
                same ==> names@.map_values(|s: String| s@) == cn,
                forall|j: int|
                    0 <= j < current.entries@.len() ==> crate::gc::listed(names@, #[trigger] current@.entries[j].name()),
                forall|j: int| 0 <= j < i ==> crate::gc::listed(names@, #[trigger] target@.entries[j].name()),
            decreases target.entries@.len() - i,
        {
            let ghost before = names@;
            proof {
                if same {
                    assert(cn.subrange(0, cn.len() as int) =~= cn);
                    assert(names@.map_values(|s: String| s@)[i as int] == cn[i as int]);
                    assert(target.entries@[i as int]@ == cur[i as int]);
                    assert(crate::gc::listed(before, target.entries@[i as int]@.name()));
                }
            }
            note_name(&mut names, target.entries[i].name());
            i += 1;
        }
        i = 0;
        while i < base.entries.len()
            invariant
                i <= base.entries@.len(),
                cur == current@.entries,
                cn == entry_names(cur),
                same == (current@ == target@ && distinct_names(current@.entries)),
                same ==> names@.len() >= cn.len(),
                same ==> names@.map_values(|s: String| s@).subrange(0, cn.len() as int) == cn,
                same ==> forall|k: int, j: int|
                    cn.len() <= k < names@.len() && 0 <= j < cn.len() ==> #[trigger] names@[k]@ != #[trigger] cn[j],
                forall|j: int|
                    0 <= j < current.entries@.len() ==> crate::gc::listed(names@, #[trigger] current@.entries[j].name()),
                forall|j: int|
                    0 <= j < target.entries@.len() ==> crate::gc::listed(names@, #[trigger] target@.entries[j].name()),
                forall|j: int| 0 <= j < i ==> crate::gc::listed(names@, #[trigger] base@.entries[j].name()),
            decreases base.entries@.len() - i,
        {
            let ghost before = names@;
            note_name(&mut names, base.entries[i].name());
            proof {
                if same {
                    assert(names@.map_values(|s: String| s@).subrange(0, cn.len() as int) =~= before.map_values(|s: String| s@).subrange(0, cn.len() as int)) by {
                        if names@ != before {
                            assert forall|k: int| 0 <= k < cn.len() implies names@[k] == before[k] by {
                                assert(names@.subrange(0, before.len() as int)[k] == before[k]);
                            }
                        }
                    }
                    assert forall|k: int, j: int|
                        cn.len() <= k < names@.len() && 0 <= j < cn.len() implies #[trigger] names@[k]@ != #[trigger] cn[j] by {
                        if names@ != before {
                            if k < before.len() {
                                assert(names@.subrange(0, before.len() as int)[k] == before[k]);
                            } else {
                                assert(names@[k]@ == base.entries@[i as int]@.name());
                                assert(before.map_values(|s: String| s@)[j] == cn[j]);
                                assert(before[j]@ == cn[j]);
                                if names@[k]@ == cn[j] {
                                    assert(crate::gc::listed(before, cn[j]));
                                }
                            }
                        }
                    }
                }
            }
            i += 1;
        }
        let mut result = Tree::new(current.name.clone());
        let ghost s0 = store@;
        let ghost d0 = deps@;
        let ghost c0 = conflicts@;
        let ghost mg = mergeable(s0, *cfg, base@, current@, target@, fuel as nat);
        let mut n: usize = 0;
        while n < names.len()
            invariant
                n <= names@.len(),
                store.wf(),
                keeps(s0, store@),
                s0 == old(store)@,
                result@.name == current@.name,
                cur == current@.entries,
                cn == entry_names(cur),
                same == (current@ == target@ && distinct_names(current@.entries)),
                same ==> names@.len() >= cn.len(),
                same ==> names@.map_values(|s: String| s@).subrange(0, cn.len() as int) == cn,
                same ==> forall|k: int, j: int|
                    cn.len() <= k < names@.len() && 0 <= j < cn.len() ==> #[trigger] names@[k]@ != #[trigger] cn[j],
                same ==> result@.entries == cur.subrange(0, if n < cur.len() { n as int } else { cur.len() as int }),
                forall|j: int|
                    0 <= j < current.entries@.len() ==> crate::gc::listed(names@, #[trigger] current@.entries[j].name()),
                forall|j: int|
                    0 <= j < target.entries@.len() ==> crate::gc::listed(names@, #[trigger] target@.entries[j].name()),
                forall|j: int|
                    0 <= j < base.entries@.len() ==> crate::gc::listed(names@, #[trigger] base@.entries[j].name()),
                forall|i: int|
                    0 <= i < result@.entries.len() ==> justified(s0, *cfg, base@, current@, target@, #[trigger] result@.entries[i]),
                forall|k: int|
                    0 <= k < n ==> outcome_kept(base@, current@, target@, result@.entries, #[trigger] names@[k]@),
                mg == mergeable(s0, *cfg, base@, current@, target@, fuel as nat),
                d0 == old(deps)@,
                c0 == old(conflicts)@,
                deps@.len() >= d0.len(),
                deps@.subrange(0, d0.len() as int) == d0,
                conflicts@.len() >= c0.len(),
                conflicts@.subrange(0, c0.len() as int) == c0,
                forall|k: int| 0 <= k < n ==> !#[trigger] kinds_differ(base@, current@, target@, names@[k]@),
                forall|i: int|
                    0 <= i < result@.entries.len() ==> crate::gc::listed(deps@, hex_of(#[trigger] result@.entries[i].hash())),
                forall|k: int|
                    0 <= k < n ==> conflict_noted(s0, *cfg, base@, current@, target@, conflicts@, #[trigger] names@[k]@),
            decreases names@.len() - n,
        {
            proof {
                if same {
                    if n < cur.len() {
                        assert(names@.map_values(|s: String| s@).subrange(0, cn.len() as int)[n as int] == names@[n as int]@);
                        assert(names@[n as int]@ == cur[n as int].name());
                        lemma_first_named_distinct(cur, n as int);
                    } else {
                        assert forall|j: int| 0 <= j < cur.len() implies cur[j].name() != names@[n as int]@ by {
                            assert(cn[j] == cur[j].name());
                        }
                        lemma_first_named_absent(cur, names@[n as int]@);
                    }
                }
            }
            let name = &names[n];
            let b = base.get_entry_hash(name);
            let c = current.get_entry_hash(name);
            let t = target.get_entry_hash(name);
            let ghost nv = name@;
            let ghost before = result@.entries;
            let ghost dprev = deps@;
            let ghost cprev = conflicts@;
            proof {
                lemma_first_named_name(current@.entries, nv);
                lemma_first_named_name(target@.entries, nv);
                assert(opt_view(b) == hex_opt(first_named(base@.entries, nv)));
                assert(opt_view(c) == hex_opt(first_named(current@.entries, nv)));
                assert(opt_view(t) == hex_opt(first_named(target@.entries, nv)));
            }
            let choice = decide(&b, &c, &t);
            proof {
                assert(choice == choice_for(base@, current@, target@, nv));
            }
            match choice {
                MergeChoice::KeepCurrent => {
                    if let Some(e) = current.get_entry(name) {
                        deps.push(to_hex(e.hash().as_slice()));
                        let ghost ev = e@;
                        result.add_entry(e);
                        proof {
                            if same {
                                assert(result@.entries =~= cur.subrange(0, n + 1));
                            }
                            assert(result@.entries[before.len() as int] == ev);
                        }
                    }
                },
                MergeChoice::TakeTarget => {
                    if let Some(e) = target.get_entry(name) {
                        deps.push(to_hex(e.hash().as_slice()));
                        let ghost ev = e@;
                        result.add_entry(e);
                        proof {
                            assert(result@.entries[before.len() as int] == ev);
                        }
                    }
                },
                MergeChoice::BothChanged => {
                    let ce = current.get_entry(name);
                    let te = target.get_entry(name);
                    proof {
                        if mg {
                            assert(choice_for(base@, current@, target@, nv) == MergeChoice::BothChanged);
                        }
                    }
                    match (ce, te) {
                        (Some(TreeEntry::Blob(_, h1)), Some(TreeEntry::Blob(_, h2))) => {
                            proof {
                                lemma_texts_keep(s0, store@, *cfg, base@, current@, target@, nv);
                                assert(both_files(current@, target@, nv));
                                if mg {
                                    let ot = choose|ot: Seq<char>| text_stored(s0, *cfg, h1@, ot);
                                    let tt = choose|tt: Seq<char>| text_stored(s0, *cfg, h2@, tt);
                                    assert(text_stored(store@, *cfg, h1@, ot));
                                    assert(text_stored(store@, *cfg, h2@, tt));
                                }
                            }
                            let ours = restore_text(&h1, store, cfg);
                            let theirs = restore_text(&h2, store, cfg);
                            let (ours, theirs) = match (ours, theirs) {
                                (Ok(o), Ok(t)) => (o, t),
                                _ => {
                                    return Err(GatoError::MergeConflict(name.clone()));
                                },
                            };
                            let be = base.get_entry(name);
                            proof {
                                if mg {
                                    if let Some(TreeEntryV::Blob(_, hb)) = first_named(base@.entries, nv) {
                                        let bt = choose|bt: Seq<char>| text_stored(s0, *cfg, hb, bt);
                                        assert(text_stored(store@, *cfg, hb, bt));
                                    }
                                }
                            }
                            let ancestor = match be {
                                Some(TreeEntry::Blob(_, hb)) => restore_text(&hb, store, cfg)?,
                                _ => String::new(),
                            };
                            let ghost is_conflict = three_way_of(ancestor@, ours@, theirs@) is Err;
                            let text = match diffy_merge(ancestor.as_str(), ours.as_str(), theirs.as_str()) {
                                Ok(v) => v,
                                Err(marked) => {
                                    conflicts.push(name.clone());
                                    proof {
                                        assert(conflicts@[conflicts@.len() - 1]@ == nv);
                                    }
                                    marked
                                },
                            };
                            proof {
                                assert(text@ == merged_text(ancestor@, ours@, theirs@));
                                assert(is_conflict ==> crate::gc::listed(conflicts@, nv));
                            }
                            let ghost sb = store@;
                            let (hash, _) = add_file(store, text.as_str().as_bytes(), cfg);
                            deps.push(to_hex(hash.as_slice()));
                            result.add_entry(TreeEntry::Blob(name.clone(), hash));
                            proof {
                                let e = result@.entries[before.len() as int];
                                assert(e.name() == nv);
                                assert(e.hash() == blake3_of(encode_utf8(text@)));
                                assert(deps@[deps@.len() - 1]@ == hex_of(e.hash()));
                                assert forall|bt: Seq<char>, ot: Seq<char>, tt: Seq<char>|
                                    #[trigger] texts(s0, *cfg, base@, current@, target@, nv, bt, ot, tt) implies e.hash()
                                    == blake3_of(encode_utf8(merged_text(bt, ot, tt))) && (three_way_of(bt, ot, tt) is Err
                                    ==> crate::gc::listed(conflicts@, nv)) by {
                                    assert(text_stored(sb, *cfg, h1@, ot));
                                    assert(text_stored(sb, *cfg, h2@, tt));
                                    assert(ours@ == ot);
                                    assert(theirs@ == tt);
                                    assert(base_text(sb, *cfg, base@, nv, bt));
                                    assert(ancestor@ == bt);
                                }
                                assert(both_changed_entry(s0, *cfg, base@, current@, target@, e));
                                assert(conflict_noted(s0, *cfg, base@, current@, target@, conflicts@, nv));
                            }
                        },
                        (Some(TreeEntry::Tree(_, h1)), Some(TreeEntry::Tree(_, h2))) => {
                            proof {
                                assert(both_dirs(current@, target@, nv));
                                assert(!both_files(current@, target@, nv));
                                if mg {
                                    lemma_tree_at_keep(s0, store@, hex_of(h1@));
                                    lemma_tree_at_keep(s0, store@, hex_of(h2@));
                                    if let Some(TreeEntryV::Tree(_, hb)) = first_named(base@.entries, nv) {
                                        lemma_tree_at_keep(s0, store@, hex_of(hb));
                                    }
                                }
                            }
                            if fuel == 0 {
                                return Err(GatoError::CorruptHistory);
                            }
                            let sub_current = Tree::load(&to_hex(h1.as_slice()), store)?;
                            let sub_target = Tree::load(&to_hex(h2.as_slice()), store)?;
                            let sub_base_tree = match base.get_entry(name) {
                                Some(TreeEntry::Tree(_, hb)) => Tree::load(&to_hex(hb.as_slice()), store)?,
                                _ => Tree::new(name.clone()),
                            };
                            proof {
                                if mg {
                                    assert(sub_base_tree@ == sub_base(s0, base@, nv));
                                    lemma_mergeable_keep(
                                        s0,
                                        store@,
                                        *cfg,
                                        sub_base(s0, base@, nv),
                                        sub_current@,
                                        sub_target@,
                                        (fuel - 1) as nat,
                                    );
                                }
                            }
                            let merged = Tree::merge(
                                &sub_base_tree,
                                &sub_current,
                                &sub_target,
                                deps,
                                conflicts,
                                store,
                                cfg,
                                fuel - 1,
                            )?;
                            let entry = TreeEntry::Tree(name.clone(), merged.hash());
                            deps.push(to_hex(entry.hash().as_slice()));
                            result.add_entry(entry);
                            proof {
                                let e = result@.entries[before.len() as int];
                                assert(e.name() == nv);
                                assert(deps@[deps@.len() - 1]@ == hex_of(e.hash()));
                                assert(both_changed_entry(s0, *cfg, base@, current@, target@, e));
                            }
                        },
                        _ => {
                            proof {
                                assert(!both_files(current@, target@, nv));
                                assert(!both_dirs(current@, target@, nv));
                            }
                            return Err(GatoError::MergeConflict(name.clone()));
                        },
                    }
                },
            }
            proof {
                assert(deps@.subrange(0, d0.len() as int) =~= dprev.subrange(0, d0.len() as int)) by {
                    assert(deps@.subrange(0, dprev.len() as int) =~= dprev);
                }
                assert(conflicts@.subrange(0, c0.len() as int) =~= cprev.subrange(0, c0.len() as int)) by {
                    assert(conflicts@.subrange(0, cprev.len() as int) =~= cprev);
                }
                assert(conflicts@.subrange(0, cprev.len() as int) == cprev);
                assert(deps@.subrange(0, dprev.len() as int) == dprev);
                assert(!kinds_differ(base@, current@, target@, nv));
                assert forall|i: int|
                    0 <= i < result@.entries.len() implies crate::gc::listed(
                    deps@,
                    hex_of(#[trigger] result@.entries[i].hash()),
                ) by {
                    if i < before.len() {
                        assert(result@.entries[i] == before[i]);
                        crate::gc::lemma_listed_grows(dprev, deps@, hex_of(before[i].hash()));
                    } else {
                        assert(deps@[deps@.len() - 1]@ == hex_of(result@.entries[i].hash()));
                    }
                }
                assert forall|k: int|
                    0 <= k < n + 1 implies conflict_noted(s0, *cfg, base@, current@, target@, conflicts@, #[trigger] names@[k]@) by {
                    if k < n {
                        lemma_conflict_noted_grows(s0, *cfg, base@, current@, target@, cprev, conflicts@, names@[k]@);
                    } else if choice_for(base@, current@, target@, nv) != MergeChoice::BothChanged || !both_files(
                        current@,
                        target@,
                        nv,
                    ) {
                    }
                }
            }
            proof {
                assert forall|k: int| 0 <= k < n + 1 implies outcome_kept(
                    base@,
                    current@,
                    target@,
                    result@.entries,
                    #[trigger] names@[k]@,
                ) by {
                    if k < n {
                        if result@.entries != before {
                            lemma_outcome_push(base@, current@, target@, before, result@.entries.last(), names@[k]@);
                            assert(before.push(result@.entries.last()) =~= result@.entries);
                        }
                    }
                }
                assert forall|i: int| 0 <= i < result@.entries.len() implies justified(
                    s0,
                    *cfg,
                    base@,
                    current@,
                    target@,
                    #[trigger] result@.entries[i],
                ) by {
                    if i < before.len() {
                        assert(result@.entries[i] == before[i]);
                    }
                }
            }
            n += 1;
        }
        proof {
            assert forall|nn: Seq<char>|
                named_in(current@, nn) || named_in(target@, nn) || named_in(base@, nn) implies #[trigger] outcome_kept(
                    base@,
                    current@,
                    target@,
                    result@.entries,
                    nn,
                ) by {
                let j = if named_in(current@, nn) {
                    let j0 = choose|j: int| 0 <= j < current@.entries.len() && current@.entries[j].name() == nn;
                    assert(crate::gc::listed(names@, current@.entries[j0].name()));
                    choose|k: int| 0 <= k < names@.len() && #[trigger] names@[k]@ == nn
                } else if named_in(target@, nn) {
                    let j0 = choose|j: int| 0 <= j < target@.entries.len() && target@.entries[j].name() == nn;
                    assert(crate::gc::listed(names@, target@.entries[j0].name()));
                    choose|k: int| 0 <= k < names@.len() && #[trigger] names@[k]@ == nn
                } else {
                    let j0 = choose|j: int| 0 <= j < base@.entries.len() && base@.entries[j].name() == nn;
                    assert(crate::gc::listed(names@, base@.entries[j0].name()));
                    choose|k: int| 0 <= k < names@.len() && #[trigger] names@[k]@ == nn
                };
                assert(outcome_kept(base@, current@, target@, result@.entries, names@[j]@));
            }
            if same {
                assert(cur.subrange(0, cur.len() as int) =~= cur);
                assert(result@.entries == cur);
            }
        }
        proof {
            assert forall|nn: Seq<char>|
                choice_for(base@, current@, target@, nn) == MergeChoice::BothChanged implies exists|k: int|
                    0 <= k < names@.len() && #[trigger] names@[k]@ == nn by {
                lemma_first_named_name(current@.entries, nn);
                lemma_first_named_name(target@.entries, nn);
                if first_named(current@.entries, nn) is Some {
                    let j0 = choose|j: int|
                        0 <= j < current@.entries.len() && current@.entries[j] == first_named(current@.entries, nn)->0;
                    assert(crate::gc::listed(names@, current@.entries[j0].name()));
                } else {
                    assert(first_named(target@.entries, nn) is Some);
                    let j0 = choose|j: int|
                        0 <= j < target@.entries.len() && target@.entries[j] == first_named(target@.entries, nn)->0;
                    assert(crate::gc::listed(names@, target@.entries[j0].name()));
                }
            }
            assert forall|nn: Seq<char>| !#[trigger] kinds_differ(base@, current@, target@, nn) by {
                if choice_for(base@, current@, target@, nn) == MergeChoice::BothChanged {
                    let k = choose|k: int| 0 <= k < names@.len() && #[trigger] names@[k]@ == nn;
                    assert(!kinds_differ(base@, current@, target@, names@[k]@));
                }
            }
            assert forall|nn: Seq<char>|
                #[trigger] conflict_noted(s0, *cfg, base@, current@, target@, conflicts@, nn) by {
                if choice_for(base@, current@, target@, nn) == MergeChoice::BothChanged {
                    let k = choose|k: int| 0 <= k < names@.len() && #[trigger] names@[k]@ == nn;
                    assert(conflict_noted(s0, *cfg, base@, current@, target@, conflicts@, names@[k]@));
                }
            }
        }
        result.save(store);
        Ok(result)
    }
}

} // verus!
