//! Building the directory trees of a commit from the index.
use crate::hashing::hex_of;
use crate::index::Index;
use crate::order::clone_path;
use crate::store::ObjectStore;
use crate::tree::{tree_digest, Tree, TreeEntry, TreeEntryV, TreeV};
use vstd::prelude::*;

verus! {

/// Every object of `m1` is still in `m2`, unchanged.
pub open spec fn keeps(m1: Map<Seq<char>, Seq<u8>>, m2: Map<Seq<char>, Seq<u8>>) -> bool {
    forall|k: Seq<char>| #[trigger] m1.contains_key(k) ==> m2.contains_key(k) && m2[k] == m1[k]
}

/// Every digest of `deps` names an object of `m`.
pub open spec fn all_stored(deps: Seq<String>, m: Map<Seq<char>, Seq<u8>>) -> bool {
    forall|i: int| 0 <= i < deps.len() ==> m.contains_key(#[trigger] deps[i]@)
}

proof fn lemma_keeps_trans(
    a: Map<Seq<char>, Seq<u8>>,
    b: Map<Seq<char>, Seq<u8>>,
    c: Map<Seq<char>, Seq<u8>>,
)
    requires
        keeps(a, b),
        keeps(b, c),
    ensures
        keeps(a, c),
{
}

proof fn lemma_all_stored_keeps(deps: Seq<String>, a: Map<Seq<char>, Seq<u8>>, b: Map<Seq<char>, Seq<u8>>)
    requires
        all_stored(deps, a),
        keeps(a, b),
    ensures
        all_stored(deps, b),
{
    assert forall|i: int| 0 <= i < deps.len() implies b.contains_key(#[trigger] deps[i]@) by {
        assert(a.contains_key(deps[i]@));
    }
}

pub open spec fn max_len(entries: Seq<(Vec<String>, Vec<u8>)>, depth: int) -> bool {
    forall|i: int| 0 <= i < entries.len() ==> #[trigger] entries[i].0@.len() <= depth
}

/// Entries as paths of names with content digests.
pub open spec fn ents(v: Seq<(Vec<String>, Vec<u8>)>) -> Seq<(Seq<Seq<char>>, Seq<u8>)> {
    v.map_values(|e: (Vec<String>, Vec<u8>)| (crate::order::path_view(e.0@), e.1@))
}

/// The files of a tree: the entries with a one-component path, in order.
pub open spec fn file_entries(es: Seq<(Seq<Seq<char>>, Seq<u8>)>) -> Seq<TreeEntryV>
    decreases es.len(),
{
    if es.len() == 0 {
        Seq::empty()
    } else {
        let r = file_entries(es.drop_last());
        if es.last().0.len() == 1 {
            r.push(TreeEntryV::Blob(es.last().0[0], es.last().1))
        } else {
            r
        }
    }
}

/// The first components of the longer paths, each once, in order of first
/// appearance.
pub open spec fn group_names(es: Seq<(Seq<Seq<char>>, Seq<u8>)>) -> Seq<Seq<char>>
    decreases es.len(),
{
    if es.len() == 0 {
        Seq::empty()
    } else {
        let r = group_names(es.drop_last());
        let p = es.last().0;
        if p.len() > 1 && !r.contains(p[0]) {
            r.push(p[0])
        } else {
            r
        }
    }
}

/// The entries below subdirectory `g`, with paths relative to it.
pub open spec fn members(es: Seq<(Seq<Seq<char>>, Seq<u8>)>, g: Seq<char>) -> Seq<(Seq<Seq<char>>, Seq<u8>)>
    decreases es.len(),
{
    if es.len() == 0 {
        Seq::empty()
    } else {
        let r = members(es.drop_last(), g);
        let p = es.last().0;
        if p.len() > 1 && p[0] == g {
            r.push((p.drop_first(), es.last().1))
        } else {
            r
        }
    }
}

/// The tree built over `es`: its files, then one subtree per group.
pub open spec fn spec_tree(es: Seq<(Seq<Seq<char>>, Seq<u8>)>, name: Seq<char>, depth: nat) -> TreeV
    decreases depth, 1nat, 0nat,
{
    TreeV { name, entries: file_entries(es) + subtrees(group_names(es), es, depth) }
}

/// The entries of the subtrees named `gs`.
pub open spec fn subtrees(gs: Seq<Seq<char>>, es: Seq<(Seq<Seq<char>>, Seq<u8>)>, depth: nat) -> Seq<
    TreeEntryV,
>
    decreases depth, 0nat, gs.len(),
{
    if gs.len() == 0 || depth == 0 {
        Seq::empty()
    } else {
        subtrees(gs.drop_last(), es, depth).push(
            TreeEntryV::Tree(
                gs.last(),
                tree_digest(spec_tree(members(es, gs.last()), gs.last(), (depth - 1) as nat)),
            ),
        )
    }
}

proof fn lemma_members_absent(es: Seq<(Seq<Seq<char>>, Seq<u8>)>, g: Seq<char>)
    requires
        !group_names(es).contains(g),
    ensures
        members(es, g) == Seq::<(Seq<Seq<char>>, Seq<u8>)>::empty(),
    decreases es.len(),
{
    if es.len() > 0 {
        let r = group_names(es.drop_last());
        let p = es.last().0;
        if r.contains(g) {
            if p.len() > 1 && !r.contains(p[0]) {
                let k = choose|k: int| 0 <= k < r.len() && r[k] == g;
                assert(group_names(es)[k] == g);
            }
            assert(group_names(es).contains(g));
        }
        lemma_members_absent(es.drop_last(), g);
        if p.len() > 1 && p[0] == g {
            assert(r.contains(g) || group_names(es) == r.push(p[0]));
            assert(group_names(es).last() == g);
        }
    }
}

proof fn lemma_subtrees_step(gs: Seq<Seq<char>>, es: Seq<(Seq<Seq<char>>, Seq<u8>)>, depth: nat, g: int)
    requires
        0 <= g < gs.len(),
        depth > 0,
    ensures
        subtrees(gs.subrange(0, g + 1), es, depth) == subtrees(gs.subrange(0, g), es, depth).push(
            TreeEntryV::Tree(
                gs[g],
                tree_digest(spec_tree(members(es, gs[g]), gs[g], (depth - 1) as nat)),
            ),
        ),
{
    assert(gs.subrange(0, g + 1).drop_last() =~= gs.subrange(0, g));
}

/// Finds the group called `name`.
fn find_group(names: &Vec<String>, name: &String) -> (r: Option<usize>)
    ensures
        r matches Some(i) ==> i < names@.len() && names@[i as int]@ == name@,
        r is None ==> forall|j: int| 0 <= j < names@.len() ==> names@[j]@ != name@,
{
    let mut i: usize = 0;
    while i < names.len()
        invariant
            i <= names@.len(),
            forall|j: int| 0 <= j < i ==> names@[j]@ != name@,
        decreases names@.len() - i,
    {
        if names[i] == *name {
            return Some(i);
        }
        i += 1;
    }
    None
}

/// Builds and stores the tree called `name` over `entries` (paths relative
/// to it, with content digests): one-component paths are its files, the
/// others are grouped by their first component into subtrees, which are
/// built first. The key of every stored tree is appended to `deps`.
pub fn build_recursive_tree(
    entries: &Vec<(Vec<String>, Vec<u8>)>,
    name: String,
    deps: &mut Vec<String>,
    store: &mut ObjectStore,
    depth: usize,
) -> (r: TreeEntry)
    requires
        old(store).wf(),
        max_len(entries@, depth as int),
        all_stored(old(deps)@, old(store)@),
    ensures
        final(store).wf(),
        keeps(old(store)@, final(store)@),
        all_stored(final(deps)@, final(store)@),
        old(deps)@.len() < final(deps)@.len(),
        final(deps)@.subrange(0, old(deps)@.len() as int) == old(deps)@,
        r@ is Tree,
        r@.name() == name@,
        final(store)@.contains_key(hex_of(r@.hash())),
        entries@.len() == 0 ==> r@ == TreeEntryV::Tree(
            name@,
            tree_digest(TreeV { name: name@, entries: Seq::empty() }),
        ),
        r@ == TreeEntryV::Tree(name@, tree_digest(spec_tree(ents(entries@), name@, depth as nat))),
        final(deps)@.last()@ == hex_of(r@.hash()),
        entries@.len() == 0 ==> final(deps)@ == old(deps)@.push(final(deps)@.last()),
        entries@.len() == 0 ==> final(store)@ == crate::store::put_result(
            old(store)@,
            hex_of(r@.hash()),
            crate::tree::tree_bytes(TreeV { name: name@, entries: Seq::empty() }),
        ),
    decreases depth,
{
    let ghost es = ents(entries@);
    let ghost nm = name@;
    let mut current = Tree::new(name);
    let mut names: Vec<String> = Vec::new();
    let mut groups: Vec<Vec<(Vec<String>, Vec<u8>)>> = Vec::new();
    let mut i: usize = 0;
    while i < entries.len()
        invariant
            i <= entries@.len(),
            max_len(entries@, depth as int),
            names@.len() == groups@.len(),
            current@.name == name@,
            entries@.len() == 0 ==> current@.entries == Seq::<TreeEntryV>::empty() && groups@.len()
                == 0,
            groups@.len() > 0 ==> depth >= 1,
            forall|g: int| 0 <= g < groups@.len() ==> max_len(#[trigger] groups@[g]@, depth - 1),
            es == ents(entries@),
            nm == name@,
            current@.entries == file_entries(es.subrange(0, i as int)),
            crate::config::names_view(names@) == group_names(es.subrange(0, i as int)),
            forall|a: int, b: int| 0 <= a < b < names@.len() ==> names@[a]@ != names@[b]@,
            forall|g: int|
                0 <= g < groups@.len() ==> ents(#[trigger] groups@[g]@) == members(
                    es.subrange(0, i as int),
                    names@[g]@,
                ),
        decreases entries@.len() - i,
    {
        let ghost sp = es.subrange(0, i as int);
        let ghost sn = es.subrange(0, i + 1);
        let ghost old_names = names@;
        let ghost old_groups = groups@;
        proof {
            assert(sn.drop_last() =~= sp);
            assert(sn.last() == es[i as int]);
            assert(es[i as int] == (crate::order::path_view(entries@[i as int].0@), entries@[i as int].1@));
        }
        let path = &entries[i].0;
        let hash = &entries[i].1;
        if path.len() == 1 {
            current.add_entry(TreeEntry::Blob(path[0].clone(), hash.clone()));
            proof {
                assert(crate::order::path_view(path@)[0] == path@[0]@);
                assert forall|g: int| 0 <= g < groups@.len() implies ents(#[trigger] groups@[g]@) == members(
                    sn,
                    names@[g]@,
                ) by {}
            }
        } else if path.len() > 1 {
            let first = path[0].clone();
            let mut rest: Vec<String> = Vec::new();
            let mut k: usize = 1;
            while k < path.len()
                invariant
                    1 <= k <= path@.len(),
                    rest@.len() == k - 1,
                    crate::order::path_view(rest@) == crate::order::path_view(path@).subrange(1, k as int),
                decreases path@.len() - k,
            {
                rest.push(path[k].clone());
                assert(crate::order::path_view(rest@) =~= crate::order::path_view(path@).subrange(1, k + 1));
                k += 1;
            }
            proof {
                assert(crate::order::path_view(rest@) =~= crate::order::path_view(path@).drop_first());
                assert(crate::order::path_view(path@)[0] == first@);
            }
            assert(entries@[i as int].0@.len() <= depth);
            let ghost item = (crate::order::path_view(rest@), hash@);
            match find_group(&names, &first) {
                Some(g) => {
                    let mut group = groups.remove(g);
                    group.push((rest, hash.clone()));
                    groups.insert(g, group);
                    proof {
                        assert(crate::config::names_view(names@)[g as int] == first@);
                        assert(group_names(sp).contains(first@));
                        assert(group_names(sn) == group_names(sp));
                        assert forall|h: int| 0 <= h < groups@.len() implies ents(#[trigger] groups@[h]@)
                            == members(sn, names@[h]@) by {
                            if h == g {
                                assert(ents(groups@[h]@) =~= ents(old_groups[h]@).push(item));
                            } else {
                                assert(groups@[h] == old_groups[h]);
                                assert(names@[h]@ != names@[g as int]@);
                            }
                        }
                        assert forall|h: int| 0 <= h < groups@.len() implies max_len(
                            #[trigger] groups@[h]@,
                            depth - 1,
                        ) by {
                            if h == g {
                                assert forall|j: int| 0 <= j < groups@[h]@.len() implies #[trigger] groups@[h]@[j].0@.len()
                                    <= depth - 1 by {
                                    if j < groups@[h]@.len() - 1 {
                                        assert(groups@[h]@[j] == old_groups[h]@[j]);
                                    }
                                }
                            } else if h < g {
                                assert(groups@[h] == old_groups[h]);
                            } else {
                                assert(groups@[h] == old_groups[h]);
                            }
                        }
                    }
                },
                None => {
                    let mut group: Vec<(Vec<String>, Vec<u8>)> = Vec::new();
                    group.push((rest, hash.clone()));
                    let ghost fv = first@;
                    names.push(first);
                    groups.push(group);
                    proof {
                        assert forall|j: int| 0 <= j < group_names(sp).len() implies group_names(sp)[j] != fv by {
                            assert(crate::config::names_view(old_names)[j] == old_names[j]@);
                        }
                        assert(!group_names(sp).contains(fv));
                        assert(crate::config::names_view(names@) =~= group_names(sn));
                        lemma_members_absent(sp, fv);
                        assert forall|h: int| 0 <= h < groups@.len() implies ents(#[trigger] groups@[h]@)
                            == members(sn, names@[h]@) by {
                            if h == groups@.len() - 1 {
                                assert(ents(groups@[h]@) =~= seq![item]);
                                assert(members(sn, fv) =~= Seq::<(Seq<Seq<char>>, Seq<u8>)>::empty().push(item));
                            } else {
                                assert(groups@[h] == old_groups[h]);
                                assert(names@[h]@ == old_names[h]@);
                                assert(crate::config::names_view(old_names)[h] == old_names[h]@);
                            }
                        }
                        assert forall|a: int, b: int| 0 <= a < b < names@.len() implies names@[a]@ != names@[b]@ by {
                            if b == names@.len() - 1 {
                                assert(names@[a] == old_names[a]);
                            }
                        }
                        assert forall|h: int| 0 <= h < groups@.len() implies max_len(
                            #[trigger] groups@[h]@,
                            depth - 1,
                        ) by {
                            if h < groups@.len() - 1 {
                                assert(groups@[h] == old_groups[h]);
                            }
                        }
                    }
                },
            }
        }
        i += 1;
    }
    proof {
        assert(es.subrange(0, es.len() as int) =~= es);
        assert(crate::config::names_view(names@).subrange(0, 0) =~= Seq::<Seq<char>>::empty());
        assert(current@.entries =~= file_entries(es) + subtrees(Seq::<Seq<char>>::empty(), es, depth as nat));
    }
    let mut g: usize = 0;
    while g < groups.len()
        invariant
            g <= groups@.len(),
            es == ents(entries@),
            nm == name@,
            crate::config::names_view(names@) == group_names(es),
            forall|h: int| 0 <= h < groups@.len() ==> ents(#[trigger] groups@[h]@) == members(es, names@[h]@),
            current@.entries == file_entries(es) + subtrees(
                crate::config::names_view(names@).subrange(0, g as int),
                es,
                depth as nat,
            ),
            store.wf(),
            names@.len() == groups@.len(),
            forall|h: int| 0 <= h < groups@.len() ==> max_len(#[trigger] groups@[h]@, depth - 1),
            groups@.len() > 0 ==> depth >= 1,
            keeps(old(store)@, store@),
            all_stored(deps@, store@),
            old(deps)@.len() <= deps@.len(),
            deps@.subrange(0, old(deps)@.len() as int) == old(deps)@,
            current@.name == name@,
            g == 0 ==> deps@ == old(deps)@ && store@ == old(store)@,
            entries@.len() == 0 ==> current@.entries == Seq::<TreeEntryV>::empty() && groups@.len()
                == 0,
        decreases groups@.len() - g,
    {
        let ghost s0 = store@;
        let ghost d0 = deps@;
        let ghost before = current@.entries;
        let sub = build_recursive_tree(&groups[g], names[g].clone(), deps, store, depth - 1);
        proof {
            lemma_subtrees_step(crate::config::names_view(names@), es, depth as nat, g as int);
            assert(crate::config::names_view(names@)[g as int] == names@[g as int]@);
            lemma_keeps_trans(old(store)@, s0, store@);
            assert(deps@.subrange(0, old(deps)@.len() as int) =~= d0.subrange(
                0,
                old(deps)@.len() as int,
            ));
        }
        current.add_entry(sub);
        proof {
            assert(current@.entries =~= file_entries(es) + subtrees(
                crate::config::names_view(names@).subrange(0, g + 1),
                es,
                depth as nat,
            ));
        }
        g += 1;
    }
    proof {
        assert(crate::config::names_view(names@).subrange(0, g as int) =~= group_names(es));
        assert(current@ == spec_tree(es, nm, depth as nat));
    }
    let ghost s1 = store@;
    let ghost d1 = deps@;
    proof {
        if entries@.len() == 0 {
            assert(d1 == old(deps)@);
            assert(s1 == old(store)@);
        }
    }
    let key = current.save(store);
    proof {
        lemma_all_stored_keeps(deps@, s1, store@);
    }
    deps.push(key);
    proof {
        assert(deps@.subrange(0, old(deps)@.len() as int) =~= d1.subrange(0, old(deps)@.len() as int));
        assert forall|i: int| 0 <= i < deps@.len() implies store@.contains_key(#[trigger] deps@[i]@) by {
            if i < d1.len() {
                assert(deps@[i] == d1[i]);
            }
        }
    }
    let r = current.into_entry();
    proof {
        if entries@.len() == 0 {
            assert(current@ == TreeV { name: name@, entries: Seq::empty() });
            assert(deps@ =~= old(deps)@.push(deps@.last()));
        }
    }
    proof {
        crate::hashing::lemma_hex_len(tree_digest(current@));
    }
    r
}

} // verus!

verus! {

/// The name of every root tree.
pub open spec fn root_name() -> Seq<char> {
    seq!['r', 'o', 'o', 't']
}

/// The paths and content digests of the index entries.
pub open spec fn index_entries(rows: Seq<(Seq<Seq<char>>, crate::index::IndexEntryV)>) -> Seq<
    (Seq<Seq<char>>, Seq<u8>),
> {
    rows.map_values(|r: (Seq<Seq<char>>, crate::index::IndexEntryV)| (r.0, r.1.hash))
}

/// The length of the longest path of the index.
pub open spec fn max_depth(rows: Seq<(Seq<Seq<char>>, crate::index::IndexEntryV)>) -> nat
    decreases rows.len(),
{
    if rows.len() == 0 {
        0
    } else {
        let d = max_depth(rows.drop_last());
        if rows.last().0.len() > d {
            rows.last().0.len()
        } else {
            d
        }
    }
}

/// The digest of the root tree of an index.
pub open spec fn root_digest(rows: Seq<(Seq<Seq<char>>, crate::index::IndexEntryV)>) -> Seq<u8> {
    tree_digest(spec_tree(index_entries(rows), root_name(), max_depth(rows)))
}

/// The root tree hash is a function of the index entries alone: two
/// indexes with the same entries give the same root hash, in any run.
pub proof fn law_root_hash_depends_on_entries_only(a: &Index, b: &Index)
    requires
        a.rows() == b.rows(),
    ensures
        root_digest(a.rows()) == root_digest(b.rows()),
{
}

/// Builds and stores the trees of the index. Returns the digest of the root
/// tree, named "root", and the index's dependencies followed by the key of
/// every stored tree.
pub fn create_from_index(index: &Index, store: &mut ObjectStore) -> (r: (Vec<u8>, Vec<String>))
    requires
        old(store).wf(),
        all_stored(index.dependencies@, old(store)@),
    ensures
        final(store).wf(),
        keeps(old(store)@, final(store)@),
        all_stored(r.1@, final(store)@),
        final(store)@.contains_key(hex_of(r.0@)),
        r.1@.subrange(0, index.dependencies@.len() as int) == index.dependencies@,
        index.entries@.len() == 0 ==> r.0@ == tree_digest(
            TreeV { name: root_name(), entries: Seq::empty() },
        ),
        r.0@ == root_digest(index.rows()),
        r.1@.len() > index.dependencies@.len(),
        r.1@.last()@ == hex_of(r.0@),
        index.entries@.len() == 0 ==> r.1@ == index.dependencies@.push(r.1@.last()),
        index.entries@.len() == 0 ==> final(store)@ == crate::store::put_result(
            old(store)@,
            hex_of(r.0@),
            crate::tree::tree_bytes(TreeV { name: root_name(), entries: Seq::empty() }),
        ),
{
    let mut entries: Vec<(Vec<String>, Vec<u8>)> = Vec::new();
    let mut depth: usize = 0;
    let mut i: usize = 0;
    while i < index.entries.len()
        invariant
            i <= index.entries@.len(),
            entries@.len() == i,
            max_len(entries@, depth as int),
            depth == max_depth(index.rows().subrange(0, i as int)),
            ents(entries@) == index_entries(index.rows().subrange(0, i as int)),
        decreases index.entries@.len() - i,
    {
        proof {
            assert(index.rows().subrange(0, i + 1).drop_last() =~= index.rows().subrange(0, i as int));
        }
        let p = clone_path(&index.entries[i].0);
        if p.len() > depth {
            depth = p.len();
        }
        let h = vstd::slice::slice_to_vec(index.entries[i].1.hash.as_slice());
        let ghost before = ents(entries@);
        let ghost item = (crate::order::path_view(p@), h@);
        entries.push((p, h));
        proof {
            assert(ents(entries@) =~= before.push(item));
            assert(index.rows()[i as int].0 == item.0);
            assert(index.rows()[i as int].1.hash == item.1);
            assert(index_entries(index.rows().subrange(0, i + 1)) =~= index_entries(
                index.rows().subrange(0, i as int),
            ).push(item));
        }
        i += 1;
    }
    proof {
        assert(index.rows().subrange(0, i as int) =~= index.rows());
    }
    let mut deps: Vec<String> = Vec::new();
    let mut j: usize = 0;
    while j < index.dependencies.len()
        invariant
            j <= index.dependencies@.len(),
            deps@ == index.dependencies@.subrange(0, j as int),
        decreases index.dependencies@.len() - j,
    {
        deps.push(index.dependencies[j].clone());
        assert(deps@ =~= index.dependencies@.subrange(0, j + 1));
        j += 1;
    }
    assert(index.dependencies@.subrange(0, j as int) =~= index.dependencies@);
    let name = "root".to_owned();
    proof {
        reveal_strlit("root");
        assert(name@ =~= root_name());
    }
    let root = build_recursive_tree(&entries, name, &mut deps, store, depth);
    (root.hash(), deps)
}

} // verus!
