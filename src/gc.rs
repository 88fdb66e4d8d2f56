//! Mark and sweep over the shared store, marking from every repository.
use crate::commit::{commit_at, Commit};
use crate::error::GatoError;
use crate::hashing::{hex_of, to_hex};
use crate::history::{ancestor, in_history, lemma_ancestor_stops, parent_key};
use crate::store::{ObjectStore, Refs};
use vstd::prelude::*;

verus! {

/// Some element of `v` is `k`.
pub open spec fn listed(v: Seq<String>, k: Seq<char>) -> bool {
    exists|i: int| 0 <= i < v.len() && #[trigger] v[i]@ == k
}

/// `v` holds every commit on the first-parent chain from `start`, and every
/// dependency of each.
pub open spec fn covers_history(m: Map<Seq<char>, Seq<u8>>, start: Seq<char>, v: Seq<String>) -> bool {
    forall|k: Seq<char>| #[trigger] in_history(m, start, k) ==> listed(v, k) && (forall|d: int|
        0 <= d < commit_at(m, k)->0.dependencies().len() ==> listed(
            v,
            #[trigger] commit_at(m, k)->0.dependencies()[d],
        ))
}

/// `v` covers the history of every branch of `refs`.
pub open spec fn covers_repo(m: Map<Seq<char>, Seq<u8>>, refs: Refs, v: Seq<String>) -> bool {
    forall|b: Seq<char>| #[trigger] refs.tips().contains_key(b) ==> covers_history(
        m,
        hex_of(refs.tips()[b]),
        v,
    )
}

/// `x` is a commit on the chain from `start`, or a dependency of one.
pub open spec fn marks(m: Map<Seq<char>, Seq<u8>>, start: Seq<char>, x: Seq<char>) -> bool {
    exists|k: Seq<char>|
        #[trigger] in_history(m, start, k) && (x == k || commit_at(m, k)->0.dependencies().contains(x))
}

/// Some branch of `refs` marks `x`.
pub open spec fn marked_by(m: Map<Seq<char>, Seq<u8>>, refs: Refs, x: Seq<char>) -> bool {
    exists|b: Seq<char>| #[trigger] refs.tips().contains_key(b) && marks(m, hex_of(refs.tips()[b]), x)
}

/// The history of every branch of `refs` loads.
pub open spec fn repo_loads(m: Map<Seq<char>, Seq<u8>>, refs: Refs, limit: nat) -> bool {
    forall|b: Seq<char>| #[trigger] refs.tips().contains_key(b) ==> crate::history::history_loads(
        m,
        hex_of(refs.tips()[b]),
        limit,
    )
}

/// Some repository of `repos` marks `x`.
pub open spec fn marked_somewhere(m: Map<Seq<char>, Seq<u8>>, repos: Seq<Refs>, x: Seq<char>) -> bool {
    exists|i: int| 0 <= i < repos.len() && marked_by(m, repos[i], x)
}

pub fn contains_str(v: &Vec<String>, k: &String) -> (r: bool)
    ensures
        r == listed(v@, k@),
{
    let mut i: usize = 0;
    while i < v.len()
        invariant
            i <= v@.len(),
            forall|j: int| 0 <= j < i ==> v@[j]@ != k@,
        decreases v@.len() - i,
    {
        if v[i] == *k {
            return true;
        }
        i += 1;
    }
    false
}

pub proof fn lemma_listed_grows(v: Seq<String>, w: Seq<String>, k: Seq<char>)
    requires
        listed(v, k),
        w.subrange(0, v.len() as int) == v,
        v.len() <= w.len(),
    ensures
        listed(w, k),
{
    let i = choose|i: int| 0 <= i < v.len() && #[trigger] v[i]@ == k;
    assert(w[i] == w.subrange(0, v.len() as int)[i]);
}

/// Appends the commit under `key` and its dependencies to `live`.
fn mark_commit(key: &String, store: &ObjectStore, live: &mut Vec<String>) -> (r: Result<(), GatoError>)
    requires
        store.wf(),
    ensures
        r is Ok <==> (commit_at(store@, key@) is Some),
        final(live)@.len() >= old(live)@.len(),
        final(live)@.subrange(0, old(live)@.len() as int) == old(live)@,
        r is Ok ==> listed(final(live)@, key@),
        r is Ok ==> forall|d: int|
            0 <= d < commit_at(store@, key@)->0.dependencies().len() ==> listed(
                final(live)@,
                #[trigger] commit_at(store@, key@)->0.dependencies()[d],
            ),
        forall|j: int|
            old(live)@.len() <= j < final(live)@.len() ==> (#[trigger] final(live)@[j]@ == key@
                || commit_at(store@, key@)->0.dependencies().contains(final(live)@[j]@)),
{
    let c = match Commit::load(key, store) {
        Ok(c) => c,
        Err(e) => {
            assert(live@.subrange(0, live@.len() as int) =~= live@);
            return Err(e);
        },
    };
    let deps = c.dependices();
    let ghost start = live@;
    live.push(key.clone());
    assert(live@[start.len() as int]@ == key@);
    let mut i: usize = 0;
    while i < deps.len()
        invariant
            i <= deps@.len(),
            start.len() < live@.len(),
            live@.subrange(0, start.len() as int) == start,
            live@[start.len() as int]@ == key@,
            forall|d: int| 0 <= d < i ==> listed(live@, #[trigger] deps@[d]@),
            crate::commit::strs_view(deps@) == commit_at(store@, key@)->0.dependencies(),
            forall|j: int|
                start.len() <= j < live@.len() ==> (#[trigger] live@[j]@ == key@ || commit_at(
                    store@,
                    key@,
                )->0.dependencies().contains(live@[j]@)),
        decreases deps@.len() - i,
    {
        let ghost before = live@;
        live.push(deps[i].clone());
        proof {
            assert(crate::commit::strs_view(deps@)[i as int] == deps@[i as int]@);
            assert forall|j: int|
                start.len() <= j < live@.len() implies (#[trigger] live@[j]@ == key@ || commit_at(
                    store@,
                    key@,
                )->0.dependencies().contains(live@[j]@)) by {
                if j < before.len() {
                    assert(live@[j] == before[j]);
                }
            }
            assert(live@.subrange(0, start.len() as int) =~= before.subrange(0, start.len() as int));
            assert forall|d: int| 0 <= d <= i implies listed(live@, #[trigger] deps@[d]@) by {
                if d < i {
                    let j = choose|j: int| 0 <= j < before.len() && #[trigger] before[j]@ == deps@[d]@;
                    assert(live@[j] == before[j]);
                } else {
                    assert(live@[before.len() as int]@ == deps@[d]@);
                }
            }
        }
        i += 1;
    }
    proof {
        assert(live@[start.len() as int]@ == key@);
        assert forall|d: int| 0 <= d < commit_at(store@, key@)->0.dependencies().len() implies listed(
            live@,
            #[trigger] commit_at(store@, key@)->0.dependencies()[d],
        ) by {
            assert(crate::commit::strs_view(deps@)[d] == deps@[d]@);
        }
    }
    Ok(())
}

#[derive(Debug)]
pub struct Gc {
    pub storages: Vec<Refs>,
}

impl Gc {
    /// A collector over the references of every registered repository.
    pub fn new(storages: Vec<Refs>) -> (r: Gc)
        ensures
            r.storages == storages,
    {
        Gc { storages }
    }

    /// Every commit reachable from a branch of `refs` along first parents,
    /// and every dependency each of them records.
    pub fn repo_dependices(refs: &Refs, store: &ObjectStore) -> (r: Result<Vec<String>, GatoError>)
        requires
            store.wf(),
            refs.wf(),
        ensures
            r matches Ok(v) ==> covers_repo(store@, *refs, v@),
            r matches Ok(v) ==> forall|j: int| 0 <= j < v@.len() ==> marked_by(store@, *refs, #[trigger] v@[j]@),
            repo_loads(store@, *refs, store.objects.rows@.len() as nat) ==> r is Ok,
    {
        let ghost loads = repo_loads(store@, *refs, store.objects.rows@.len() as nat);
        let branches = refs.list_branches();
        let mut live: Vec<String> = Vec::new();
        let mut i: usize = 0;
        while i < branches.len()
            invariant
                i <= branches@.len(),
                store.wf(),
                refs.wf(),
                forall|j: int| 0 <= j < branches@.len() ==> refs.tips().contains_key(#[trigger] branches@[j]@),
                forall|b: Seq<char>| #[trigger] refs.tips().contains_key(b) ==> exists|j: int|
                    0 <= j < branches@.len() && branches@[j]@ == b,
                forall|j: int| 0 <= j < i ==> covers_history(
                    store@,
                    hex_of(refs.tips()[#[trigger] branches@[j]@]),
                    live@,
                ),
                forall|j: int| 0 <= j < live@.len() ==> marked_by(store@, *refs, #[trigger] live@[j]@),
                loads == repo_loads(store@, *refs, store.objects.rows@.len() as nat),
            decreases branches@.len() - i,
        {
            let tip = match refs.read_ref(&branches[i]) {
                Ok(t) => t,
                Err(e) => return Err(GatoError::Storage(e)),
            };
            let start = to_hex(tip.as_slice());
            let ghost bname = branches@[i as int]@;
            proof {
                assert(refs.tips().contains_key(bname));
                assert(hex_of(refs.tips()[bname]) == start@);
            }
            let chain = Commit::parents_hashes(&start, store)?;
            let ghost live0 = live@;
            proof {
                assert(ancestor(store@, start@, 0) == Some(start@));
                assert(commit_at(store@, start@) is Some);
            }
            mark_commit(&start, store, &mut live)?;
            proof {
                assert(hex_of(refs.tips()[bname]) == start@);
                assert(ancestor(store@, start@, 0) == Some(start@));
                assert(in_history(store@, start@, start@));
                assert forall|j: int| 0 <= j < live@.len() implies marked_by(store@, *refs, #[trigger] live@[j]@) by {
                    if j < live0.len() {
                        assert(live@[j] == live0[j]);
                    } else {
                        assert(marks(store@, start@, live@[j]@));
                        assert(refs.tips().contains_key(bname));
                    }
                }
            }
            let mut j: usize = 0;
            while j < chain.len()
                invariant
                    j <= chain@.len(),
                    store.wf(),
                    live0.len() <= live@.len(),
                    live@.subrange(0, live0.len() as int) == live0,
                    forall|k: int| 0 <= k < chain@.len() ==> ancestor(store@, start@, (k + 1) as nat)
                        == Some(#[trigger] chain@[k]@),
                    ancestor(store@, start@, chain@.len() as nat) is Some,
                    commit_at(store@, ancestor(store@, start@, chain@.len() as nat)->0) is Some,
                    parent_key(store@, ancestor(store@, start@, chain@.len() as nat)->0) is None,
                    refs.tips().contains_key(bname),
                    hex_of(refs.tips()[bname]) == start@,
                    crate::history::chain_ends(store@, start@, chain@.len() as nat),
                    loads == repo_loads(store@, *refs, store.objects.rows@.len() as nat),
                    forall|jj: int| 0 <= jj < live@.len() ==> marked_by(store@, *refs, #[trigger] live@[jj]@),
                    forall|n: nat|
                        n <= j && #[trigger] ancestor(store@, start@, n) is Some ==> {
                            let k = ancestor(store@, start@, n)->0;
                            listed(live@, k) && forall|d: int|
                                0 <= d < commit_at(store@, k)->0.dependencies().len() ==> listed(
                                    live@,
                                    #[trigger] commit_at(store@, k)->0.dependencies()[d],
                                )
                        },
                decreases chain@.len() - j,
            {
                let ghost l1 = live@;
                proof {
                    assert(ancestor(store@, start@, (j + 1) as nat) == Some(chain@[j as int]@));
                    assert(commit_at(store@, chain@[j as int]@) is Some);
                }
                mark_commit(&chain[j], store, &mut live)?;
                proof {
                    let ck = chain@[j as int]@;
                    assert(ancestor(store@, start@, (j + 1) as nat) == Some(ck));
                    assert(in_history(store@, start@, ck));
                    assert forall|jj: int| 0 <= jj < live@.len() implies marked_by(store@, *refs, #[trigger] live@[jj]@) by {
                        if jj < l1.len() {
                            assert(live@[jj] == l1[jj]);
                        } else {
                            assert(marks(store@, start@, live@[jj]@));
                        }
                    }
                    assert(live@.subrange(0, live0.len() as int) =~= l1.subrange(0, live0.len() as int));
                    assert forall|n: nat|
                        n <= j + 1 && #[trigger] ancestor(store@, start@, n) is Some implies {
                            let k = ancestor(store@, start@, n)->0;
                            listed(live@, k) && forall|d: int|
                                0 <= d < commit_at(store@, k)->0.dependencies().len() ==> listed(
                                    live@,
                                    #[trigger] commit_at(store@, k)->0.dependencies()[d],
                                )
                        } by {
                        let k = ancestor(store@, start@, n)->0;
                        if n <= j {
                            lemma_listed_grows(l1, live@, k);
                            assert forall|d: int|
                                0 <= d < commit_at(store@, k)->0.dependencies().len() implies listed(
                                    live@,
                                    #[trigger] commit_at(store@, k)->0.dependencies()[d],
                                ) by {
                                lemma_listed_grows(l1, live@, commit_at(store@, k)->0.dependencies()[d]);
                            }
                        } else {
                            assert(ancestor(store@, start@, (j + 1) as nat) == Some(chain@[j as int]@));
                        }
                    }
                }
                j += 1;
            }
            proof {
                let h = hex_of(refs.tips()[branches@[i as int]@]);
                assert(h == start@);
                assert forall|k: Seq<char>| #[trigger] in_history(store@, start@, k) implies listed(
                    live@,
                    k,
                ) && (forall|d: int|
                    0 <= d < commit_at(store@, k)->0.dependencies().len() ==> listed(
                        live@,
                        #[trigger] commit_at(store@, k)->0.dependencies()[d],
                    )) by {
                    let n = choose|n: nat| ancestor(store@, start@, n) == Some(k) && #[trigger] commit_at(
                        store@,
                        k,
                    ) is Some;
                    if n > chain@.len() {
                        lemma_ancestor_stops(store@, start@, chain@.len() as nat, n);
                    }
                    assert(ancestor(store@, start@, n) is Some);
                }
                assert forall|jj: int| 0 <= jj <= i implies covers_history(
                    store@,
                    hex_of(refs.tips()[#[trigger] branches@[jj]@]),
                    live@,
                ) by {
                    if jj < i {
                        let hs = hex_of(refs.tips()[branches@[jj]@]);
                        assert(covers_history(store@, hs, live0));
                        assert forall|k: Seq<char>| #[trigger] in_history(store@, hs, k) implies listed(
                            live@,
                            k,
                        ) && (forall|d: int|
                            0 <= d < commit_at(store@, k)->0.dependencies().len() ==> listed(
                                live@,
                                #[trigger] commit_at(store@, k)->0.dependencies()[d],
                            )) by {
                            lemma_listed_grows(live0, live@, k);
                            assert forall|d: int|
                                0 <= d < commit_at(store@, k)->0.dependencies().len() implies listed(
                                    live@,
                                    #[trigger] commit_at(store@, k)->0.dependencies()[d],
                                ) by {
                                lemma_listed_grows(live0, live@, commit_at(store@, k)->0.dependencies()[d]);
                            }
                        }
                    }
                }
            }
            i += 1;
        }
        proof {
            assert forall|b: Seq<char>| #[trigger] refs.tips().contains_key(b) implies covers_history(
                store@,
                hex_of(refs.tips()[b]),
                live@,
            ) by {
                let j = choose|j: int| 0 <= j < branches@.len() && branches@[j]@ == b;
                assert(covers_history(store@, hex_of(refs.tips()[branches@[j]@]), live@));
            }
        }
        Ok(live)
    }

    /// The union of the dependencies of every repository.
    pub fn global_dependices(&self, store: &ObjectStore) -> (r: Result<Vec<String>, GatoError>)
        requires
            store.wf(),
            forall|i: int| 0 <= i < self.storages@.len() ==> (#[trigger] self.storages@[i]).wf(),
        ensures
            r matches Ok(v) ==> forall|i: int|
                0 <= i < self.storages@.len() ==> covers_repo(store@, #[trigger] self.storages@[i], v@),
            r matches Ok(v) ==> forall|j: int|
                0 <= j < v@.len() ==> marked_somewhere(store@, self.storages@, #[trigger] v@[j]@),
            (forall|i: int|
                0 <= i < self.storages@.len() ==> repo_loads(
                    store@,
                    #[trigger] self.storages@[i],
                    store.objects.rows@.len() as nat,
                )) ==> r is Ok,
    {
        let mut all: Vec<String> = Vec::new();
        let mut i: usize = 0;
        while i < self.storages.len()
            invariant
                i <= self.storages@.len(),
                store.wf(),
                forall|j: int| 0 <= j < self.storages@.len() ==> (#[trigger] self.storages@[j]).wf(),
                forall|j: int| 0 <= j < i ==> covers_repo(store@, #[trigger] self.storages@[j], all@),
                forall|j: int|
                    0 <= j < all@.len() ==> marked_somewhere(store@, self.storages@, #[trigger] all@[j]@),
            decreases self.storages@.len() - i,
        {
            proof {
                assert(self.storages@[i as int] == self.storages@[i as int]);
            }
            let mut deps = Gc::repo_dependices(&self.storages[i], store)?;
            let ghost before = all@;
            let ghost d = deps@;
            all.append(&mut deps);
            proof {
                assert(all@ =~= before + d);
                assert forall|j: int| 0 <= j < all@.len() implies marked_somewhere(
                    store@,
                    self.storages@,
                    #[trigger] all@[j]@,
                ) by {
                    if j < before.len() {
                        assert(all@[j] == before[j]);
                    } else {
                        assert(all@[j] == d[j - before.len()]);
                        assert(marked_by(store@, self.storages@[i as int], d[j - before.len()]@));
                    }
                }
                assert forall|k: Seq<char>| listed(before, k) implies listed(all@, k) by {
                    let j = choose|j: int| 0 <= j < before.len() && #[trigger] before[j]@ == k;
                    assert(all@[j] == before[j]);
                }
                assert forall|k: Seq<char>| listed(d, k) implies listed(all@, k) by {
                    let j = choose|j: int| 0 <= j < d.len() && #[trigger] d[j]@ == k;
                    assert(all@[before.len() + j] == d[j]);
                }
                assert forall|j: int| 0 <= j <= i implies covers_repo(
                    store@,
                    #[trigger] self.storages@[j],
                    all@,
                ) by {
                    let rf = self.storages@[j];
                    let src = if j < i { before } else { d };
                    assert(covers_repo(store@, rf, src));
                    assert forall|b: Seq<char>| #[trigger] rf.tips().contains_key(b) implies covers_history(
                        store@,
                        hex_of(rf.tips()[b]),
                        all@,
                    ) by {
                        let h = hex_of(rf.tips()[b]);
                        assert(covers_history(store@, h, src));
                        assert forall|k: Seq<char>| #[trigger] in_history(store@, h, k) implies listed(
                            all@,
                            k,
                        ) && (forall|dd: int|
                            0 <= dd < commit_at(store@, k)->0.dependencies().len() ==> listed(
                                all@,
                                #[trigger] commit_at(store@, k)->0.dependencies()[dd],
                            )) by {
                            assert(listed(src, k));
                            assert forall|dd: int|
                                0 <= dd < commit_at(store@, k)->0.dependencies().len() implies listed(
                                    all@,
                                    #[trigger] commit_at(store@, k)->0.dependencies()[dd],
                                ) by {
                                assert(listed(src, commit_at(store@, k)->0.dependencies()[dd]));
                            }
                        }
                    }
                }
            }
            i += 1;
        }
        Ok(all)
    }

    /// Marks from every repository, then deletes every object that was not
    /// marked. Refused while files are staged but not committed.
    pub fn collect(&self, store: &mut ObjectStore, staged: bool) -> (r: Result<(), GatoError>)
        requires
            old(store).wf(),
            forall|i: int| 0 <= i < self.storages@.len() ==> (#[trigger] self.storages@[i]).wf(),
        ensures
            final(store).wf(),
            staged ==> r == Err::<(), GatoError>(GatoError::GcError),
            !staged && (forall|i: int|
                0 <= i < self.storages@.len() ==> repo_loads(
                    old(store)@,
                    #[trigger] self.storages@[i],
                    old(store).objects.rows@.len() as nat,
                )) ==> r is Ok,
            r is Err ==> final(store)@ == old(store)@,
            r is Ok ==> forall|i: int, b: Seq<char>, k: Seq<char>|
                0 <= i < self.storages@.len() && (#[trigger] self.storages@[i]).tips().contains_key(b)
                    && #[trigger] in_history(old(store)@, hex_of(self.storages@[i].tips()[b]), k)
                    ==> final(store)@.contains_key(k),
            r is Ok ==> forall|i: int, b: Seq<char>, k: Seq<char>, d: int|
                0 <= i < self.storages@.len() && (#[trigger] self.storages@[i]).tips().contains_key(b)
                    && #[trigger] in_history(old(store)@, hex_of(self.storages@[i].tips()[b]), k) && 0 <= d
                    < commit_at(old(store)@, k)->0.dependencies().len() && old(store)@.contains_key(
                    #[trigger] commit_at(old(store)@, k)->0.dependencies()[d],
                ) ==> final(store)@.contains_key(commit_at(old(store)@, k)->0.dependencies()[d]),
            r is Ok ==> forall|k: Seq<char>| #[trigger] final(store)@.contains_key(k) ==> old(
                store,
            )@.contains_key(k) && final(store)@[k] == old(store)@[k],
            r is Ok ==> forall|k: Seq<char>| #[trigger] final(store)@.contains_key(k) ==> marked_somewhere(
                old(store)@,
                self.storages@,
                k,
            ),
    {
        if staged {
            return Err(GatoError::GcError);
        }
        let live = self.global_dependices(store)?;
        let all = store.list_all_hashes();
        let ghost m0 = store@;
        let mut i: usize = 0;
        while i < all.len()
            invariant
                i <= all@.len(),
                store.wf(),
                forall|j: int| 0 <= j < all@.len() ==> m0.contains_key(#[trigger] all@[j]@),
                forall|k: Seq<char>| #[trigger] m0.contains_key(k) ==> exists|j: int|
                    0 <= j < all@.len() && all@[j]@ == k,
                forall|k: Seq<char>| #[trigger] store@.contains_key(k) ==> m0.contains_key(k) && store@[k]
                    == m0[k],
                forall|k: Seq<char>| #[trigger] m0.contains_key(k) && listed(live@, k) ==> store@.contains_key(k),
                forall|k: Seq<char>|
                    #[trigger] store@.contains_key(k) ==> listed(live@, k) || exists|j: int|
                        i <= j < all@.len() && all@[j]@ == k,
            decreases all@.len() - i,
        {
            if !contains_str(&live, &all[i]) {
                store.remove(&all[i]);
            }
            proof {
                assert forall|k: Seq<char>| #[trigger] store@.contains_key(k) implies listed(live@, k)
                    || exists|j: int| i + 1 <= j < all@.len() && all@[j]@ == k by {
                    if !listed(live@, k) {
                        let j = choose|j: int| i <= j < all@.len() && all@[j]@ == k;
                        if j == i {
                            assert(!store@.contains_key(all@[i as int]@));
                        }
                    }
                }
            }
            i += 1;
        }
        proof {
            assert forall|k: Seq<char>| #[trigger] store@.contains_key(k) implies marked_somewhere(
                m0,
                self.storages@,
                k,
            ) by {
                let j = choose|j: int| 0 <= j < live@.len() && #[trigger] live@[j]@ == k;
            }
        }
        proof {
            assert forall|ii: int, b: Seq<char>, k: Seq<char>|
                0 <= ii < self.storages@.len() && (#[trigger] self.storages@[ii]).tips().contains_key(b)
                    && #[trigger] in_history(m0, hex_of(self.storages@[ii].tips()[b]), k) implies store@.contains_key(k) by {
                assert(covers_repo(m0, self.storages@[ii], live@));
                assert(covers_history(m0, hex_of(self.storages@[ii].tips()[b]), live@));
                assert(listed(live@, k));
                assert(commit_at(m0, k) is Some);
            }
            assert forall|ii: int, b: Seq<char>, k: Seq<char>, d: int|
                0 <= ii < self.storages@.len() && (#[trigger] self.storages@[ii]).tips().contains_key(b)
                    && #[trigger] in_history(m0, hex_of(self.storages@[ii].tips()[b]), k) && 0 <= d
                    < commit_at(m0, k)->0.dependencies().len() && m0.contains_key(
                    #[trigger] commit_at(m0, k)->0.dependencies()[d],
                ) implies store@.contains_key(commit_at(m0, k)->0.dependencies()[d]) by {
                assert(covers_repo(m0, self.storages@[ii], live@));
                assert(covers_history(m0, hex_of(self.storages@[ii].tips()[b]), live@));
                assert(listed(live@, commit_at(m0, k)->0.dependencies()[d]));
            }
        }
        Ok(())
    }
}

} // verus!

verus! {

pub open spec fn listed_u64(v: Seq<u64>, k: u64) -> bool {
    exists|i: int| 0 <= i < v.len() && #[trigger] v[i] == k
}

pub fn contains_u64(v: &Vec<u64>, k: u64) -> (r: bool)
    ensures
        r == listed_u64(v@, k),
{
    let mut i: usize = 0;
    while i < v.len()
        invariant
            i <= v@.len(),
            forall|j: int| 0 <= j < i ==> v@[j] != k,
        decreases v@.len() - i,
    {
        if v[i] == k {
            return true;
        }
        i += 1;
    }
    false
}

} // verus!
