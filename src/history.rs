//! Walking the commit graph along first parents.
use crate::commit::{commit_at, Commit};
use crate::error::GatoError;
use crate::hashing::{hex_of, to_hex};
use crate::store::{ObjectStore, Refs};
use vstd::prelude::*;

verus! {

/// The key of the first parent of the commit stored under `k`.
pub open spec fn parent_key(m: Map<Seq<char>, Seq<u8>>, k: Seq<char>) -> Option<Seq<char>> {
    match commit_at(m, k) {
        Some(c) => match c.first_parent() {
            Some(p) => Some(hex_of(p)),
            None => None,
        },
        None => None,
    }
}

/// The commit `n` first-parent steps back from `k`.
pub open spec fn ancestor(m: Map<Seq<char>, Seq<u8>>, k: Seq<char>, n: nat) -> Option<Seq<char>>
    decreases n,
{
    if n == 0 {
        Some(k)
    } else {
        match ancestor(m, k, (n - 1) as nat) {
            Some(a) => parent_key(m, a),
            None => None,
        }
    }
}

/// `k` is a stored commit on the first-parent chain that starts at `start`.
pub open spec fn in_history(m: Map<Seq<char>, Seq<u8>>, start: Seq<char>, k: Seq<char>) -> bool {
    exists|n: nat| ancestor(m, start, n) == Some(k) && #[trigger] commit_at(m, k) is Some
}

pub proof fn lemma_ancestor_stops(m: Map<Seq<char>, Seq<u8>>, k: Seq<char>, n: nat, j: nat)
    requires
        ancestor(m, k, n) is Some,
        parent_key(m, ancestor(m, k, n)->0) is None,
        j > n,
    ensures
        ancestor(m, k, j) is None,
    decreases j,
{
    if j > n + 1 {
        lemma_ancestor_stops(m, k, n, (j - 1) as nat);
    }
}

/// The chain from `start` holds stored commits for `n + 1` steps and ends
/// there, at a commit without a parent.
pub open spec fn chain_ends(m: Map<Seq<char>, Seq<u8>>, start: Seq<char>, n: nat) -> bool {
    &&& forall|j: nat|
        j <= n ==> (#[trigger] ancestor(m, start, j)) is Some && commit_at(m, ancestor(m, start, j)->0) is Some
    &&& parent_key(m, ancestor(m, start, n)->0) is None
}

/// The chain from `start` loads within `limit` steps.
pub open spec fn history_loads(m: Map<Seq<char>, Seq<u8>>, start: Seq<char>, limit: nat) -> bool {
    exists|n: nat| n <= limit && #[trigger] chain_ends(m, start, n)
}

/// `k` lies strictly before `start` on its first-parent chain.
pub open spec fn strict_ancestor(m: Map<Seq<char>, Seq<u8>>, start: Seq<char>, k: Seq<char>) -> bool {
    exists|i: nat| i >= 1 && #[trigger] ancestor(m, start, i) == Some(k)
}

proof fn lemma_list_complete(m: Map<Seq<char>, Seq<u8>>, start: Seq<char>, v: Seq<String>, k: Seq<char>)
    requires
        forall|j: int| 0 <= j < v.len() ==> ancestor(m, start, (j + 1) as nat) == Some(#[trigger] v[j]@),
        ancestor(m, start, v.len() as nat) is Some,
        parent_key(m, ancestor(m, start, v.len() as nat)->0) is None,
        strict_ancestor(m, start, k),
    ensures
        exists|j: int| 0 <= j < v.len() && #[trigger] v[j]@ == k,
{
    let i = choose|i: nat| i >= 1 && #[trigger] ancestor(m, start, i) == Some(k);
    if i > v.len() {
        lemma_ancestor_stops(m, start, v.len() as nat, i);
    }
    assert(v[i - 1]@ == k);
}

/// The key of the parent followed from the commit stored under `key`.
fn parent_of(key: &String, store: &ObjectStore) -> (r: Result<Option<String>, GatoError>)
    requires
        store.wf(),
    ensures
        r is Ok <==> (commit_at(store@, key@) is Some),
        r matches Ok(o) ==> match parent_key(store@, key@) {
            Some(p) => o is Some && o->0@ == p,
            None => o is None,
        },
{
    let c = Commit::load(key, store)?;
    Ok(c.parent_hash())
}

impl Commit {
    /// The commit `index` first-parent steps back from the tip of the active
    /// branch, if the active branch has a tip and the walk reaches that far.
    pub fn get_hash_from_index(index: usize, refs: &Refs, store: &ObjectStore) -> (r: Option<String>)
        requires
            store.wf(),
            refs.wf(),
        ensures
            match refs.tips().get(refs.head@) {
                Some(t) => match ancestor(store@, hex_of(t), index as nat) {
                    Some(a) => r is Some && r->0@ == a,
                    None => r is None,
                },
                None => r is None,
            },
    {
        let tip = match refs.active_tip() {
            Some(t) => t,
            None => return None,
        };
        let ghost start = hex_of(tip@);
        let mut current = to_hex(tip.as_slice());
        let mut i: usize = 0;
        while i < index
            invariant
                i <= index,
                store.wf(),
                refs.tips().contains_key(refs.head@),
                refs.tips()[refs.head@] == tip@,
                start == hex_of(tip@),
                ancestor(store@, start, i as nat) == Some(current@),
            decreases index - i,
        {
            match parent_of(&current, store) {
                Ok(Some(p)) => {
                    current = p;
                },
                _ => {
                    proof {
                        lemma_ancestor_stops(store@, start, i as nat, index as nat);
                    }
                    return None;
                },
            }
            i += 1;
        }
        Some(current)
    }

    /// The keys of the commits strictly before `start` on its first-parent
    /// chain, nearest first. Fails exactly when a commit of the chain cannot
    /// be read, or when the chain is longer than the store has objects,
    /// which only a cycle allows.
    pub fn parents_hashes(start: &String, store: &ObjectStore) -> (r: Result<Vec<String>, GatoError>)
        requires
            store.wf(),
        ensures
            r is Ok <==> exists|n: nat| n <= store.objects.rows@.len() && #[trigger] chain_ends(store@, start@, n),
            r matches Ok(v) ==> {
                &&& forall|j: int| 0 <= j < v@.len() ==> ancestor(store@, start@, (j + 1) as nat) == Some(
                    #[trigger] v@[j]@,
                )
                &&& chain_ends(store@, start@, v@.len() as nat)
                &&& ancestor(store@, start@, v@.len() as nat) is Some
                &&& commit_at(store@, ancestor(store@, start@, v@.len() as nat)->0) is Some
                &&& parent_key(store@, ancestor(store@, start@, v@.len() as nat)->0) is None
            },
    {
        let limit = store.objects.rows.len();
        let mut out: Vec<String> = Vec::new();
        let mut current = start.clone();
        let mut steps: usize = 0;
        loop
            invariant
                store.wf(),
                limit == store.objects.rows@.len(),
                out@.len() == steps,
                steps <= limit,
                ancestor(store@, start@, steps as nat) == Some(current@),
                forall|j: int| 0 <= j < steps ==> ancestor(store@, start@, (j + 1) as nat) == Some(
                    #[trigger] out@[j]@,
                ),
                forall|j: nat| j <= steps ==> (#[trigger] ancestor(store@, start@, j)) is Some,
                forall|j: nat|
                    j < steps ==> commit_at(store@, (#[trigger] ancestor(store@, start@, j))->0) is Some
                        && parent_key(store@, ancestor(store@, start@, j)->0) is Some,
            decreases limit - steps,
        {
            let p = match parent_of(&current, store) {
                Ok(p) => p,
                Err(e) => {
                    proof {
                        assert forall|n: nat| n <= limit implies !#[trigger] chain_ends(store@, start@, n) by {
                            if n >= steps {
                                assert(ancestor(store@, start@, steps as nat) is Some);
                            } else {
                                assert(ancestor(store@, start@, n) is Some);
                            }
                        }
                    }
                    return Err(e);
                },
            };
            match p {
                None => {
                    proof {
                        assert forall|j: nat| j <= steps implies (#[trigger] ancestor(store@, start@, j)) is Some
                            && commit_at(store@, ancestor(store@, start@, j)->0) is Some by {
                            assert(ancestor(store@, start@, j) is Some);
                        }
                        assert(chain_ends(store@, start@, steps as nat));
                    }
                    return Ok(out);
                },
                Some(p) => {
                    if steps == limit {
                        proof {
                            assert forall|n: nat| n <= limit implies !#[trigger] chain_ends(store@, start@, n) by {
                                assert(ancestor(store@, start@, n) is Some);
                            }
                        }
                        return Err(GatoError::CorruptHistory);
                    }
                    out.push(p.clone());
                    current = p;
                    steps += 1;
                    proof {
                        assert forall|j: nat| j <= steps implies (#[trigger] ancestor(store@, start@, j)) is Some by {
                            if j < steps {
                                assert(ancestor(store@, start@, j) is Some);
                            }
                        }
                    }
                },
            }
        }
    }

    /// The first commit before `a` on its first-parent chain that is also
    /// before `b` on its own, in `a`'s order; `None` when there is none.
    /// Fails exactly when one of the two chains fails to load.
    #[verifier::rlimit(100)]
    #[verifier::spinoff_prover]
    pub fn base(a: &String, b: &String, store: &ObjectStore) -> (r: Result<Option<String>, GatoError>)
        requires
            store.wf(),
        ensures
            r is Ok <==> (history_loads(store@, a@, store.objects.rows@.len()) && history_loads(
                store@,
                b@,
                store.objects.rows@.len(),
            )),
            r matches Ok(None) ==> forall|i: nat|
                i >= 1 && (#[trigger] ancestor(store@, a@, i)) is Some ==> !strict_ancestor(
                    store@,
                    b@,
                    ancestor(store@, a@, i)->0,
                ),
            r matches Ok(Some(k)) ==> exists|i: nat|
                i >= 1 && #[trigger] ancestor(store@, a@, i) == Some(k@) && strict_ancestor(store@, b@, k@)
                    && forall|i2: nat|
                    1 <= i2 < i && (#[trigger] ancestor(store@, a@, i2)) is Some ==> !strict_ancestor(
                        store@,
                        b@,
                        ancestor(store@, a@, i2)->0,
                    ),
    {
        let pa = Commit::parents_hashes(a, store)?;
        let pb = Commit::parents_hashes(b, store)?;
        let ghost loads = history_loads(store@, a@, store.objects.rows@.len()) && history_loads(
            store@,
            b@,
            store.objects.rows@.len(),
        );
        proof {
            assert(loads);
            assert forall|k: Seq<char>| strict_ancestor(store@, b@, k) implies exists|j: int|
                0 <= j < pb@.len() && #[trigger] pb@[j]@ == k by {
                lemma_list_complete(store@, b@, pb@, k);
            }
        }
        let mut i: usize = 0;
        while i < pa.len()
            invariant
                i <= pa@.len(),
                forall|j: int| 0 <= j < pa@.len() ==> ancestor(store@, a@, (j + 1) as nat) == Some(
                    #[trigger] pa@[j]@,
                ),
                forall|j: int| 0 <= j < pb@.len() ==> ancestor(store@, b@, (j + 1) as nat) == Some(
                    #[trigger] pb@[j]@,
                ),
                chain_ends(store@, a@, pa@.len() as nat),
                loads,
                loads == (history_loads(store@, a@, store.objects.rows@.len()) && history_loads(
                    store@,
                    b@,
                    store.objects.rows@.len(),
                )),
                forall|k: Seq<char>| strict_ancestor(store@, b@, k) ==> exists|j: int|
                    0 <= j < pb@.len() && #[trigger] pb@[j]@ == k,
                forall|i2: nat|
                    1 <= i2 <= i && (#[trigger] ancestor(store@, a@, i2)) is Some ==> !strict_ancestor(
                        store@,
                        b@,
                        ancestor(store@, a@, i2)->0,
                    ),
            decreases pa@.len() - i,
        {
            if crate::gc::contains_str(&pb, &pa[i]) {
                proof {
                    let jj = choose|jj: int| 0 <= jj < pb@.len() && #[trigger] pb@[jj]@ == pa@[i as int]@;
                    assert(ancestor(store@, a@, (i + 1) as nat) == Some(pa@[i as int]@));
                    assert(ancestor(store@, b@, (jj + 1) as nat) == Some(pb@[jj]@));
                    assert(strict_ancestor(store@, b@, pa@[i as int]@));
                }
                return Ok(Some(pa[i].clone()));
            }
            proof {
                assert(ancestor(store@, a@, (i + 1) as nat) == Some(pa@[i as int]@));
                if strict_ancestor(store@, b@, pa@[i as int]@) {
                    let jj = choose|jj: int| 0 <= jj < pb@.len() && #[trigger] pb@[jj]@ == pa@[i as int]@;
                }
            }
            i += 1;
        }
        proof {
            assert forall|i2: nat|
                i2 >= 1 && (#[trigger] ancestor(store@, a@, i2)) is Some implies !strict_ancestor(
                    store@,
                    b@,
                    ancestor(store@, a@, i2)->0,
                ) by {
                if i2 > pa@.len() {
                    lemma_ancestor_stops(store@, a@, pa@.len() as nat, i2);
                }
            }
        }
        Ok(None)
    }
}

} // verus!
