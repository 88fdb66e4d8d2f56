//! The staging area: entries sorted by path, and the digests that
//! staging created.
use crate::encoding::{
    at, frame, frame_list, le32, le64, lemma_at_all, lemma_at_concat, lemma_at_whole, lemma_le32_len,
    lemma_le64_len, push_frame, push_frame_list, push_str_list, push_u32, push_u64, read_frame,
    read_frame_list, read_str_list, read_u32, read_u64, str_list,
};
use crate::order::{cmp_path, compare_path, lemma_cmp_path, lemma_cmp_path_trans, path_view};
use vstd::prelude::*;

verus! {

#[derive(Debug, Clone)]
pub struct IndexEntry {
    pub hash: Vec<u8>,
    pub size: u64,
    pub mtime: u32,
    pub mode: u32,
}

pub struct IndexEntryV {
    pub hash: Seq<u8>,
    pub size: u64,
    pub mtime: u32,
    pub mode: u32,
}

impl View for IndexEntry {
    type V = IndexEntryV;

    open spec fn view(&self) -> IndexEntryV {
        IndexEntryV { hash: self.hash@, size: self.size, mtime: self.mtime, mode: self.mode }
    }
}

impl IndexEntry {
    pub fn clone_entry(&self) -> (r: IndexEntry)
        ensures
            r@ == self@,
    {
        IndexEntry { hash: self.hash.clone(), size: self.size, mtime: self.mtime, mode: self.mode }
    }
}

pub open spec fn index_row(r: (Vec<String>, IndexEntry)) -> (Seq<Seq<char>>, IndexEntryV) {
    (path_view(r.0@), r.1@)
}

/// Strictly increasing paths: each path at most once, in order.
pub open spec fn sorted_paths(s: Seq<(Seq<Seq<char>>, IndexEntryV)>) -> bool {
    forall|a: int, b: int| 0 <= a < b < s.len() ==> cmp_path(s[a].0, s[b].0) == -1
}

pub struct Index {
    pub entries: Vec<(Vec<String>, IndexEntry)>,
    pub dependencies: Vec<String>,
}

impl Index {
    pub open spec fn rows(&self) -> Seq<(Seq<Seq<char>>, IndexEntryV)> {
        self.entries@.map_values(|r: (Vec<String>, IndexEntry)| index_row(r))
    }

    pub open spec fn deps(&self) -> Seq<Seq<char>> {
        self.dependencies@.map_values(|s: String| s@)
    }

    pub open spec fn wf(&self) -> bool {
        sorted_paths(self.rows())
    }

    pub open spec fn has_path(&self, p: Seq<Seq<char>>) -> bool {
        exists|i: int| 0 <= i < self.rows().len() && self.rows()[i].0 == p
    }

    pub open spec fn has_entry(&self, p: Seq<Seq<char>>, e: IndexEntryV) -> bool {
        exists|i: int| 0 <= i < self.rows().len() && self.rows()[i] == (p, e)
    }

    pub fn new() -> (r: Index)
        ensures
            r.wf(),
            r.rows() == Seq::<(Seq<Seq<char>>, IndexEntryV)>::empty(),
            r.deps() == Seq::<Seq<char>>::empty(),
    {
        let r = Index { entries: Vec::new(), dependencies: Vec::new() };
        assert(r.rows() =~= Seq::<(Seq<Seq<char>>, IndexEntryV)>::empty());
        assert(r.deps() =~= Seq::<Seq<char>>::empty());
        r
    }

    /// Records `entry` under `path`: an existing entry for the path is
    /// replaced, otherwise the entry is inserted at its place in path order.
    pub fn add_entry(&mut self, path: Vec<String>, entry: IndexEntry)
        requires
            old(self).wf(),
        ensures
            final(self).wf(),
            final(self).dependencies == old(self).dependencies,
            final(self).has_entry(path_view(path@), entry@),
            forall|q: Seq<Seq<char>>| #[trigger] old(self).has_path(q) ==> final(self).has_path(q),
            forall|q: Seq<Seq<char>>, ev: IndexEntryV|
                #[trigger] old(self).has_entry(q, ev) && q != path_view(path@) ==> final(self).has_entry(q, ev),
            (exists|i: int| 0 <= i < old(self).rows().len() && old(self).rows()[i].0 == path_view(path@))
                ==> (exists|i: int|
                0 <= i < old(self).rows().len() && old(self).rows()[i].0 == path_view(path@)
                    && final(self).rows() == old(self).rows().update(i, (path_view(path@), entry@))),
            (forall|i: int| 0 <= i < old(self).rows().len() ==> old(self).rows()[i].0 != path_view(path@))
                ==> (exists|i: int|
                0 <= i <= old(self).rows().len() && final(self).rows() == old(self).rows().insert(
                    i,
                    (path_view(path@), entry@),
                )),
    {
        let ghost p = path_view(path@);
        let ghost e = entry@;
        let ghost s = self.rows();
        let mut i: usize = 0;
        while i < self.entries.len() && compare_path(&self.entries[i].0, &path) == -1
            invariant
                i <= self.entries@.len(),
                s == self.rows(),
                self.wf(),
                p == path_view(path@),
                forall|k: int| 0 <= k < i ==> cmp_path(#[trigger] s[k].0, p) == -1,
            decreases self.entries@.len() - i,
        {
            i += 1;
        }
        let found = i < self.entries.len() && compare_path(&self.entries[i].0, &path) == 0;
        if found {
            proof {
                lemma_cmp_path(s[i as int].0, p);
            }
            self.entries.set(i, (path, entry));
            proof {
                assert(self.rows() =~= s.update(i as int, (p, e)));
                assert forall|a: int, b: int| 0 <= a < b < self.rows().len() implies cmp_path(
                    self.rows()[a].0,
                    self.rows()[b].0,
                ) == -1 by {
                    assert(self.rows()[a].0 == s[a].0);
                    assert(self.rows()[b].0 == s[b].0);
                }
                assert(self.rows()[i as int] == (p, e));
                assert forall|q: Seq<Seq<char>>| #[trigger] old(self).has_path(q) implies self.has_path(q) by {
                    let k = choose|k: int| 0 <= k < s.len() && s[k].0 == q;
                    assert(self.rows()[k].0 == q);
                }
                assert forall|q: Seq<Seq<char>>, ev: IndexEntryV|
                    #[trigger] old(self).has_entry(q, ev) && q != p implies self.has_entry(q, ev) by {
                    let k = choose|k: int| 0 <= k < s.len() && s[k] == (q, ev);
                    assert(k != i);
                    assert(self.rows()[k] == (q, ev));
                }
            }
        } else {
            proof {
                if i < s.len() {
                    lemma_cmp_path(s[i as int].0, p);
                    assert(cmp_path(p, s[i as int].0) == -1);
                }
                assert forall|k: int| 0 <= k < s.len() implies s[k].0 != p by {
                    lemma_cmp_path(s[k].0, p);
                    if k >= i {
                        if k > i {
                            lemma_cmp_path_trans(p, s[i as int].0, s[k].0);
                        }
                        lemma_cmp_path(p, s[k].0);
                    }
                }
            }
            self.entries.insert(i, (path, entry));
            proof {
                let n = self.rows();
                assert(n =~= s.insert(i as int, (p, e)));
                assert forall|a: int, b: int| 0 <= a < b < n.len() implies cmp_path(n[a].0, n[b].0)
                    == -1 by {
                    if b < i {
                    } else if b == i {
                    } else if a < i {
                        assert(n[b] == s[b - 1]);
                        if b - 1 > i {
                            lemma_cmp_path_trans(p, s[i as int].0, s[b - 1].0);
                        }
                        lemma_cmp_path_trans(s[a].0, p, s[b - 1].0);
                    } else if a == i {
                        assert(n[b] == s[b - 1]);
                        if b - 1 > i {
                            lemma_cmp_path_trans(p, s[i as int].0, s[b - 1].0);
                        }
                    } else {
                        assert(n[a] == s[a - 1]);
                        assert(n[b] == s[b - 1]);
                    }
                }
                assert(n[i as int] == (p, e));
                assert forall|q: Seq<Seq<char>>| #[trigger] old(self).has_path(q) implies self.has_path(q) by {
                    let k = choose|k: int| 0 <= k < s.len() && s[k].0 == q;
                    if k < i {
                        assert(n[k].0 == q);
                    } else {
                        assert(n[k + 1].0 == q);
                    }
                }
                assert forall|q: Seq<Seq<char>>, ev: IndexEntryV|
                    #[trigger] old(self).has_entry(q, ev) && q != p implies self.has_entry(q, ev) by {
                    let k = choose|k: int| 0 <= k < s.len() && s[k] == (q, ev);
                    if k < i {
                        assert(n[k] == (q, ev));
                    } else {
                        assert(n[k + 1] == (q, ev));
                    }
                }
            }
        }
    }

    /// The entry recorded under `path`.
    pub fn get_entry(&self, path: &Vec<String>) -> (r: Option<IndexEntry>)
        requires
            self.wf(),
        ensures
            match r {
                Some(e) => exists|i: int|
                    0 <= i < self.rows().len() && self.rows()[i].0 == path_view(path@)
                        && self.rows()[i].1 == e@,
                None => forall|i: int|
                    0 <= i < self.rows().len() ==> self.rows()[i].0 != path_view(path@),
            },
    {
        let mut i: usize = 0;
        while i < self.entries.len()
            invariant
                i <= self.entries@.len(),
                forall|k: int| 0 <= k < i ==> self.rows()[k].0 != path_view(path@),
            decreases self.entries@.len() - i,
        {
            let c = compare_path(&self.entries[i].0, path);
            proof {
                lemma_cmp_path(self.rows()[i as int].0, path_view(path@));
            }
            if c == 0 {
                return Some(self.entries[i].1.clone_entry());
            }
            i += 1;
        }
        None
    }

    /// Appends digests created while staging.
    pub fn add_dependencies(&mut self, deps: &Vec<String>)
        ensures
            final(self).entries == old(self).entries,
            final(self).deps() == old(self).deps() + deps@.map_values(|s: String| s@),
    {
        let mut i: usize = 0;
        while i < deps.len()
            invariant
                i <= deps@.len(),
                self.entries == old(self).entries,
                self.deps() == old(self).deps() + deps@.subrange(0, i as int).map_values(
                    |s: String| s@,
                ),
            decreases deps@.len() - i,
        {
            let ghost before = self.deps();
            self.dependencies.push(deps[i].clone());
            assert(self.deps() =~= before.push(deps@[i as int]@));
            assert(deps@.subrange(0, i + 1).map_values(|s: String| s@) =~= deps@.subrange(
                0,
                i as int,
            ).map_values(|s: String| s@).push(deps@[i as int]@));
            i += 1;
        }
        assert(deps@.subrange(0, i as int) =~= deps@);
    }
}

} // verus!

verus! {

pub open spec fn entry_bytes(p: Seq<Seq<char>>, e: IndexEntryV) -> Seq<u8> {
    str_list(p) + frame(e.hash) + le64(e.size) + le32(e.mtime) + le32(e.mode)
}

pub open spec fn rows_bytes(rows: Seq<(Seq<Seq<char>>, IndexEntryV)>) -> Seq<Seq<u8>> {
    rows.map_values(|r: (Seq<Seq<char>>, IndexEntryV)| entry_bytes(r.0, r.1))
}

/// The serialized form of an index: its entries in path order, then its
/// dependencies.
pub open spec fn index_bytes(rows: Seq<(Seq<Seq<char>>, IndexEntryV)>, deps: Seq<Seq<char>>) -> Seq<u8> {
    frame_list(rows_bytes(rows)) + str_list(deps)
}

proof fn lemma_entry_parts(bs: Seq<u8>, p: Seq<Seq<char>>, e: IndexEntryV)
    requires
        entry_bytes(p, e) == bs,
    ensures
        at(bs, 0, str_list(p)),
        at(bs, str_list(p).len() as int, frame(e.hash)),
        at(bs, (str_list(p).len() + frame(e.hash).len()) as int, le64(e.size)),
        at(bs, (str_list(p).len() + frame(e.hash).len() + 8) as int, le32(e.mtime)),
        at(bs, (str_list(p).len() + frame(e.hash).len() + 12) as int, le32(e.mode)),
        bs.len() == str_list(p).len() + frame(e.hash).len() + 16,
{
    lemma_le64_len(e.size);
    lemma_le32_len(e.mtime);
    lemma_le32_len(e.mode);
    let h1 = str_list(p);
    let h2 = h1 + frame(e.hash);
    let h3 = h2 + le64(e.size);
    let h4 = h3 + le32(e.mtime);
    lemma_at_whole(bs);
    lemma_at_concat(bs, 0, h4, le32(e.mode));
    lemma_at_concat(bs, 0, h3, le32(e.mtime));
    lemma_at_concat(bs, 0, h2, le64(e.size));
    lemma_at_concat(bs, 0, h1, frame(e.hash));
}

/// Paths that increase from each entry to the next increase throughout.
proof fn lemma_adjacent_sorted(s: Seq<(Seq<Seq<char>>, IndexEntryV)>, n: int)
    requires
        0 <= n <= s.len(),
        forall|k: int| 0 < k < n ==> cmp_path(#[trigger] s[k - 1].0, s[k].0) == -1,
    ensures
        forall|a: int, b: int| 0 <= a < b < n ==> cmp_path(s[a].0, s[b].0) == -1,
    decreases n,
{
    if n > 0 {
        lemma_adjacent_sorted(s, n - 1);
        assert forall|a: int, b: int| 0 <= a < b < n implies cmp_path(s[a].0, s[b].0) == -1 by {
            if b == n - 1 && a < b - 1 {
                assert(cmp_path(s[a].0, s[b - 1].0) == -1);
                assert(cmp_path(s[b - 1].0, s[b].0) == -1);
                lemma_cmp_path_trans(s[a].0, s[b - 1].0, s[b].0);
            }
        }
    }
}

fn decode_entry(bytes: &[u8]) -> (r: Option<(Vec<String>, IndexEntry)>)
    ensures
        r matches Some((p, e)) ==> entry_bytes(path_view(p@), e@) == bytes@,
        forall|p: Seq<Seq<char>>, e: IndexEntryV|
            entry_bytes(p, e) == bytes@ ==> (r is Some && path_view((r->0).0@) == p && (r->0).1@ == e),
{
    let ghost bs = bytes@;
    let (path, q1) = match read_str_list(bytes, 0) {
        Some(x) => x,
        None => {
            assert forall|p: Seq<Seq<char>>, e: IndexEntryV| entry_bytes(p, e) != bs by {
                if entry_bytes(p, e) == bs {
                    lemma_entry_parts(bs, p, e);
                }
            }
            return None;
        },
    };
    let (hash, q2) = match read_frame(bytes, q1) {
        Some(x) => x,
        None => {
            assert forall|p: Seq<Seq<char>>, e: IndexEntryV| entry_bytes(p, e) != bs by {
                if entry_bytes(p, e) == bs {
                    lemma_entry_parts(bs, p, e);
                }
            }
            return None;
        },
    };
    let (size, q3) = match read_u64(bytes, q2) {
        Some(x) => x,
        None => {
            assert forall|p: Seq<Seq<char>>, e: IndexEntryV| entry_bytes(p, e) != bs by {
                if entry_bytes(p, e) == bs {
                    lemma_entry_parts(bs, p, e);
                }
            }
            return None;
        },
    };
    let (mtime, q4) = match read_u32(bytes, q3) {
        Some(x) => x,
        None => {
            assert forall|p: Seq<Seq<char>>, e: IndexEntryV| entry_bytes(p, e) != bs by {
                if entry_bytes(p, e) == bs {
                    lemma_entry_parts(bs, p, e);
                }
            }
            return None;
        },
    };
    let (mode, q5) = match read_u32(bytes, q4) {
        Some(x) => x,
        None => {
            assert forall|p: Seq<Seq<char>>, e: IndexEntryV| entry_bytes(p, e) != bs by {
                if entry_bytes(p, e) == bs {
                    lemma_entry_parts(bs, p, e);
                }
            }
            return None;
        },
    };
    if q5 != bytes.len() {
        assert forall|p: Seq<Seq<char>>, e: IndexEntryV| entry_bytes(p, e) != bs by {
            if entry_bytes(p, e) == bs {
                lemma_entry_parts(bs, p, e);
            }
        }
        return None;
    }
    let e = IndexEntry { hash, size, mtime, mode };
    proof {
        lemma_le64_len(size);
        lemma_le32_len(mtime);
        lemma_le32_len(mode);
        let pv = path_view(path@);
        let h1 = str_list(pv);
        let h2 = h1 + frame(e@.hash);
        let h3 = h2 + le64(size);
        let h4 = h3 + le32(mtime);
        lemma_at_concat(bs, 0, h1, frame(e@.hash));
        lemma_at_concat(bs, 0, h2, le64(size));
        lemma_at_concat(bs, 0, h3, le32(mtime));
        lemma_at_concat(bs, 0, h4, le32(mode));
        lemma_at_all(bs, entry_bytes(pv, e@));
        assert forall|p: Seq<Seq<char>>, ev: IndexEntryV| entry_bytes(p, ev) == bs implies pv == p && e@
            == ev by {
            lemma_entry_parts(bs, p, ev);
        }
    }
    Some((path, e))
}

impl Index {
    pub fn encode(&self) -> (r: Vec<u8>)
        ensures
            r@ == index_bytes(self.rows(), self.deps()),
    {
        let mut parts: Vec<Vec<u8>> = Vec::new();
        let mut i: usize = 0;
        while i < self.entries.len()
            invariant
                i <= self.entries@.len(),
                parts@.len() == i,
                forall|j: int| 0 <= j < i ==> #[trigger] parts@[j]@ == entry_bytes(
                    self.rows()[j].0,
                    self.rows()[j].1,
                ),
            decreases self.entries@.len() - i,
        {
            let mut b: Vec<u8> = Vec::new();
            push_str_list(&mut b, &self.entries[i].0);
            push_frame(&mut b, self.entries[i].1.hash.as_slice());
            push_u64(&mut b, self.entries[i].1.size);
            push_u32(&mut b, self.entries[i].1.mtime);
            push_u32(&mut b, self.entries[i].1.mode);
            assert(b@ =~= entry_bytes(self.rows()[i as int].0, self.rows()[i as int].1));
            parts.push(b);
            i += 1;
        }
        let mut out: Vec<u8> = Vec::new();
        push_frame_list(&mut out, &parts);
        push_str_list(&mut out, &self.dependencies);
        assert(parts@.map_values(|v: Vec<u8>| v@) =~= rows_bytes(self.rows()));
        assert(out@ =~= index_bytes(self.rows(), self.deps()));
        out
    }

    /// Decodes a saved index; malformed input, or entries out of path order,
    /// give `None`.
    pub fn decode(bytes: &[u8]) -> (r: Option<Index>)
        ensures
            r matches Some(ix) ==> ix.wf() && index_bytes(ix.rows(), ix.deps()) == bytes@,
            forall|rows: Seq<(Seq<Seq<char>>, IndexEntryV)>, deps: Seq<Seq<char>>|
                sorted_paths(rows) && index_bytes(rows, deps) == bytes@ ==> (r is Some && r->0.rows()
                    == rows && r->0.deps() == deps),
    {
        let ghost bs = bytes@;
        let (parts, q1) = match read_frame_list(bytes, 0) {
            Some(x) => x,
            None => {
                assert forall|rows: Seq<(Seq<Seq<char>>, IndexEntryV)>, deps: Seq<Seq<char>>|
                    index_bytes(rows, deps) != bs by {
                    if index_bytes(rows, deps) == bs {
                        lemma_at_whole(bs);
                        lemma_at_concat(bs, 0, frame_list(rows_bytes(rows)), str_list(deps));
                    }
                }
                return None;
            },
        };
        let (deps, q2) = match read_str_list(bytes, q1) {
            Some(x) => x,
            None => {
                assert forall|rows: Seq<(Seq<Seq<char>>, IndexEntryV)>, d: Seq<Seq<char>>|
                    index_bytes(rows, d) != bs by {
                    if index_bytes(rows, d) == bs {
                        lemma_at_whole(bs);
                        lemma_at_concat(bs, 0, frame_list(rows_bytes(rows)), str_list(d));
                    }
                }
                return None;
            },
        };
        if q2 != bytes.len() {
            assert forall|rows: Seq<(Seq<Seq<char>>, IndexEntryV)>, d: Seq<Seq<char>>|
                index_bytes(rows, d) != bs by {
                if index_bytes(rows, d) == bs {
                    lemma_at_whole(bs);
                    lemma_at_concat(bs, 0, frame_list(rows_bytes(rows)), str_list(d));
                }
            }
            return None;
        }
        let ghost pv = parts@.map_values(|v: Vec<u8>| v@);
        proof {
            assert forall|rows: Seq<(Seq<Seq<char>>, IndexEntryV)>, d: Seq<Seq<char>>|
                index_bytes(rows, d) == bs implies pv == rows_bytes(rows) && crate::commit::strs_view(deps@) == d by {
                lemma_at_whole(bs);
                lemma_at_concat(bs, 0, frame_list(rows_bytes(rows)), str_list(d));
            }
        }
        let mut entries: Vec<(Vec<String>, IndexEntry)> = Vec::new();
        let mut i: usize = 0;
        while i < parts.len()
            invariant
                i <= parts@.len(),
                bs == bytes@,
                pv == parts@.map_values(|v: Vec<u8>| v@),
                entries@.len() == i,
                forall|j: int| 0 <= j < i ==> entry_bytes(
                    path_view(#[trigger] entries@[j].0@),
                    entries@[j].1@,
                ) == pv[j],
                forall|j: int, p: Seq<Seq<char>>, e: IndexEntryV|
                    0 <= j < i && #[trigger] entry_bytes(p, e) == #[trigger] pv[j] ==> path_view(
                        entries@[j].0@,
                    ) == p && entries@[j].1@ == e,
                forall|rows: Seq<(Seq<Seq<char>>, IndexEntryV)>, d: Seq<Seq<char>>|
                    #[trigger] index_bytes(rows, d) == bs ==> pv == rows_bytes(rows),
            decreases parts@.len() - i,
        {
            assert(pv[i as int] == parts@[i as int]@);
            let decoded = decode_entry(parts[i].as_slice());
            match decoded {
                Some(x) => {
                    entries.push(x);
                },
                None => {
                    assert forall|rows: Seq<(Seq<Seq<char>>, IndexEntryV)>, d: Seq<Seq<char>>|
                        index_bytes(rows, d) != bs by {
                        if index_bytes(rows, d) == bs {
                            assert(rows_bytes(rows)[i as int] == entry_bytes(
                                rows[i as int].0,
                                rows[i as int].1,
                            ));
                        }
                    }
                    return None;
                },
            }
            i += 1;
        }
        let ix = Index { entries, dependencies: deps };
        let ghost rows = ix.rows();
        proof {
            assert(rows_bytes(rows) =~= pv);
            assert forall|rs: Seq<(Seq<Seq<char>>, IndexEntryV)>, d: Seq<Seq<char>>|
                #[trigger] index_bytes(rs, d) == bs implies rows == rs && ix.deps() == d by {
                assert(pv == rows_bytes(rs));
                assert forall|j: int| 0 <= j < rs.len() implies rows[j] == rs[j] by {
                    assert(rows_bytes(rs)[j] == entry_bytes(rs[j].0, rs[j].1));
                }
                assert(rows =~= rs);
                lemma_at_whole(bs);
                lemma_at_concat(bs, 0, frame_list(rows_bytes(rs)), str_list(d));
            }
        }
        let mut k: usize = 1;
        while k < ix.entries.len()
            invariant
                1 <= k,
                rows == ix.rows(),
                bs == bytes@,
                forall|rs: Seq<(Seq<Seq<char>>, IndexEntryV)>, d: Seq<Seq<char>>|
                    #[trigger] index_bytes(rs, d) == bs ==> rows == rs,
                forall|j: int| 0 < j < k && j < rows.len() ==> cmp_path(#[trigger] rows[j - 1].0, rows[j].0) == -1,
            decreases ix.entries@.len() - k,
        {
            if compare_path(&ix.entries[k - 1].0, &ix.entries[k].0) != -1 {
                proof {
                    assert forall|rs: Seq<(Seq<Seq<char>>, IndexEntryV)>, d: Seq<Seq<char>>|
                        sorted_paths(rs) && index_bytes(rs, d) == bs implies false by {
                        assert(rows == rs);
                        assert(cmp_path(rs[k - 1].0, rs[k as int].0) == -1);
                    }
                }
                return None;
            }
            k += 1;
        }
        proof {
            lemma_adjacent_sorted(rows, rows.len() as int);
            lemma_at_concat(bs, 0, frame_list(pv), str_list(ix.deps()));
            lemma_at_all(bs, index_bytes(rows, ix.deps()));
        }
        Some(ix)
    }
}

} // verus!
