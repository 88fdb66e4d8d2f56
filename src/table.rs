//! A small keyed table of byte strings, the representation behind the
//! object store and the branch references.
use vstd::prelude::*;

verus! {

pub open spec fn row_view(r: (String, Vec<u8>)) -> (Seq<char>, Seq<u8>) {
    (r.0@, r.1@)
}

/// The map that a sequence of rows describes; a later row wins.
pub open spec fn rows_map(rows: Seq<(Seq<char>, Seq<u8>)>) -> Map<Seq<char>, Seq<u8>>
    decreases rows.len(),
{
    if rows.len() == 0 {
        Map::empty()
    } else {
        rows_map(rows.drop_last()).insert(rows.last().0, rows.last().1)
    }
}

pub open spec fn unique_keys(rows: Seq<(Seq<char>, Seq<u8>)>) -> bool {
    forall|i: int, j: int| 0 <= i < j < rows.len() ==> rows[i].0 != rows[j].0
}

pub proof fn lemma_rows_map(rows: Seq<(Seq<char>, Seq<u8>)>)
    requires
        unique_keys(rows),
    ensures
        forall|i: int|
            0 <= i < rows.len() ==> #[trigger] rows_map(rows).contains_key(rows[i].0) && rows_map(
                rows,
            )[rows[i].0] == rows[i].1,
        forall|k: Seq<char>|
            #[trigger] rows_map(rows).contains_key(k) ==> exists|i: int|
                0 <= i < rows.len() && rows[i].0 == k,
    decreases rows.len(),
{
    if rows.len() > 0 {
        let d = rows.drop_last();
        assert(unique_keys(d));
        lemma_rows_map(d);
        assert forall|k: Seq<char>| #[trigger] rows_map(rows).contains_key(k) implies exists|i: int|
            0 <= i < rows.len() && rows[i].0 == k by {
            if k != rows.last().0 {
                assert(rows_map(d).contains_key(k));
                let i = choose|i: int| 0 <= i < d.len() && d[i].0 == k;
                assert(rows[i].0 == k);
            } else {
                assert(rows[rows.len() - 1].0 == k);
            }
        }
        assert forall|i: int| 0 <= i < rows.len() implies #[trigger] rows_map(rows).contains_key(
            rows[i].0,
        ) && rows_map(rows)[rows[i].0] == rows[i].1 by {
            assert(rows_map(rows) == rows_map(d).insert(rows.last().0, rows.last().1));
            if i < rows.len() - 1 {
                assert(d[i] == rows[i]);
                assert(rows_map(d).contains_key(d[i].0));
                assert(rows[i].0 != rows[rows.len() - 1].0);
            }
        }
    }
}

/// Rows keyed by string, each key at most once.
#[derive(Debug)]
pub struct Table {
    pub rows: Vec<(String, Vec<u8>)>,
}

impl View for Table {
    type V = Map<Seq<char>, Seq<u8>>;

    open spec fn view(&self) -> Map<Seq<char>, Seq<u8>> {
        rows_map(self.rows@.map_values(|r: (String, Vec<u8>)| row_view(r)))
    }
}

impl Table {
    pub open spec fn spec_rows(&self) -> Seq<(Seq<char>, Seq<u8>)> {
        self.rows@.map_values(|r: (String, Vec<u8>)| row_view(r))
    }

    pub open spec fn wf(&self) -> bool {
        unique_keys(self.spec_rows())
    }

    pub fn new() -> (r: Table)
        ensures
            r.wf(),
            r@ == Map::<Seq<char>, Seq<u8>>::empty(),
    {
        let r = Table { rows: Vec::new() };
        assert(r.spec_rows() =~= Seq::<(Seq<char>, Seq<u8>)>::empty());
        r
    }

    /// The position of the row with the given key.
    pub fn find(&self, key: &String) -> (r: Option<usize>)
        requires
            self.wf(),
        ensures
            match r {
                Some(i) => i < self.rows@.len() && self.rows@[i as int].0@ == key@,
                None => !self@.contains_key(key@),
            },
            r is Some <==> self@.contains_key(key@),
    {
        proof {
            lemma_rows_map(self.spec_rows());
        }
        let mut i: usize = 0;
        while i < self.rows.len()
            invariant
                i <= self.rows@.len(),
                self.wf(),
                forall|j: int| 0 <= j < i ==> self.rows@[j].0@ != key@,
            decreases self.rows@.len() - i,
        {
            if self.rows[i].0 == *key {
                proof {
                    lemma_rows_map(self.spec_rows());
                }
                assert(self.spec_rows()[i as int].0 == key@);
                assert(self@.contains_key(self.spec_rows()[i as int].0));
                return Some(i);
            }
            i += 1;
        }
        proof {
            lemma_rows_map(self.spec_rows());
            if self@.contains_key(key@) {
                let j = choose|j: int| 0 <= j < self.spec_rows().len() && self.spec_rows()[j].0 == key@;
                assert(self.rows@[j].0@ == key@);
            }
        }
        None
    }

    pub fn contains(&self, key: &String) -> (r: bool)
        requires
            self.wf(),
        ensures
            r == self@.contains_key(key@),
    {
        self.find(key).is_some()
    }

    pub fn get(&self, key: &String) -> (r: Option<Vec<u8>>)
        requires
            self.wf(),
        ensures
            r is Some <==> self@.contains_key(key@),
            r matches Some(v) ==> v@ == self@[key@],
    {
        match self.find(key) {
            Some(i) => {
                proof {
                    lemma_rows_map(self.spec_rows());
                    assert(self.spec_rows()[i as int].0 == key@);
                }
                Some(self.rows[i].1.clone())
            },
            None => None,
        }
    }

    /// Sets the value under `key`, replacing any earlier one.
    pub fn set(&mut self, key: String, value: Vec<u8>)
        requires
            old(self).wf(),
        ensures
            final(self).wf(),
            final(self)@ == old(self)@.insert(key@, value@),
    {
        let ghost old_rows = self.spec_rows();
        proof {
            lemma_rows_map(old_rows);
        }
        match self.find(&key) {
            Some(i) => {
                let ghost k = key@;
                let ghost v = value@;
                assert(old_rows[i as int].0 == k);
                self.rows.set(i, (key, value));
                proof {
                    let nr = self.spec_rows();
                    assert(nr =~= old_rows.update(i as int, (k, v)));
                    assert forall|j: int| 0 <= j < nr.len() implies nr[j].0 == old_rows[j].0 by {}
                    assert(unique_keys(nr));
                    lemma_rows_map(nr);
                    assert forall|q: Seq<char>| #[trigger] self@.contains_key(q) <==> old(
                        self,
                    )@.insert(k, v).contains_key(q) by {
                        if self@.contains_key(q) {
                            let j = choose|j: int| 0 <= j < nr.len() && nr[j].0 == q;
                            if j != i {
                                assert(old_rows[j].0 == q);
                            }
                        }
                        if old(self)@.contains_key(q) && q != k {
                            let j = choose|j: int| 0 <= j < old_rows.len() && old_rows[j].0 == q;
                            assert(nr[j].0 == q);
                        }
                        if q == k {
                            assert(nr[i as int].0 == q);
                        }
                    }
                    assert forall|q: Seq<char>| #[trigger] self@.contains_key(q) implies self@[q]
                        == old(self)@.insert(k, v)[q] by {
                        let j = choose|j: int| 0 <= j < nr.len() && nr[j].0 == q;
                        if j != i {
                            assert(old_rows[j] == nr[j]);
                            assert(old_rows[j].0 != old_rows[i as int].0);
                            assert(q != k);
                            assert(old(self)@[q] == old_rows[j].1);
                        } else {
                            assert(nr[j] == (k, v));
                        }
                    }
                    assert(self@ =~= old(self)@.insert(k, v));
                }
            },
            None => {
                let ghost k = key@;
                self.rows.push((key, value));
                proof {
                    let nr = self.spec_rows();
                    assert(nr.drop_last() =~= old_rows);
                    assert(nr[nr.len() - 1].0 == k);
                    assert forall|a: int, b: int| 0 <= a < b < nr.len() implies nr[a].0 != nr[b].0 by {
                        assert(nr[a] == old_rows[a]);
                        if b < nr.len() - 1 {
                            assert(nr[b] == old_rows[b]);
                        }
                        if b == nr.len() - 1 {
                            assert(old_rows[a].0 == nr[a].0);
                            assert(old(self)@.contains_key(old_rows[a].0));
                        }
                    }
                }
            },
        }
    }

    /// Removes the row under `key`, if there is one.
    pub fn remove(&mut self, key: &String)
        requires
            old(self).wf(),
        ensures
            final(self).wf(),
            final(self)@ == old(self)@.remove(key@),
    {
        let ghost old_rows = self.spec_rows();
        proof {
            lemma_rows_map(old_rows);
        }
        match self.find(key) {
            Some(i) => {
                assert(old_rows[i as int].0 == key@);
                self.rows.remove(i);
                proof {
                    let nr = self.spec_rows();
                    assert(nr =~= old_rows.remove(i as int));
                    assert(unique_keys(nr));
                    lemma_rows_map(nr);
                    let target = old(self)@.remove(key@);
                    assert forall|q: Seq<char>| #[trigger] self@.contains_key(q) <==> target.contains_key(q) by {
                        if self@.contains_key(q) {
                            let j = choose|j: int| 0 <= j < nr.len() && nr[j].0 == q;
                            if j < i {
                                assert(old_rows[j].0 == q);
                                assert(old_rows[j].0 != old_rows[i as int].0);
                            } else {
                                assert(old_rows[j + 1].0 == q);
                                assert(old_rows[j + 1].0 != old_rows[i as int].0);
                            }
                        }
                        if target.contains_key(q) {
                            let j = choose|j: int| 0 <= j < old_rows.len() && old_rows[j].0 == q;
                            if j < i {
                                assert(nr[j].0 == q);
                            } else {
                                assert(j != i);
                                assert(nr[j - 1].0 == q);
                            }
                        }
                    }
                    assert forall|q: Seq<char>| #[trigger] self@.contains_key(q) implies self@[q]
                        == target[q] by {
                        let j = choose|j: int| 0 <= j < nr.len() && nr[j].0 == q;
                        if j < i {
                            assert(old_rows[j] == nr[j]);
                            assert(old(self)@[q] == old_rows[j].1);
                        } else {
                            assert(old_rows[j + 1] == nr[j]);
                            assert(old(self)@[q] == old_rows[j + 1].1);
                        }
                    }
                    assert(self@ =~= target);
                }
            },
            None => {
                assert(old(self)@ =~= old(self)@.remove(key@));
            },
        }
    }

    /// Every key, once each.
    pub fn keys(&self) -> (r: Vec<String>)
        requires
            self.wf(),
        ensures
            r@.len() == self.rows@.len(),
            forall|i: int| 0 <= i < r@.len() ==> self@.contains_key(#[trigger] r@[i]@),
            forall|k: Seq<char>| #[trigger] self@.contains_key(k) ==> exists|i: int|
                0 <= i < r@.len() && r@[i]@ == k,
    {
        proof {
            lemma_rows_map(self.spec_rows());
        }
        let mut r: Vec<String> = Vec::new();
        let mut i: usize = 0;
        while i < self.rows.len()
            invariant
                i <= self.rows@.len(),
                r@.len() == i,
                forall|j: int| 0 <= j < i ==> #[trigger] r@[j]@ == self.rows@[j].0@,
            decreases self.rows@.len() - i,
        {
            r.push(self.rows[i].0.clone());
            i += 1;
        }
        proof {
            assert forall|j: int| 0 <= j < r@.len() implies self@.contains_key(#[trigger] r@[j]@) by {
                assert(self.spec_rows()[j].0 == r@[j]@);
            }
            assert forall|k: Seq<char>| #[trigger] self@.contains_key(k) implies exists|j: int|
                0 <= j < r@.len() && r@[j]@ == k by {
                let j = choose|j: int| 0 <= j < self.spec_rows().len() && self.spec_rows()[j].0 == k;
                assert(r@[j]@ == k);
            }
        }
        r
    }
}

} // verus!
