//! A keyed table: rows addressed by a string path, each path present at
//! most once.  The table is the storage shape shared by the document
//! store, the vector store and the lexical index; its mathematical value
//! is a map from the path's characters to the value's view.

use vstd::prelude::*;

verus! {

/// One row: a path and the value stored under it.
pub struct Row<V> {
    pub path: String,
    pub val: V,
}

/// The map a row sequence stands for; later rows would shadow earlier
/// ones, but a well-formed table has each path at most once.
pub open spec fn rows_map<V: View>(s: Seq<Row<V>>) -> Map<Seq<char>, V::V>
    decreases s.len(),
{
    if s.len() == 0 {
        Map::empty()
    } else {
        rows_map(s.drop_last()).insert(s.last().path@, s.last().val@)
    }
}

/// No two rows share a path.
pub open spec fn paths_distinct<V>(s: Seq<Row<V>>) -> bool {
    forall|i: int, j: int| 0 <= i < j < s.len() ==> s[i].path@ != s[j].path@
}

/// A key is in the map exactly when some row carries it.
pub proof fn lemma_rows_map_contains<V: View>(s: Seq<Row<V>>, p: Seq<char>)
    ensures
        rows_map(s).contains_key(p) <==> exists|i: int| 0 <= i < s.len() && s[i].path@ == p,
    decreases s.len(),
{
    if s.len() > 0 {
        lemma_rows_map_contains(s.drop_last(), p);
        if s.last().path@ == p {
            assert(s[s.len() - 1].path@ == p);
        } else {
            assert((exists|i: int| 0 <= i < s.len() && s[i].path@ == p) <==> (exists|i: int|
                0 <= i < s.len() - 1 && s.drop_last()[i].path@ == p)) by {
                if exists|i: int| 0 <= i < s.len() && s[i].path@ == p {
                    let i = choose|i: int| 0 <= i < s.len() && s[i].path@ == p;
                    assert(s.drop_last()[i].path@ == p);
                }
            }
        }
    }
}

/// In a well-formed table, row `i` is the map entry for its path.
pub proof fn lemma_rows_map_index<V: View>(s: Seq<Row<V>>, i: int)
    requires
        paths_distinct(s),
        0 <= i < s.len(),
    ensures
        rows_map(s).contains_key(s[i].path@),
        rows_map(s)[s[i].path@] == s[i].val@,
    decreases s.len(),
{
    if i < s.len() - 1 {
        assert(paths_distinct(s.drop_last()));
        lemma_rows_map_index(s.drop_last(), i);
        assert(s.drop_last()[i] == s[i]);
        assert(s[i].path@ != s.last().path@);
    }
}

/// Replacing row `i` with a row of the same path updates just that entry.
pub proof fn lemma_rows_map_update<V: View>(s: Seq<Row<V>>, i: int, r: Row<V>)
    requires
        paths_distinct(s),
        0 <= i < s.len(),
        r.path@ == s[i].path@,
    ensures
        rows_map(s.update(i, r)) =~= rows_map(s).insert(r.path@, r.val@),
        paths_distinct(s.update(i, r)),
    decreases s.len(),
{
    let su = s.update(i, r);
    assert(paths_distinct(su));
    if i == s.len() - 1 {
        assert(su.drop_last() =~= s.drop_last());
        assert(su.last() == r);
    } else {
        assert(su.drop_last() =~= s.drop_last().update(i, r));
        assert(paths_distinct(s.drop_last()));
        assert(s.drop_last()[i] == s[i]);
        lemma_rows_map_update(s.drop_last(), i, r);
        assert(su.last() == s.last());
        assert(s.last().path@ != r.path@);
    }
}

/// Removing row `i` removes just its entry from the map.
pub proof fn lemma_rows_map_remove<V: View>(s: Seq<Row<V>>, i: int)
    requires
        paths_distinct(s),
        0 <= i < s.len(),
    ensures
        rows_map(s.remove(i)) =~= rows_map(s).remove(s[i].path@),
        paths_distinct(s.remove(i)),
    decreases s.len(),
{
    let sr = s.remove(i);
    assert(paths_distinct(sr)) by {
        assert(forall|a: int, b: int|
            0 <= a < b < sr.len() ==> sr[a].path@ != sr[b].path@) by {
            assert(forall|a: int|
                0 <= a < sr.len() ==> sr[a] == (if a < i {
                    s[a]
                } else {
                    s[a + 1]
                }));
        }
    }
    if i == s.len() - 1 {
        assert(sr =~= s.drop_last());
        assert(!rows_map(s.drop_last()).contains_key(s[i].path@)) by {
            lemma_rows_map_contains(s.drop_last(), s[i].path@);
        }
    } else {
        assert(sr.drop_last() =~= s.drop_last().remove(i));
        assert(paths_distinct(s.drop_last()));
        assert(s.drop_last()[i] == s[i]);
        lemma_rows_map_remove(s.drop_last(), i);
        assert(sr.last() == s.last());
        assert(s.last().path@ != s[i].path@);
    }
}

/// In a well-formed table the map has as many entries as there are rows.
pub proof fn lemma_rows_map_len<V: View>(s: Seq<Row<V>>)
    requires
        paths_distinct(s),
    ensures
        rows_map(s).dom().finite(),
        rows_map(s).dom().len() == s.len(),
    decreases s.len(),
{
    if s.len() > 0 {
        assert(paths_distinct(s.drop_last()));
        lemma_rows_map_len(s.drop_last());
        lemma_rows_map_contains(s.drop_last(), s.last().path@);
        assert(!rows_map(s.drop_last()).contains_key(s.last().path@));
    }
}

/// A keyed table.
pub struct Table<V> {
    rows: Vec<Row<V>>,
}

impl<V: View> View for Table<V> {
    type V = Map<Seq<char>, V::V>;

    closed spec fn view(&self) -> Map<Seq<char>, V::V> {
        rows_map(self.rows@)
    }
}

impl<V: View> Table<V> {
    /// Each path occurs in at most one row.
    pub closed spec fn wf(&self) -> bool {
        paths_distinct(self.rows@)
    }

    /// The rows in storage order, as path/value views.
    pub closed spec fn row_seq(&self) -> Seq<(Seq<char>, V::V)> {
        self.rows@.map_values(|r: Row<V>| (r.path@, r.val@))
    }

    /// Row `i` of a well-formed table is the map entry for its path, and
    /// no other row shares that path.
    pub proof fn lemma_row_in_map(&self, i: int)
        requires
            self.wf(),
            0 <= i < self.row_seq().len(),
        ensures
            self@.contains_key(self.row_seq()[i].0),
            self@[self.row_seq()[i].0] == self.row_seq()[i].1,
            forall|j: int|
                0 <= j < self.row_seq().len() && j != i ==> self.row_seq()[j].0
                    != self.row_seq()[i].0,
    {
        lemma_rows_map_index(self.rows@, i);
    }

    /// A key is in the map exactly when some row carries it.
    pub proof fn lemma_map_covered(&self, p: Seq<char>)
        ensures
            self@.contains_key(p) <==> exists|i: int|
                0 <= i < self.row_seq().len() && self.row_seq()[i].0 == p,
    {
        lemma_rows_map_contains(self.rows@, p);
        if exists|i: int| 0 <= i < self.rows@.len() && self.rows@[i].path@ == p {
            let i = choose|i: int| 0 <= i < self.rows@.len() && self.rows@[i].path@ == p;
            assert(self.row_seq()[i].0 == p);
        }
    }

    /// An empty table.
    pub fn new() -> (t: Self)
        ensures
            t@ =~= Map::<Seq<char>, V::V>::empty(),
            t.wf(),
            t.row_seq() =~= Seq::<(Seq<char>, V::V)>::empty(),
    {
        Table { rows: Vec::new() }
    }

    /// The number of rows.
    pub fn nrows(&self) -> (n: usize)
        ensures
            n == self.row_seq().len(),
    {
        self.rows.len()
    }

    /// The number of stored entries.
    pub fn len(&self) -> (n: usize)
        requires
            self.wf(),
        ensures
            n == self@.dom().len(),
            self@.dom().finite(),
    {
        proof {
            lemma_rows_map_len(self.rows@);
        }
        self.rows.len()
    }

    /// The path of row `i`.
    pub fn path_at(&self, i: usize) -> (p: &String)
        requires
            i < self.row_seq().len(),
        ensures
            p@ == self.row_seq()[i as int].0,
    {
        &self.rows[i].path
    }

    /// The value of row `i`.
    pub fn val_at(&self, i: usize) -> (v: &V)
        requires
            i < self.row_seq().len(),
        ensures
            v@ == self.row_seq()[i as int].1,
    {
        &self.rows[i].val
    }

    /// The index of the row carrying `p`, if any.
    fn find(&self, p: &String) -> (r: Option<usize>)
        ensures
            match r {
                Some(i) => i < self.rows@.len() && self.rows@[i as int].path@ == p@,
                None => forall|j: int| 0 <= j < self.rows@.len() ==> self.rows@[j].path@ != p@,
            },
    {
        let mut i: usize = 0;
        while i < self.rows.len()
            invariant
                0 <= i <= self.rows@.len(),
                forall|j: int| 0 <= j < i ==> self.rows@[j].path@ != p@,
            decreases self.rows@.len() - i,
        {
            if self.rows[i].path == *p {
                return Some(i);
            }
            i = i + 1;
        }
        None
    }

    /// Looks up the value stored under `p`.
    pub fn get(&self, p: &String) -> (r: Option<&V>)
        requires
            self.wf(),
        ensures
            match r {
                Some(v) => self@.contains_key(p@) && v@ == self@[p@],
                None => !self@.contains_key(p@),
            },
    {
        proof {
            lemma_rows_map_contains(self.rows@, p@);
        }
        match self.find(p) {
            Some(i) => {
                proof {
                    lemma_rows_map_index(self.rows@, i as int);
                }
                Some(&self.rows[i].val)
            },
            None => None,
        }
    }

    /// Whether a row carries `p`.
    pub fn contains(&self, p: &String) -> (r: bool)
        requires
            self.wf(),
        ensures
            r == self@.contains_key(p@),
    {
        match self.get(p) {
            Some(_) => true,
            None => false,
        }
    }

    /// Stores `v` under `p`, replacing any previous value.
    pub fn set(&mut self, p: String, v: V) -> (was: bool)
        requires
            old(self).wf(),
        ensures
            final(self).wf(),
            final(self)@ =~= old(self)@.insert(p@, v@),
            was == old(self)@.contains_key(p@),
    {
        proof {
            lemma_rows_map_contains(self.rows@, p@);
        }
        match self.find(&p) {
            Some(i) => {
                proof {
                    lemma_rows_map_update(self.rows@, i as int, Row { path: p, val: v });
                }
                self.rows.set(i, Row { path: p, val: v });
                true
            },
            None => {
                let ghost s0 = self.rows@;
                self.rows.push(Row { path: p, val: v });
                proof {
                    assert(self.rows@.drop_last() =~= s0);
                    assert(paths_distinct(self.rows@)) by {
                        assert(forall|j: int|
                            0 <= j < s0.len() ==> #[trigger] self.rows@[j] == s0[j]);
                    }
                }
                false
            },
        }
    }

    /// Removes the row carrying `p`; reports whether one was there.
    pub fn remove(&mut self, p: &String) -> (was: bool)
        requires
            old(self).wf(),
        ensures
            final(self).wf(),
            final(self)@ =~= old(self)@.remove(p@),
            was == old(self)@.contains_key(p@),
    {
        proof {
            lemma_rows_map_contains(self.rows@, p@);
        }
        match self.find(p) {
            Some(i) => {
                proof {
                    lemma_rows_map_remove(self.rows@, i as int);
                }
                self.rows.remove(i);
                true
            },
            None => {
                proof {
                    assert(self@ =~= self@.remove(p@));
                }
                false
            },
        }
    }
}

} // verus!
