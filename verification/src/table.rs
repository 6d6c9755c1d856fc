//! An association table keyed by content identity.
//!
//! Every store in this library (blob store, tree store, commit store,
//! metric cache) is modelled as a finite map from identity bytes to a
//! value; the executable form is a vector of rows with pairwise
//! distinct keys.

use vstd::prelude::*;

use crate::ids::Id;

verus! {

/// The mapping a row sequence denotes. A well-formed table has
/// pairwise distinct keys, so row order never matters.
pub open spec fn map_of<V>(rows: Seq<(Id, V)>) -> Map<Seq<u8>, V>
    decreases rows.len(),
{
    if rows.len() == 0 {
        Map::empty()
    } else {
        map_of(rows.drop_last()).insert(rows.last().0@, rows.last().1)
    }
}

/// A key occurs in the denoted map exactly when some row carries it.
pub proof fn lemma_map_of_contains<V>(rows: Seq<(Id, V)>, k: Seq<u8>)
    ensures
        map_of(rows).contains_key(k) <==> exists|i: int| 0 <= i < rows.len() && rows[i].0@ == k,
    decreases rows.len(),
{
    if rows.len() > 0 {
        lemma_map_of_contains(rows.drop_last(), k);
        if map_of(rows).contains_key(k) && rows.last().0@ != k {
            let i = choose|i: int| 0 <= i < rows.drop_last().len() && rows.drop_last()[i].0@ == k;
            assert(rows[i].0@ == k);
        }
        if exists|i: int| 0 <= i < rows.len() && rows[i].0@ == k {
            let i = choose|i: int| 0 <= i < rows.len() && rows[i].0@ == k;
            if i < rows.len() - 1 {
                assert(rows.drop_last()[i].0@ == k);
            }
        }
    }
}

/// With distinct keys, each row's value is the one the map holds.
pub proof fn lemma_map_of_index<V>(rows: Seq<(Id, V)>, i: int)
    requires
        forall|p: int, q: int| 0 <= p < q < rows.len() ==> rows[p].0@ != rows[q].0@,
        0 <= i < rows.len(),
    ensures
        map_of(rows).contains_key(rows[i].0@),
        map_of(rows)[rows[i].0@] == rows[i].1,
    decreases rows.len(),
{
    if i < rows.len() - 1 {
        assert(rows.drop_last()[i] == rows[i]);
        lemma_map_of_index(rows.drop_last(), i);
        assert(rows.last().0@ != rows[i].0@);
    }
}

/// The denoted map's domain is the set of row keys.
pub proof fn lemma_map_of_dom<V>(rows: Seq<(Id, V)>)
    ensures
        map_of(rows).dom() =~= rows.map_values(|r: (Id, V)| r.0@).to_set(),
    decreases rows.len(),
{
    broadcast use vstd::seq_lib::group_seq_properties;

    if rows.len() > 0 {
        lemma_map_of_dom(rows.drop_last());
        let keys = rows.map_values(|r: (Id, V)| r.0@);
        assert(keys.drop_last() =~= rows.drop_last().map_values(|r: (Id, V)| r.0@));
        assert(keys =~= keys.drop_last().push(rows.last().0@));
        assert forall|k: Seq<u8>| keys.to_set().contains(k) implies map_of(rows).dom().contains(
            k,
        ) by {
            let i = choose|i: int| 0 <= i < keys.len() && keys[i] == k;
            if i < keys.len() - 1 {
                assert(keys.drop_last()[i] == k);
            }
        }
        assert forall|k: Seq<u8>| map_of(rows).dom().contains(k) implies keys.to_set().contains(
            k,
        ) by {
            if k != rows.last().0@ {
                let i = choose|i: int|
                    0 <= i < keys.drop_last().len() && keys.drop_last()[i] == k;
                assert(keys[i] == k);
            } else {
                assert(keys.last() == k);
            }
        }
    }
}

/// An association table: rows of (identity, value) with distinct keys.
pub struct Table<V> {
    pub rows: Vec<(Id, V)>,
}

impl<V> Table<V> {
    /// The finite map this table denotes.
    pub open spec fn view(&self) -> Map<Seq<u8>, V> {
        map_of(self.rows@)
    }

    /// Well-formed: keys are pairwise distinct.
    pub open spec fn wf(&self) -> bool {
        forall|i: int, j: int|
            0 <= i < j < self.rows@.len() ==> self.rows@[i].0@ != self.rows@[j].0@
    }

    /// An empty table.
    pub fn new() -> (r: Table<V>)
        ensures
            r.wf(),
            r@ == Map::<Seq<u8>, V>::empty(),
            r.rows@.len() == 0,
    {
        Table { rows: Vec::new() }
    }

    /// Number of rows, which equals the number of keys.
    pub fn len(&self) -> (n: usize)
        ensures
            n == self.rows@.len(),
    {
        self.rows.len()
    }

    /// Whether the table holds the given identity.
    pub fn contains(&self, id: &Id) -> (r: bool)
        ensures
            r == self@.contains_key(id@),
    {
        proof {
            lemma_map_of_contains(self.rows@, id@);
        }
        let n = self.rows.len();
        let mut i: usize = 0;
        while i < n
            invariant
                n == self.rows@.len(),
                i <= n,
                forall|j: int| 0 <= j < i ==> self.rows@[j].0@ != id@,
            decreases n - i,
        {
            if self.rows[i].0.eq_id(id) {
                proof {
                    lemma_map_of_contains(self.rows@, id@);
                }
                return true;
            }
            i += 1;
        }
        false
    }

    /// Look an identity up.
    pub fn get(&self, id: &Id) -> (r: Option<&V>)
        requires
            self.wf(),
        ensures
            match r {
                Some(v) => self@.contains_key(id@) && *v == self@[id@],
                None => !self@.contains_key(id@),
            },
    {
        proof {
            lemma_map_of_contains(self.rows@, id@);
        }
        let n = self.rows.len();
        let mut i: usize = 0;
        while i < n
            invariant
                self.wf(),
                n == self.rows@.len(),
                i <= n,
                forall|j: int| 0 <= j < i ==> self.rows@[j].0@ != id@,
            decreases n - i,
        {
            if self.rows[i].0.eq_id(id) {
                proof {
                    lemma_map_of_contains(self.rows@, id@);
                    lemma_map_of_index(self.rows@, i as int);
                }
                return Some(&self.rows[i].1);
            }
            i += 1;
        }
        None
    }

    /// Add a binding for an identity not yet present.
    pub fn insert(&mut self, id: Id, v: V)
        requires
            old(self).wf(),
            !old(self)@.contains_key(id@),
        ensures
            final(self).wf(),
            final(self)@ == old(self)@.insert(id@, v),
            final(self).rows@ == old(self).rows@.push((id, v)),
    {
        proof {
            lemma_map_of_contains(old(self).rows@, id@);
        }
        self.rows.push((id, v));
        proof {
            assert(self.rows@.drop_last() =~= old(self).rows@);
            assert(self@ =~= old(self)@.insert(id@, v));
        }
    }
}

} // verus!
