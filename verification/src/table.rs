//! A small table from names to values that keeps its rows in the order in
//! which their names were first added.

use vstd::prelude::*;

use crate::text::same_text;

verus! {

/// Rows of a name and a value, no name twice.
pub struct Table<V> {
    rows: Vec<(String, V)>,
}

impl<V> View for Table<V> {
    type V = Map<Seq<char>, V>;

    /// The value that stands under each name.
    closed spec fn view(&self) -> Map<Seq<char>, V> {
        Map::new(|k: Seq<char>| self.names().contains(k), |k: Seq<char>| self.value_of(k))
    }
}

impl<V> Table<V> {
    /// The names, in the order in which they were added.
    pub closed spec fn names(&self) -> Seq<Seq<char>> {
        self.rows@.map_values(|r: (String, V)| r.0@)
    }

    closed spec fn value_of(&self, k: Seq<char>) -> V {
        self.rows@[self.names().index_of(k)].1
    }

    /// No name stands twice.
    pub closed spec fn wf(&self) -> bool {
        self.names().no_duplicates()
    }

    /// What `names` and the view say of the same table.
    pub proof fn lemma_names(&self)
        requires
            self.wf(),
        ensures
            self.names().no_duplicates(),
            forall|k: Seq<char>| #[trigger] self@.contains_key(k) == self.names().contains(k),
    {
    }

    proof fn lemma_row(&self, i: int)
        requires
            self.wf(),
            0 <= i < self.rows@.len(),
        ensures
            self.names()[i] == self.rows@[i].0@,
            self@.contains_key(self.rows@[i].0@),
            self@[self.rows@[i].0@] == self.rows@[i].1,
    {
        let k = self.names()[i];
        assert(self.names().contains(k));
        let j = self.names().index_of(k);
        assert(self.names()[j] == k);
    }

    /// The table without rows.
    pub fn new() -> (r: Self)
        ensures
            r.wf(),
            r@ == Map::<Seq<char>, V>::empty(),
            r.names() == Seq::<Seq<char>>::empty(),
    {
        let r = Table { rows: Vec::new() };
        assert(r.names() =~= Seq::<Seq<char>>::empty());
        assert(r@ =~= Map::<Seq<char>, V>::empty());
        r
    }

    /// How many rows there are.
    pub fn len(&self) -> (n: usize)
        ensures
            n == self.names().len(),
    {
        self.rows.len()
    }

    /// Where the row of a name stands.
    pub fn position(&self, name: &str) -> (r: Option<usize>)
        requires
            self.wf(),
        ensures
            match r {
                Some(i) => i < self.names().len() && self.names()[i as int] == name@
                    && self@.contains_key(name@),
                None => !self@.contains_key(name@),
            },
    {
        let mut i: usize = 0;
        while i < self.rows.len()
            invariant
                i <= self.rows.len(),
                self.wf(),
                forall|k: int| 0 <= k < i ==> #[trigger] self.names()[k] != name@,
            decreases self.rows.len() - i,
        {
            if same_text(self.rows[i].0.as_str(), name) {
                proof {
                    self.lemma_row(i as int);
                }
                return Some(i);
            }
            assert(self.names()[i as int] == self.rows@[i as int].0@);
            i += 1;
        }
        None
    }

    /// The name of a row.
    pub fn name_at(&self, i: usize) -> (r: &String)
        requires
            i < self.names().len(),
        ensures
            r@ == self.names()[i as int],
    {
        &self.rows[i].0
    }

    /// The value of a row.
    pub fn value_at(&self, i: usize) -> (r: &V)
        requires
            self.wf(),
            i < self.names().len(),
        ensures
            self@.contains_key(self.names()[i as int]),
            *r == self@[self.names()[i as int]],
    {
        proof {
            self.lemma_row(i as int);
        }
        &self.rows[i].1
    }

    /// The value that stands under a name.
    pub fn get(&self, name: &str) -> (r: Option<&V>)
        requires
            self.wf(),
        ensures
            match r {
                Some(v) => self@.contains_key(name@) && *v == self@[name@],
                None => !self@.contains_key(name@),
            },
    {
        match self.position(name) {
            Some(i) => Some(self.value_at(i)),
            None => None,
        }
    }

    /// The value of a row, to be changed.
    pub fn value_at_mut(&mut self, i: usize) -> (r: &mut V)
        requires
            old(self).wf(),
            i < old(self).names().len(),
        ensures
            old(self)@.contains_key(old(self).names()[i as int]),
            *r == old(self)@[old(self).names()[i as int]],
            final(self).wf(),
            final(self).names() == old(self).names(),
            final(self)@ == old(self)@.insert(old(self).names()[i as int], *final(r)),
    {
        proof {
            self.lemma_row(i as int);
            lemma_row_changed(*self, i as int);
        }
        &mut self.rows[i].1
    }

    /// Puts a value under a name, in the name's row or in a new one.
    pub fn put(&mut self, name: &str, value: V)
        requires
            old(self).wf(),
        ensures
            final(self).wf(),
            final(self)@ == old(self)@.insert(name@, value),
            final(self).names() == if old(self)@.contains_key(name@) {
                old(self).names()
            } else {
                old(self).names().push(name@)
            },
    {
        match self.position(name) {
            Some(i) => {
                *self.value_at_mut(i) = value;
            },
            None => {
                let ghost before = *self;
                self.rows.push((name.to_owned(), value));
                assert(self.names() =~= before.names().push(name@));
                assert(self.wf());
                assert(self@ =~= before@.insert(name@, value)) by {
                    self.lemma_row(before.rows@.len() as int);
                    assert forall|n: Seq<char>| before.names().contains(n) implies self@[n]
                        == before@[n] && self.names().contains(n) by {
                        let j = before.names().index_of(n);
                        assert(before.names()[j] == n);
                        assert(self.names()[j] == n);
                        self.lemma_row(j);
                        before.lemma_row(j);
                    }
                    assert forall|n: Seq<char>| self.names().contains(n) implies n == name@
                        || before.names().contains(n) by {
                        let j = self.names().index_of(n);
                        assert(self.names()[j] == n);
                        if j < before.names().len() {
                            assert(before.names()[j] == n);
                        }
                    }
                    assert(self.names()[before.rows@.len() as int] == name@);
                }
            },
        }
    }
}

proof fn lemma_row_changed<V>(t: Table<V>, i: int)
    requires
        t.wf(),
        0 <= i < t.rows@.len(),
    ensures
        forall|u: Table<V>| #[trigger]
            u.rows@.len() == t.rows@.len() && u.rows@ =~= t.rows@.update(
                i,
                (t.rows@[i].0, u.rows@[i].1),
            ) ==> u.wf() && u.names() == t.names() && u@ == t@.insert(t.names()[i], u.rows@[i].1),
{
    assert forall|u: Table<V>| #[trigger]
        u.rows@.len() == t.rows@.len() && u.rows@ =~= t.rows@.update(
            i,
            (t.rows@[i].0, u.rows@[i].1),
        ) implies u.wf() && u.names() == t.names() && u@ == t@.insert(t.names()[i], u.rows@[i].1) by {
        assert(u.names() =~= t.names());
        assert(u@ =~= t@.insert(t.names()[i], u.rows@[i].1)) by {
            assert forall|n: Seq<char>| t.names().contains(n) implies u@[n] == t@.insert(
                t.names()[i],
                u.rows@[i].1,
            )[n] by {
                let j = t.names().index_of(n);
                assert(t.names()[j] == n);
            }
        }
    }
}

} // verus!
