//! A string-keyed table with a mathematical `Map` view.  Inserting an
//! existing key overwrites its value (last write wins), exactly the
//! behaviour the voicebank tables rely on.

use vstd::prelude::*;

verus! {

/// The map described by key/value rows, later rows overwriting earlier ones.
pub open spec fn assoc_map<V>(rows: Seq<(String, V)>) -> Map<Seq<char>, V>
    decreases rows.len(),
{
    if rows.len() == 0 {
        Map::empty()
    } else {
        assoc_map(rows.drop_last()).insert(rows.last().0@, rows.last().1)
    }
}

pub proof fn lemma_assoc_found<V>(rows: Seq<(String, V)>, i: int)
    requires
        0 <= i < rows.len(),
        forall|j: int| i < j < rows.len() ==> (#[trigger] rows[j]).0@ != rows[i].0@,
    ensures
        assoc_map(rows).contains_key(rows[i].0@),
        assoc_map(rows)[rows[i].0@] == rows[i].1,
    decreases rows.len(),
{
    if i + 1 < rows.len() {
        lemma_assoc_found(rows.drop_last(), i);
    }
}

pub proof fn lemma_assoc_absent<V>(rows: Seq<(String, V)>, k: Seq<char>)
    requires
        forall|j: int| 0 <= j < rows.len() ==> (#[trigger] rows[j]).0@ != k,
    ensures
        !assoc_map(rows).contains_key(k),
    decreases rows.len(),
{
    if rows.len() > 0 {
        lemma_assoc_absent(rows.drop_last(), k);
    }
}

/// Read-mostly table from sample aliases or filenames to records.
pub struct StrMap<V> {
    rows: Vec<(String, V)>,
}

impl<V> View for StrMap<V> {
    type V = Map<Seq<char>, V>;

    closed spec fn view(&self) -> Map<Seq<char>, V> {
        assoc_map(self.rows@)
    }
}

impl<V> StrMap<V> {
    /// How many rows the table holds; an upper bound on its keys.
    pub closed spec fn spec_rows(self) -> nat {
        self.rows@.len()
    }

    pub fn new() -> (r: Self)
        ensures
            r@ == Map::<Seq<char>, V>::empty(),
            r.spec_rows() == 0,
    {
        StrMap { rows: Vec::new() }
    }

    /// Binds `key` to `val`, overwriting any earlier binding.
    pub fn insert(&mut self, key: String, val: V)
        ensures
            final(self)@ == old(self)@.insert(key@, val),
            final(self).spec_rows() == old(self).spec_rows() + 1,
    {
        let ghost old_rows = self.rows@;
        self.rows.push((key, val));
        proof {
            assert(self.rows@.drop_last() =~= old_rows);
        }
    }

    /// The value bound to `key`, if any.
    pub fn get<'a>(&'a self, key: &String) -> (r: Option<&'a V>)
        ensures
            match r {
                Some(v) => self@.contains_key(key@) && *v == self@[key@],
                None => !self@.contains_key(key@),
            },
    {
        let mut i = self.rows.len();
        while i > 0
            invariant
                i <= self.rows@.len(),
                forall|j: int| i <= j < self.rows@.len() ==> (#[trigger] self.rows@[j]).0@ != key@,
            decreases i,
        {
            i -= 1;
            if self.rows[i].0 == *key {
                proof {
                    lemma_assoc_found(self.rows@, i as int);
                }
                return Some(&self.rows[i].1);
            }
        }
        proof {
            lemma_assoc_absent(self.rows@, key@);
        }
        None
    }

    /// Whether `key` is bound.
    pub fn contains_key(&self, key: &String) -> (r: bool)
        ensures
            r == self@.contains_key(key@),
    {
        self.get(key).is_some()
    }

    /// A table with no rows describes the empty map.
    pub fn is_empty(&self) -> (r: bool)
        ensures
            r ==> self@ == Map::<Seq<char>, V>::empty(),
            !r ==> exists|k: Seq<char>| self@.contains_key(k),
    {
        proof {
            if self.rows@.len() == 0 {
                assert(self@ =~= Map::<Seq<char>, V>::empty());
            } else {
                lemma_assoc_found(self.rows@, self.rows@.len() - 1);
                assert(self@.contains_key(self.rows@.last().0@));
            }
        }
        self.rows.len() == 0
    }
}

} // verus!
