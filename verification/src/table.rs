//! A small table of names and values. It holds an environment or a handful of labels, so it
//! is a list, searched from the end.

use vstd::prelude::*;

use crate::text::{opt_str, same};

verus! {

/// What a list of entries says: for each name, the value that was entered last.
pub open spec fn meaning(entries: Seq<(String, String)>) -> Map<Seq<char>, Seq<char>>
    decreases entries.len(),
{
    if entries.len() == 0 {
        Map::empty()
    } else {
        meaning(entries.drop_last()).insert(entries.last().0@, entries.last().1@)
    }
}

/// A table of names and values.
pub struct Table {
    entries: Vec<(String, String)>,
}

impl View for Table {
    type V = Map<Seq<char>, Seq<char>>;

    closed spec fn view(&self) -> Map<Seq<char>, Seq<char>> {
        meaning(self.entries@)
    }
}

impl Table {
    /// A table that holds nothing.
    pub fn new() -> (t: Self)
        ensures
            t@ == Map::<Seq<char>, Seq<char>>::empty(),
    {
        Table { entries: Vec::new() }
    }

    /// The value of a name.
    pub fn get(&self, name: &str) -> (r: Option<&str>)
        ensures
            opt_str(r) == if self@.contains_key(name@) {
                Some(self@[name@])
            } else {
                None
            },
    {
        let mut n: usize = self.entries.len();
        assert(self.entries@.take(n as int) =~= self.entries@);
        while n > 0
            invariant
                n <= self.entries@.len(),
                self@.contains_key(name@) == meaning(self.entries@.take(n as int)).contains_key(
                    name@,
                ),
                self@.contains_key(name@) ==> self@[name@] == meaning(
                    self.entries@.take(n as int),
                )[name@],
            decreases n,
        {
            let ghost t = self.entries@.take(n as int);
            assert(t.drop_last() =~= self.entries@.take(n - 1));
            assert(t.last() == self.entries@[n - 1]);
            if same(self.entries[n - 1].0.as_str(), name) {
                return Some(self.entries[n - 1].1.as_str());
            }
            n -= 1;
        }
        None
    }

    /// Whether a name has a value.
    pub fn contains_key(&self, name: &str) -> (r: bool)
        ensures
            r == self@.contains_key(name@),
    {
        self.get(name).is_some()
    }

    /// Forgets a name.
    pub fn remove(&mut self, name: &str)
        ensures
            final(self)@ == old(self)@.remove(name@),
    {
        let mut kept: Vec<(String, String)> = Vec::new();
        let mut i: usize = 0;
        assert(meaning(self.entries@.take(0)).remove(name@) =~= Map::empty());
        while i < self.entries.len()
            invariant
                self.entries@ == old(self).entries@,
                i <= self.entries@.len(),
                meaning(kept@) == meaning(self.entries@.take(i as int)).remove(name@),
            decreases self.entries@.len() - i,
        {
            let ghost t = self.entries@.take(i + 1);
            let ghost m = meaning(self.entries@.take(i as int));
            let ghost before = kept@;
            assert(t.drop_last() =~= self.entries@.take(i as int));
            assert(t.last() == self.entries@[i as int]);
            let k = &self.entries[i].0;
            let v = &self.entries[i].1;
            if !same(k.as_str(), name) {
                kept.push((k.clone(), v.clone()));
                assert(kept@.drop_last() =~= before);
                assert(m.insert(k@, v@).remove(name@) =~= m.remove(name@).insert(k@, v@));
            } else {
                assert(m.insert(k@, v@).remove(name@) =~= m.remove(name@));
            }
            i += 1;
        }
        assert(self.entries@.take(i as int) =~= self.entries@);
        self.entries = kept;
    }

    /// Gives a name a value, in place of the one it had.
    pub fn insert(&mut self, name: &str, value: &str)
        ensures
            final(self)@ == old(self)@.insert(name@, value@),
    {
        self.remove(name);
        let ghost before = self.entries@;
        self.entries.push((name.to_string(), value.to_string()));
        assert(self.entries@.drop_last() =~= before);
        assert(self@ =~= old(self)@.insert(name@, value@));
    }
}

} // verus!
