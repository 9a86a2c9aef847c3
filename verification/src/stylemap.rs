//! A small string-to-string map used for attribute maps and computed
//! style maps.  Insertion order is irrelevant to readers; a later
//! insertion of the same key overwrites an earlier one, which `lookup`
//! captures by scanning entries from the newest to the oldest.

use vstd::prelude::*;

use crate::strutil::str_eq;

verus! {

/// The value the key `k` maps to in the entry sequence `s`: the value
/// of the newest entry with that key.
pub open spec fn map_lookup(s: Seq<(Seq<char>, Seq<char>)>, k: Seq<char>) -> Option<Seq<char>>
    decreases s.len(),
{
    if s.len() == 0 {
        None
    } else if s.last().0 == k {
        Some(s.last().1)
    } else {
        map_lookup(s.drop_last(), k)
    }
}

/// An ordered list of (key, value) entries where the newest entry for a
/// key wins.
pub struct StyleMap {
    entries: Vec<(String, String)>,
}

impl View for StyleMap {
    type V = Seq<(Seq<char>, Seq<char>)>;

    closed spec fn view(&self) -> Seq<(Seq<char>, Seq<char>)> {
        self.entries@.map_values(|p: (String, String)| (p.0@, p.1@))
    }
}

impl StyleMap {
    /// The empty map.
    pub fn new() -> (r: StyleMap)
        ensures
            r@ == Seq::<(Seq<char>, Seq<char>)>::empty(),
    {
        let r = StyleMap { entries: Vec::new() };
        proof {
            assert(r@ =~= Seq::<(Seq<char>, Seq<char>)>::empty());
        }
        r
    }

    /// Set `key` to `value`, overwriting any earlier entry for the key.
    pub fn insert(&mut self, key: String, value: String)
        ensures
            final(self)@ == old(self)@.push((key@, value@)),
    {
        let ghost k = key@;
        let ghost v = value@;
        self.entries.push((key, value));
        proof {
            assert(self@ =~= old(self)@.push((k, v)));
        }
    }

    /// Look the key up; the newest entry for it wins.
    pub fn get(&self, key: &str) -> (r: Option<&String>)
        ensures
            match r {
                Some(v) => map_lookup(self@, key@) == Some(v@),
                None => map_lookup(self@, key@) is None,
            },
    {
        let n: usize = self.entries.len();
        proof {
            assert(self@.take(n as int) =~= self@);
        }
        let mut i: usize = n;
        while i > 0
            invariant
                i <= n,
                n == self.entries.len(),
                map_lookup(self@, key@) == map_lookup(self@.take(i as int), key@),
            decreases i,
    {
            proof {
                assert(self@.take(i as int).last() == self@[i - 1]);
                assert(self@.take(i as int).drop_last() =~= self@.take(i - 1));
            }
            if str_eq(self.entries[i - 1].0.as_str(), key) {
                return Some(&self.entries[i - 1].1);
            }
            i = i - 1;
        }
        proof {
            assert(self@.take(0) =~= Seq::<(Seq<char>, Seq<char>)>::empty());
        }
        None
    }

    /// Whether the map has an entry for the key.
    pub fn contains_key(&self, key: &str) -> (r: bool)
        ensures
            r == (map_lookup(self@, key@) is Some),
    {
        match self.get(key) {
            Some(_) => true,
            None => false,
        }
    }

    /// How many entries the map holds.
    pub fn len(&self) -> (r: usize)
        ensures
            r == self@.len(),
    {
        self.entries.len()
    }

    /// The key of the entry at a position.
    pub fn key_at(&self, i: usize) -> (r: &String)
        requires
            i < self@.len(),
        ensures
            r@ == self@[i as int].0,
    {
        &self.entries[i].0
    }

    /// The value of the entry at a position.
    pub fn value_at(&self, i: usize) -> (r: &String)
        requires
            i < self@.len(),
        ensures
            r@ == self@[i as int].1,
    {
        &self.entries[i].1
    }

    /// An independent copy of the map.
    pub fn duplicate(&self) -> (r: StyleMap)
        ensures
            r@ == self@,
    {
        let n: usize = self.entries.len();
        let mut out: Vec<(String, String)> = Vec::new();
        let mut i: usize = 0;
        while i < n
            invariant
                i <= n,
                n == self.entries.len(),
                out@.len() == i,
                forall|j: int|
                    0 <= j < i ==> (#[trigger] out@[j]).0@ == self@[j].0 && out@[j].1@
                        == self@[j].1,
            decreases n - i,
        {
            let k: String = self.entries[i].0.clone();
            let v: String = self.entries[i].1.clone();
            out.push((k, v));
            i = i + 1;
        }
        let r = StyleMap { entries: out };
        proof {
            assert(r@ =~= self@);
        }
        r
    }
}

} // verus!
