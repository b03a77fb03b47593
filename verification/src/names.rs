//! A name-keyed collection with map semantics: a later insertion of the same
//! name overrides an earlier one. It backs the slot-value map of a page and
//! the template and snippet libraries.

use vstd::prelude::*;
use crate::strutil::str_eq;

verus! {

/// An insertion-ordered association of names to values, viewed as a
/// mathematical map in which the last binding of a name wins.
pub struct NameMap<V> {
    entries: Vec<(String, V)>,
}

/// The map described by an association sequence, later entries overriding
/// earlier ones.
pub open spec fn assoc_model<V: View>(s: Seq<(String, V)>) -> Map<Seq<char>, V::V>
    decreases s.len(),
{
    if s.len() == 0 {
        Map::empty()
    } else {
        assoc_model(s.drop_last()).insert(s.last().0@, s.last().1@)
    }
}

impl<V: View> View for NameMap<V> {
    type V = Map<Seq<char>, V::V>;

    closed spec fn view(&self) -> Map<Seq<char>, V::V> {
        assoc_model(self.entries@)
    }
}

impl<V: View> NameMap<V> {
    /// An empty collection.
    pub fn new() -> (r: NameMap<V>)
        ensures
            r@ == Map::<Seq<char>, V::V>::empty(),
    {
        let r = NameMap { entries: Vec::new() };
        proof {
            assert(r.entries@.len() == 0);
        }
        r
    }

    /// Binds `name` to `value`, overriding any earlier binding.
    pub fn insert(&mut self, name: String, value: V)
        ensures
            final(self)@ == old(self)@.insert(name@, value@),
    {
        let ghost n = name@;
        let ghost v = value@;
        self.entries.push((name, value));
        proof {
            assert(self.entries@.drop_last() =~= old(self).entries@);
            assert(self.entries@.last().0@ == n);
            assert(self.entries@.last().1@ == v);
        }
    }

    /// The value bound to `name`, if any.
    pub fn get(&self, name: &str) -> (r: Option<&V>)
        ensures
            match r {
                Some(v) => self@.contains_key(name@) && v@ == self@[name@],
                None => !self@.contains_key(name@),
            },
    {
        let ghost s = self.entries@;
        let mut j: usize = self.entries.len();
        proof {
            assert(s.take(j as int) =~= s);
        }
        while j > 0
            invariant
                0 <= j <= self.entries.len(),
                s == self.entries@,
                self@.contains_key(name@) == assoc_model(s.take(j as int)).contains_key(name@),
                assoc_model(s.take(j as int)).contains_key(name@) ==> assoc_model(
                    s.take(j as int),
                )[name@] == self@[name@],
            decreases j,
        {
            j = j - 1;
            proof {
                assert(s.take(j as int + 1).drop_last() =~= s.take(j as int));
                assert(s.take(j as int + 1).last() == s[j as int]);
            }
            if str_eq(self.entries[j].0.as_str(), name) {
                return Some(&self.entries[j].1);
            }
        }
        proof {
            assert(s.take(0) =~= Seq::<(String, V)>::empty());
        }
        None
    }

    /// Whether `name` is bound.
    pub fn contains_key(&self, name: &str) -> (r: bool)
        ensures
            r == self@.contains_key(name@),
    {
        self.get(name).is_some()
    }

    /// The underlying entries, in insertion order; they describe exactly the
    /// map this collection is viewed as.
    pub fn entries(&self) -> (r: &Vec<(String, V)>)
        ensures
            assoc_model(r@) == self@,
    {
        &self.entries
    }
}

} // verus!
