//! Criteria: which fields hold objects of several kinds, and which sibling
//! attribute tells the kinds apart.

use vstd::prelude::*;

verus! {

/// The value that a list of entries gives a name: that of the last entry under the name.
pub open spec fn lookup<V>(s: Seq<(Seq<char>, V)>, k: Seq<char>) -> Option<V>
    decreases s.len(),
{
    if s.len() == 0 {
        None
    } else if s.last().0 == k {
        Some(s.last().1)
    } else {
        lookup(s.drop_last(), k)
    }
}

/// The map that a list of entries stands for.
pub open spec fn as_map<V>(s: Seq<(Seq<char>, V)>) -> Map<Seq<char>, V> {
    Map::new(|k: Seq<char>| lookup(s, k) is Some, |k: Seq<char>| lookup(s, k).unwrap())
}

/// Replacing the value of the last entry under a name gives the name that
/// value and leaves every other name as it was.
pub proof fn lemma_lookup_update<V>(s: Seq<(Seq<char>, V)>, i: int, v: V, k: Seq<char>)
    requires
        0 <= i < s.len(),
        forall|j: int| i < j < s.len() ==> (#[trigger] s[j]).0 != s[i].0,
    ensures
        lookup(s.update(i, (s[i].0, v)), k) == (if k == s[i].0 {
            Some(v)
        } else {
            lookup(s, k)
        }),
    decreases s.len(),
{
    let t = s.update(i, (s[i].0, v));
    if i == s.len() - 1 {
        assert(t.drop_last() =~= s.drop_last());
    } else {
        let r = s.drop_last();
        assert(s.last().0 != s[i].0);
        assert(t.drop_last() =~= r.update(i, (r[i].0, v)));
        assert forall|j: int| i < j < r.len() implies (#[trigger] r[j]).0 != r[i].0 by {
            assert(r[j] == s[j]);
        }
        lemma_lookup_update(r, i, v, k);
    }
}

/// For each field path that is split, the name of its discriminant field.
#[derive(Debug)]
pub struct Criteria {
    enum_split_filelds: Vec<(String, String)>,
}

/// The criteria of several families of documents, by the name of the family.
#[derive(Debug)]
pub struct Criterias(Vec<(String, Criteria)>);

impl Criteria {
    /// The entries as they are stored: each path with its discriminant field.
    pub closed spec fn entries(&self) -> Seq<(Seq<char>, Seq<char>)> {
        Seq::new(
            self.enum_split_filelds@.len(),
            |i: int| (self.enum_split_filelds@[i].0@, self.enum_split_filelds@[i].1@),
        )
    }

    /// The discriminant field of each split field path.
    pub open spec fn view(&self) -> Map<Seq<char>, Seq<char>> {
        as_map(self.entries())
    }

    /// Criteria under which no field is split.
    pub fn new() -> (r: Criteria)
        ensures
            r.entries() =~= Seq::empty(),
            r@ =~= Map::empty(),
    {
        let r = Criteria { enum_split_filelds: Vec::new() };
        r
    }

    /// Registers that the objects under `field_name` are told apart by their
    /// attribute `type_field`. An earlier entry for the path is overwritten.
    pub fn add(&mut self, field_name: &str, type_field: &str)
        ensures
            final(self)@ =~= old(self)@.insert(field_name@, type_field@),
    {
        let ghost before = self.entries();
        let mut i: usize = self.enum_split_filelds.len();
        while i > 0
            invariant
                i <= self.enum_split_filelds@.len(),
                before == self.entries(),
                before == old(self).entries(),
                forall|j: int| i <= j < before.len() ==> (#[trigger] before[j]).0 != field_name@,
            decreases i,
        {
            i -= 1;
            if same_text(self.enum_split_filelds[i].0.as_str(), field_name) {
                let key = String::from_str(field_name);
                self.enum_split_filelds.set(i, (key, String::from_str(type_field)));
                proof {
                    let after = self.entries();
                    assert(after =~= before.update(i as int, (before[i as int].0, type_field@)));
                    assert forall|k: Seq<char>| lookup(after, k) == (if k == field_name@ {
                        Some(type_field@)
                    } else {
                        lookup(before, k)
                    }) by {
                        lemma_lookup_update(before, i as int, type_field@, k);
                    }
                }
                return;
            }
        }
        self.enum_split_filelds.push((String::from_str(field_name), String::from_str(type_field)));
        proof {
            let after = self.entries();
            assert(after =~= before.push((field_name@, type_field@)));
            assert(after.drop_last() =~= before);
        }
    }

    /// The discriminant field of a field path, if the path is split.
    pub fn is_split_enum(&self, field_path: &str) -> (r: Option<&str>)
        ensures
            match r {
                Some(s) => self@.contains_key(field_path@) && self@[field_path@] == s@,
                None => !self@.contains_key(field_path@),
            },
    {
        let mut i: usize = self.enum_split_filelds.len();
        let ghost all = self.entries();
        proof {
            assert(all.take(all.len() as int) =~= all);
        }
        while i > 0
            invariant
                i <= self.enum_split_filelds@.len(),
                all == self.entries(),
                lookup(all, field_path@) == lookup(all.take(i as int), field_path@),
            decreases i,
        {
            proof {
                assert(all.take(i as int).drop_last() =~= all.take(i - 1));
            }
            i -= 1;
            if same_text(self.enum_split_filelds[i].0.as_str(), field_path) {
                return Some(self.enum_split_filelds[i].1.as_str());
            }
        }
        None
    }

    /// The entries of the criteria: each split field path with its discriminant field.
    pub fn into_pairs(self) -> (r: Vec<(String, String)>)
        ensures
            r@.len() == self.entries().len(),
            forall|i: int|
                0 <= i < r@.len() ==> (#[trigger] r@[i]).0@ == self.entries()[i].0 && r@[i].1@
                    == self.entries()[i].1,
    {
        self.enum_split_filelds
    }

    /// A copy of the criteria.
    pub fn copy(&self) -> (r: Criteria)
        ensures
            r@ == self@,
    {
        let mut items: Vec<(String, String)> = Vec::new();
        let mut i: usize = 0;
        while i < self.enum_split_filelds.len()
            invariant
                i <= self.enum_split_filelds@.len(),
                items@.len() == i,
                forall|j: int|
                    0 <= j < i ==> (#[trigger] items@[j]).0@ == self.enum_split_filelds@[j].0@
                        && items@[j].1@ == self.enum_split_filelds@[j].1@,
            decreases self.enum_split_filelds@.len() - i,
        {
            let k = self.enum_split_filelds[i].0.clone();
            let v = self.enum_split_filelds[i].1.clone();
            items.push((k, v));
            i += 1;
        }
        let r = Criteria { enum_split_filelds: items };
        assert(r.entries() =~= self.entries());
        r
    }
}

impl Default for Criteria {
    /// Criteria under which no field is split.
    fn default() -> (r: Criteria)
        ensures
            r@ =~= Map::empty(),
    {
        Criteria::new()
    }
}

/// Whether two strings are the same text.
pub fn same_text(a: &str, b: &str) -> (r: bool)
    ensures
        r == (a@ == b@),
{
    let x = String::from_str(a);
    let y = String::from_str(b);
    x == y
}

impl Criterias {
    /// The entries as they are stored: each family with its criteria.
    pub closed spec fn entries(&self) -> Seq<(Seq<char>, Map<Seq<char>, Seq<char>>)> {
        Seq::new(self.0@.len(), |i: int| (self.0@[i].0@, self.0@[i].1@))
    }

    /// The criteria of each family.
    pub open spec fn view(&self) -> Map<Seq<char>, Map<Seq<char>, Seq<char>>> {
        as_map(self.entries())
    }

    /// A registry without families.
    pub fn new() -> (r: Criterias)
        ensures
            r@ =~= Map::empty(),
    {
        let r = Criterias(Vec::new());
        assert(r.entries() =~= Seq::empty());
        r
    }

    /// Registers the criteria of a family. An earlier entry for the family is overwritten.
    pub fn insert(&mut self, target_name: &str, criteria: Criteria)
        ensures
            final(self)@ =~= old(self)@.insert(target_name@, criteria@),
    {
        let ghost before = self.entries();
        let mut i: usize = self.0.len();
        while i > 0
            invariant
                i <= self.0@.len(),
                before == self.entries(),
                before == old(self).entries(),
                forall|j: int| i <= j < before.len() ==> (#[trigger] before[j]).0 != target_name@,
            decreases i,
        {
            i -= 1;
            if same_text(self.0[i].0.as_str(), target_name) {
                let ghost given = criteria@;
                self.0.set(i, (String::from_str(target_name), criteria));
                proof {
                    let after = self.entries();
                    assert(after =~= before.update(i as int, (before[i as int].0, given)));
                    assert forall|k: Seq<char>| lookup(after, k) == (if k == target_name@ {
                        Some(given)
                    } else {
                        lookup(before, k)
                    }) by {
                        lemma_lookup_update(before, i as int, given, k);
                    }
                }
                return;
            }
        }
        self.0.push((String::from_str(target_name), criteria));
        proof {
            let after = self.entries();
            assert(after =~= before.push((target_name@, criteria@)));
            assert(after.drop_last() =~= before);
        }
    }

    /// The criteria of a family; those of a family that is not registered split no field.
    pub fn get(&self, target_name: &str) -> (r: Criteria)
        ensures
            r@ == (if self@.contains_key(target_name@) {
                self@[target_name@]
            } else {
                Map::empty()
            }),
    {
        let mut i: usize = self.0.len();
        let ghost all = self.entries();
        proof {
            assert(all.take(all.len() as int) =~= all);
        }
        while i > 0
            invariant
                i <= self.0@.len(),
                all == self.entries(),
                lookup(all, target_name@) == lookup(all.take(i as int), target_name@),
            decreases i,
        {
            proof {
                assert(all.take(i as int).drop_last() =~= all.take(i - 1));
            }
            i -= 1;
            if same_text(self.0[i].0.as_str(), target_name) {
                return self.0[i].1.copy();
            }
        }
        Criteria::new()
    }
}

} // verus!
