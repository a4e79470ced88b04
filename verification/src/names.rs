//! Sets and maps of names, kept in vectors.
use crate::text::{lemma_push_contains, str_eq, strings};
use vstd::prelude::*;

verus! {

/// The set of the names in a sequence of strings.
pub open spec fn name_set(names: Seq<String>) -> Set<Seq<char>> {
    strings(names).to_set()
}

/// Whether `name` is among `names`.
pub fn contains_name(names: &[String], name: &str) -> (found: bool)
    ensures
        found == name_set(names@).contains(name@),
{
    let mut i: usize = 0;
    while i < names.len()
        invariant
            i <= names.len(),
            forall|j: int| 0 <= j < i ==> (#[trigger] names@[j])@ != name@,
        decreases names.len() - i,
    {
        if str_eq(names[i].as_str(), name) {
            assert(strings(names@)[i as int] == name@);
            return true;
        }
        i = i + 1;
    }
    assert(!strings(names@).contains(name@)) by {
        if strings(names@).contains(name@) {
            let j = choose|j: int| 0 <= j < strings(names@).len() && strings(names@)[j] == name@;
            assert(names@[j]@ == name@);
        }
    }
    false
}

/// The names of `names`, each once, in the order of their first occurrence.
pub fn distinct_names(names: &[String]) -> (distinct: Vec<String>)
    ensures
        strings(distinct@).no_duplicates(),
        name_set(distinct@) == name_set(names@),
{
    let mut distinct: Vec<String> = Vec::new();
    let mut i: usize = 0;
    proof {
        assert(name_set(distinct@) =~= strings(names@).take(0).to_set());
    }
    while i < names.len()
        invariant
            i <= names.len(),
            strings(distinct@).no_duplicates(),
            name_set(distinct@) == strings(names@).take(i as int).to_set(),
        decreases names.len() - i,
    {
        let ghost before = strings(distinct@);
        let ghost seen = strings(names@).take(i as int);
        let ghost name = names@[i as int]@;
        let known = contains_name(distinct.as_slice(), names[i].as_str());
        if !known {
            distinct.push(names[i].clone());
            assert(strings(distinct@) =~= before.push(name));
            assert(!before.contains(name));
        }
        proof {
            assert(strings(names@).take(i + 1) =~= seen.push(name));
            assert forall|n: Seq<char>|
                name_set(distinct@).contains(n) == seen.push(name).to_set().contains(n) by {
                lemma_push_contains(seen, name, n);
                lemma_push_contains(before, name, n);
                assert(before.to_set().contains(n) == seen.to_set().contains(n));
            }
            assert(name_set(distinct@) =~= seen.push(name).to_set());
        }
        i = i + 1;
    }
    assert(strings(names@).take(names.len() as int) =~= strings(names@));
    distinct
}

/// A map from names to values, each name at most once.
pub struct NameMap<V> {
    entries: Vec<(String, V)>,
}

impl<V> NameMap<V> {
    /// The names in the map, in the order in which they are kept.
    pub closed spec fn keys(self) -> Seq<Seq<char>> {
        self.entries@.map_values(|entry: (String, V)| entry.0@)
    }

    /// The value kept at a position.
    pub closed spec fn value_at(self, i: int) -> V {
        self.entries@[i].1
    }

    /// No name occurs twice.
    #[verifier::type_invariant]
    spec fn names_are_distinct(self) -> bool {
        self.keys().no_duplicates()
    }
}

impl<V> View for NameMap<V> {
    type V = Map<Seq<char>, V>;

    open spec fn view(&self) -> Map<Seq<char>, V> {
        Map::new(
            |name: Seq<char>| self.keys().contains(name),
            |name: Seq<char>| self.value_at(self.keys().index_of(name)),
        )
    }
}

impl<V> NameMap<V> {
    /// What the map holds under the name at a position.
    proof fn lemma_at(self, i: int)
        requires
            self.names_are_distinct(),
            0 <= i < self.keys().len(),
        ensures
            self@.dom().contains(self.keys()[i]),
            self@[self.keys()[i]] == self.value_at(i),
    {
        let name = self.keys()[i];
        assert(self.keys().contains(name));
        let j = self.keys().index_of(name);
        assert(self.keys()[j] == name);
    }

    /// The map without entries.
    pub fn new() -> (m: Self)
        ensures
            m@ == Map::<Seq<char>, V>::empty(),
    {
        let m = NameMap { entries: Vec::new() };
        assert(m@ =~= Map::<Seq<char>, V>::empty());
        m
    }

    /// How many names the map holds.
    pub fn len(&self) -> (n: usize)
        ensures
            n == self@.len(),
            n == self.keys().len(),
    {
        proof {
            use_type_invariant(self);
            self.keys().unique_seq_to_set();
            assert(self@.dom() =~= self.keys().to_set());
        }
        self.entries.len()
    }

    /// The position of a name, or the number of entries if it has none.
    fn position(&self, name: &str) -> (i: usize)
        ensures
            i <= self.keys().len(),
            self@.dom().contains(name@) <==> i < self.keys().len(),
            i < self.keys().len() ==> self.keys()[i as int] == name@,
    {
        let mut i: usize = 0;
        while i < self.entries.len()
            invariant
                i <= self.entries.len(),
                forall|j: int| 0 <= j < i ==> #[trigger] self.keys()[j] != name@,
            decreases self.entries.len() - i,
        {
            assert(self.keys()[i as int] == self.entries@[i as int].0@);
            if str_eq(self.entries[i].0.as_str(), name) {
                return i;
            }
            i = i + 1;
        }
        assert(!self.keys().contains(name@));
        i
    }

    /// The value under a name.
    pub fn get(&self, name: &str) -> (value: Option<&V>)
        ensures
            match value {
                Some(v) => self@.dom().contains(name@) && *v == self@[name@],
                None => !self@.dom().contains(name@),
            },
    {
        let i = self.position(name);
        if i < self.entries.len() {
            proof {
                use_type_invariant(self);
                self.lemma_at(i as int);
            }
            Some(&self.entries[i].1)
        } else {
            None
        }
    }

    /// The entry at a position.
    pub fn entry(&self, i: usize) -> (value: &V)
        requires
            i < self.keys().len(),
        ensures
            *value == self.value_at(i as int),
            self@.dom().contains(self.keys()[i as int]),
            *value == self@[self.keys()[i as int]],
    {
        proof {
            use_type_invariant(self);
            self.lemma_at(i as int);
        }
        &self.entries[i].1
    }

    /// Puts a value under a name, in place of what was there.
    pub fn insert(&mut self, name: String, value: V)
        ensures
            final(self)@ == old(self)@.insert(name@, value),
    {
        proof {
            use_type_invariant(&*self);
        }
        let ghost before = *self;
        let ghost key = name@;
        let i = self.position(name.as_str());
        let mut entries: Vec<(String, V)> = Vec::new();
        std::mem::swap(&mut entries, &mut self.entries);
        let known = i < entries.len();
        if known {
            entries.set(i, (name, value));
        } else {
            entries.push((name, value));
        }
        let ghost after = NameMap { entries };
        proof {
            if known {
                assert(after.keys() =~= before.keys());
                assert forall|n: Seq<char>| before@.dom().contains(n) implies #[trigger] after@[n]
                    == before@.insert(key, value)[n] by {
                    let j = before.keys().index_of(n);
                    assert(before.keys()[j] == n);
                    before.lemma_at(j);
                    after.lemma_at(j);
                }
            } else {
                assert(after.keys() =~= before.keys().push(key));
                assert(!before.keys().contains(key));
                assert forall|n: Seq<char>|
                    after@.dom().contains(n) == before@.insert(key, value).dom().contains(n) by {
                    lemma_push_contains(before.keys(), key, n);
                }
                assert forall|n: Seq<char>| after@.dom().contains(n) implies #[trigger] after@[n]
                    == before@.insert(key, value)[n] by {
                    let j = after.keys().index_of(n);
                    assert(after.keys()[j] == n);
                    after.lemma_at(j);
                    if j < before.keys().len() {
                        assert(before.keys()[j] == n);
                        before.lemma_at(j);
                        assert(n != key);
                    }
                }
            }
            assert(after@ =~= before@.insert(key, value));
        }
        self.entries = entries;
    }
}

} // verus!
