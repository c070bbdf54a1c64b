use vstd::prelude::*;

verus! {

/// Looks `key` up in a list of named entries; the first entry with that name wins.
pub open spec fn lookup<V>(entries: Seq<(String, V)>, key: Seq<char>) -> Option<V>
    decreases entries.len(),
{
    if entries.len() == 0 {
        None
    } else if entries[0].0@ == key {
        Some(entries[0].1)
    } else {
        lookup(entries.drop_first(), key)
    }
}

pub proof fn lemma_lookup_push<V>(entries: Seq<(String, V)>, k: String, v: V, key: Seq<char>)
    requires
        lookup(entries, k@) is None,
    ensures
        key == k@ ==> lookup(entries.push((k, v)), key) === Some(v),
        key != k@ ==> lookup(entries.push((k, v)), key) === lookup(entries, key),
    decreases entries.len(),
{
    if entries.len() > 0 {
        assert(entries.push((k, v)).drop_first() =~= entries.drop_first().push((k, v)));
        assert(entries.push((k, v))[0] == entries[0]);
        assert(entries[0].0@ != k@);
        if entries[0].0@ != key {
            lemma_lookup_push(entries.drop_first(), k, v, key);
        }
    } else {
        assert(entries.push((k, v)).drop_first() =~= Seq::<(String, V)>::empty());
        assert(entries.push((k, v))[0] == (k, v));
        assert(entries.push((k, v)).len() == 1);
        assert(lookup(entries.push((k, v)).drop_first(), key) is None);
    }
}

pub proof fn lemma_lookup_found<V>(entries: Seq<(String, V)>, key: Seq<char>, i: int)
    requires
        0 <= i < entries.len(),
        entries[i].0@ == key,
        forall|j: int| 0 <= j < i ==> entries[j].0@ != key,
    ensures
        lookup(entries, key) == Some(entries[i].1),
    decreases i,
{
    if i > 0 {
        lemma_lookup_found(entries.drop_first(), key, i - 1);
    }
}

/// A name that is bound has an entry.
pub proof fn lemma_lookup_has_entry<V>(entries: Seq<(String, V)>, key: Seq<char>)
    requires
        lookup(entries, key) is Some,
    ensures
        exists|i: int| 0 <= i < entries.len() && #[trigger] entries[i].0@ == key,
    decreases entries.len(),
{
    if entries[0].0@ != key {
        lemma_lookup_has_entry(entries.drop_first(), key);
        let i = choose|i: int| 0 <= i < entries.drop_first().len() && #[trigger] entries.drop_first()[i].0@ == key;
        assert(entries[i + 1].0@ == key);
    }
}

pub proof fn lemma_lookup_absent<V>(entries: Seq<(String, V)>, key: Seq<char>)
    requires
        forall|j: int| 0 <= j < entries.len() ==> entries[j].0@ != key,
    ensures
        lookup(entries, key) is None,
    decreases entries.len(),
{
    if entries.len() > 0 {
        lemma_lookup_absent(entries.drop_first(), key);
    }
}

/// Looking up in one more entry of a list: the earlier entries win.
pub proof fn lemma_lookup_take<V>(entries: Seq<(String, V)>, i: int, key: Seq<char>)
    requires
        0 <= i < entries.len(),
    ensures
        lookup(entries.take(i + 1), key) == match lookup(entries.take(i), key) {
            Some(v) => Some(v),
            None => if entries[i].0@ == key {
                Some(entries[i].1)
            } else {
                None
            },
        },
    decreases i,
{
    if i > 0 {
        assert(entries.take(i + 1).drop_first() =~= entries.drop_first().take(i));
        assert(entries.take(i).drop_first() =~= entries.drop_first().take(i - 1));
        lemma_lookup_take(entries.drop_first(), i - 1, key);
    } else {
        assert(entries.take(1).drop_first() =~= Seq::<(String, V)>::empty());
        assert(entries.take(0) =~= Seq::<(String, V)>::empty());
    }
}

/// A table from names to values, in the order the names were added. A name is
/// added at most once.
#[derive(Debug)]
pub struct NameMap<V> {
    entries: Vec<(String, V)>,
}

impl<V> NameMap<V> {
    pub closed spec fn entries(&self) -> Seq<(String, V)> {
        self.entries@
    }

    /// The value a name is bound to.
    pub open spec fn get_spec(&self, key: Seq<char>) -> Option<V> {
        lookup(self.entries(), key)
    }

    pub fn new() -> (m: NameMap<V>)
        ensures
            m.entries() == Seq::<(String, V)>::empty(),
            forall|k: Seq<char>| m.get_spec(k) is None,
    {
        NameMap { entries: Vec::new() }
    }

    pub fn len(&self) -> (n: usize)
        ensures
            n == self.entries().len(),
    {
        self.entries.len()
    }

    fn position(&self, key: &str) -> (r: Option<usize>)
        ensures
            match r {
                Some(i) => i < self.entries().len() && self.entries()[i as int].0@ == key@
                    && self.get_spec(key@) == Some(self.entries()[i as int].1) && (forall|j: int|
                    0 <= j < i ==> self.entries()[j].0@ != key@),
                None => self.get_spec(key@) is None,
            },
    {
        let mut i: usize = 0;
        while i < self.entries.len()
            invariant
                i <= self.entries@.len(),
                forall|j: int| 0 <= j < i ==> self.entries@[j].0@ != key@,
            decreases self.entries.len() - i,
        {
            if crate::text::str_eq(self.entries[i].0.as_str(), key) {
                proof {
                    lemma_lookup_found(self.entries@, key@, i as int);
                }
                return Some(i);
            }
            i += 1;
        }
        proof {
            lemma_lookup_absent(self.entries@, key@);
        }
        None
    }

    /// Whether the name is bound.
    pub fn contains_key(&self, key: &str) -> (b: bool)
        ensures
            b == self.get_spec(key@) is Some,
    {
        self.position(key).is_some()
    }

    /// The value the name is bound to.
    pub fn get(&self, key: &str) -> (r: Option<&V>)
        ensures
            match r {
                Some(v) => self.get_spec(key@) == Some(*v),
                None => self.get_spec(key@) is None,
            },
    {
        match self.position(key) {
            Some(i) => Some(&self.entries[i].1),
            None => None,
        }
    }

    /// Binds a name that is not bound yet.
    pub fn insert(&mut self, key: String, value: V)
        requires
            old(self).get_spec(key@) is None,
        ensures
            final(self).entries() == old(self).entries().push((key, value)),
            forall|k: Seq<char>|
                #[trigger] final(self).get_spec(k) == if k == key@ {
                    Some(value)
                } else {
                    old(self).get_spec(k)
                },
    {
        proof {
            assert forall|k: Seq<char>|
                #[trigger] lookup(self.entries@.push((key, value)), k) == if k == key@ {
                    Some(value)
                } else {
                    lookup(self.entries@, k)
                } by {
                lemma_lookup_push(self.entries@, key, value, k);
            }
        }
        self.entries.push((key, value));
    }

    /// The entry at a position, in the order names were added.
    pub fn entry(&self, i: usize) -> (r: (&String, &V))
        requires
            i < self.entries().len(),
        ensures
            *r.0 == self.entries()[i as int].0,
            *r.1 == self.entries()[i as int].1,
    {
        (&self.entries[i].0, &self.entries[i].1)
    }
}

} // verus!

verus! {

impl<V> NameMap<V> {
    /// Rebinds a name that is bound; other names keep their values.
    pub fn set(&mut self, key: &str, value: V)
        ensures
            old(self).get_spec(key@) is Some ==> final(self).get_spec(key@) == Some(value),
            old(self).get_spec(key@) is None ==> final(self).entries() == old(self).entries(),
            forall|k: Seq<char>| k != key@ ==> #[trigger] final(self).get_spec(k) == old(self).get_spec(k),
            final(self).entries().len() == old(self).entries().len(),
            forall|i: int|
                0 <= i < old(self).entries().len() ==> (#[trigger] final(self).entries()[i]).0@ == old(
                    self,
                ).entries()[i].0@,
    {
        match self.position(key) {
            Some(i) => {
                let ghost old_entries = self.entries@;
                let name = self.entries[i].0.clone();
                self.entries.set(i, (name, value));
                proof {
                    assert forall|k: Seq<char>| #[trigger] lookup(self.entries@, k) == if k == key@ {
                        Some(value)
                    } else {
                        lookup(old_entries, k)
                    } by {
                        lemma_lookup_set(old_entries, i as int, name, value, key@, k);
                    }
                }
            },
            None => {},
        }
    }
}

proof fn lemma_lookup_set<V>(
    entries: Seq<(String, V)>,
    i: int,
    name: String,
    value: V,
    key: Seq<char>,
    k: Seq<char>,
)
    requires
        0 <= i < entries.len(),
        entries[i].0@ == key,
        name@ == key,
        lookup(entries, key) == Some(entries[i].1),
        forall|j: int| 0 <= j < i ==> entries[j].0@ != key,
    ensures
        lookup(entries.update(i, (name, value)), k) == if k == key {
            Some(value)
        } else {
            lookup(entries, k)
        },
    decreases i,
{
    let u = entries.update(i, (name, value));
    if i == 0 {
        assert(u[0] == (name, value));
        assert(u.drop_first() =~= entries.drop_first());
    } else {
        assert(u.drop_first() =~= entries.drop_first().update(i - 1, (name, value)));
        assert(u[0] == entries[0]);
        lemma_lookup_set(entries.drop_first(), i - 1, name, value, key, k);
    }
}

} // verus!
