//! A map from names to values.

use vstd::prelude::*;

verus! {

/// Values by name. Every name occurs at most once.
#[derive(Debug)]
pub struct Table<V> {
    entries: Vec<(String, V)>,
}

/// Whether no name occurs twice.
spec fn distinct<V>(entries: Seq<(String, V)>) -> bool {
    forall|i: int, j: int|
        0 <= i < j < entries.len() ==> (#[trigger] entries[i]).0@ != (#[trigger] entries[j]).0@
}

/// Whether `name` is the name of one of the entries.
spec fn listed<V>(entries: Seq<(String, V)>, name: Seq<char>) -> bool {
    exists|i: int| 0 <= i < entries.len() && (#[trigger] entries[i]).0@ == name
}

/// Where `name` is.
spec fn place<V>(entries: Seq<(String, V)>, name: Seq<char>) -> int {
    choose|i: int| 0 <= i < entries.len() && (#[trigger] entries[i]).0@ == name
}

/// The map that a list of entries stands for.
spec fn map_of<V>(entries: Seq<(String, V)>) -> Map<Seq<char>, V> {
    Map::new(
        |name: Seq<char>| listed(entries, name),
        |name: Seq<char>| entries[place(entries, name)].1,
    )
}

impl<V> View for Table<V> {
    type V = Map<Seq<char>, V>;

    closed spec fn view(&self) -> Map<Seq<char>, V> {
        map_of(self.entries@)
    }
}

proof fn lemma_at<V>(entries: Seq<(String, V)>, i: int)
    requires
        distinct(entries),
        0 <= i < entries.len(),
    ensures
        map_of(entries).contains_key(entries[i].0@),
        map_of(entries)[entries[i].0@] == entries[i].1,
{
    let name = entries[i].0@;
    assert(entries[i].0@ == name);
    let j = place(entries, name);
    assert(0 <= j < entries.len() && entries[j].0@ == name);
}

proof fn lemma_set<V>(entries: Seq<(String, V)>, i: int, value: V)
    requires
        distinct(entries),
        0 <= i < entries.len(),
    ensures
        distinct(entries.update(i, (entries[i].0, value))),
        map_of(entries.update(i, (entries[i].0, value))) == map_of(entries).insert(
            entries[i].0@,
            value,
        ),
{
    let after = entries.update(i, (entries[i].0, value));
    assert forall|a: int, b: int| 0 <= a < b < after.len() implies (#[trigger] after[a]).0@ != (
    #[trigger] after[b]).0@ by {
        assert(after[a].0 == entries[a].0);
        assert(after[b].0 == entries[b].0);
    }
    assert forall|name: Seq<char>| map_of(after).contains_key(name) == map_of(entries).insert(
        entries[i].0@,
        value,
    ).contains_key(name) by {
        if listed(after, name) {
            let j = place(after, name);
            assert(entries[j].0@ == name);
        }
        if listed(entries, name) {
            let j = place(entries, name);
            assert(after[j].0@ == name);
        }
        assert(after[i].0@ == entries[i].0@);
    }
    assert forall|name: Seq<char>| map_of(after).contains_key(name) implies map_of(after)[name]
        == map_of(entries).insert(entries[i].0@, value)[name] by {
        let j = place(after, name);
        lemma_at(after, j);
        lemma_at(entries, j);
        if j != i {
            assert(entries[j].0@ != entries[i].0@);
        }
    }
    assert(map_of(after) =~= map_of(entries).insert(entries[i].0@, value));
}

proof fn lemma_push<V>(entries: Seq<(String, V)>, entry: (String, V))
    requires
        distinct(entries),
        !map_of(entries).contains_key(entry.0@),
    ensures
        distinct(entries.push(entry)),
        map_of(entries.push(entry)) == map_of(entries).insert(entry.0@, entry.1),
{
    let after = entries.push(entry);
    assert forall|a: int, b: int| 0 <= a < b < after.len() implies (#[trigger] after[a]).0@ != (
    #[trigger] after[b]).0@ by {
        if b == entries.len() {
            assert(entries[a].0@ == after[a].0@);
            assert(listed(entries, after[a].0@));
        }
    }
    assert forall|name: Seq<char>| map_of(after).contains_key(name) == map_of(entries).insert(
        entry.0@,
        entry.1,
    ).contains_key(name) by {
        if listed(after, name) {
            let j = place(after, name);
            if j < entries.len() {
                assert(entries[j].0@ == name);
            }
        }
        if listed(entries, name) {
            let j = place(entries, name);
            assert(after[j].0@ == name);
        }
        assert(after[entries.len() as int].0@ == entry.0@);
    }
    assert forall|name: Seq<char>| map_of(after).contains_key(name) implies map_of(after)[name]
        == map_of(entries).insert(entry.0@, entry.1)[name] by {
        let j = place(after, name);
        lemma_at(after, j);
        if j < entries.len() {
            lemma_at(entries, j);
            assert(listed(entries, name));
        }
    }
    assert(map_of(after) =~= map_of(entries).insert(entry.0@, entry.1));
}

impl<V> Table<V> {
    /// Whether no name occurs twice.
    pub closed spec fn wf(&self) -> bool {
        distinct(self.entries@)
    }

    /// A table without entries.
    pub fn new() -> (table: Self)
        ensures
            table.wf(),
            table@ == Map::<Seq<char>, V>::empty(),
    {
        let table = Table { entries: Vec::new() };
        assert(table@ =~= Map::<Seq<char>, V>::empty());
        table
    }

    /// Where `name` is.
    fn find(&self, name: &str) -> (at: Option<usize>)
        requires
            self.wf(),
        ensures
            at matches Some(i) ==> i < self.entries@.len() && self.entries@[i as int].0@ == name@,
            at is Some <==> self@.contains_key(name@),
    {
        let wanted: String = name.to_owned();
        let mut i: usize = 0;
        while i < self.entries.len()
            invariant
                i <= self.entries@.len(),
                wanted@ == name@,
                forall|j: int| 0 <= j < i ==> (#[trigger] self.entries@[j]).0@ != name@,
            decreases self.entries@.len() - i,
        {
            if self.entries[i].0 == wanted {
                return Some(i);
            }
            i = i + 1;
        }
        None
    }

    /// Whether there is a value under `name`.
    pub fn contains(&self, name: &str) -> (found: bool)
        requires
            self.wf(),
        ensures
            found == self@.contains_key(name@),
    {
        self.find(name).is_some()
    }

    /// The value under `name`.
    pub fn get(&self, name: &str) -> (value: Option<&V>)
        requires
            self.wf(),
        ensures
            value is Some <==> self@.contains_key(name@),
            value matches Some(v) ==> *v == self@[name@],
    {
        match self.find(name) {
            Some(i) => {
                proof {
                    lemma_at(self.entries@, i as int);
                }
                Some(&self.entries[i].1)
            },
            None => None,
        }
    }

    /// The value under `name`, to be changed in place.
    pub fn get_mut(&mut self, name: &str) -> (value: Option<&mut V>)
        requires
            old(self).wf(),
        ensures
            value is Some <==> old(self)@.contains_key(name@),
            value matches Some(v) ==> {
                &&& *v == old(self)@[name@]
                &&& final(self)@ == old(self)@.insert(name@, *final(v))
                &&& final(self).wf()
            },
            value is None ==> *final(self) == *old(self),
    {
        match self.find(name) {
            Some(i) => {
                proof {
                    lemma_at(self.entries@, i as int);
                    assert forall|v: V|
                        distinct(#[trigger] self.entries@.update(i as int, (self.entries@[i as int].0, v)))
                        && map_of(self.entries@.update(i as int, (self.entries@[i as int].0, v)))
                        == map_of(self.entries@).insert(name@, v) by {
                        lemma_set(self.entries@, i as int, v);
                    }
                }
                let entry: &mut (String, V) = &mut self.entries[i];
                Some(&mut entry.1)
            },
            None => None,
        }
    }

    /// Puts `value` under `name`, in place of what is there.
    pub fn insert(&mut self, name: &str, value: V)
        requires
            old(self).wf(),
        ensures
            final(self).wf(),
            final(self)@ == old(self)@.insert(name@, value),
    {
        match self.find(name) {
            Some(i) => {
                proof {
                    lemma_set(self.entries@, i as int, value);
                }
                let entry: &mut (String, V) = &mut self.entries[i];
                entry.1 = value;
            },
            None => {
                let owned: String = name.to_owned();
                proof {
                    lemma_push(self.entries@, (owned, value));
                }
                self.entries.push((owned, value));
            },
        }
    }

    /// All names, each once.
    pub fn names(&self) -> (names: Vec<String>)
        requires
            self.wf(),
        ensures
            forall|j: int| 0 <= j < names@.len() ==> self@.contains_key(#[trigger] names@[j]@),
            forall|name: Seq<char>| #[trigger]
                self@.contains_key(name) ==> exists|j: int|
                    0 <= j < names@.len() && (#[trigger] names@[j])@ == name,
            forall|i: int, j: int|
                0 <= i < j < names@.len() ==> (#[trigger] names@[i])@ != (#[trigger] names@[j])@,
    {
        let mut names: Vec<String> = Vec::new();
        let mut i: usize = 0;
        while i < self.entries.len()
            invariant
                i <= self.entries@.len(),
                names@.len() == i,
                forall|j: int| 0 <= j < i ==> (#[trigger] names@[j])@ == self.entries@[j].0@,
            decreases self.entries@.len() - i,
        {
            names.push(self.entries[i].0.clone());
            i = i + 1;
        }
        proof {
            assert forall|j: int| 0 <= j < names@.len() implies self@.contains_key(
                #[trigger] names@[j]@,
            ) by {
                lemma_at(self.entries@, j);
            }
            assert forall|name: Seq<char>| #[trigger] self@.contains_key(name) implies exists|
                j: int,
            |
                0 <= j < names@.len() && (#[trigger] names@[j])@ == name by {
                let j = place(self.entries@, name);
                assert(names@[j]@ == name);
            }
            assert forall|i: int, j: int| 0 <= i < j < names@.len() implies (
            #[trigger] names@[i])@ != (#[trigger] names@[j])@ by {
                assert(self.entries@[i].0@ != self.entries@[j].0@);
            }
        }
        names
    }
}

} // verus!
