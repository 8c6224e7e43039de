//! Named members, as a JSON object or a set of annotations holds them.
use crate::text::same_text;
use vstd::prelude::*;

verus! {

/// Whether no two entries have the same name.
pub open spec fn distinct_names<V>(entries: Seq<(String, V)>) -> bool {
    forall|i: int, j: int|
        0 <= i < j < entries.len() ==> #[trigger] entries[i].0@ != #[trigger] entries[j].0@
}

/// The map that a row of entries spells; of two entries with one name the
/// later counts.
pub open spec fn map_of<V>(entries: Seq<(String, V)>) -> Map<Seq<char>, V>
    decreases entries.len(),
{
    if entries.len() == 0 {
        Map::empty()
    } else {
        map_of(entries.drop_last()).insert(entries.last().0@, entries.last().1)
    }
}

/// A map from names to values. Each name occurs at most once.
#[derive(Debug)]
pub struct Members<V> {
    entries: Vec<(String, V)>,
}

/// Texts by name, by their characters.
pub open spec fn texts(map: Map<Seq<char>, String>) -> Map<Seq<char>, Seq<char>> {
    map.map_values(|text: String| text@)
}

impl<V> View for Members<V> {
    type V = Map<Seq<char>, V>;

    closed spec fn view(&self) -> Map<Seq<char>, V> {
        map_of(self.entries@)
    }
}

proof fn lemma_map_of<V>(entries: Seq<(String, V)>)
    ensures
        forall|i: int| 0 <= i < entries.len() ==> map_of(entries).contains_key(
            (#[trigger] entries[i]).0@,
        ),
        forall|name: Seq<char>| #[trigger]
            map_of(entries).contains_key(name) ==> exists|i: int|
                0 <= i < entries.len() && (#[trigger] entries[i]).0@ == name,
        distinct_names(entries) ==> forall|i: int|
            0 <= i < entries.len() ==> map_of(entries)[(#[trigger] entries[i]).0@] == entries[i].1,
        distinct_names(entries) ==> map_of(entries).dom().len() == entries.len(),
        map_of(entries).dom().finite(),
    decreases entries.len(),
{
    if entries.len() > 0 {
        let rest = entries.drop_last();
        lemma_map_of(rest);
        assert forall|i: int| 0 <= i < entries.len() implies map_of(entries).contains_key(
            (#[trigger] entries[i]).0@,
        ) by {
            if i < rest.len() {
                assert(rest[i] == entries[i]);
            }
        }
        assert forall|name: Seq<char>| #[trigger] map_of(entries).contains_key(name) implies exists|
            i: int,
        |
            0 <= i < entries.len() && (#[trigger] entries[i]).0@ == name by {
            if name != entries.last().0@ {
                assert(map_of(rest).contains_key(name));
                let i = choose|i: int| 0 <= i < rest.len() && (#[trigger] rest[i]).0@ == name;
                assert(entries[i].0@ == name);
            } else {
                assert(entries[entries.len() - 1].0@ == name);
            }
        }
        if distinct_names(entries) {
            assert(distinct_names(rest)) by {
                assert forall|i: int, j: int| 0 <= i < j < rest.len() implies #[trigger] rest[i].0@
                    != #[trigger] rest[j].0@ by {
                    assert(entries[i].0@ != entries[j].0@);
                }
            }
            assert(!map_of(rest).contains_key(entries.last().0@)) by {
                if map_of(rest).contains_key(entries.last().0@) {
                    let i = choose|i: int|
                        0 <= i < rest.len() && (#[trigger] rest[i]).0@ == entries.last().0@;
                    assert(entries[i].0@ != entries[entries.len() - 1].0@);
                }
            }
            assert forall|i: int| 0 <= i < entries.len() implies map_of(entries)[(
            #[trigger] entries[i]).0@] == entries[i].1 by {
                if i < rest.len() {
                    assert(rest[i] == entries[i]);
                    assert(entries[i].0@ != entries[entries.len() - 1].0@);
                }
            }
        }
    } else {
        assert(map_of(entries).dom() =~= Set::<Seq<char>>::empty());
    }
}

/// Entries with distinct names are what their map says, name by name.
pub proof fn lemma_entries<V>(entries: Seq<(String, V)>)
    requires
        distinct_names(entries),
    ensures
        forall|i: int|
            0 <= i < entries.len() ==> map_of(entries).contains_key((#[trigger] entries[i]).0@)
                && map_of(entries)[entries[i].0@] == entries[i].1,
        forall|name: Seq<char>| #[trigger]
            map_of(entries).contains_key(name) ==> exists|i: int|
                0 <= i < entries.len() && (#[trigger] entries[i]).0@ == name,
{
    lemma_map_of(entries);
}

/// Of entries with distinct names, those before one do not have its name.
pub proof fn lemma_name_is_new<V>(entries: Seq<(String, V)>, i: int)
    requires
        distinct_names(entries),
        0 <= i < entries.len(),
    ensures
        !map_of(entries.take(i)).contains_key(entries[i].0@),
{
    lemma_map_of(entries.take(i));
    if map_of(entries.take(i)).contains_key(entries[i].0@) {
        let j = choose|j: int|
            0 <= j < i && (#[trigger] entries.take(i)[j]).0@ == entries[i].0@;
        assert(entries[j].0@ != entries[i].0@);
    }
}

impl<V> Members<V> {
    #[verifier::type_invariant]
    spec fn wf(self) -> bool {
        distinct_names(self.entries@)
    }

    /// No members.
    pub fn new() -> (members: Self)
        ensures
            members@ == Map::<Seq<char>, V>::empty(),
    {
        Members { entries: Vec::new() }
    }

    /// The number of members.
    pub fn len(&self) -> (len: usize)
        ensures
            len == self@.dom().len(),
    {
        proof {
            use_type_invariant(self);
            lemma_map_of(self.entries@);
        }
        self.entries.len()
    }

    /// Whether there are no members.
    pub fn is_empty(&self) -> (empty: bool)
        ensures
            empty == (self@ == Map::<Seq<char>, V>::empty()),
    {
        proof {
            use_type_invariant(self);
            lemma_map_of(self.entries@);
            if self.entries@.len() > 0 {
                assert(self@.contains_key(self.entries@[0].0@));
            }
        }
        self.entries.len() == 0
    }

    fn position(&self, name: &str) -> (position: Option<usize>)
        ensures
            match position {
                Some(i) => {
                    &&& i < self.entries@.len()
                    &&& self.entries@[i as int].0@ == name@
                    &&& self@.contains_key(name@)
                    &&& self@[name@] == self.entries@[i as int].1
                },
                None => {
                    &&& !self@.contains_key(name@)
                    &&& forall|i: int|
                        0 <= i < self.entries@.len() ==> (#[trigger] self.entries@[i]).0@ != name@
                },
            },
    {
        proof {
            use_type_invariant(self);
            lemma_map_of(self.entries@);
        }
        for i in 0..self.entries.len()
            invariant
                forall|j: int| 0 <= j < i ==> (#[trigger] self.entries@[j]).0@ != name@,
                distinct_names(self.entries@),
        {
            if same_text(self.entries[i].0.as_str(), name) {
                proof {
                    lemma_map_of(self.entries@);
                }
                return Some(i);
            }
        }
        None
    }

    /// The value of the member `name`.
    pub fn get(&self, name: &str) -> (value: Option<&V>)
        ensures
            match value {
                Some(v) => self@.contains_key(name@) && *v == self@[name@],
                None => !self@.contains_key(name@),
            },
    {
        match self.position(name) {
            Some(i) => Some(&self.entries[i].1),
            None => None,
        }
    }

    /// The entries, in the order in which their names came first.
    pub fn entries(&self) -> (entries: &Vec<(String, V)>)
        ensures
            distinct_names(entries@),
            map_of(entries@) == self@,
    {
        proof {
            use_type_invariant(self);
        }
        &self.entries
    }

    /// The entries by value, in the order in which their names came first.
    pub fn into_entries(self) -> (entries: Vec<(String, V)>)
        ensures
            distinct_names(entries@),
            map_of(entries@) == self@,
    {
        proof {
            use_type_invariant(&self);
        }
        self.entries
    }

    /// Gives the member `name` the value `value`, whatever it had.
    pub fn insert(&mut self, name: String, value: V)
        ensures
            final(self)@ == old(self)@.insert(name@, value),
    {
        let found = self.position(name.as_str());
        let ghost before = self.entries@;
        proof {
            use_type_invariant(&*self);
        }
        let mut entries: Vec<(String, V)> = Vec::new();
        std::mem::swap(&mut entries, &mut self.entries);
        match found {
            Some(i) => {
                entries.remove(i);
                entries.insert(i, (name, value));
                proof {
                    assert(entries@ =~= before.update(i as int, (name, value)));
                    lemma_update(before, i as int, name, value);
                }
            },
            None => {
                entries.push((name, value));
                assert(entries@.drop_last() =~= before);
            },
        }
        self.entries = entries;
    }

    /// Gives the member `name` the value `value`, unless it has one.
    pub fn or_insert(&mut self, name: String, value: V)
        ensures
            final(self)@ == (if old(self)@.contains_key(name@) {
                old(self)@
            } else {
                old(self)@.insert(name@, value)
            }),
    {
        if self.position(name.as_str()).is_none() {
            self.insert(name, value);
        }
    }

    /// Takes the member `name` out.
    pub fn remove(&mut self, name: &str)
        ensures
            final(self)@ == old(self)@.remove(name@),
    {
        let found = self.position(name);
        let ghost before = self.entries@;
        proof {
            use_type_invariant(&*self);
        }
        match found {
            Some(i) => {
                let mut entries: Vec<(String, V)> = Vec::new();
                std::mem::swap(&mut entries, &mut self.entries);
                entries.remove(i);
                proof {
                    lemma_remove(before, i as int);
                }
                self.entries = entries;
            },
            None => {
                assert(self@ =~= old(self)@.remove(name@));
            },
        }
    }
}

impl<V: Clone> Clone for Members<V> {
    fn clone(&self) -> (copy: Self)
        ensures
            copy@.dom() == self@.dom(),
            forall|name: Seq<char>| #[trigger]
                copy@.contains_key(name) ==> cloned(self@[name], copy@[name]),
    {
        let mut entries: Vec<(String, V)> = Vec::new();
        proof {
            use_type_invariant(self);
        }
        for i in 0..self.entries.len()
            invariant
                distinct_names(self.entries@),
                entries@.len() == i,
                forall|j: int|
                    0 <= j < i ==> (#[trigger] entries@[j]).0@ == self.entries@[j].0@ && cloned(
                        self.entries@[j].1,
                        entries@[j].1,
                    ),
        {
            entries.push((self.entries[i].0.clone(), self.entries[i].1.clone()));
        }
        proof {
            assert forall|i: int, j: int| 0 <= i < j < entries@.len() implies #[trigger] entries@[i].0@
                != #[trigger] entries@[j].0@ by {
                assert(self.entries@[i].0@ != self.entries@[j].0@);
            }
            lemma_map_of(self.entries@);
            lemma_map_of(entries@);
            assert forall|name: Seq<char>| map_of(entries@).contains_key(name) == #[trigger] self@.contains_key(name) by {
                if map_of(entries@).contains_key(name) {
                    let i = choose|i: int| 0 <= i < entries@.len() && (#[trigger] entries@[i]).0@ == name;
                    assert(self@.contains_key(self.entries@[i].0@));
                }
                if self@.contains_key(name) {
                    let i = choose|i: int| 0 <= i < self.entries@.len() && (#[trigger] self.entries@[i]).0@ == name;
                    assert(map_of(entries@).contains_key(entries@[i].0@));
                }
            }
            assert forall|name: Seq<char>| #[trigger] map_of(entries@).contains_key(name) implies cloned(
                self@[name],
                map_of(entries@)[name],
            ) by {
                let i = choose|i: int| 0 <= i < entries@.len() && (#[trigger] entries@[i]).0@ == name;
                assert(self@[self.entries@[i].0@] == self.entries@[i].1);
            }
            assert(map_of(entries@).dom() =~= self@.dom());
        }
        Members { entries }
    }
}

proof fn lemma_is_map_of<V>(entries: Seq<(String, V)>, map: Map<Seq<char>, V>)
    requires
        distinct_names(entries),
        forall|i: int|
            0 <= i < entries.len() ==> map.contains_pair(
                (#[trigger] entries[i]).0@,
                entries[i].1,
            ),
        forall|name: Seq<char>| #[trigger]
            map.contains_key(name) ==> exists|i: int|
                0 <= i < entries.len() && (#[trigger] entries[i]).0@ == name,
    ensures
        map_of(entries) == map,
{
    lemma_map_of(entries);
    assert forall|name: Seq<char>| map_of(entries).contains_key(name) == #[trigger] map.contains_key(
        name,
    ) by {
        if map_of(entries).contains_key(name) {
            let i = choose|i: int| 0 <= i < entries.len() && (#[trigger] entries[i]).0@ == name;
            assert(map.contains_pair(entries[i].0@, entries[i].1));
        }
        if map.contains_key(name) {
            let i = choose|i: int| 0 <= i < entries.len() && (#[trigger] entries[i]).0@ == name;
            assert(map_of(entries).contains_key(entries[i].0@));
        }
    }
    assert forall|name: Seq<char>| #[trigger] map.contains_key(name) implies map_of(entries)[name]
        == map[name] by {
        let i = choose|i: int| 0 <= i < entries.len() && (#[trigger] entries[i]).0@ == name;
        assert(map.contains_pair(entries[i].0@, entries[i].1));
    }
    assert(map_of(entries) =~= map);
}

proof fn lemma_update<V>(entries: Seq<(String, V)>, i: int, name: String, value: V)
    requires
        0 <= i < entries.len(),
        distinct_names(entries),
        entries[i].0@ == name@,
    ensures
        distinct_names(entries.update(i, (name, value))),
        map_of(entries.update(i, (name, value))) == map_of(entries).insert(name@, value),
{
    let updated = entries.update(i, (name, value));
    assert(distinct_names(updated)) by {
        assert forall|j: int, k: int| 0 <= j < k < updated.len() implies #[trigger] updated[j].0@
            != #[trigger] updated[k].0@ by {
            assert(entries[j].0@ != entries[k].0@);
        }
    }
    lemma_map_of(entries);
    let map = map_of(entries).insert(name@, value);
    assert forall|j: int| 0 <= j < updated.len() implies map.contains_pair(
        (#[trigger] updated[j]).0@,
        updated[j].1,
    ) by {
        assert(entries[j].0@ == updated[j].0@);
        if j < i {
            assert(entries[j].0@ != entries[i].0@);
        } else if j > i {
            assert(entries[i].0@ != entries[j].0@);
        }
    }
    assert forall|k: Seq<char>| #[trigger] map.contains_key(k) implies exists|j: int|
        0 <= j < updated.len() && (#[trigger] updated[j]).0@ == k by {
        if k == name@ {
            assert(updated[i].0@ == k);
        } else {
            assert(map_of(entries).contains_key(k));
            let j = choose|j: int| 0 <= j < entries.len() && (#[trigger] entries[j]).0@ == k;
            assert(updated[j].0@ == k);
        }
    }
    lemma_is_map_of(updated, map);
}

proof fn lemma_remove<V>(entries: Seq<(String, V)>, i: int)
    requires
        0 <= i < entries.len(),
        distinct_names(entries),
    ensures
        distinct_names(entries.remove(i)),
        map_of(entries.remove(i)) == map_of(entries).remove(entries[i].0@),
{
    let left = entries.remove(i);
    assert forall|j: int, k: int| 0 <= j < k < left.len() implies #[trigger] left[j].0@
        != #[trigger] left[k].0@ by {
        let j1 = if j < i { j } else { j + 1 };
        let k1 = if k < i { k } else { k + 1 };
        assert(entries[j1].0@ != entries[k1].0@);
    }
    lemma_map_of(entries);
    let map = map_of(entries).remove(entries[i].0@);
    assert forall|j: int| 0 <= j < left.len() implies map.contains_pair(
        (#[trigger] left[j]).0@,
        left[j].1,
    ) by {
        let j1 = if j < i { j } else { j + 1 };
        assert(entries[j1] == left[j]);
        if j1 < i {
            assert(entries[j1].0@ != entries[i].0@);
        } else {
            assert(entries[i].0@ != entries[j1].0@);
        }
    }
    assert forall|k: Seq<char>| #[trigger] map.contains_key(k) implies exists|j: int|
        0 <= j < left.len() && (#[trigger] left[j]).0@ == k by {
        assert(map_of(entries).contains_key(k));
        let j = choose|j: int| 0 <= j < entries.len() && (#[trigger] entries[j]).0@ == k;
        let j1 = if j < i { j } else { j - 1 };
        assert(left[j1].0@ == k);
    }
    lemma_is_map_of(left, map);
}

} // verus!
