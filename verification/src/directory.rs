//! A table of items that are found by name.

use vstd::prelude::*;
use crate::names;
use crate::names::same_name;

verus! {

/// Items, each under a name of its own.
pub struct Directory<T> {
    names: Vec<String>,
    items: Vec<T>,
}

impl<T> Directory<T> {
    spec fn chars(&self) -> Seq<Seq<char>> {
        Seq::new(self.names@.len(), |i: int| self.names@[i]@)
    }

    /// There is an item for each name, and no name stands twice.
    pub closed spec fn wf(&self) -> bool {
        &&& self.names@.len() == self.items@.len()
        &&& self.chars().no_duplicates()
    }
}

impl<T> View for Directory<T> {
    type V = Map<Seq<char>, T>;

    closed spec fn view(&self) -> Map<Seq<char>, T> {
        Map::new(
            |name: Seq<char>| self.chars().contains(name),
            |name: Seq<char>| self.items@[self.chars().index_of(name)],
        )
    }
}

impl<T> Directory<T> {
    proof fn lemma_at(&self, i: int)
        requires
            self.wf(),
            0 <= i < self.names@.len(),
        ensures
            self@.contains_key(self.names@[i]@),
            self@[self.names@[i]@] == self.items@[i],
    {
        assert(self.chars()[i] == self.names@[i]@);
        assert(self.chars().contains(self.chars()[i]));
    }

    proof fn lemma_is(&self, map: Map<Seq<char>, T>)
        requires
            self.wf(),
            forall|i: int|
                0 <= i < self.names@.len() ==> {
                    &&& map.contains_key(#[trigger] self.names@[i]@)
                    &&& map[self.names@[i]@] == self.items@[i]
                },
            forall|name: Seq<char>| #[trigger]
                map.contains_key(name) ==> self.chars().contains(name),
        ensures
            self@ == map,
    {
        assert forall|name: Seq<char>| self@.contains_key(name) == #[trigger] map.contains_key(
            name,
        ) by {
            if self.chars().contains(name) {
                let i = self.chars().index_of(name);
                assert(self.names@[i]@ == name);
            }
        }
        assert forall|name: Seq<char>| #[trigger] map.contains_key(name) implies self@[name]
            == map[name] by {
            let i = self.chars().index_of(name);
            assert(self.chars()[i] == name);
            assert(self.names@[i]@ == name);
            self.lemma_at(i);
        }
        assert(self@ =~= map);
    }

    /// The directory holds finitely many items.
    pub proof fn lemma_finite(&self)
        ensures
            self@.dom().finite(),
    {
        assert(self@.dom() =~= self.chars().to_set());
        vstd::seq_lib::seq_to_set_is_finite(self.chars());
    }

    /// An empty directory.
    pub fn new() -> (directory: Directory<T>)
        ensures
            directory.wf(),
            directory@ == Map::<Seq<char>, T>::empty(),
    {
        let directory = Directory { names: Vec::new(), items: Vec::new() };
        assert(directory@ =~= Map::<Seq<char>, T>::empty());
        directory
    }

    fn position(&self, name: &str) -> (place: Option<usize>)
        requires
            self.wf(),
        ensures
            match place {
                Some(i) => {
                    &&& i < self.names@.len()
                    &&& self.names@[i as int]@ == name@
                    &&& self@.contains_key(name@)
                    &&& self@[name@] == self.items@[i as int]
                },
                None => !self@.contains_key(name@),
            },
    {
        let mut i: usize = 0;
        while i < self.names.len()
            invariant
                self.wf(),
                i <= self.names@.len(),
                forall|j: int| 0 <= j < i ==> (#[trigger] self.names@[j])@ != name@,
            decreases self.names@.len() - i,
        {
            if same_name(self.names[i].as_str(), name) {
                proof {
                    self.lemma_at(i as int);
                }
                return Some(i);
            }
            i = i + 1;
        }
        proof {
            if self.chars().contains(name@) {
                let j = self.chars().index_of(name@);
                assert(self.names@[j]@ == name@);
            }
        }
        None
    }

    /// The item named `name`.
    pub fn get(&self, name: &str) -> (item: Option<&T>)
        requires
            self.wf(),
        ensures
            match item {
                Some(item) => self@.contains_key(name@) && self@[name@] == *item,
                None => !self@.contains_key(name@),
            },
    {
        match self.position(name) {
            Some(i) => Some(&self.items[i]),
            None => None,
        }
    }

    /// Whether there is an item named `name`.
    pub fn contains(&self, name: &str) -> (found: bool)
        requires
            self.wf(),
        ensures
            found == self@.contains_key(name@),
    {
        self.position(name).is_some()
    }

    /// Puts `item` under `name`, in place of what was there.
    pub fn insert(&mut self, name: &str, item: T)
        requires
            old(self).wf(),
        ensures
            final(self).wf(),
            final(self)@ == old(self)@.insert(name@, item),
    {
        let ghost before = *self;
        let ghost map = self@.insert(name@, item);
        match self.position(name) {
            Some(i) => {
                self.items.set(i, item);
                proof {
                    assert(self.chars() =~= before.chars());
                    assert forall|j: int| 0 <= j < self.names@.len() implies {
                        &&& map.contains_key(#[trigger] self.names@[j]@)
                        &&& map[self.names@[j]@] == self.items@[j]
                    } by {
                        before.lemma_at(j);
                        if j != i {
                            assert(before.chars()[j] != before.chars()[i as int]);
                        }
                    }
                    assert(self.chars()[i as int] == name@);
                    self.lemma_is(map);
                }
            },
            None => {
                self.names.push(name.to_owned());
                self.items.push(item);
                proof {
                    let count = before.names@.len();
                    assert(self.chars() =~= before.chars().push(name@));
                    assert forall|j: int| 0 <= j < count implies before.chars()[j] != name@ by {
                        before.lemma_at(j);
                    }
                    assert forall|j: int| 0 <= j < self.names@.len() implies {
                        &&& map.contains_key(#[trigger] self.names@[j]@)
                        &&& map[self.names@[j]@] == self.items@[j]
                    } by {
                        if j < count {
                            before.lemma_at(j);
                        }
                    }
                    assert forall|other: Seq<char>| #[trigger]
                        map.contains_key(other) implies self.chars().contains(other) by {
                        if other == name@ {
                            assert(self.chars()[count as int] == other);
                        } else {
                            let j = before.chars().index_of(other);
                            assert(before.chars()[j] == other);
                            assert(self.chars()[j] == other);
                        }
                    }
                    self.lemma_is(map);
                }
            },
        }
    }

    /// Takes out the item named `name`.
    pub fn remove(&mut self, name: &str) -> (item: Option<T>)
        requires
            old(self).wf(),
        ensures
            final(self).wf(),
            final(self)@ == old(self)@.remove(name@),
            match item {
                Some(item) => old(self)@.contains_key(name@) && old(self)@[name@] == item,
                None => !old(self)@.contains_key(name@),
            },
    {
        let ghost before = *self;
        let ghost map = self@.remove(name@);
        match self.position(name) {
            Some(i) => {
                let _ = self.names.remove(i);
                let item = self.items.remove(i);
                proof {
                    assert(self.chars() =~= before.chars().remove(i as int));
                    assert forall|j: int, k: int|
                        0 <= j < self.chars().len() && 0 <= k < self.chars().len() && j
                            != k implies self.chars()[j] != self.chars()[k] by {
                        let j1 = if j < i {
                            j
                        } else {
                            j + 1
                        };
                        let k1 = if k < i {
                            k
                        } else {
                            k + 1
                        };
                        assert(self.chars()[j] == before.chars()[j1]);
                        assert(self.chars()[k] == before.chars()[k1]);
                    }
                    assert forall|j: int| 0 <= j < self.names@.len() implies {
                        &&& map.contains_key(#[trigger] self.names@[j]@)
                        &&& map[self.names@[j]@] == self.items@[j]
                    } by {
                        let j1 = if j < i {
                            j
                        } else {
                            j + 1
                        };
                        before.lemma_at(j1);
                        assert(self.names@[j] == before.names@[j1]);
                        assert(before.chars()[j1] != before.chars()[i as int]);
                    }
                    assert forall|other: Seq<char>| #[trigger]
                        map.contains_key(other) implies self.chars().contains(other) by {
                        let j = before.chars().index_of(other);
                        assert(before.chars()[j] == other);
                        assert(before.chars()[i as int] == name@);
                        if j < i {
                            assert(self.chars()[j] == other);
                        } else {
                            assert(self.chars()[j - 1] == other);
                        }
                    }
                    self.lemma_is(map);
                }
                Some(item)
            },
            None => {
                assert(map =~= self@);
                None
            },
        }
    }

    /// The names of all items.
    pub fn names(&self) -> (names: Vec<String>)
        requires
            self.wf(),
        ensures
            names::all_chars(names@).no_duplicates(),
            forall|name: Seq<char>| #[trigger]
                names::all_chars(names@).contains(name) <==> self@.contains_key(name),
    {
        let mut names: Vec<String> = Vec::new();
        let mut i: usize = 0;
        while i < self.names.len()
            invariant
                i <= self.names@.len(),
                names@.len() == i,
                forall|j: int| 0 <= j < i ==> (#[trigger] names@[j])@ == self.names@[j]@,
            decreases self.names@.len() - i,
        {
            names.push(self.names[i].clone());
            i = i + 1;
        }
        assert(names::all_chars(names@) =~= self.chars());
        names
    }

    /// Takes out some item with its name, unless the directory is empty.
    pub fn pop(&mut self) -> (taken: Option<(String, T)>)
        requires
            old(self).wf(),
        ensures
            final(self).wf(),
            match taken {
                Some((name, item)) => {
                    &&& old(self)@.contains_key(name@)
                    &&& old(self)@[name@] == item
                    &&& final(self)@ == old(self)@.remove(name@)
                    &&& final(self)@.dom().len() < old(self)@.dom().len()
                },
                None => {
                    &&& old(self)@ == Map::<Seq<char>, T>::empty()
                    &&& final(self)@ == old(self)@
                },
            },
    {
        let count: usize = self.names.len();
        if count == 0 {
            assert(self@ =~= Map::<Seq<char>, T>::empty());
            return None;
        }
        let name = self.names[count - 1].clone();
        proof {
            self.lemma_at(count - 1);
            self.lemma_finite();
        }
        match self.remove(name.as_str()) {
            Some(item) => Some((name, item)),
            None => None,
        }
    }
}

} // verus!
