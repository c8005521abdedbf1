//! Tables of named definitions.

use vstd::prelude::*;

verus! {

/// Values that can be copied faithfully.
pub trait Replica: View + Sized {
    fn replica(&self) -> (r: Self)
        ensures
            r@ == self@,
    ;
}

/// What an optional text says.
pub open spec fn text(o: Option<String>) -> Option<Seq<char>> {
    match o {
        Some(s) => Some(s@),
        None => None,
    }
}

/// A copy of an optional text.
pub fn copy_text(o: &Option<String>) -> (r: Option<String>)
    ensures
        text(r) == text(*o),
{
    match o {
        Some(s) => Some(s.clone()),
        None => None,
    }
}

/// A copy of a list of plain values.
pub fn copy_list<T: Copy>(list: &Vec<T>) -> (r: Vec<T>)
    ensures
        r@ == list@,
{
    let mut out: Vec<T> = Vec::new();
    let mut i: usize = 0;
    while i < list.len()
        invariant
            i <= list.len(),
            out@ == list@.take(i as int),
        decreases list.len() - i,
    {
        out.push(list[i]);
        i = i + 1;
        assert(list@.take(i as int) == list@.take(i - 1).push(list@[i - 1]));
    }
    assert(list@.take(i as int) == list@);
    out
}

/// Definitions by name, in the order in which their names first came.
pub struct Table<V> {
    entries: Vec<(String, V)>,
}

/// Whether a list of names holds exactly the names of a table.
pub open spec fn lists<V>(order: Seq<Seq<char>>, table: Map<Seq<char>, V>) -> bool {
    &&& forall|i: int| 0 <= i < order.len() ==> table.dom().contains(#[trigger] order[i])
    &&& forall|name: Seq<char>| #[trigger]
        table.dom().contains(name) ==> exists|i: int| 0 <= i < order.len() && #[trigger] order[i] == name
}

impl<V> Table<V> {
    /// No name comes twice.
    #[verifier::type_invariant]
    spec fn sound(self) -> bool {
        forall|i: int, j: int|
            0 <= i < j < self.entries@.len() ==> (#[trigger] self.entries@[i]).0@
                != (#[trigger] self.entries@[j]).0@
    }

    /// A name stands at a position.
    spec fn at(self, name: Seq<char>, i: int) -> bool {
        0 <= i < self.entries@.len() && self.entries@[i].0@ == name
    }

    /// The names, in order.
    pub closed spec fn order(self) -> Seq<Seq<char>> {
        Seq::new(self.entries@.len(), |i: int| self.entries@[i].0@)
    }
}

impl<V: View> View for Table<V> {
    type V = Map<Seq<char>, V::V>;

    closed spec fn view(&self) -> Map<Seq<char>, V::V> {
        Map::new(
            |name: Seq<char>| exists|i: int| self.at(name, i),
            |name: Seq<char>| self.entries@[choose|i: int| self.at(name, i)].1@,
        )
    }
}

impl<V: View> Table<V> {
    /// What the view says at the `i`th name.
    proof fn lemma_at(&self, i: int)
        requires
            self.sound(),
            0 <= i < self.entries@.len(),
        ensures
            self@.dom().contains(self.entries@[i].0@),
            self@[self.entries@[i].0@] == self.entries@[i].1@,
    {
        let name: Seq<char> = self.entries@[i].0@;
        assert(self.at(name, i));
        let j: int = choose|j: int| self.at(name, j);
        assert(self.at(name, j));
        assert(i == j);
    }

    proof fn lemma_lists(&self)
        requires
            self.sound(),
        ensures
            lists(self.order(), self@),
    {
        assert forall|i: int| 0 <= i < self.order().len() implies self@.dom().contains(
            #[trigger] self.order()[i],
        ) by {
            self.lemma_at(i);
        }
        assert forall|name: Seq<char>| #[trigger] self@.dom().contains(name) implies exists|i: int|
            0 <= i < self.order().len() && #[trigger] self.order()[i] == name by {
            let i: int = choose|i: int| self.at(name, i);
            assert(self.order()[i] == name);
        }
    }

    pub fn new() -> (r: Self)
        ensures
            r@ == Map::<Seq<char>, V::V>::empty(),
            r.order().len() == 0,
    {
        let r = Table { entries: Vec::new() };
        assert(r@ =~= Map::<Seq<char>, V::V>::empty());
        r
    }

    /// How many names there are.
    pub fn len(&self) -> (n: usize)
        ensures
            n == self.order().len(),
            lists(self.order(), self@),
    {
        proof {
            use_type_invariant(self);
            self.lemma_lists();
        }
        self.entries.len()
    }

    fn find(&self, name: &str) -> (r: Option<usize>)
        ensures
            match r {
                Some(i) => self.at(name@, i as int),
                None => forall|i: int| !self.at(name@, i),
            },
    {
        let key: String = name.to_owned();
        let mut i: usize = 0;
        while i < self.entries.len()
            invariant
                key@ == name@,
                i <= self.entries.len(),
                forall|j: int| 0 <= j < i ==> !self.at(name@, j),
            decreases self.entries.len() - i,
        {
            if self.entries[i].0 == key {
                return Some(i);
            }
            i = i + 1;
        }
        None
    }

    pub fn contains_key(&self, name: &str) -> (r: bool)
        ensures
            r == self@.dom().contains(name@),
    {
        let found = self.find(name);
        match found {
            Some(_) => true,
            None => false,
        }
    }

    pub fn get(&self, name: &str) -> (r: Option<&V>)
        ensures
            match r {
                Some(v) => self@.dom().contains(name@) && v@ == self@[name@],
                None => !self@.dom().contains(name@),
            },
    {
        let found = self.find(name);
        match found {
            Some(i) => {
                proof {
                    use_type_invariant(self);
                    self.lemma_at(i as int);
                }
                Some(&self.entries[i].1)
            },
            None => None,
        }
    }

    /// The `i`th definition.
    pub fn entry(&self, i: usize) -> (r: (&String, &V))
        requires
            i < self.order().len(),
        ensures
            r.0@ == self.order()[i as int],
            self@.dom().contains(r.0@),
            r.1@ == self@[r.0@],
    {
        proof {
            use_type_invariant(self);
            self.lemma_at(i as int);
        }
        (&self.entries[i].0, &self.entries[i].1)
    }

    /// Defines a name, in place of what it may have stood for.
    pub fn insert(&mut self, name: String, value: V)
        ensures
            final(self)@ == old(self)@.insert(name@, value@),
            final(self).order() == if old(self)@.dom().contains(name@) {
                old(self).order()
            } else {
                old(self).order().push(name@)
            },
    {
        let ghost before = *self;
        proof {
            use_type_invariant(&*self);
            before.lemma_lists();
        }
        let found = self.find(name.as_str());
        let mut entries: Vec<(String, V)> = Vec::new();
        std::mem::swap(&mut entries, &mut self.entries);
        let ghost last: int = match found {
            Some(i) => i as int,
            None => entries@.len() as int,
        };
        match found {
            Some(i) => {
                entries.set(i, (name, value));
            },
            None => {
                entries.push((name, value));
            },
        }
        assert forall|i: int, j: int| 0 <= i < j < entries@.len() implies (#[trigger] entries@[i]).0@ != (
        #[trigger] entries@[j]).0@ by {
            assert(i != last ==> entries@[i] == before.entries@[i]);
            assert(j != last ==> entries@[j] == before.entries@[j]);
            assert(found is None ==> !before.at(name@, i));
        }
        self.entries = entries;
        proof {
            let after = *self;
            assert forall|i: int| 0 <= i < entries@.len() && i != last implies #[trigger] entries@[i]
                == before.entries@[i] by {}
            after.lemma_lists();
            after.lemma_at(last);
            assert(before.at(name@, last) <==> found is Some);
            if found is Some {
                assert(before.order()[last] == name@);
            } else if before@.dom().contains(name@) {
                let i: int = choose|i: int| 0 <= i < before.order().len() && #[trigger] before.order()[i] == name@;
                assert(before.at(name@, i));
            }
            assert(after.order() =~= if before@.dom().contains(name@) {
                before.order()
            } else {
                before.order().push(name@)
            });
            assert forall|key: Seq<char>| #[trigger] after@.dom().contains(key) implies key == name@
                || before@.dom().contains(key) by {
                if key != name@ {
                    let i: int = choose|i: int| after.at(key, i);
                    assert(after.at(key, i));
                    before.lemma_at(i);
                }
            }
            assert forall|key: Seq<char>| #[trigger] before@.dom().contains(key) && key != name@ implies
                after@.dom().contains(key) && after@[key] == before@[key] by {
                let i: int = choose|i: int| before.at(key, i);
                assert(before.at(key, i));
                before.lemma_at(i);
                after.lemma_at(i);
            }
            assert(after@ =~= before@.insert(name@, value@));
        }
    }
}

impl<V: Replica> Table<V> {
    /// Takes over the definitions of another table, which win where both
    /// define a name.
    pub fn extend(&mut self, other: &Table<V>)
        ensures
            final(self)@ == old(self)@.union_prefer_right(other@),
    {
        let ghost before = self@;
        let n: usize = other.len();
        let mut i: usize = 0;
        while i < n
            invariant
                i <= n,
                n == other.order().len(),
                lists(other.order(), other@),
                forall|key: Seq<char>| #[trigger]
                    self@.dom().contains(key) <==> before.dom().contains(key) || exists|j: int|
                        0 <= j < i && #[trigger] other.order()[j] == key,
                forall|key: Seq<char>| #[trigger]
                    self@.dom().contains(key) ==> self@[key] == if exists|j: int|
                        0 <= j < i && #[trigger] other.order()[j] == key {
                        other@[key]
                    } else {
                        before[key]
                    },
            decreases n - i,
        {
            let (name, value) = other.entry(i);
            let ghost mid = self@;
            self.insert(name.clone(), value.replica());
            assert forall|key: Seq<char>| #[trigger] self@.dom().contains(key) implies (
            before.dom().contains(key) || exists|j: int|
                0 <= j < i + 1 && #[trigger] other.order()[j] == key) && self@[key] == (if exists|j: int|
                0 <= j < i + 1 && #[trigger] other.order()[j] == key {
                other@[key]
            } else {
                before[key]
            }) by {
                if key == name@ {
                    assert(other.order()[i as int] == key);
                } else {
                    assert(mid.dom().contains(key));
                    if exists|j: int| 0 <= j < i && #[trigger] other.order()[j] == key {
                        let j: int = choose|j: int| 0 <= j < i && #[trigger] other.order()[j] == key;
                        assert(other.order()[j] == key && j < i + 1);
                    }
                }
            }
            assert forall|key: Seq<char>|
                before.dom().contains(key) || exists|j: int|
                    0 <= j < i + 1 && #[trigger] other.order()[j] == key implies #[trigger] self@.dom().contains(
                key,
            ) by {
                if key != name@ {
                    if exists|j: int| 0 <= j < i + 1 && #[trigger] other.order()[j] == key {
                        let j: int = choose|j: int| 0 <= j < i + 1 && #[trigger] other.order()[j] == key;
                        assert(j != i);
                        assert(other.order()[j] == key && 0 <= j < i);
                    }
                    assert(mid.dom().contains(key));
                }
            }
            i = i + 1;
        }
        assert(self@ =~= before.union_prefer_right(other@));
    }
}

impl<V: Replica> Replica for Table<V> {
    fn replica(&self) -> (r: Self) {
        let mut out: Table<V> = Table::new();
        out.extend(self);
        assert(out@ =~= self@);
        out
    }
}

} // verus!
