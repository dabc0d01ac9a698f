use vstd::prelude::*;

verus! {

/// Named fields kept in the order in which their names were first
/// registered. Registering a name again replaces its field, so a registry
/// built by `new` and `insert` holds each name once.
pub struct FieldRegistry<F> {
    entries: Vec<(String, F)>,
}

impl<F> FieldRegistry<F> {
    /// The registered names and their fields, in registration order.
    pub closed spec fn entries(&self) -> Seq<(Seq<char>, F)> {
        self.entries@.map_values(|e: (String, F)| (e.0@, e.1))
    }

    /// No name is registered twice.
    pub open spec fn names_unique(&self) -> bool {
        forall|i: int, j: int|
            0 <= i < j < self.entries().len() ==> #[trigger] self.entries()[i].0
                != #[trigger] self.entries()[j].0
    }

    /// Whether `name` is registered.
    pub open spec fn has(&self, name: Seq<char>) -> bool {
        exists|i: int| 0 <= i < self.entries().len() && #[trigger] self.entries()[i].0 == name
    }

    /// Position `i` is the first that holds `name`.
    pub open spec fn first_holder(&self, name: Seq<char>, i: int) -> bool {
        &&& 0 <= i < self.entries().len()
        &&& self.entries()[i].0 == name
        &&& forall|j: int| 0 <= j < i ==> #[trigger] self.entries()[j].0 != name
    }

    /// The position of `name` among the entries (meaningful when registered).
    pub open spec fn position_spec(&self, name: Seq<char>) -> int {
        choose|i: int| self.first_holder(name, i)
    }

    /// The field registered under `name`, if any.
    pub open spec fn lookup(&self, name: Seq<char>) -> Option<F> {
        if self.has(name) {
            Some(self.entries()[self.position_spec(name)].1)
        } else {
            None
        }
    }

    /// A registered name has a first position, and that position is the
    /// one that `position_spec` names.
    proof fn lemma_first_holder(&self, name: Seq<char>, i: int)
        requires
            0 <= i < self.entries().len(),
            self.entries()[i].0 == name,
        ensures
            self.has(name),
            self.first_holder(name, self.position_spec(name)),
            self.position_spec(name) <= i,
        decreases i,
    {
        if exists|j: int| 0 <= j < i && #[trigger] self.entries()[j].0 == name {
            let j = choose|j: int| 0 <= j < i && #[trigger] self.entries()[j].0 == name;
            self.lemma_first_holder(name, j);
        } else {
            assert(self.first_holder(name, i));
        }
        let p = self.position_spec(name);
        if p > i {
            assert(self.entries()[i].0 != name);
        }
    }

    /// Two registries that hold `name` at the same positions, with the same
    /// field at the first of them, give the same field for it.
    proof fn lemma_same_lookup(&self, other: &Self, name: Seq<char>)
        requires
            forall|i: int|
                (0 <= i < self.entries().len() && #[trigger] self.entries()[i].0 == name) <==> (0
                    <= i < other.entries().len() && other.entries()[i].0 == name),
            forall|i: int|
                0 <= i < self.entries().len() && #[trigger] self.entries()[i].0 == name ==> (0 <= i
                    < other.entries().len() && other.entries()[i].1 == self.entries()[i].1),
        ensures
            self.lookup(name) == other.lookup(name),
    {
        if self.has(name) {
            let i = choose|i: int| 0 <= i < self.entries().len() && #[trigger] self.entries()[i].0 == name;
            self.lemma_first_holder(name, i);
            assert(other.entries()[i].0 == name);
            other.lemma_first_holder(name, i);
            let p = self.position_spec(name);
            let q = other.position_spec(name);
            assert(self.entries()[q].0 == name);
            assert(other.entries()[p].0 == name);
            assert(p == q);
        } else if other.has(name) {
            let i = choose|i: int| 0 <= i < other.entries().len() && #[trigger] other.entries()[i].0 == name;
            assert(self.entries()[i].0 == name);
        }
    }

    /// An empty registry.
    pub fn new() -> (r: Self)
        ensures
            r.entries().len() == 0,
            r.names_unique(),
    {
        let r = FieldRegistry { entries: Vec::new() };
        assert(r.entries() =~= Seq::empty());
        r
    }

    /// Number of registered names.
    pub fn len(&self) -> (n: usize)
        ensures
            n == self.entries().len(),
    {
        self.entries.len()
    }

    /// Where `name` is registered, or `None` when it is not.
    pub fn position(&self, name: &str) -> (r: Option<usize>)
        ensures
            r is Some <==> self.has(name@),
            r matches Some(i) ==> i == self.position_spec(name@) && self.first_holder(
                name@,
                i as int,
            ),
    {
        let key = name.to_owned();
        let mut i: usize = 0;
        while i < self.entries.len()
            invariant
                key@ == name@,
                i <= self.entries().len(),
                self.entries().len() == self.entries@.len(),
                forall|j: int| 0 <= j < i ==> #[trigger] self.entries()[j].0 != name@,
            decreases self.entries@.len() - i,
        {
            assert(self.entries()[i as int].0 == self.entries@[i as int].0@);
            if self.entries[i].0 == key {
                proof {
                    self.lemma_first_holder(name@, i as int);
                }
                return Some(i);
            }
            i += 1;
        }
        None
    }

    /// Registers `field` under `name`: where the name is registered its
    /// field is replaced in place, else the name is appended. Every other
    /// name keeps its field, and a registry without repeated names stays so.
    pub fn insert(&mut self, name: &str, field: F)
        ensures
            old(self).has(name@) ==> final(self).entries() == old(self).entries().update(
                old(self).position_spec(name@),
                (name@, field),
            ),
            !old(self).has(name@) ==> final(self).entries() == old(self).entries().push(
                (name@, field),
            ),
            final(self).lookup(name@) == Some(field),
            forall|other: Seq<char>|
                other != name@ ==> #[trigger] final(self).lookup(other) == old(self).lookup(other),
            final(self).entries().len() == old(self).entries().len() + (if old(self).has(name@) {
                0int
            } else {
                1int
            }),
            old(self).names_unique() ==> final(self).names_unique(),
    {
        let ghost before = self.entries();
        let key = name.to_owned();
        match self.position(name) {
            Some(i) => {
                self.entries.set(i, (key, field));
                proof {
                    assert(self.entries() =~= before.update(i as int, (name@, field)));
                    self.lemma_first_holder(name@, i as int);
                    assert(self.first_holder(name@, i as int));
                    let p = self.position_spec(name@);
                    assert(self.entries()[p].0 == name@);
                    assert(p == i);
                }
            },
            None => {
                self.entries.push((key, field));
                proof {
                    assert(self.entries() =~= before.push((name@, field)));
                    let n = before.len() as int;
                    assert(self.entries()[n].0 == name@);
                    self.lemma_first_holder(name@, n);
                    let p = self.position_spec(name@);
                    assert(self.entries()[p].0 == name@);
                    if p < n {
                        assert(old(self).entries()[p].0 == name@);
                    }
                }
            },
        }
        proof {
            assert forall|other: Seq<char>| other != name@ implies #[trigger] self.lookup(other)
                == old(self).lookup(other) by {
                old(self).lemma_same_lookup(self, other);
            }
            if old(self).names_unique() {
                assert forall|a: int, b: int|
                    0 <= a < b < self.entries().len() implies #[trigger] self.entries()[a].0
                    != #[trigger] self.entries()[b].0 by {
                    if b < before.len() {
                        assert(before[a].0 != before[b].0);
                    } else {
                        assert(self.entries()[b].0 == name@);
                        assert(before[a].0 == self.entries()[a].0);
                    }
                }
            }
        }
    }

    /// The field registered under `name`, or `None` when the name is not
    /// registered.
    pub fn get(&self, name: &str) -> (r: Option<&F>)
        ensures
            r is Some <==> self.has(name@),
            r matches Some(f) ==> self.lookup(name@) == Some(*f),
    {
        match self.position(name) {
            Some(i) => Some(&self.entries[i].1),
            None => None,
        }
    }

    /// The name registered at position `i`.
    pub fn name_at(&self, i: usize) -> (s: &String)
        requires
            i < self.entries().len(),
        ensures
            s@ == self.entries()[i as int].0,
    {
        &self.entries[i].0
    }

    /// The field registered at position `i`.
    pub fn field_at(&self, i: usize) -> (f: &F)
        requires
            i < self.entries().len(),
        ensures
            *f == self.entries()[i as int].1,
    {
        &self.entries[i].1
    }

    /// The field registered at position `i`, to be changed in place; the
    /// names stay as they are.
    pub fn field_at_mut(&mut self, i: usize) -> (f: &mut F)
        requires
            i < old(self).entries().len(),
        ensures
            *f == old(self).entries()[i as int].1,
            final(self).entries() == old(self).entries().update(
                i as int,
                (old(self).entries()[i as int].0, *final(f)),
            ),
    {
        &mut self.entries[i].1
    }
}

} // verus!
