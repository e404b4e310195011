use crate::db::text::str_eq;
use vstd::prelude::*;

verus! {

/// A map from names to values that keeps its entries in the order in which
/// their names first came: entry `i` has the name `names[i]` and the value
/// `values[i]`.
#[derive(Debug, PartialEq, Eq, Clone)]
pub struct NameMap<V> {
    pub names: Vec<String>,
    pub values: Vec<V>,
}

impl<V> NameMap<V> {
    /// The names of the entries, in order.
    pub open spec fn names_view(&self) -> Seq<Seq<char>> {
        Seq::new(self.names.len() as nat, |i: int| self.names[i]@)
    }

    /// The invariant of the map: every name has its value, and no name
    /// occurs twice.
    pub open spec fn wf(&self) -> bool {
        &&& self.names.len() == self.values.len()
        &&& forall|i: int, j: int|
            0 <= i < j < self.names.len() ==> self.names[i]@ != self.names[j]@
    }

    /// Whether the map has an entry for `name`.
    pub open spec fn has(&self, name: Seq<char>) -> bool {
        exists|i: int| 0 <= i < self.names.len() && #[trigger] self.names[i]@ == name
    }

    /// The place of the entry for `name`.
    pub open spec fn place(&self, name: Seq<char>) -> int {
        choose|i: int| 0 <= i < self.names.len() && #[trigger] self.names[i]@ == name
    }

    /// In a well-formed map the entry at `i` is the one that `place` finds.
    pub proof fn lemma_place(&self, i: int)
        requires
            self.wf(),
            0 <= i < self.names.len(),
        ensures
            self.has(self.names[i]@),
            self.place(self.names[i]@) == i,
    {
        let name = self.names[i]@;
        let j = self.place(name);
        if j < i {
            assert(self.names[j]@ != self.names[i]@);
        } else if i < j {
            assert(self.names[i]@ != self.names[j]@);
        }
    }

    /// A map without entries.
    pub fn new() -> (map: Self)
        ensures
            map.wf(),
            map.names@.len() == 0,
            map.values@.len() == 0,
    {
        NameMap { names: Vec::new(), values: Vec::new() }
    }

    /// The number of entries.
    pub fn len(&self) -> (count: usize)
        ensures
            count == self.names.len(),
    {
        self.names.len()
    }

    /// The place of the first entry named `name`.
    pub fn position(&self, name: &str) -> (found: Option<usize>)
        ensures
            match found {
                Some(i) => i < self.names.len() && self.names[i as int]@ == name@ && forall|j: int|
                    0 <= j < i ==> self.names[j]@ != name@,
                None => !self.has(name@),
            },
    {
        let mut i: usize = 0;
        while i < self.names.len()
            invariant
                i <= self.names.len(),
                forall|j: int| 0 <= j < i ==> self.names[j]@ != name@,
            decreases self.names.len() - i,
        {
            if str_eq(self.names[i].as_str(), name) {
                return Some(i);
            }
            i += 1;
        }
        None
    }

    /// Whether the map has an entry for `name`.
    pub fn contains_key(&self, name: &str) -> (found: bool)
        ensures
            found == self.has(name@),
    {
        self.position(name).is_some()
    }

    /// The value of the entry for `name`.
    pub fn get(&self, name: &str) -> (found: Option<&V>)
        requires
            self.wf(),
        ensures
            match found {
                Some(value) => self.has(name@) && *value == self.values[self.place(name@)],
                None => !self.has(name@),
            },
    {
        match self.position(name) {
            Some(i) => {
                proof {
                    self.lemma_place(i as int);
                }
                Some(&self.values[i])
            },
            None => None,
        }
    }

    /// Gives `name` the value `value`. A name that the map has keeps its
    /// place, and its former value is returned; a new name is added at the
    /// end.
    pub fn insert(&mut self, name: String, value: V) -> (former: Option<V>)
        requires
            old(self).wf(),
        ensures
            final(self).wf(),
            match former {
                Some(v) => {
                    &&& old(self).has(name@)
                    &&& v == old(self).values[old(self).place(name@)]
                    &&& final(self).names@ == old(self).names@
                    &&& final(self).values@ == old(self).values@.update(
                        old(self).place(name@),
                        value,
                    )
                },
                None => {
                    &&& !old(self).has(name@)
                    &&& final(self).names@ == old(self).names@.push(name)
                    &&& final(self).values@ == old(self).values@.push(value)
                },
            },
    {
        match self.position(name.as_str()) {
            Some(i) => {
                proof {
                    self.lemma_place(i as int);
                }
                self.values.push(value);
                let former = self.values.swap_remove(i);
                proof {
                    assert(self.values@ =~= old(self).values@.update(i as int, value));
                }
                Some(former)
            },
            None => {
                self.names.push(name);
                self.values.push(value);
                None
            },
        }
    }

    /// Whether the map is well formed.
    pub fn is_wf(&self) -> (ok: bool)
        ensures
            ok == self.wf(),
    {
        if self.names.len() != self.values.len() {
            return false;
        }
        let mut j: usize = 0;
        while j < self.names.len()
            invariant
                j <= self.names.len(),
                forall|x: int, y: int| 0 <= x < y < j ==> self.names[x]@ != self.names[y]@,
            decreases self.names.len() - j,
        {
            let mut i: usize = 0;
            while i < j
                invariant
                    i <= j < self.names.len(),
                    forall|x: int| 0 <= x < i ==> self.names[x]@ != self.names[j as int]@,
                decreases j - i,
            {
                if str_eq(self.names[i].as_str(), self.names[j].as_str()) {
                    return false;
                }
                i += 1;
            }
            j += 1;
        }
        true
    }
}

} // verus!
