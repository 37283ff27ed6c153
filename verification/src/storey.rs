//! The name of a storey, and a table with one entry per storey.

use vstd::prelude::*;

verus! {

/// The name that identifies one storey of the building.
#[derive(Clone, Debug, Default, PartialEq, Eq, Hash)]
pub struct MapMarker {
    pub name: String,
}

impl View for MapMarker {
    type V = Seq<char>;

    open spec fn view(&self) -> Seq<char> {
        self.name@
    }
}

impl MapMarker {
    /// The marker of the storey called `name`.
    pub fn named(name: &str) -> (marker: MapMarker)
        ensures
            marker@ == name@,
    {
        MapMarker { name: name.to_owned() }
    }

    /// Whether both markers name the same storey.
    pub fn same(&self, other: &MapMarker) -> (same: bool)
        ensures
            same == (self@ == other@),
    {
        self.name == other.name
    }

    /// A second marker of the same storey.
    pub fn copy(&self) -> (marker: MapMarker)
        ensures
            marker@ == self@,
    {
        MapMarker { name: self.name.clone() }
    }
}

/// One value per storey, each under the storey's marker. No storey occurs
/// twice; the entries stand in the order in which their storeys came in.
///
/// The table is a list and no hash map, so that the rules that go through
/// the storeys take them in one order on every run, and the draws of a
/// seeded generator fall on the same cells.
#[derive(Clone, Debug)]
pub struct StoreyTable<T> {
    pub entries: Vec<(MapMarker, T)>,
}

impl<T> StoreyTable<T> {
    /// No two entries belong to the same storey.
    pub open spec fn wf(&self) -> bool {
        forall|a: int, b: int|
            0 <= a < b < self.entries@.len() ==> (#[trigger] self.entries[a]).0@ != (
            #[trigger] self.entries[b]).0@
    }

    /// The number of storeys in the table.
    pub open spec fn count(&self) -> nat {
        self.entries@.len()
    }

    /// Whether entry `k` is the one of the storey `name`.
    pub open spec fn at(&self, k: int, name: Seq<char>) -> bool {
        0 <= k < self.entries@.len() && self.entries[k].0@ == name
    }

    /// Whether the table has an entry for the storey `name`.
    pub open spec fn has(&self, name: Seq<char>) -> bool {
        exists|k: int| self.at(k, name)
    }

    /// The place of the storey `name` among the entries.
    pub open spec fn place(&self, name: Seq<char>) -> int {
        choose|k: int| self.at(k, name)
    }

    /// The table as a map from the names of the storeys to their values.
    pub open spec fn view(&self) -> Map<Seq<char>, T> {
        Map::new(|name: Seq<char>| self.has(name), |name: Seq<char>| self.entries[self.place(name)].1)
    }

    /// In a table without repeats, the entry of a storey is found at its place.
    pub proof fn lemma_place(&self, k: int, name: Seq<char>)
        requires
            self.wf(),
            self.at(k, name),
        ensures
            self.has(name),
            self.place(name) == k,
            self@.dom().contains(name),
            self@[name] == self.entries[k].1,
    {
        let p = self.place(name);
        assert(self.at(p, name));
        if p < k {
            assert(self.entries[p].0@ != self.entries[k].0@);
        } else if k < p {
            assert(self.entries[k].0@ != self.entries[p].0@);
        }
    }

    /// A table that differs from `before` in the entry `k` alone, which is
    /// new or has taken the place of the entry of the same storey, maps as
    /// `before` does but for that storey.
    proof fn lemma_inserted(&self, before: &Self, k: int)
        requires
            self.wf(),
            before.wf(),
            0 <= k < self.count(),
            before.count() == self.count() || (before.count() + 1 == self.count() && k
                == before.count()),
            k < before.count() ==> before.entries[k].0@ == self.entries[k].0@,
            k == before.count() ==> !before.has(self.entries[k].0@),
            forall|a: int|
                0 <= a < before.count() && a != k ==> #[trigger] self.entries[a] == before.entries[a],
        ensures
            self@ == before@.insert(self.entries[k].0@, self.entries[k].1),
    {
        let name = self.entries[k].0@;
        assert(self.at(k, name));
        self.lemma_place(k, name);
        assert forall|x: Seq<char>| before.has(x) || x == name implies self.has(x) by {
            if x != name {
                let p = before.place(x);
                assert(before.at(p, x));
                assert(self.entries[p] == before.entries[p]);
                assert(self.at(p, x));
            }
        }
        assert forall|x: Seq<char>| self.has(x) && x != name implies before.has(x) && self@[x]
            == before@[x] by {
            let p = self.place(x);
            assert(self.at(p, x));
            assert(self.entries[p] == before.entries[p]);
            assert(before.at(p, x));
            before.lemma_place(p, x);
        }
        assert(self@ =~= before@.insert(name, self.entries[k].1));
    }

    /// Whether every value of the table meets `holds`.
    pub open spec fn all(&self, holds: spec_fn(T) -> bool) -> bool {
        forall|k: int| 0 <= k < self.count() ==> holds((#[trigger] self.entries[k]).1)
    }

    /// In a table without repeats whose values all meet `holds`, the value
    /// of a storey that it has meets `holds`.
    pub proof fn lemma_all(&self, holds: spec_fn(T) -> bool, name: Seq<char>)
        requires
            self.all(holds),
            self.has(name),
        ensures
            holds(self@[name]),
    {
        let p = self.place(name);
        assert(self.at(p, name));
        assert(holds(self.entries[p].1));
    }

    /// A table without storeys.
    pub fn new() -> (table: StoreyTable<T>)
        ensures
            table.wf(),
            table.count() == 0,
    {
        StoreyTable { entries: Vec::new() }
    }

    /// The number of storeys in the table.
    pub fn len(&self) -> (len: usize)
        ensures
            len == self.count(),
    {
        self.entries.len()
    }

    /// The place of the storey of `marker`, if the table has it.
    pub fn find(&self, marker: &MapMarker) -> (found: Option<usize>)
        ensures
            match found {
                Some(k) => self.at(k as int, marker@) && forall|a: int|
                    0 <= a < k ==> !self.at(a, marker@),
                None => !self.has(marker@),
            },
    {
        let mut k: usize = 0;
        while k < self.entries.len()
            invariant
                k <= self.entries@.len(),
                forall|a: int| 0 <= a < k ==> !self.at(a, marker@),
            decreases self.entries@.len() - k,
        {
            if self.entries[k].0.same(marker) {
                return Some(k);
            }
            k += 1;
        }
        None
    }

    /// The value of the storey of `marker`, if the table has it.
    pub fn get(&self, marker: &MapMarker) -> (value: Option<&T>)
        requires
            self.wf(),
        ensures
            match value {
                Some(v) => self.has(marker@) && *v == self@[marker@],
                None => !self.has(marker@),
            },
    {
        match self.find(marker) {
            Some(k) => {
                proof {
                    self.lemma_place(k as int, marker@);
                }
                Some(&self.entries[k].1)
            },
            None => None,
        }
    }

    /// Puts `value` under `marker`: in place of the value that the storey
    /// had, or behind the entries of the other storeys.
    pub fn insert(&mut self, marker: MapMarker, value: T)
        requires
            old(self).wf(),
        ensures
            final(self).wf(),
            final(self).has(marker@),
            final(self)@ == old(self)@.insert(marker@, value),
            final(self).entries[final(self).place(marker@)].1 == value,
            old(self).has(marker@) ==> final(self).count() == old(self).count()
                && final(self).place(marker@) == old(self).place(marker@),
            !old(self).has(marker@) ==> final(self).count() == old(self).count() + 1
                && final(self).place(marker@) == old(self).count(),
            forall|k: int|
                0 <= k < old(self).count() && old(self).entries[k].0@ != marker@
                    ==> (#[trigger] final(self).entries[k]) == old(self).entries[k],
            forall|k: int|
                0 <= k < old(self).count()
                    ==> (#[trigger] final(self).entries[k]).0@ == old(self).entries[k].0@,
            forall|k: int|
                0 <= k < final(self).count() ==> k
                    == final(self).place(marker@) || (k < old(self).count()
                    && #[trigger] final(self).entries[k] == old(self).entries[k]),
    {
        match self.find(&marker) {
            Some(k) => {
                proof {
                    self.lemma_place(k as int, marker@);
                }
                self.entries[k] = (marker, value);
                proof {
                    assert(self.at(k as int, marker@));
                    self.lemma_place(k as int, marker@);
                    self.lemma_inserted(old(self), k as int);
                }
            },
            None => {
                let ghost n = self.entries@.len() as int;
                self.entries.push((marker, value));
                proof {
                    assert forall|a: int, b: int| 0 <= a < b < self.entries@.len() implies (
                    #[trigger] self.entries[a]).0@ != (#[trigger] self.entries[b]).0@ by {
                        if b == n {
                            assert(!old(self).at(a, marker@));
                        } else {
                            assert(self.entries[a] == old(self).entries[a]);
                            assert(self.entries[b] == old(self).entries[b]);
                        }
                    }
                    assert(self.at(n, marker@));
                    self.lemma_place(n, marker@);
                    self.lemma_inserted(old(self), n);
                }
            },
        }
    }

    /// Takes the entry of the storey of `marker` out, if there is one. The
    /// other entries keep their order.
    pub fn remove(&mut self, marker: &MapMarker) -> (removed: Option<T>)
        requires
            old(self).wf(),
        ensures
            final(self).wf(),
            !final(self).has(marker@),
            match removed {
                Some(value) => old(self).has(marker@) && value == old(self)@[marker@]
                    && final(self).entries@ == old(self).entries@.remove(old(self).place(marker@)),
                None => !old(self).has(marker@) && final(self).entries@ == old(self).entries@,
            },
    {
        match self.find(marker) {
            Some(k) => {
                proof {
                    self.lemma_place(k as int, marker@);
                }
                let entry = self.entries.remove(k);
                proof {
                    assert forall|a: int| !self.at(a, marker@) by {
                        if 0 <= a < self.entries@.len() {
                            if a < k {
                                assert(self.entries[a] == old(self).entries[a]);
                                assert(old(self).entries[a].0@ != old(self).entries[k as int].0@);
                            } else {
                                assert(self.entries[a] == old(self).entries[a + 1]);
                                assert(old(self).entries[k as int].0@ != old(self).entries[a + 1].0@);
                            }
                        }
                    }
                    assert forall|a: int, b: int| 0 <= a < b < self.entries@.len() implies (
                    #[trigger] self.entries[a]).0@ != (#[trigger] self.entries[b]).0@ by {
                        let a0 = if a < k { a } else { a + 1 };
                        let b0 = if b < k { b } else { b + 1 };
                        assert(self.entries[a] == old(self).entries[a0]);
                        assert(self.entries[b] == old(self).entries[b0]);
                        assert(old(self).entries[a0].0@ != old(self).entries[b0].0@);
                    }
                }
                Some(entry.1)
            },
            None => None,
        }
    }
}

} // verus!
