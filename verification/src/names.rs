//! The table that binds the names of endpoints to ids.

use vstd::prelude::*;
use crate::path::same_bytes;

verus! {

/// A name and the id it is bound to.
struct Binding {
    name: Vec<u8>,
    id: usize,
}

/// The names of the endpoints, each bound to one id.
pub struct NameTable {
    bindings: Vec<Binding>,
}

/// Whether no name stands twice in `bindings`.
spec fn distinct_names(bindings: Seq<Binding>) -> bool {
    forall|i: int, j: int|
        0 <= i < j < bindings.len() ==> bindings[i].name@ != bindings[j].name@
}

/// Whether `bindings` binds `name`.
spec fn binds(bindings: Seq<Binding>, name: Seq<u8>) -> bool {
    exists|i: int| 0 <= i < bindings.len() && bindings[i].name@ == name
}

/// A place where `bindings` binds `name`.
spec fn place_of(bindings: Seq<Binding>, name: Seq<u8>) -> int {
    choose|i: int| 0 <= i < bindings.len() && bindings[i].name@ == name
}

impl View for NameTable {
    type V = Map<Seq<u8>, usize>;

    closed spec fn view(&self) -> Map<Seq<u8>, usize> {
        Map::new(
            |name: Seq<u8>| binds(self.bindings@, name),
            |name: Seq<u8>| self.bindings@[place_of(self.bindings@, name)].id,
        )
    }
}

impl NameTable {
    /// No name is bound twice.
    pub closed spec fn wf(&self) -> bool {
        distinct_names(self.bindings@)
    }

    /// The table without a name.
    pub fn new() -> (table: Self)
        ensures
            table.wf(),
            table@ == Map::<Seq<u8>, usize>::empty(),
    {
        let table = NameTable { bindings: Vec::new() };
        assert(table@ =~= Map::<Seq<u8>, usize>::empty());
        table
    }

    /// The place of `name` among the bindings, or their number where it is not bound.
    fn find(&self, name: &[u8]) -> (place: usize)
        requires
            self.wf(),
        ensures
            place <= self.bindings@.len(),
            place < self.bindings@.len() ==> self.bindings@[place as int].name@ == name@,
            place == self.bindings@.len() ==> !binds(self.bindings@, name@),
            place < self.bindings@.len() ==> place_of(self.bindings@, name@) == place,
    {
        let mut i: usize = 0;
        while i < self.bindings.len()
            invariant
                i <= self.bindings@.len(),
                forall|j: int| 0 <= j < i ==> self.bindings@[j].name@ != name@,
                distinct_names(self.bindings@),
            decreases self.bindings@.len() - i,
        {
            if same_bytes(self.bindings[i].name.as_slice(), name) {
                proof {
                    let chosen = place_of(self.bindings@, name@);
                    if chosen < i {
                    } else if chosen > i {
                        assert(self.bindings@[i as int].name@ != self.bindings@[chosen].name@);
                    }
                }
                return i;
            }
            i += 1;
        }
        i
    }

    /// The id that `name` is bound to.
    pub fn get(&self, name: &[u8]) -> (id: Option<usize>)
        requires
            self.wf(),
        ensures
            id == if self@.contains_key(name@) {
                Some(self@[name@])
            } else {
                None
            },
    {
        let place = self.find(name);
        if place < self.bindings.len() {
            Some(self.bindings[place].id)
        } else {
            None
        }
    }

    /// Binds `name` to `id`; a binding that `name` had is replaced.
    pub fn insert(&mut self, name: Vec<u8>, id: usize)
        requires
            old(self).wf(),
        ensures
            final(self).wf(),
            final(self)@ == old(self)@.insert(name@, id),
    {
        let place = self.find(name.as_slice());
        let ghost before = self.bindings@;
        let ghost key = name@;
        if place < self.bindings.len() {
            self.bindings.set(place, Binding { name, id });
        } else {
            self.bindings.push(Binding { name, id });
        }
        proof {
            let after = self.bindings@;
            assert(after.len() > place && after[place as int].name@ == key && after[place as int].id
                == id);
            assert forall|i: int, j: int| 0 <= i < j < after.len() implies after[i].name@
                != after[j].name@ by {
                if j == place && place == before.len() {
                    assert(before[i].name@ != key);
                }
            }
            assert forall|n: Seq<u8>| binds(after, n) <==> (n == key || binds(before, n)) by {
                if binds(after, n) {
                    let k = place_of(after, n);
                    if k != place {
                        assert(before[k].name@ == n);
                    }
                }
                if n != key && binds(before, n) {
                    let k = place_of(before, n);
                    assert(after[k].name@ == n);
                }
            }
            assert forall|n: Seq<u8>| binds(after, n) implies #[trigger] self@[n] == old(
                self,
            )@.insert(key, id)[n] by {
                let k = place_of(after, n);
                if n == key {
                    if k != place {
                        assert(after[k].name@ != after[place as int].name@);
                    }
                } else {
                    assert(k != place);
                    assert(before[k].name@ == n);
                    let b = place_of(before, n);
                    if b != k {
                        assert(before[b].name@ != before[k].name@);
                    }
                }
            }
            assert(self@ =~= old(self)@.insert(key, id));
        }
    }

    /// Takes the binding of `name` out, where there is one.
    pub fn remove(&mut self, name: &[u8])
        requires
            old(self).wf(),
        ensures
            final(self).wf(),
            final(self)@ == old(self)@.remove(name@),
    {
        let place = self.find(name);
        let ghost before = self.bindings@;
        if place < self.bindings.len() {
            self.bindings.remove(place);
        }
        proof {
            let after = self.bindings@;
            let key = name@;
            if place < before.len() {
                assert forall|i: int| 0 <= i < after.len() implies after[i] == before[if i
                    < place {
                    i
                } else {
                    i + 1
                }] by {}
                assert forall|i: int, j: int| 0 <= i < j < after.len() implies after[i].name@
                    != after[j].name@ by {
                    let oi = if i < place { i } else { i + 1 };
                    let oj = if j < place { j } else { j + 1 };
                    assert(before[oi].name@ != before[oj].name@);
                }
                assert forall|n: Seq<u8>| binds(after, n) <==> (n != key && binds(before, n)) by {
                    if binds(after, n) {
                        let k = place_of(after, n);
                        let ok = if k < place { k } else { k + 1 };
                        assert(before[ok].name@ == n);
                        if ok < place {
                            assert(before[ok].name@ != before[place as int].name@);
                        } else {
                            assert(before[place as int].name@ != before[ok].name@);
                        }
                    }
                    if n != key && binds(before, n) {
                        let k = place_of(before, n);
                        assert(k != place);
                        let nk = if k < place { k } else { k - 1 };
                        assert(after[nk].name@ == n);
                    }
                }
                assert forall|n: Seq<u8>| binds(after, n) implies #[trigger] self@[n] == old(
                    self,
                )@[n] by {
                    let k = place_of(after, n);
                    let ok = if k < place { k } else { k + 1 };
                    assert(before[ok] == after[k]);
                    let b = place_of(before, n);
                    if b < ok {
                        assert(before[b].name@ != before[ok].name@);
                    } else if b > ok {
                        assert(before[ok].name@ != before[b].name@);
                    }
                }
            }
            assert(self@ =~= old(self)@.remove(key));
        }
    }
}

} // verus!
