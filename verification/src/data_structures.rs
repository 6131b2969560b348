use vstd::prelude::*;

verus! {

/// A set of numbers below a fixed capacity, with constant-time insertion, removal and
/// membership: the members in a list, and for every number its place in the list.
pub struct IndexSet {
    values: Vec<usize>,
    positions: Vec<Option<usize>>,
}

impl View for IndexSet {
    type V = Set<usize>;

    closed spec fn view(&self) -> Set<usize> {
        self.values@.to_set()
    }
}

impl IndexSet {
    /// Numbers below the capacity can be members.
    pub closed spec fn capacity(&self) -> nat {
        self.positions@.len()
    }

    /// The members, in the order they are stored.
    pub closed spec fn members(&self) -> Seq<usize> {
        self.values@
    }

    pub closed spec fn wf(&self) -> bool {
        &&& forall|i: int| 0 <= i < self.values@.len() ==> {
            &&& (#[trigger] self.values@[i]) < self.positions@.len()
            &&& self.positions@[self.values@[i] as int] == Some(i as usize)
        }
        &&& forall|v: int| 0 <= v < self.positions@.len() ==> match #[trigger] self.positions@[v] {
            Some(i) => i < self.values@.len() && self.values@[i as int] == v,
            None => true,
        }
    }

    /// The stored list holds every member once, and nothing else.
    pub proof fn lemma_members(&self)
        requires
            self.wf(),
        ensures
            self.members().no_duplicates(),
            self.members().to_set() == self@,
            self.members().len() == self@.len(),
            forall|v: usize| #[trigger] self@.contains(v) ==> v < self.capacity(),
    {
        assert forall|i: int, j: int| 0 <= i < self.values@.len() && 0 <= j < self.values@.len() && i != j implies
            #[trigger] self.values@[i] != #[trigger] self.values@[j] by {
            if self.values@[i] == self.values@[j] {
                assert(self.positions@[self.values@[i] as int] == Some(i as usize));
                assert(self.positions@[self.values@[j] as int] == Some(j as usize));
                assert(self.values@.len() == self.values.len());
                assert(i as usize == i);
                assert(j as usize == j);
            }
        }
        self.values@.unique_seq_to_set();
        assert forall|v: usize| #[trigger] self@.contains(v) implies v < self.capacity() by {
            let i = choose|i: int| 0 <= i < self.values@.len() && self.values@[i] == v;
        }
    }

    /// Membership is what the place table says.
    proof fn lemma_contains(&self, v: usize)
        requires
            self.wf(),
            v < self.capacity(),
        ensures
            self@.contains(v) == (self.positions@[v as int] is Some),
    {
        if self@.contains(v) {
            let i = choose|i: int| 0 <= i < self.values@.len() && self.values@[i] == v;
            assert(self.positions@[self.values@[i] as int] == Some(i as usize));
        }
        if self.positions@[v as int] is Some {
            let i = self.positions@[v as int]->0;
            assert(self.values@[i as int] == v);
        }
    }

    /// The empty set with capacity `n`.
    pub fn new(n: usize) -> (s: IndexSet)
        ensures
            s.wf(),
            s.capacity() == n,
            s@ == Set::<usize>::empty(),
    {
        let mut positions: Vec<Option<usize>> = Vec::new();
        let mut i: usize = 0;
        while i < n
            invariant
                i <= n,
                positions@.len() == i,
                forall|j: int| 0 <= j < i ==> #[trigger] positions@[j] is None,
            decreases n - i,
        {
            positions.push(None);
            i += 1;
        }
        let s = IndexSet { values: Vec::new(), positions };
        assert(s@ =~= Set::<usize>::empty());
        s
    }

    /// Adds `v`, which must not be a member yet.
    pub fn add(&mut self, v: usize)
        requires
            old(self).wf(),
            v < old(self).capacity(),
            !old(self)@.contains(v),
        ensures
            final(self).wf(),
            final(self).capacity() == old(self).capacity(),
            final(self)@ == old(self)@.insert(v),
    {
        proof {
            self.lemma_contains(v);
        }
        let ghost old_values = self.values@;
        let pos = self.values.len();
        self.positions.set(v, Some(pos));
        self.values.push(v);
        proof {
            assert forall|i: int| 0 <= i < self.values@.len() implies {
                &&& (#[trigger] self.values@[i]) < self.positions@.len()
                &&& self.positions@[self.values@[i] as int] == Some(i as usize)
            } by {
                if i < old_values.len() {
                    assert(self.values@[i] == old_values[i]);
                    if old_values[i] == v {
                        assert(old(self)@.contains(v));
                    }
                }
            }
            assert(self.values@ =~= old_values.push(v));
            assert forall|w: usize| #[trigger] self@.contains(w) == old(self)@.insert(v).contains(w) by {
                if self@.contains(w) && w != v {
                    let i = choose|i: int| 0 <= i < self.values@.len() && self.values@[i] == w;
                    assert(i < old_values.len());
                    assert(old_values[i] == w);
                }
                if old(self)@.contains(w) {
                    let i = choose|i: int| 0 <= i < old_values.len() && old_values[i] == w;
                    assert(self.values@[i] == w);
                }
                if w == v {
                    assert(self.values@[old_values.len() as int] == v);
                }
            }
            assert(self@ =~= old(self)@.insert(v));
        }
    }

    /// Removes `v`, which must be a member: the last stored member takes its place.
    pub fn remove(&mut self, v: usize)
        requires
            old(self).wf(),
            old(self)@.contains(v),
        ensures
            final(self).wf(),
            final(self).capacity() == old(self).capacity(),
            final(self)@ == old(self)@.remove(v),
    {
        proof {
            self.lemma_members();
            self.lemma_contains(v);
        }
        let ghost old_values = self.values@;
        let index = match self.positions[v] {
            Some(i) => i,
            None => 0,
        };
        let last = self.values[self.values.len() - 1];
        self.values.swap_remove(index);
        if last != v {
            self.positions.set(last, Some(index));
        }
        self.positions.set(v, None);
        proof {
            let n = old_values.len();
            assert(old_values[index as int] == v);
            assert forall|i: int| 0 <= i < self.values@.len() implies {
                &&& (#[trigger] self.values@[i]) < self.positions@.len()
                &&& self.positions@[self.values@[i] as int] == Some(i as usize)
            } by {
                if i == index {
                    assert(self.values@[i] == last);
                    assert(last != v) by {
                        assert(old_values[n - 1] == last);
                        assert(old(self).positions@[last as int] == Some((n - 1) as usize));
                    }
                } else {
                    assert(self.values@[i] == old_values[i]);
                    assert(old_values[i] != v);
                    assert(old_values[i] != last) by {
                        assert(old_values[n - 1] == last);
                    }
                }
            }
            assert forall|w: int| 0 <= w < self.positions@.len() implies match #[trigger] self.positions@[w] {
                Some(i) => i < self.values@.len() && self.values@[i as int] == w,
                None => true,
            } by {
                if w == v {
                } else if w == last {
                    assert(old_values[n - 1] == last);
                } else {
                    match old(self).positions@[w] {
                        Some(i) => {
                            assert(old_values[i as int] == w);
                            assert(i != index);
                            assert(i != n - 1);
                            assert(self.values@[i as int] == w);
                        },
                        None => {},
                    }
                }
            }
            assert forall|w: usize| #[trigger] self@.contains(w) == old(self)@.remove(v).contains(w) by {
                if self@.contains(w) {
                    let i = choose|i: int| 0 <= i < self.values@.len() && self.values@[i] == w;
                    if i == index {
                        assert(old_values[n - 1] == w);
                    } else {
                        assert(old_values[i] == w);
                    }
                    assert(w != v);
                }
                if old(self)@.remove(v).contains(w) {
                    let i = choose|i: int| 0 <= i < old_values.len() && old_values[i] == w;
                    if i == n - 1 {
                        assert(self.values@[index as int] == w);
                    } else {
                        assert(i != index);
                        assert(self.values@[i] == w);
                    }
                }
            }
            assert(self@ =~= old(self)@.remove(v));
        }
    }

    /// Whether `v` is a member.
    pub fn contains(&self, v: usize) -> (b: bool)
        requires
            self.wf(),
            v < self.capacity(),
        ensures
            b == self@.contains(v),
    {
        proof {
            self.lemma_contains(v);
        }
        self.positions[v].is_some()
    }

    /// The number of members.
    pub fn len(&self) -> (n: usize)
        requires
            self.wf(),
        ensures
            n == self@.len(),
    {
        proof {
            self.lemma_members();
        }
        self.values.len()
    }

    /// The members, each once, in the order they are stored.
    pub fn to_vec(&self) -> (v: Vec<usize>)
        requires
            self.wf(),
        ensures
            v@ == self.members(),
            v@.no_duplicates(),
            v@.to_set() == self@,
    {
        proof {
            self.lemma_members();
        }
        let v = self.values.clone();
        assert(v@ =~= self.values@);
        v
    }
}

/// Removing a number right after adding it, or adding it back right after removing it,
/// gives back the set it started from.
pub proof fn law_add_remove(s: Set<usize>, v: usize)
    ensures
        !s.contains(v) ==> s.insert(v).remove(v) == s,
        s.contains(v) ==> s.remove(v).insert(v) == s,
{
    if !s.contains(v) {
        assert(s.insert(v).remove(v) =~= s);
    } else {
        assert(s.remove(v).insert(v) =~= s);
    }
}

} // verus!
