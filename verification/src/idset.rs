//! Finite sets of identifiers, kept in a vector without repetition.

use vstd::prelude::*;

verus! {

/// A finite set of identifiers. The identifiers stand in the order in which
/// they came in; none stands twice.
#[derive(Debug)]
pub struct IdSet {
    ids: Vec<u64>,
}

impl View for IdSet {
    type V = Set<u64>;

    closed spec fn view(&self) -> Set<u64> {
        self.ids@.to_set()
    }
}

impl IdSet {
    /// No identifier stands twice.
    pub closed spec fn wf(&self) -> bool {
        self.ids@.no_duplicates()
    }

    /// The identifiers in the order in which they are kept.
    pub closed spec fn members(&self) -> Seq<u64> {
        self.ids@
    }

    /// `members` lists the set, each element once.
    pub proof fn lemma_members(&self)
        ensures
            self.wf() <==> self.members().no_duplicates(),
            self@ == self.members().to_set(),
            self@.finite(),
            self.wf() ==> self@.len() == self.members().len(),
    {
        vstd::seq_lib::seq_to_set_is_finite(self.ids@);
        if self.wf() {
            self.ids@.unique_seq_to_set();
        }
    }

    pub fn new() -> (s: IdSet)
        ensures
            s.wf(),
            s@ == Set::<u64>::empty(),
            s.members().len() == 0,
    {
        let s = IdSet { ids: Vec::new() };
        assert(s.ids@.to_set() =~= Set::<u64>::empty());
        s
    }

    pub fn len(&self) -> (n: usize)
        ensures
            n == self.members().len(),
    {
        self.ids.len()
    }

    pub fn is_empty(&self) -> (b: bool)
        ensures
            b == (self.members().len() == 0),
            b == (self@ == Set::<u64>::empty()),
    {
        proof {
            if self.ids@.len() == 0 {
                assert(self.ids@.to_set() =~= Set::<u64>::empty());
            } else {
                assert(self.ids@.contains(self.ids@[0]));
                assert(self.ids@.to_set().contains(self.ids@[0]));
            }
        }
        self.ids.len() == 0
    }

    /// The identifier at place `i`.
    pub fn get(&self, i: usize) -> (x: u64)
        requires
            i < self.members().len(),
        ensures
            x == self.members()[i as int],
            self@.contains(x),
    {
        assert(self.ids@.contains(self.ids@[i as int]));
        self.ids[i]
    }

    fn position(&self, x: u64) -> (r: Option<usize>)
        ensures
            match r {
                Some(i) => i < self.ids@.len() && self.ids@[i as int] == x,
                None => !self.ids@.contains(x),
            },
    {
        let mut i: usize = 0;
        while i < self.ids.len()
            invariant
                i <= self.ids@.len(),
                forall|j: int| 0 <= j < i ==> self.ids@[j] != x,
            decreases self.ids@.len() - i,
        {
            if self.ids[i] == x {
                return Some(i);
            }
            i += 1;
        }
        None
    }

    pub fn contains(&self, x: u64) -> (b: bool)
        ensures
            b == self@.contains(x),
    {
        self.position(x).is_some()
    }

    /// Puts `x` into the set. Returns whether it was new.
    pub fn insert(&mut self, x: u64) -> (fresh: bool)
        requires
            old(self).wf(),
        ensures
            final(self).wf(),
            final(self)@ == old(self)@.insert(x),
            fresh == !old(self)@.contains(x),
            !fresh ==> *final(self) == *old(self),
            fresh ==> final(self).members() == old(self).members().push(x),
    {
        if self.position(x).is_some() {
            assert(self.ids@.to_set() =~= self.ids@.to_set().insert(x));
            return false;
        }
        self.ids.push(x);
        proof {
            let a = old(self).ids@;
            let b = self.ids@;
            assert(b == a.push(x));
            assert forall|y: u64| b.contains(y) <==> (a.contains(y) || y == x) by {
                if a.contains(y) {
                    let i = choose|i: int| 0 <= i < a.len() && a[i] == y;
                    assert(b[i] == y);
                }
                if y == x {
                    assert(b[a.len() as int] == x);
                }
            }
            assert(b.to_set() =~= a.to_set().insert(x));
        }
        true
    }

    /// Takes `x` out of the set. Returns whether it was there.
    pub fn remove(&mut self, x: u64) -> (found: bool)
        requires
            old(self).wf(),
        ensures
            final(self).wf(),
            final(self)@ == old(self)@.remove(x),
            found == old(self)@.contains(x),
            !found ==> *final(self) == *old(self),
    {
        match self.position(x) {
            None => {
                assert(self.ids@.to_set() =~= self.ids@.to_set().remove(x));
                false
            },
            Some(i) => {
                self.ids.remove(i);
                proof {
                    let a = old(self).ids@;
                    let b = self.ids@;
                    assert(b == a.remove(i as int));
                    assert forall|y: u64| b.contains(y) <==> (a.contains(y) && y != x) by {
                        if b.contains(y) {
                            let j = choose|j: int| 0 <= j < b.len() && b[j] == y;
                            if j < i {
                                assert(a[j] == y);
                            } else {
                                assert(a[j + 1] == y);
                            }
                        }
                        if a.contains(y) && y != x {
                            let j = choose|j: int| 0 <= j < a.len() && a[j] == y;
                            if j < i {
                                assert(b[j] == y);
                            } else {
                                assert(b[j - 1] == y);
                            }
                        }
                    }
                    assert(b.to_set() =~= a.to_set().remove(x));
                }
                true
            },
        }
    }

    /// A copy of the set.
    pub fn copy(&self) -> (s: IdSet)
        ensures
            s.wf() == self.wf(),
            s@ == self@,
            s.members() == self.members(),
    {
        let mut ids: Vec<u64> = Vec::new();
        let mut i: usize = 0;
        while i < self.ids.len()
            invariant
                i <= self.ids@.len(),
                ids@ == self.ids@.subrange(0, i as int),
            decreases self.ids@.len() - i,
        {
            ids.push(self.ids[i]);
            assert(ids@ =~= self.ids@.subrange(0, i + 1));
            i += 1;
        }
        assert(ids@ =~= self.ids@);
        IdSet { ids }
    }

    /// The set of the identifiers below `n`.
    pub fn below(n: u64) -> (s: IdSet)
        ensures
            s.wf(),
            s@ == Set::new(|x: u64| x < n),
    {
        let mut ids: Vec<u64> = Vec::new();
        let mut i: u64 = 0;
        while i < n
            invariant
                i <= n,
                ids@.len() == i,
                forall|j: int| 0 <= j < i ==> ids@[j] == j,
            decreases n - i,
        {
            ids.push(i);
            i += 1;
        }
        proof {
            assert forall|x: u64| ids@.contains(x) == (x < n) by {
                if x < n {
                    assert(ids@[x as int] == x);
                }
            }
            assert(ids@.to_set() =~= Set::new(|x: u64| x < n));
        }
        IdSet { ids }
    }

    /// Puts every identifier of `other` into the set.
    pub fn extend(&mut self, other: &IdSet)
        requires
            old(self).wf(),
        ensures
            final(self).wf(),
            final(self)@ == old(self)@.union(other@),
    {
        let mut i: usize = 0;
        while i < other.ids.len()
            invariant
                self.wf(),
                i <= other.ids@.len(),
                forall|x: u64|
                    self@.contains(x) == (old(self)@.contains(x) || exists|j: int|
                        0 <= j < i && other.ids@[j] == x),
            decreases other.ids@.len() - i,
        {
            let ghost before = self@;
            let y = other.ids[i];
            self.insert(y);
            proof {
                assert forall|x: u64|
                    self@.contains(x) == (old(self)@.contains(x) || exists|j: int|
                        0 <= j < i + 1 && other.ids@[j] == x) by {
                    if x == y {
                        assert(other.ids@[i as int] == x);
                    }
                    if exists|j: int| 0 <= j < i + 1 && other.ids@[j] == x {
                        let j = choose|j: int| 0 <= j < i + 1 && other.ids@[j] == x;
                        if j < i {
                            assert(before.contains(x));
                        }
                    }
                }
            }
            i += 1;
        }
        proof {
            assert forall|x: u64| self@.contains(x) == old(self)@.union(other@).contains(x) by {
                if other@.contains(x) {
                    let j = choose|j: int| 0 <= j < other.ids@.len() && other.ids@[j] == x;
                }
                if exists|j: int| 0 <= j < i && other.ids@[j] == x {
                    let j = choose|j: int| 0 <= j < i && other.ids@[j] == x;
                    assert(other.ids@.contains(x));
                }
            }
            assert(self@ =~= old(self)@.union(other@));
        }
    }
}

} // verus!
