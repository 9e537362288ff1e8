//! Sets of positions in a list, walked in increasing order.

use vstd::prelude::*;

verus! {

/// A set of positions below a fixed bound, the capacity.
///
/// Membership is a lookup, and the members come out in increasing order, so
/// nothing that is computed from such a set depends on how it was filled.
#[derive(Debug)]
pub struct IndexSet {
    marks: Vec<bool>,
}

impl View for IndexSet {
    type V = Set<int>;

    closed spec fn view(&self) -> Set<int> {
        Set::new(|i: int| 0 <= i < self.marks@.len() && self.marks@[i])
    }
}

impl DeepView for IndexSet {
    type V = Set<int>;

    open spec fn deep_view(&self) -> Set<int> {
        self@
    }
}

impl IndexSet {
    /// The bound below which all members lie.
    pub closed spec fn capacity(&self) -> nat {
        self.marks@.len()
    }

    /// The members are finite in number and lie below the capacity.
    pub proof fn lemma_bounded(&self)
        ensures
            self@.finite(),
            self@.len() <= self.capacity(),
            forall|i: int| self@.contains(i) ==> 0 <= i < self.capacity(),
    {
        let all = vstd::set_lib::set_int_range(0, self.marks@.len() as int);
        vstd::set_lib::lemma_int_range(0, self.marks@.len() as int);
        vstd::set_lib::lemma_len_subset(self@, all);
    }

    /// The empty set with the given capacity.
    pub fn new(capacity: usize) -> (s: IndexSet)
        ensures
            s@ == Set::<int>::empty(),
            s.capacity() == capacity,
    {
        let mut marks: Vec<bool> = Vec::new();
        while marks.len() < capacity
            invariant
                marks@.len() <= capacity,
                forall|i: int| 0 <= i < marks@.len() ==> !marks@[i],
            decreases capacity - marks@.len(),
        {
            marks.push(false);
        }
        let s = IndexSet { marks };
        assert(s@ =~= Set::<int>::empty());
        s
    }

    /// The capacity, as a number.
    pub fn bound(&self) -> (n: usize)
        ensures
            n == self.capacity(),
    {
        self.marks.len()
    }

    /// Whether `i` is a member. A position at or above the capacity never is.
    pub fn contains(&self, i: usize) -> (r: bool)
        ensures
            r == self@.contains(i as int),
    {
        i < self.marks.len() && self.marks[i]
    }

    /// Adds `i` to the set.
    pub fn insert(&mut self, i: usize)
        requires
            i < old(self).capacity(),
        ensures
            final(self)@ == old(self)@.insert(i as int),
            final(self).capacity() == old(self).capacity(),
    {
        self.marks[i] = true;
    }

    /// The members in increasing order.
    pub fn indices(&self) -> (v: Vec<usize>)
        ensures
            forall|k: int| 0 <= k < v@.len() ==> self@.contains(#[trigger] v@[k] as int),
            forall|i: int| self@.contains(i) ==> exists|k: int| 0 <= k < v@.len() && v@[k] == i,
            forall|j: int, k: int| 0 <= j < k < v@.len() ==> v@[j] < v@[k],
    {
        let mut v: Vec<usize> = Vec::new();
        let mut i: usize = 0;
        while i < self.marks.len()
            invariant
                0 <= i <= self.marks@.len(),
                forall|k: int| 0 <= k < v@.len() ==> v@[k] < i && self@.contains(v@[k] as int),
                forall|m: int|
                    0 <= m < i && self@.contains(m) ==> exists|k: int|
                        0 <= k < v@.len() && v@[k] == m,
                forall|j: int, k: int| 0 <= j < k < v@.len() ==> v@[j] < v@[k],
            decreases self.marks@.len() - i,
        {
            if self.marks[i] {
                let ghost before = v@;
                v.push(i);
                assert forall|m: int| 0 <= m < i + 1 && self@.contains(m) implies exists|k: int|
                    0 <= k < v@.len() && v@[k] == m by {
                    if m < i {
                        let k = choose|k: int| 0 <= k < before.len() && before[k] == m;
                        assert(v@[k] == m);
                    } else {
                        assert(v@[before.len() as int] == m);
                    }
                }
            }
            i += 1;
        }
        v
    }
}

} // verus!
