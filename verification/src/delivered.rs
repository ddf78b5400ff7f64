//! The values a node has already taken in.

use std::collections::HashSet;
use vstd::prelude::*;

verus! {

broadcast use vstd::std_specs::hash::group_hash_axioms;

/// A growing set of values that also remembers in which order they first
/// arrived. Nothing is ever taken out of it.
///
/// Membership is answered by a hash set; the order of arrival is kept in a
/// list beside it.
#[derive(Debug)]
pub struct DeliveredSet {
    index: HashSet<i32>,
    order: Vec<i32>,
}

impl View for DeliveredSet {
    type V = Seq<i32>;

    /// The values in the order in which they first arrived.
    closed spec fn view(&self) -> Seq<i32> {
        self.order@
    }
}

impl DeliveredSet {
    /// No value occurs twice, and the hash set holds what the list holds.
    pub closed spec fn wf(&self) -> bool {
        &&& self.order@.no_duplicates()
        &&& forall|v: i32| self.index@.contains(v) <==> self.order@.contains(v)
    }

    /// What holds of every well-formed set: its view lists each value once.
    pub proof fn lemma_wf_no_duplicates(&self)
        requires
            self.wf(),
        ensures
            self@.no_duplicates(),
    {
    }

    /// The empty set.
    pub fn new() -> (set: Self)
        ensures
            set.wf(),
            set@ == Seq::<i32>::empty(),
    {
        DeliveredSet { index: HashSet::new(), order: Vec::new() }
    }

    /// Whether `value` has arrived before.
    pub fn contains(&self, value: i32) -> (found: bool)
        requires
            self.wf(),
        ensures
            found == self@.contains(value),
    {
        self.index.contains(&value)
    }

    /// How many values have arrived.
    pub fn len(&self) -> (n: usize)
        ensures
            n == self@.len(),
    {
        self.order.len()
    }

    /// Takes `value` in. The result tells whether it is new; a value that
    /// was there already changes nothing.
    pub fn insert(&mut self, value: i32) -> (is_new: bool)
        requires
            old(self).wf(),
        ensures
            final(self).wf(),
            is_new == !old(self)@.contains(value),
            final(self)@ == if is_new {
                old(self)@.push(value)
            } else {
                old(self)@
            },
    {
        let is_new = self.index.insert(value);
        if is_new {
            self.order.push(value);
            proof {
                let before = old(self).order@;
                let after = self.order@;
                assert forall|v: i32| self.index@.contains(v) <==> after.contains(v) by {
                    if after.contains(v) {
                        let i = choose|i: int| 0 <= i < after.len() && after[i] == v;
                        if i < before.len() {
                            assert(before[i] == v);
                        }
                    }
                    if before.contains(v) {
                        let i = choose|i: int| 0 <= i < before.len() && before[i] == v;
                        assert(after[i] == v);
                    }
                    if v == value {
                        assert(after[before.len() as int] == v);
                    }
                }
            }
        }
        is_new
    }

    /// The values in the order in which they first arrived.
    pub fn values(&self) -> (list: Vec<i32>)
        ensures
            list@ == self@,
    {
        let mut list: Vec<i32> = Vec::new();
        let n: usize = self.order.len();
        let mut i: usize = 0;
        while i < n
            invariant
                n == self.order@.len(),
                i <= n,
                list@ == self.order@.take(i as int),
            decreases n - i,
        {
            list.push(self.order[i]);
            i += 1;
            assert(self.order@.take(i as int) =~= self.order@.take(i as int - 1).push(
                self.order@[i as int - 1],
            ));
        }
        assert(self.order@.take(n as int) =~= self.order@);
        list
    }
}

} // verus!
