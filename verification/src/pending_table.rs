//! The sends of a dissemination node that await an acknowledgment.

use crate::dissemination::{pending_views, PendingMessage, PendingView};
use std::collections::HashMap;
use vstd::prelude::*;

verus! {

broadcast use vstd::std_specs::hash::group_hash_axioms;

/// The pending sends of a node, found by their sequence ids and walked in
/// the order of those ids.
///
/// The sends are kept in a hash map under their ids; the ids that are in
/// use are kept in a list beside it, in ascending order.
#[derive(Debug)]
pub struct PendingTable {
    entries: HashMap<usize, PendingMessage>,
    order: Vec<usize>,
}

impl View for PendingTable {
    type V = Seq<PendingView>;

    /// The sends in the order of their sequence ids.
    closed spec fn view(&self) -> Seq<PendingView> {
        Seq::new(self.order@.len(), |i: int| self.entries@[self.order@[i]]@)
    }
}

impl PendingTable {
    /// The list holds the ids of the map, each once and in ascending order,
    /// and every send stands in the map under its own id.
    pub closed spec fn wf(&self) -> bool {
        &&& forall|i: int|
            0 <= i < self.order@.len() ==> self.entries@.contains_key(#[trigger] self.order@[i])
                && self.entries@[self.order@[i]].id == self.order@[i]
        &&& forall|k: usize| #[trigger] self.entries@.contains_key(k) ==> self.order@.contains(k)
        &&& forall|i: int, j: int|
            0 <= i < j < self.order@.len() ==> self.order@[i] < self.order@[j]
    }

    /// What holds of every well-formed table: its view lists the sends in
    /// the ascending order of their ids.
    pub proof fn lemma_wf_ascending(&self)
        requires
            self.wf(),
        ensures
            forall|i: int, j: int| 0 <= i < j < self@.len() ==> self@[i].id < self@[j].id,
    {
    }

    /// The empty table.
    pub fn new() -> (table: Self)
        ensures
            table.wf(),
            table@ == Seq::<PendingView>::empty(),
    {
        let table = PendingTable { entries: HashMap::new(), order: Vec::new() };
        assert(table@ =~= Seq::<PendingView>::empty());
        table
    }

    /// How many sends are pending.
    pub fn len(&self) -> (n: usize)
        ensures
            n == self@.len(),
    {
        self.order.len()
    }

    /// The send at place `i`.
    pub fn get(&self, i: usize) -> (p: &PendingMessage)
        requires
            self.wf(),
            i < self@.len(),
        ensures
            p@ == self@[i as int],
    {
        let id: usize = self.order[i];
        let found = self.entries.get(&id);
        assert(self.entries@.contains_key(self.order@[i as int]));
        found.unwrap()
    }

    /// The place of the send with sequence id `id`, if one is pending.
    pub fn position(&self, id: usize) -> (place: Option<usize>)
        requires
            self.wf(),
        ensures
            match place {
                Some(i) => i < self@.len() && self@[i as int].id == id,
                None => forall|i: int| 0 <= i < self@.len() ==> self@[i].id != id,
            },
    {
        if !self.entries.contains_key(&id) {
            return None;
        }
        let n: usize = self.order.len();
        let mut i: usize = 0;
        while i < n
            invariant
                i <= n,
                n == self.order@.len(),
                self.wf(),
                self.entries@.contains_key(id),
                forall|k: int| 0 <= k < i ==> self.order@[k] != id,
            decreases n - i,
        {
            if self.order[i] == id {
                return Some(i);
            }
            i += 1;
        }
        proof {
            assert(self.order@.contains(id));
            let k = choose|k: int| 0 <= k < self.order@.len() && self.order@[k] == id;
            assert(self.order@[k] != id);
        }
        None
    }

    /// Adds `p` behind the sends that are there. Its sequence id is larger
    /// than theirs.
    pub fn push(&mut self, p: PendingMessage)
        requires
            old(self).wf(),
            forall|i: int| 0 <= i < old(self)@.len() ==> old(self)@[i].id < p.id,
        ensures
            final(self).wf(),
            final(self)@ == old(self)@.push(p@),
    {
        let id: usize = p.id;
        let ghost added = p;
        let ghost before = *self;
        self.entries.insert(id, p);
        self.order.push(id);
        proof {
            assert forall|i: int| 0 <= i < before.order@.len() implies before.order@[i] < id
                && self.order@[i] == before.order@[i] by {
                assert(before@[i].id < id);
            }
            assert forall|k: usize| #[trigger] self.entries@.contains_key(k) implies self.order@.contains(
                k,
            ) by {
                if k == id {
                    assert(self.order@[before.order@.len() as int] == id);
                } else {
                    assert(before.entries@.contains_key(k));
                    let at = choose|at: int| 0 <= at < before.order@.len() && before.order@[at] == k;
                    assert(self.order@[at] == k);
                }
            }
            assert(self@ =~= before@.push(added@));
        }
    }

    /// Takes the send at place `i` out of the table.
    pub fn remove_at(&mut self, i: usize)
        requires
            old(self).wf(),
            i < old(self)@.len(),
        ensures
            final(self).wf(),
            final(self)@ == old(self)@.remove(i as int),
    {
        let id: usize = self.order[i];
        let ghost before = *self;
        self.entries.remove(&id);
        self.order.remove(i);
        proof {
            assert(self.entries@ == before.entries@.remove(id));
            assert forall|k: int| 0 <= k < self.order@.len() implies self.order@[k]
                == before.order@[if k < i {
                k
            } else {
                k + 1
            }] && self.order@[k] != id by {}
            assert forall|k: usize| #[trigger] self.entries@.contains_key(k) implies self.order@.contains(
                k,
            ) by {
                assert(before.entries@.contains_key(k));
                let at = choose|at: int| 0 <= at < before.order@.len() && before.order@[at] == k;
                if at < i {
                    assert(self.order@[at] == k);
                } else {
                    assert(self.order@[at - 1] == k);
                }
            }
            assert(self@ =~= before@.remove(i as int));
        }
    }

    /// Stamps the send at place `i` with `now`.
    pub fn stamp(&mut self, i: usize, now: u64)
        requires
            old(self).wf(),
            i < old(self)@.len(),
        ensures
            final(self).wf(),
            final(self)@ == old(self)@.update(
                i as int,
                PendingView { time_sent: now, ..old(self)@[i as int] },
            ),
    {
        let id: usize = self.order[i];
        let ghost before = *self;
        let p = self.get(i);
        let stamped = PendingMessage {
            id: p.id,
            message: p.message,
            time_sent: now,
            dest: p.dest.clone(),
        };
        self.entries.insert(id, stamped);
        proof {
            assert forall|k: int| 0 <= k < self.order@.len() && k != i implies self.order@[k]
                != id by {
                if k < i {
                    assert(before.order@[k] < before.order@[i as int]);
                } else {
                    assert(before.order@[i as int] < before.order@[k]);
                }
            }
            assert forall|k: usize| #[trigger] self.entries@.contains_key(k) implies self.order@.contains(
                k,
            ) by {
                if k == id {
                    assert(self.order@[i as int] == id);
                } else {
                    assert(before.entries@.contains_key(k));
                }
            }
            assert(self@ =~= before@.update(
                i as int,
                PendingView { time_sent: now, ..before@[i as int] },
            ));
        }
    }

    /// The sends in the order of their sequence ids.
    pub fn to_vec(&self) -> (list: Vec<PendingMessage>)
        requires
            self.wf(),
        ensures
            pending_views(list@) == self@,
    {
        let mut list: Vec<PendingMessage> = Vec::new();
        let n: usize = self.len();
        let mut i: usize = 0;
        while i < n
            invariant
                i <= n,
                n == self@.len(),
                self.wf(),
                pending_views(list@) =~= self@.take(i as int),
            decreases n - i,
        {
            let p = self.get(i);
            let copy = PendingMessage {
                id: p.id,
                message: p.message,
                time_sent: p.time_sent,
                dest: p.dest.clone(),
            };
            let ghost before = list@;
            list.push(copy);
            proof {
                assert(pending_views(list@) =~= pending_views(before).push(copy@));
                assert(self@.take(i as int + 1) =~= self@.take(i as int).push(self@[i as int]));
            }
            i += 1;
        }
        assert(self@.take(n as int) =~= self@);
        list
    }
}

} // verus!
