//! The key-value store as a counter node meets it, and what the two
//! achieve together.
//!
//! The store is not part of this library. What is written down here is how
//! it answers a read and a swap of one key, so that it can be said, and
//! proved, what becomes of an addition that a node works through with it.

use crate::envelope::EnvelopeView;
use crate::grow_only_counter::{
    later, request_of, Attempt, CounterView, KVMessageView, MessageView,
    KEY_DOES_NOT_EXIST, PRECONDITION_FAILED,
};
use vstd::prelude::*;

verus! {

/// The value that a key counts for: what it holds, and zero where the key
/// does not exist.
pub open spec fn value_of(stored: Option<usize>) -> usize {
    match stored {
        Some(v) => v,
        None => 0,
    }
}

/// What the store answers to the request `request` for a key that holds
/// `stored`: to a read the value, to a swap whose expected value is there,
/// or which may make the key that is missing, its success, and else the
/// error for a missing key or for a failed swap.
pub open spec fn answer_of(stored: Option<usize>, request: KVMessageView) -> KVMessageView {
    match request {
        KVMessageView::Read { msg_id, .. } => match stored {
            Some(value) => KVMessageView::ReadOk { value, in_reply_to: msg_id },
            None => KVMessageView::Error {
                in_reply_to: msg_id,
                code: KEY_DOES_NOT_EXIST,
                text: Seq::empty(),
            },
        },
        KVMessageView::Cas { msg_id, .. } => if swaps(stored, request) {
            KVMessageView::CasOk { in_reply_to: msg_id }
        } else {
            KVMessageView::Error {
                in_reply_to: msg_id,
                code: if stored is None {
                    KEY_DOES_NOT_EXIST
                } else {
                    PRECONDITION_FAILED
                },
                text: Seq::empty(),
            }
        },
        _ => request,
    }
}

/// Whether the swap `request` succeeds on a key that holds `stored`.
pub open spec fn swaps(stored: Option<usize>, request: KVMessageView) -> bool {
    request matches KVMessageView::Cas { from, create_if_not_exists, .. } && match stored {
        Some(value) => value == from,
        None => create_if_not_exists == Some(true),
    }
}

/// What the key holds after the request `request`.
pub open spec fn stored_after(stored: Option<usize>, request: KVMessageView) -> Option<usize> {
    if swaps(stored, request) {
        Some(request->Cas_to)
    } else {
        stored
    }
}

/// The envelope in which the store answers the request `request`.
pub open spec fn answer_to(stored: Option<usize>, request: EnvelopeView<KVMessageView>) -> EnvelopeView<
    KVMessageView,
> {
    request.reply(answer_of(stored, request.body))
}

/// A node and the key that it owns in the store.
pub struct Pair {
    pub node: CounterView,
    pub stored: Option<usize>,
}

impl Pair {
    /// The pair after the node has taken the addition `add` at time `now`
    /// and worked it through with the store: the node reads its key, the
    /// store answers, the node swaps, and the store answers again.
    pub open spec fn after_addition(self, add: EnvelopeView<MessageView>, now: u64) -> Pair {
        let asked = self.node.next(add, now);
        let read = self.node.requests(add, now)[0];
        let seen = answer_to(self.stored, read);
        let swapping = asked.next_from_store(seen, now);
        let swap = asked.requests_from_store(seen)[0];
        let done = answer_to(self.stored, swap);
        Pair {
            node: swapping.next_from_store(done, now),
            stored: stored_after(self.stored, swap.body),
        }
    }

    /// The pair after the additions `adds`, each worked through before the
    /// next is taken.
    pub open spec fn after_additions(self, adds: Seq<(EnvelopeView<MessageView>, u64)>) -> Pair
        decreases adds.len(),
    {
        if adds.len() == 0 {
            self
        } else {
            self.after_additions(adds.drop_last()).after_addition(adds.last().0, adds.last().1)
        }
    }

    /// The node is well-formed and idle, and it knows what its key holds.
    pub open spec fn settled(self) -> bool {
        &&& self.node.wf()
        &&& self.node.pending_messages.len() == 0
        &&& self.node.own_value == value_of(self.stored)
    }
}

/// The sum of the amounts of the additions `adds`.
pub open spec fn amount(adds: Seq<(EnvelopeView<MessageView>, u64)>) -> nat
    decreases adds.len(),
{
    if adds.len() == 0 {
        0
    } else {
        amount(adds.drop_last()) + adds.last().0.body->Add_delta as nat
    }
}

/// An addition that a node works through with the store is applied
/// exactly once. The key then holds what it held, or zero where it did not
/// exist, grown by the amount of the addition; the node knows that value
/// and is idle again; and the swap that did it went from the old value to
/// the new one, with leave to make the key exactly where the key was
/// missing.
pub proof fn lemma_addition_is_applied_once(pair: Pair, add: EnvelopeView<MessageView>, now: u64)
    requires
        pair.settled(),
        add.body is Add,
        pair.node.counter + 2 <= usize::MAX,
        value_of(pair.stored) + add.body->Add_delta <= usize::MAX,
    ensures
        pair.after_addition(add, now).settled(),
        pair.after_addition(add, now).stored == Some(
            (value_of(pair.stored) + add.body->Add_delta) as usize,
        ),
        pair.after_addition(add, now).node.counter == pair.node.counter + 2,
        pair.after_addition(add, now).node == (CounterView {
            counter: (pair.node.counter + 2) as usize,
            own_value: (value_of(pair.stored) + add.body->Add_delta) as usize,
            ..pair.node
        }),
        pair.node.next(add, now).requests_from_store(
            answer_to(pair.stored, pair.node.requests(add, now)[0]),
        ) == seq![
            request_of(
                pair.node.node_id,
                Attempt::Swapping {
                    id: (pair.node.counter + 1) as usize,
                    from: value_of(pair.stored),
                    to: (value_of(pair.stored) + add.body->Add_delta) as usize,
                    create: pair.stored is None,
                },
            ),
        ],
{
    let node = pair.node;
    let delta = add.body->Add_delta;
    let asked = node.next(add, now);
    let read = node.requests(add, now)[0];
    assert(read == request_of(node.node_id, Attempt::Reading { id: node.counter }));
    let seen = answer_to(pair.stored, read);
    assert(asked.pending_messages.len() == 1);
    assert(asked.pending_messages[0].attempt == Attempt::Reading { id: node.counter });
    assert(asked.pending_messages[0].delta == delta);
    let first = crate::grow_only_counter::place_of(asked.pending_messages, node.counter);
    assert(crate::grow_only_counter::waits_for(asked.pending_messages, node.counter));
    assert(first == 0);
    let next_attempt = Attempt::Swapping {
        id: (node.counter + 1) as usize,
        from: value_of(pair.stored),
        to: (value_of(pair.stored) + delta) as usize,
        create: pair.stored is None,
    };
    assert(asked.follow_up(seen.body) == Some(next_attempt));
    let swapping = asked.next_from_store(seen, now);
    assert(swapping.pending_messages.len() == 1);
    assert(swapping.pending_messages[0].attempt == next_attempt);
    assert(swapping.own_value == later(node.own_value, value_of(pair.stored)));
    let swap = asked.requests_from_store(seen)[0];
    assert(swap == request_of(node.node_id, next_attempt));
    assert(swaps(pair.stored, swap.body));
    let done = answer_to(pair.stored, swap);
    assert(done.body == KVMessageView::CasOk { in_reply_to: (node.counter + 1) as usize });
    assert(crate::grow_only_counter::waits_for(
        swapping.pending_messages,
        (node.counter + 1) as usize,
    ));
    let second = crate::grow_only_counter::place_of(
        swapping.pending_messages,
        (node.counter + 1) as usize,
    );
    assert(second == 0);
    assert(swapping.follow_up(done.body) is None);
    assert(swapping.confirms(done.body));
    let end = swapping.next_from_store(done, now);
    assert(end.pending_messages =~= Seq::empty());
    assert(end.pending_messages =~= node.pending_messages);
}

/// Additions add up. After any number of additions, each worked through
/// with the store before the next is taken, the key holds what it held,
/// or zero where it did not exist, grown by the sum of their amounts, and
/// a read that the node then answers, knowing no other node's value,
/// reports exactly that.
pub proof fn lemma_additions_add_up(
    pair: Pair,
    adds: Seq<(EnvelopeView<MessageView>, u64)>,
    read: EnvelopeView<MessageView>,
)
    requires
        pair.settled(),
        forall|k: int| 0 <= k < adds.len() ==> (#[trigger] adds[k]).0.body is Add,
        pair.node.counter + 2 * adds.len() <= usize::MAX,
        value_of(pair.stored) + amount(adds) <= usize::MAX,
        read.body is Read,
        crate::grow_only_counter::total(pair.node.peer_values) == 0,
    ensures
        pair.after_additions(adds).settled(),
        pair.after_additions(adds).node.counter == pair.node.counter + 2 * adds.len(),
        value_of(pair.after_additions(adds).stored) == value_of(pair.stored) + amount(adds),
        pair.after_additions(adds).node.peer_values == pair.node.peer_values,
        pair.after_additions(adds).node.replies(read) == seq![
            read.reply(
                MessageView::ReadOk {
                    value: (value_of(pair.stored) + amount(adds)) as usize,
                    in_reply_to: Some(read.body->Read_msg_id),
                },
            ),
        ],
    decreases adds.len(),
{
    if adds.len() > 0 {
        let earlier = adds.drop_last();
        assert forall|k: int| 0 <= k < earlier.len() implies (#[trigger] earlier[k]).0.body is Add by {
            assert(earlier[k] == adds[k]);
        }
        assert(adds.last() == adds[adds.len() - 1]);
        lemma_additions_add_up(pair, earlier, read);
        lemma_addition_is_applied_once(pair.after_additions(earlier), adds.last().0, adds.last().1);
    }
}

} // verus!
