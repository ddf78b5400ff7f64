//! What holds of a dissemination node whatever it is sent.
//!
//! Every statement here is about [`NodeView::next`] and [`NodeView::sent`],
//! the two functions that [`crate::dissemination::Broadcast::handle_message`]
//! computes, so each holds of the executable node as well.

use crate::dissemination::{
    acknowledged, gossip, is_due, neighbors_of, refreshed, resends, MessageView, NodeView,
    PendingView,
};
use crate::envelope::EnvelopeView;
use vstd::prelude::*;

verus! {

/// Whether `value` stands at exactly one place of `list`.
pub open spec fn occurs_once(list: Seq<i32>, value: i32) -> bool {
    &&& exists|i: int| 0 <= i < list.len() && list[i] == value
    &&& forall|i: int, j: int|
        0 <= i < list.len() && 0 <= j < list.len() && list[i] == value && list[j] == value ==> i
            == j
}

/// Whether every one of `events` is a request to spread `value`.
pub open spec fn all_spread(events: Seq<(EnvelopeView<MessageView>, u64)>, value: i32) -> bool {
    forall|k: int|
        0 <= k < events.len() ==> (#[trigger] events[k]).0.body is Broadcast
            && events[k].0.body->message == value
}

impl NodeView {
    /// The node after it has handled `events`, each an envelope and the
    /// time of its arrival, one after the other.
    pub open spec fn run(self, events: Seq<(EnvelopeView<MessageView>, u64)>) -> NodeView
        decreases events.len(),
    {
        if events.len() == 0 {
            self
        } else {
            self.run(events.drop_last()).next(events.last().0, events.last().1)
        }
    }
}

/// A well-formed node stays well-formed through every message that it
/// accepts: no value is held twice, and the pending sends keep distinct,
/// ascending sequence ids below the counter.
pub proof fn lemma_next_preserves_wf(node: NodeView, msg: EnvelopeView<MessageView>, now: u64)
    requires
        node.wf(),
        node.accepts(msg.body),
    ensures
        node.next(msg, now).wf(),
{
    let after = node.next(msg, now);
    match msg.body {
        MessageView::Broadcast { message, .. } => {
            if !node.messages.contains(message) {
                let added = node.fan_out_pending(message, now);
                let old_len = node.pending_messages.len();
                assert forall|i: int, j: int|
                    0 <= i < after.messages.len() && 0 <= j < after.messages.len() && i
                        != j implies after.messages[i] != after.messages[j] by {
                    if i < node.messages.len() {
                        assert(node.messages[i] == after.messages[i]);
                    }
                    if j < node.messages.len() {
                        assert(node.messages[j] == after.messages[j]);
                    }
                }
                assert forall|i: int, j: int|
                    0 <= i < j < after.pending_messages.len() implies after.pending_messages[i].id
                    < after.pending_messages[j].id by {
                    if i >= old_len {
                        assert(after.pending_messages[i] == added[i - old_len]);
                    }
                    if j >= old_len {
                        assert(after.pending_messages[j] == added[j - old_len]);
                    }
                }
                assert forall|i: int|
                    0 <= i < after.pending_messages.len() implies after.pending_messages[i].id
                    < after.counter by {
                    if i >= old_len {
                        assert(after.pending_messages[i] == added[i - old_len]);
                    }
                }
            }
        },
        MessageView::BroadcastOk { in_reply_to: Some(id) } => {
            lemma_acknowledged_is_rest(node.pending_messages, id);
        },
        _ => {},
    }
}

/// What an acknowledgment leaves of a table with ascending ids: the sends
/// with any other id, in their old order, and none with the id it names.
pub proof fn lemma_acknowledged_is_rest(pending: Seq<PendingView>, id: usize)
    requires
        forall|i: int, j: int| 0 <= i < j < pending.len() ==> pending[i].id < pending[j].id,
    ensures
        forall|k: int|
            0 <= k < acknowledged(pending, id).len() ==> acknowledged(pending, id)[k].id != id,
        forall|i: int|
            0 <= i < pending.len() && pending[i].id != id ==> acknowledged(pending, id).contains(
                pending[i],
            ),
        forall|k: int|
            0 <= k < acknowledged(pending, id).len() ==> pending.contains(
                acknowledged(pending, id)[k],
            ),
        forall|i: int, j: int|
            0 <= i < j < acknowledged(pending, id).len() ==> acknowledged(pending, id)[i].id
                < acknowledged(pending, id)[j].id,
{
    let rest = acknowledged(pending, id);
    if exists|i: int| 0 <= i < pending.len() && pending[i].id == id {
        let at = choose|i: int| 0 <= i < pending.len() && pending[i].id == id;
        assert(rest == pending.remove(at));
        assert forall|k: int| 0 <= k < rest.len() implies rest[k].id != id && pending.contains(
            rest[k],
        ) by {
            if k < at {
                assert(rest[k] == pending[k]);
            } else {
                assert(rest[k] == pending[k + 1]);
            }
        }
        assert forall|i: int| 0 <= i < pending.len() && pending[i].id != id implies rest.contains(
            pending[i],
        ) by {
            if i < at {
                assert(rest[i] == pending[i]);
            } else {
                assert(rest[i - 1] == pending[i]);
            }
        }
        assert forall|i: int, j: int| 0 <= i < j < rest.len() implies rest[i].id
            < rest[j].id by {
            let a = if i < at { i } else { i + 1 };
            let b = if j < at { j } else { j + 1 };
            assert(rest[i] == pending[a]);
            assert(rest[j] == pending[b]);
        }
    } else {
        assert forall|i: int| 0 <= i < pending.len() implies rest.contains(pending[i]) by {
            assert(rest[i] == pending[i]);
        }
    }
}

/// A request to spread a value that the node already holds is answered
/// with the acknowledgment and nothing else, and leaves the node as it
/// was: no send is made and no sequence id is used.
pub proof fn lemma_known_value_is_only_acknowledged(
    node: NodeView,
    msg: EnvelopeView<MessageView>,
    now: u64,
)
    requires
        msg.body is Broadcast,
        node.messages.contains(msg.body->message),
    ensures
        node.next(msg, now) == node,
        node.sent(msg, now) == seq![
            msg.reply(MessageView::BroadcastOk { in_reply_to: msg.body->Broadcast_msg_id }),
        ],
{
}

/// Once a node has handled a request to spread a value, it holds the value.
pub proof fn lemma_spread_value_is_held(node: NodeView, msg: EnvelopeView<MessageView>, now: u64)
    requires
        msg.body is Broadcast,
    ensures
        node.next(msg, now).messages.contains(msg.body->message),
{
    let value = msg.body->message;
    let after = node.next(msg, now).messages;
    if !node.messages.contains(value) {
        assert(after[node.messages.len() as int] == value);
    }
}

/// When the same value arrives a second time, from whomever and whenever,
/// the node answers with the acknowledgment alone: it sends the value to no
/// neighbour again, and it is the node it was after the first arrival.
pub proof fn lemma_second_arrival_is_not_passed_on(
    node: NodeView,
    first: EnvelopeView<MessageView>,
    first_at: u64,
    second: EnvelopeView<MessageView>,
    second_at: u64,
)
    requires
        first.body is Broadcast,
        second.body is Broadcast,
        first.body->message == second.body->message,
    ensures
        node.next(first, first_at).next(second, second_at) == node.next(first, first_at),
        node.next(first, first_at).sent(second, second_at) == seq![
            second.reply(MessageView::BroadcastOk { in_reply_to: second.body->Broadcast_msg_id }),
        ],
{
    lemma_spread_value_is_held(node, first, first_at);
    lemma_known_value_is_only_acknowledged(node.next(first, first_at), second, second_at);
}

/// Spreading the same value one or more times has the effect of spreading
/// it once: the node is what the first request made of it, it holds the
/// value at exactly one place, and a read that follows reports exactly
/// what the node holds.
pub proof fn lemma_repeated_spread_is_kept_once(
    node: NodeView,
    events: Seq<(EnvelopeView<MessageView>, u64)>,
    value: i32,
    read: EnvelopeView<MessageView>,
    read_at: u64,
)
    requires
        node.wf(),
        events.len() >= 1,
        all_spread(events, value),
        read.body is Read,
    ensures
        node.run(events) == node.next(events[0].0, events[0].1),
        occurs_once(node.run(events).messages, value),
        node.run(events).sent(read, read_at) == seq![
            read.reply(
                MessageView::ReadOk {
                    messages: node.run(events).messages,
                    in_reply_to: Some(read.body->Read_msg_id),
                },
            ),
        ],
    decreases events.len(),
{
    let first = events[0];
    let once = node.next(first.0, first.1);
    lemma_spread_value_is_held(node, first.0, first.1);
    let earlier = events.drop_last();
    if events.len() == 1 {
        assert(earlier.len() == 0);
        assert(node.run(earlier) == node);
        assert(events.last() == first);
    } else {
        assert(earlier[0] == first);
        assert(all_spread(earlier, value)) by {
            assert forall|k: int| 0 <= k < earlier.len() implies (#[trigger] earlier[k]).0.body is Broadcast
                && earlier[k].0.body->message == value by {
                assert(earlier[k] == events[k]);
            }
        }
        lemma_repeated_spread_is_kept_once(node, earlier, value, read, read_at);
        assert(node.run(earlier) == once);
        let last = events.last();
        assert(last == events[events.len() - 1]);
        lemma_known_value_is_only_acknowledged(once, last.0, last.1);
    }
    assert(node.run(events) == once);
    let held = once.messages;
    if node.messages.contains(value) {
        assert(held == node.messages);
    } else {
        assert forall|i: int, j: int|
            0 <= i < held.len() && 0 <= j < held.len() && held[i] == value && held[j]
                == value implies i == j by {
            if i < node.messages.len() {
                assert(node.messages[i] == value);
            }
            if j < node.messages.len() {
                assert(node.messages[j] == value);
            }
        }
    }
    let at = choose|i: int| 0 <= i < held.len() && held[i] == value;
    assert(0 <= at < held.len() && held[at] == value);
}

/// A node takes in no value but the one it is asked to spread: what it
/// holds after a message, it held before, or the message asked for it.
pub proof fn lemma_only_the_spread_value_is_added(
    node: NodeView,
    msg: EnvelopeView<MessageView>,
    now: u64,
    value: i32,
)
    requires
        node.next(msg, now).messages.contains(value),
    ensures
        node.messages.contains(value) || (msg.body is Broadcast && msg.body->message == value),
{
    let after = node.next(msg, now).messages;
    if msg.body is Broadcast && !node.messages.contains(msg.body->message) {
        let i = choose|i: int| 0 <= i < after.len() && after[i] == value;
        if i < node.messages.len() {
            assert(node.messages[i] == value);
        }
    } else {
        assert(after == node.messages);
    }
}

/// No message takes a value away from a node: what it held before, it
/// holds after, at the same place.
pub proof fn lemma_held_values_stay(node: NodeView, msg: EnvelopeView<MessageView>, now: u64)
    ensures
        node.messages.len() <= node.next(msg, now).messages.len(),
        node.next(msg, now).messages.take(node.messages.len() as int) == node.messages,
{
    assert(node.next(msg, now).messages.take(node.messages.len() as int) =~= node.messages);
}

/// A tick sends every pending send that is due, under the id, to the
/// neighbour and with the value that the table records for it.
pub proof fn lemma_due_send_is_repeated(
    node_id: Seq<char>,
    pending: Seq<PendingView>,
    now: u64,
    i: int,
)
    requires
        0 <= i < pending.len(),
        is_due(pending[i], now),
    ensures
        resends(node_id, pending, now).contains(gossip(node_id, pending[i])),
    decreases pending.len(),
{
    let out = resends(node_id, pending, now);
    let earlier = resends(node_id, pending.drop_last(), now);
    if i == pending.len() - 1 {
        assert(out == earlier.push(gossip(node_id, pending[i])));
        assert(out[earlier.len() as int] == gossip(node_id, pending[i]));
    } else {
        assert(pending.drop_last()[i] == pending[i]);
        lemma_due_send_is_repeated(node_id, pending.drop_last(), now, i);
        let at = choose|k: int| 0 <= k < earlier.len() && earlier[k] == gossip(node_id, pending[i]);
        assert(out[at] == earlier[at]);
    }
}

/// A tick sends nothing but pending sends that are due.
pub proof fn lemma_only_due_sends_are_repeated(
    node_id: Seq<char>,
    pending: Seq<PendingView>,
    now: u64,
    k: int,
)
    requires
        0 <= k < resends(node_id, pending, now).len(),
    ensures
        exists|i: int|
            0 <= i < pending.len() && is_due(#[trigger] pending[i], now) && resends(
                node_id,
                pending,
                now,
            )[k] == gossip(node_id, pending[i]),
    decreases pending.len(),
{
    let out = resends(node_id, pending, now);
    let earlier = resends(node_id, pending.drop_last(), now);
    if pending.len() > 0 {
        if k < earlier.len() {
            lemma_only_due_sends_are_repeated(node_id, pending.drop_last(), now, k);
            let i = choose|i: int|
                0 <= i < pending.drop_last().len() && is_due(
                    #[trigger] pending.drop_last()[i],
                    now,
                ) && earlier[k] == gossip(node_id, pending.drop_last()[i]);
            assert(pending[i] == pending.drop_last()[i]);
            assert(is_due(pending[i], now) && out[k] == gossip(node_id, pending[i]));
        } else {
            let i = pending.len() - 1;
            assert(is_due(pending[i], now) && out[k] == gossip(node_id, pending[i]));
        }
    }
}

/// No pending send is lost. Whatever message a node handles, a send that
/// was pending before is either the one that the message acknowledges, and
/// then no send with its id remains, or it is still pending afterwards at
/// the same place among the sends that remain, with its id, its value and
/// its neighbour. Its time stamp changes only when a tick finds it due, and
/// then that tick sends it again.
pub proof fn lemma_pending_send_is_kept_until_acknowledged(
    node: NodeView,
    msg: EnvelopeView<MessageView>,
    now: u64,
    i: int,
)
    requires
        node.wf(),
        0 <= i < node.pending_messages.len(),
    ensures
        ({
            let p = node.pending_messages[i];
            let after = node.next(msg, now).pending_messages;
            if msg.body == (MessageView::BroadcastOk { in_reply_to: Some(p.id) }) {
                forall|k: int| 0 <= k < after.len() ==> after[k].id != p.id
            } else if msg.body is Tick && is_due(p, now) {
                &&& after.len() == node.pending_messages.len()
                &&& after[i] == (PendingView { time_sent: now, ..p })
                &&& node.sent(msg, now).contains(gossip(node.node_id, p))
            } else {
                after.contains(p)
            }
        }),
{
    let p = node.pending_messages[i];
    let after = node.next(msg, now).pending_messages;
    match msg.body {
        MessageView::BroadcastOk { in_reply_to: Some(id) } => {
            lemma_acknowledged_is_rest(node.pending_messages, id);
        },
        MessageView::Tick => {
            if is_due(p, now) {
                lemma_due_send_is_repeated(node.node_id, node.pending_messages, now, i);
            } else {
                assert(after[i] == p);
            }
        },
        MessageView::Broadcast { .. } => {
            assert(after[i] == p);
        },
        _ => {
            assert(after[i] == p);
        },
    }
}

/// A new value goes to every neighbour: for each one the node sends one
/// envelope and records one pending send, both under the same fresh
/// sequence id, and the ids of one fan-out are all different.
pub proof fn lemma_new_value_reaches_every_neighbor(
    node: NodeView,
    msg: EnvelopeView<MessageView>,
    now: u64,
    k: int,
)
    requires
        node.wf(),
        node.has_room(),
        msg.body is Broadcast,
        !node.messages.contains(msg.body->message),
        0 <= k < node.topology.len(),
    ensures
        ({
            let value = msg.body->message;
            let id = (node.counter + k) as usize;
            let send = PendingView { id, message: value, time_sent: now, dest: node.topology[k] };
            &&& node.sent(msg, now).len() == 1 + node.topology.len()
            &&& node.sent(msg, now)[1 + k] == gossip(node.node_id, send)
            &&& node.next(msg, now).pending_messages[node.pending_messages.len() + k] == send
            &&& forall|j: int|
                0 <= j < node.pending_messages.len() ==> node.pending_messages[j].id != id
        }),
{
}

/// A topology message replaces the neighbour list as a whole. The node's
/// next fan-out goes to exactly the neighbours of the new list, one send
/// each and in its order, whatever the old list was; the sends that were
/// pending stay as they are.
pub proof fn lemma_topology_is_replaced_whole(
    node: NodeView,
    update: EnvelopeView<MessageView>,
    update_at: u64,
    msg: EnvelopeView<MessageView>,
    now: u64,
)
    requires
        update.body is Topology,
        msg.body is Broadcast,
        !node.messages.contains(msg.body->message),
    ensures
        ({
            let list = neighbors_of(update.body->topology, node.node_id);
            let updated = node.next(update, update_at);
            &&& updated == (NodeView { topology: list, ..node })
            &&& updated.sent(msg, now).len() == 1 + list.len()
            &&& forall|k: int|
                0 <= k < list.len() ==> (#[trigger] updated.sent(msg, now)[1 + k]).dest == list[k]
            &&& updated.next(msg, now).topology == list
        }),
{
}

/// The table after a tick has the sends of the table before it, one for
/// one: the same ids, values and neighbours.
pub proof fn lemma_tick_keeps_every_send(pending: Seq<PendingView>, now: u64, i: int)
    requires
        0 <= i < pending.len(),
    ensures
        refreshed(pending, now).len() == pending.len(),
        refreshed(pending, now)[i].id == pending[i].id,
        refreshed(pending, now)[i].message == pending[i].message,
        refreshed(pending, now)[i].dest == pending[i].dest,
        refreshed(pending, now)[i].time_sent == if is_due(pending[i], now) {
            now
        } else {
            pending[i].time_sent
        },
{
}


/// Whether the node accepts each of `events` in the state in which it
/// meets it.
pub open spec fn accepts_all(node: NodeView, events: Seq<(EnvelopeView<MessageView>, u64)>) -> bool {
    forall|k: int|
        0 <= k < events.len() ==> node.run(events.take(k)).accepts((#[trigger] events[k]).0.body)
}

/// A well-formed node stays well-formed through every run of messages
/// that it accepts.
pub proof fn lemma_run_preserves_wf(node: NodeView, events: Seq<(EnvelopeView<MessageView>, u64)>)
    requires
        node.wf(),
        accepts_all(node, events),
    ensures
        node.run(events).wf(),
    decreases events.len(),
{
    if events.len() > 0 {
        let earlier = events.drop_last();
        assert forall|k: int| 0 <= k < earlier.len() implies node.run(earlier.take(k)).accepts(
            (#[trigger] earlier[k]).0.body,
        ) by {
            assert(earlier.take(k) =~= events.take(k));
            assert(earlier[k] == events[k]);
        }
        lemma_run_preserves_wf(node, earlier);
        assert(events.take(events.len() - 1) =~= earlier);
        assert(events[events.len() - 1] == events.last());
        lemma_next_preserves_wf(node.run(earlier), events.last().0, events.last().1);
    }
}

/// A send stays pending for as long as it is not acknowledged: after any
/// run of messages none of which acknowledges its sequence id, the table
/// still holds a send with that id, for the same value and the same
/// neighbour.
pub proof fn lemma_unacknowledged_send_stays(
    node: NodeView,
    events: Seq<(EnvelopeView<MessageView>, u64)>,
    i: int,
)
    requires
        node.wf(),
        accepts_all(node, events),
        0 <= i < node.pending_messages.len(),
        forall|k: int|
            0 <= k < events.len() ==> (#[trigger] events[k]).0.body != (MessageView::BroadcastOk {
                in_reply_to: Some(node.pending_messages[i].id),
            }),
    ensures
        exists|j: int|
            0 <= j < node.run(events).pending_messages.len() && (#[trigger] node.run(
                events,
            ).pending_messages[j]).id == node.pending_messages[i].id && node.run(
                events,
            ).pending_messages[j].message == node.pending_messages[i].message && node.run(
                events,
            ).pending_messages[j].dest == node.pending_messages[i].dest,
    decreases events.len(),
{
    let p = node.pending_messages[i];
    if events.len() == 0 {
        assert(node.run(events).pending_messages[i] == p);
    } else {
        let earlier = events.drop_last();
        let last = events.last();
        assert forall|k: int| 0 <= k < earlier.len() implies node.run(earlier.take(k)).accepts(
            (#[trigger] earlier[k]).0.body,
        ) && earlier[k].0.body != (MessageView::BroadcastOk { in_reply_to: Some(p.id) }) by {
            assert(earlier.take(k) =~= events.take(k));
            assert(earlier[k] == events[k]);
        }
        lemma_unacknowledged_send_stays(node, earlier, i);
        lemma_run_preserves_wf(node, earlier);
        let before = node.run(earlier);
        let j = choose|j: int|
            0 <= j < before.pending_messages.len() && (#[trigger] before.pending_messages[j]).id
                == p.id && before.pending_messages[j].message == p.message
                && before.pending_messages[j].dest == p.dest;
        let q = before.pending_messages[j];
        assert(last == events[events.len() - 1]);
        lemma_pending_send_is_kept_until_acknowledged(before, last.0, last.1, j);
        let after = node.run(events).pending_messages;
        assert(after == before.next(last.0, last.1).pending_messages);
        if last.0.body is Tick && is_due(q, last.1) {
            assert(after[j].id == p.id);
        } else {
            let at = choose|at: int| 0 <= at < after.len() && after[at] == q;
            assert(after[at].id == p.id);
        }
    }
}

/// One hop of a value and its way back. When a neighbour handles the
/// envelope of a pending send, whether it is the first copy or a repeat,
/// it holds the value afterwards and answers first of all with the
/// acknowledgment of the send's sequence id, addressed to the sender. When
/// the sender handles that acknowledgment, the send is no longer pending,
/// and every other send still is.
pub proof fn lemma_hop_round_trip(
    sender: NodeView,
    i: int,
    receiver: NodeView,
    received_at: u64,
    acknowledged_at: u64,
)
    requires
        sender.wf(),
        0 <= i < sender.pending_messages.len(),
    ensures
        ({
            let p = sender.pending_messages[i];
            let envelope = gossip(sender.node_id, p);
            let ack = envelope.reply(MessageView::BroadcastOk { in_reply_to: Some(p.id) });
            let table = sender.next(ack, acknowledged_at).pending_messages;
            &&& receiver.next(envelope, received_at).messages.contains(p.message)
            &&& receiver.sent(envelope, received_at).len() >= 1
            &&& receiver.sent(envelope, received_at)[0] == ack
            &&& ack.dest == sender.node_id
            &&& forall|k: int| 0 <= k < table.len() ==> table[k].id != p.id
            &&& forall|k: int|
                0 <= k < sender.pending_messages.len() && k != i ==> table.contains(
                    sender.pending_messages[k],
                )
        }),
{
    let p = sender.pending_messages[i];
    let envelope = gossip(sender.node_id, p);
    lemma_spread_value_is_held(receiver, envelope, received_at);
    lemma_acknowledged_is_rest(sender.pending_messages, p.id);
}

} // verus!
