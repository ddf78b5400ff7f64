//! The nodes together with the messages between them.
//!
//! A transport may lose, repeat and reorder what the nodes send, and
//! clients may send a node anything but an acknowledgment. Whatever the
//! transport does, an acknowledgment that reaches a node tells the truth:
//! the neighbour it comes back from holds the value. So the tables of the
//! nodes account for every value through every run of the whole system.

use crate::dissemination::{gossip, is_due, MessageView, NodeView, PendingView};
use crate::envelope::EnvelopeView;
use crate::guarantees::{
    lemma_acknowledged_is_rest, lemma_next_preserves_wf, lemma_only_due_sends_are_repeated,
    lemma_spread_value_is_held,
};
use crate::network::{
    all_wf, at_rest, covers, deliver, holds, is_path, lemma_reach_is_kept, lemma_step_keeps_cover,
    lemma_value_has_arrived_at_rest, may_reach, reached, Delivery,
};
use vstd::prelude::*;

verus! {

/// The nodes of a network and every message that any of them has sent.
pub struct System {
    pub nodes: Seq<NodeView>,
    pub wire: Set<EnvelopeView<MessageView>>,
}

/// Whether one of `nodes` goes by the id `id`.
pub open spec fn is_node(nodes: Seq<NodeView>, id: Seq<char>) -> bool {
    exists|a: int| 0 <= a < nodes.len() && (#[trigger] nodes[a]).node_id == id
}

/// Whether no two of `nodes` go by the same id.
pub open spec fn distinct_ids(nodes: Seq<NodeView>) -> bool {
    forall|a: int, b: int|
        0 <= a < nodes.len() && 0 <= b < nodes.len() && a != b ==> (#[trigger] nodes[a]).node_id != (
        #[trigger] nodes[b]).node_id
}

/// Whether `p` is the send that the envelope `m` carries.
pub open spec fn carries(m: EnvelopeView<MessageView>, p: PendingView) -> bool {
    m.body == (MessageView::Broadcast { message: p.message, msg_id: Some(p.id) }) && m.dest
        == p.dest
}

impl System {
    /// Whether the envelope `m`, a value sent under the id of node `a`, is
    /// one of that node's sends: its sequence id is one that the node has
    /// used, and a send that is still pending under it is the one that `m`
    /// carries.
    pub open spec fn is_send_of(self, m: EnvelopeView<MessageView>, a: int) -> bool {
        &&& m.body->Broadcast_msg_id is Some
        &&& m.body->Broadcast_msg_id->0 < self.nodes[a].counter
        &&& forall|i: int|
            0 <= i < self.nodes[a].pending_messages.len() && (
            #[trigger] self.nodes[a].pending_messages[i]).id == m.body->Broadcast_msg_id->0
                ==> carries(m, self.nodes[a].pending_messages[i])
    }

    /// Whether the acknowledgment `m`, addressed to node `a`, tells the
    /// truth: it names a sequence id that the node has used, and the
    /// neighbour of a send that is still pending under it holds the value.
    pub open spec fn is_ack_for(self, m: EnvelopeView<MessageView>, a: int) -> bool {
        &&& m.body->BroadcastOk_in_reply_to->0 < self.nodes[a].counter
        &&& forall|i: int|
            0 <= i < self.nodes[a].pending_messages.len() && (
            #[trigger] self.nodes[a].pending_messages[i]).id == m.body->BroadcastOk_in_reply_to->0
                ==> reached(
                self.nodes,
                self.nodes[a].pending_messages[i].dest,
                self.nodes[a].pending_messages[i].message,
            )
    }

    /// The invariant of the whole system: the nodes are well-formed and go
    /// by different ids, every value on the wire under a node's id is one
    /// of that node's sends, every acknowledgment on the wire tells the
    /// truth, and the envelope of every pending send is on the wire.
    pub open spec fn sound(self) -> bool {
        &&& all_wf(self.nodes)
        &&& distinct_ids(self.nodes)
        &&& forall|m: EnvelopeView<MessageView>, a: int|
            #![trigger self.wire.contains(m), self.nodes[a]]
            self.wire.contains(m) && 0 <= a < self.nodes.len() && m.body is Broadcast && m.src
                == self.nodes[a].node_id ==> self.is_send_of(m, a)
        &&& forall|m: EnvelopeView<MessageView>, a: int|
            #![trigger self.wire.contains(m), self.nodes[a]]
            self.wire.contains(m) && 0 <= a < self.nodes.len() && m.body is BroadcastOk
                && m.body->BroadcastOk_in_reply_to is Some && m.dest == self.nodes[a].node_id
                ==> self.is_ack_for(m, a)
        &&& forall|a: int, i: int|
            0 <= a < self.nodes.len() && 0 <= i < self.nodes[a].pending_messages.len()
                ==> self.wire.contains(
                gossip(self.nodes[a].node_id, #[trigger] self.nodes[a].pending_messages[i]),
            )
    }

    /// Whether the delivery `d` can happen: the message is addressed to the
    /// node that it reaches, the node accepts it, it changes neither the
    /// node's id nor its neighbours, and it is a message from the wire, a
    /// tick, or a message of a client, who is no node and acknowledges
    /// nothing.
    pub open spec fn admits(self, d: Delivery) -> bool {
        &&& 0 <= d.to < self.nodes.len()
        &&& self.nodes[d.to].accepts(d.msg.body)
        &&& d.msg.dest == self.nodes[d.to].node_id
        &&& !(d.msg.body is Init)
        &&& !(d.msg.body is Topology)
        &&& {
            ||| self.wire.contains(d.msg)
            ||| d.msg.body is Tick
            ||| !is_node(self.nodes, d.msg.src) && !(d.msg.body is BroadcastOk)
        }
    }

    /// The system after the delivery `d`: the node has handled the message,
    /// and what it sent is on the wire. Nothing ever leaves the wire, so a
    /// message can arrive late, more than once, or never.
    pub open spec fn after(self, d: Delivery) -> System {
        System {
            nodes: deliver(self.nodes, d),
            wire: self.wire.union(self.nodes[d.to].sent(d.msg, d.at).to_set()),
        }
    }

    /// The system after the deliveries `ds`, one after the other.
    pub open spec fn after_all(self, ds: Seq<Delivery>) -> System
        decreases ds.len(),
    {
        if ds.len() == 0 {
            self
        } else {
            self.after_all(ds.drop_last()).after(ds.last())
        }
    }

    /// Whether each of the deliveries `ds` can happen in the system that
    /// the deliveries before it have made.
    pub open spec fn admits_all(self, ds: Seq<Delivery>) -> bool {
        forall|k: int| 0 <= k < ds.len() ==> self.after_all(ds.take(k)).admits(#[trigger] ds[k])
    }
}

/// Where the sends of a node come from: a send that is pending after a
/// message either was pending before, with the same id, value and
/// neighbour, or has a sequence id that was unused before and goes out
/// with the answer to that message.
pub proof fn lemma_pending_origin(node: NodeView, msg: EnvelopeView<MessageView>, now: u64, i: int)
    requires
        node.wf(),
        node.accepts(msg.body),
        0 <= i < node.next(msg, now).pending_messages.len(),
    ensures
        node.counter <= node.next(msg, now).counter,
        ({
            let q = node.next(msg, now).pending_messages[i];
            ||| q.id >= node.counter && node.sent(msg, now).contains(gossip(node.node_id, q))
            ||| exists|k: int|
                0 <= k < node.pending_messages.len() && (#[trigger] node.pending_messages[k]).id
                    == q.id && node.pending_messages[k].message == q.message
                    && node.pending_messages[k].dest == q.dest
        }),
{
    let next = node.next(msg, now);
    let q = next.pending_messages[i];
    match msg.body {
        MessageView::Broadcast { message, .. } => {
            if node.messages.contains(message) || i < node.pending_messages.len() {
                assert(node.pending_messages[i] == q);
            } else {
                let j = i - node.pending_messages.len();
                assert(q == node.fan_out_pending(message, now)[j]);
                assert(node.sent(msg, now)[1 + j] == gossip(node.node_id, q));
            }
        },
        MessageView::BroadcastOk { in_reply_to: Some(id) } => {
            lemma_acknowledged_is_rest(node.pending_messages, id);
            assert(node.pending_messages.contains(q));
            let k = choose|k: int|
                0 <= k < node.pending_messages.len() && node.pending_messages[k] == q;
            assert(node.pending_messages[k].id == q.id);
        },
        MessageView::Tick => {
            assert(node.pending_messages[i].id == q.id);
        },
        _ => {
            assert(node.pending_messages[i] == q);
        },
    }
}

/// The counter of a node never goes down.
pub proof fn lemma_counter_grows(node: NodeView, msg: EnvelopeView<MessageView>, now: u64)
    requires
        node.accepts(msg.body),
    ensures
        node.counter <= node.next(msg, now).counter,
{
}

/// Where the messages of a node come from. A value that a node sends goes
/// out under the node's own id and carries a send that is pending
/// afterwards. An acknowledgment that a node sends answers a request to
/// spread a value, goes back to where the request came from, and names the
/// request's own id.
pub proof fn lemma_sent_origin(
    node: NodeView,
    msg: EnvelopeView<MessageView>,
    now: u64,
    m: EnvelopeView<MessageView>,
)
    requires
        node.wf(),
        node.accepts(msg.body),
        node.sent(msg, now).contains(m),
    ensures
        m.body is Broadcast ==> m.src == node.node_id && exists|i: int|
            0 <= i < node.next(msg, now).pending_messages.len() && carries(
                m,
                #[trigger] node.next(msg, now).pending_messages[i],
            ),
        m.body is BroadcastOk ==> msg.body is Broadcast && m == msg.reply(
            MessageView::BroadcastOk { in_reply_to: msg.body->Broadcast_msg_id },
        ),
{
    let out = node.sent(msg, now);
    let next = node.next(msg, now);
    let k = choose|k: int| 0 <= k < out.len() && out[k] == m;
    match msg.body {
        MessageView::Broadcast { message, msg_id } => {
            if k > 0 {
                assert(!node.messages.contains(message));
                let sends = node.fan_out_pending(message, now);
                assert(m == gossip(node.node_id, sends[k - 1]));
                let at = node.pending_messages.len() + k - 1;
                assert(next.pending_messages[at] == sends[k - 1]);
                assert(carries(m, next.pending_messages[at]));
            }
        },
        MessageView::Tick => {
            lemma_only_due_sends_are_repeated(node.node_id, node.pending_messages, now, k);
            let i = choose|i: int|
                0 <= i < node.pending_messages.len() && is_due(
                    #[trigger] node.pending_messages[i],
                    now,
                ) && out[k] == gossip(node.node_id, node.pending_messages[i]);
            assert(carries(m, next.pending_messages[i]));
        },
        _ => {},
    }
}

/// The system stays sound through every delivery that can happen.
pub proof fn lemma_delivery_keeps_sound(sys: System, d: Delivery)
    requires
        sys.sound(),
        sys.admits(d),
    ensures
        sys.after(d).sound(),
        sys.after(d).nodes.len() == sys.nodes.len(),
{
    let b = d.to;
    let node = sys.nodes[b];
    let next = node.next(d.msg, d.at);
    let out = node.sent(d.msg, d.at);
    let then = sys.after(d);
    assert(node.wf());
    lemma_next_preserves_wf(node, d.msg, d.at);
    lemma_counter_grows(node, d.msg, d.at);
    assert(next.node_id == node.node_id);
    assert forall|a: int| 0 <= a < then.nodes.len() implies (#[trigger] then.nodes[a]).wf() by {
        if a != b {
            assert(then.nodes[a] == sys.nodes[a]);
        }
    }
    assert forall|a: int| 0 <= a < then.nodes.len() implies (#[trigger] then.nodes[a]).node_id
        == sys.nodes[a].node_id by {}
    assert(distinct_ids(then.nodes)) by {
        assert forall|a: int, c: int|
            0 <= a < then.nodes.len() && 0 <= c < then.nodes.len() && a != c implies (
        #[trigger] then.nodes[a]).node_id != (#[trigger] then.nodes[c]).node_id by {
            assert(sys.nodes[a].node_id != sys.nodes[c].node_id);
        }
    }
    assert forall|m: EnvelopeView<MessageView>, a: int|
        #![trigger then.wire.contains(m), then.nodes[a]]
        then.wire.contains(m) && 0 <= a < then.nodes.len() && m.body is Broadcast && m.src
            == then.nodes[a].node_id implies then.is_send_of(m, a) by {
        lemma_value_on_wire_is_a_send(sys, d, m, a);
    }
    assert forall|m: EnvelopeView<MessageView>, a: int|
        #![trigger then.wire.contains(m), then.nodes[a]]
        then.wire.contains(m) && 0 <= a < then.nodes.len() && m.body is BroadcastOk
            && m.body->BroadcastOk_in_reply_to is Some && m.dest == then.nodes[a].node_id implies then.is_ack_for(
        m,
        a,
    ) by {
        lemma_ack_on_wire_is_true(sys, d, m, a);
    }
    assert forall|a: int, i: int|
        0 <= a < then.nodes.len() && 0 <= i < then.nodes[a].pending_messages.len() implies then.wire.contains(
    gossip(then.nodes[a].node_id, #[trigger] then.nodes[a].pending_messages[i])) by {
        let q = then.nodes[a].pending_messages[i];
        if a == b {
            lemma_pending_origin(node, d.msg, d.at, i);
            if out.contains(gossip(node.node_id, q)) {
                assert(out.to_set().contains(gossip(node.node_id, q)));
            } else {
                let k = choose|k: int|
                    0 <= k < node.pending_messages.len() && (#[trigger] node.pending_messages[k]).id
                        == q.id && node.pending_messages[k].message == q.message
                        && node.pending_messages[k].dest == q.dest;
                assert(sys.wire.contains(gossip(node.node_id, node.pending_messages[k])));
            }
        } else {
            assert(then.nodes[a] == sys.nodes[a]);
        }
    }
}

/// After a delivery, a value on the wire under a node's id is one of that
/// node's sends.
proof fn lemma_value_on_wire_is_a_send(
    sys: System,
    d: Delivery,
    m: EnvelopeView<MessageView>,
    a: int,
)
    requires
        sys.sound(),
        sys.admits(d),
        sys.after(d).wire.contains(m),
        0 <= a < sys.nodes.len(),
        m.body is Broadcast,
        m.src == sys.nodes[a].node_id,
    ensures
        sys.after(d).is_send_of(m, a),
{
    let b = d.to;
    let node = sys.nodes[b];
    let next = node.next(d.msg, d.at);
    let out = node.sent(d.msg, d.at);
    let then = sys.after(d);
    assert(node.wf());
    lemma_next_preserves_wf(node, d.msg, d.at);
    lemma_counter_grows(node, d.msg, d.at);
    if sys.wire.contains(m) {
        assert(sys.is_send_of(m, a));
        if a == b {
            let id = m.body->Broadcast_msg_id->0;
            assert forall|i: int|
                0 <= i < next.pending_messages.len() && (#[trigger] next.pending_messages[i]).id
                    == id implies carries(m, next.pending_messages[i]) by {
                lemma_pending_origin(node, d.msg, d.at, i);
                let q = next.pending_messages[i];
                let k = choose|k: int|
                    0 <= k < node.pending_messages.len() && (#[trigger] node.pending_messages[k]).id
                        == q.id && node.pending_messages[k].message == q.message
                        && node.pending_messages[k].dest == q.dest;
                assert(carries(m, node.pending_messages[k]));
            }
        } else {
            assert(then.nodes[a] == sys.nodes[a]);
        }
    } else {
        assert(out.to_set().contains(m));
        assert(out.contains(m));
        lemma_sent_origin(node, d.msg, d.at, m);
        assert(a == b) by {
            if a != b {
                assert(sys.nodes[a].node_id != sys.nodes[b].node_id);
            }
        }
        let at = choose|i: int|
            0 <= i < next.pending_messages.len() && carries(m, #[trigger] next.pending_messages[i]);
        let p = next.pending_messages[at];
        assert(p.id < next.counter);
        assert forall|i: int|
            0 <= i < next.pending_messages.len() && (#[trigger] next.pending_messages[i]).id
                == p.id implies carries(m, next.pending_messages[i]) by {
            if i < at {
                assert(next.pending_messages[i].id < next.pending_messages[at].id);
            } else if at < i {
                assert(next.pending_messages[at].id < next.pending_messages[i].id);
            }
        }
    }
}

/// After a delivery, an acknowledgment on the wire tells the truth.
proof fn lemma_ack_on_wire_is_true(sys: System, d: Delivery, m: EnvelopeView<MessageView>, a: int)
    requires
        sys.sound(),
        sys.admits(d),
        sys.after(d).wire.contains(m),
        0 <= a < sys.nodes.len(),
        m.body is BroadcastOk,
        m.body->BroadcastOk_in_reply_to is Some,
        m.dest == sys.nodes[a].node_id,
    ensures
        sys.after(d).is_ack_for(m, a),
{
    let b = d.to;
    let node = sys.nodes[b];
    let next = node.next(d.msg, d.at);
    let out = node.sent(d.msg, d.at);
    let then = sys.after(d);
    let id = m.body->BroadcastOk_in_reply_to->0;
    assert(node.wf());
    lemma_counter_grows(node, d.msg, d.at);
    if sys.wire.contains(m) {
        assert(sys.is_ack_for(m, a));
        assert forall|i: int|
            0 <= i < then.nodes[a].pending_messages.len() && (
            #[trigger] then.nodes[a].pending_messages[i]).id == id implies reached(
            then.nodes,
            then.nodes[a].pending_messages[i].dest,
            then.nodes[a].pending_messages[i].message,
        ) by {
            let q = then.nodes[a].pending_messages[i];
            if a == b {
                lemma_pending_origin(node, d.msg, d.at, i);
                let k = choose|k: int|
                    0 <= k < node.pending_messages.len() && (#[trigger] node.pending_messages[k]).id
                        == q.id && node.pending_messages[k].message == q.message
                        && node.pending_messages[k].dest == q.dest;
                assert(reached(sys.nodes, node.pending_messages[k].dest, node.pending_messages[k].message));
            } else {
                assert(then.nodes[a] == sys.nodes[a]);
                assert(reached(sys.nodes, q.dest, q.message));
            }
            lemma_reach_is_kept(sys.nodes, b, d.msg, d.at, q.dest, q.message);
        }
    } else {
        assert(out.to_set().contains(m));
        assert(out.contains(m));
        lemma_sent_origin(node, d.msg, d.at, m);
        let value = d.msg.body->message;
        // The request came under the id of node `a`, so it was on the wire
        // and is one of that node's sends.
        assert(d.msg.src == sys.nodes[a].node_id);
        assert(is_node(sys.nodes, d.msg.src));
        assert(sys.wire.contains(d.msg));
        assert(sys.is_send_of(d.msg, a));
        lemma_spread_value_is_held(node, d.msg, d.at);
        assert(reached(then.nodes, node.node_id, value)) by {
            assert forall|c: int|
                0 <= c < then.nodes.len() && (#[trigger] then.nodes[c]).node_id
                    == node.node_id implies holds(then.nodes[c], value) by {
                if c != b {
                    assert(sys.nodes[c].node_id != sys.nodes[b].node_id);
                }
            }
        }
        assert forall|i: int|
            0 <= i < then.nodes[a].pending_messages.len() && (
            #[trigger] then.nodes[a].pending_messages[i]).id == id implies reached(
            then.nodes,
            then.nodes[a].pending_messages[i].dest,
            then.nodes[a].pending_messages[i].message,
        ) by {
            let q = then.nodes[a].pending_messages[i];
            if a == b {
                lemma_pending_origin(node, d.msg, d.at, i);
                let k = choose|k: int|
                    0 <= k < node.pending_messages.len() && (#[trigger] node.pending_messages[k]).id
                        == q.id && node.pending_messages[k].message == q.message
                        && node.pending_messages[k].dest == q.dest;
                assert(carries(d.msg, node.pending_messages[k]));
            } else {
                assert(then.nodes[a] == sys.nodes[a]);
                assert(carries(d.msg, q));
            }
        }
    }
}

/// A system at its start is sound: well-formed nodes with different ids,
/// no pending sends, and nothing on the wire.
pub proof fn lemma_quiet_start_is_sound(sys: System)
    requires
        all_wf(sys.nodes),
        distinct_ids(sys.nodes),
        sys.wire == Set::<EnvelopeView<MessageView>>::empty(),
        forall|a: int| 0 <= a < sys.nodes.len() ==> (#[trigger] sys.nodes[a]).pending_messages.len() == 0,
    ensures
        sys.sound(),
{
}

/// In a sound system, a delivery that can happen may reach its node: the
/// acknowledgment that it may carry tells the truth.
pub proof fn lemma_admitted_may_reach(sys: System, d: Delivery)
    requires
        sys.sound(),
        sys.admits(d),
    ensures
        may_reach(sys.nodes, d.to, d.msg),
{
    let node = sys.nodes[d.to];
    assert forall|i: int|
        0 <= i < node.pending_messages.len() && d.msg.body == (MessageView::BroadcastOk {
            in_reply_to: Some((#[trigger] node.pending_messages[i]).id),
        }) implies reached(sys.nodes, node.pending_messages[i].dest, node.pending_messages[i].message) by {
        assert(sys.wire.contains(d.msg));
        assert(sys.is_ack_for(d.msg, d.to));
    }
}

/// Through every run of the system, it stays sound and the tables of the
/// nodes go on accounting for a value.
pub proof fn lemma_run_keeps_cover(sys: System, ds: Seq<Delivery>, value: i32)
    requires
        sys.sound(),
        covers(sys.nodes, value),
        sys.admits_all(ds),
    ensures
        sys.after_all(ds).sound(),
        sys.after_all(ds).nodes.len() == sys.nodes.len(),
        covers(sys.after_all(ds).nodes, value),
    decreases ds.len(),
{
    if ds.len() > 0 {
        let earlier = ds.drop_last();
        let last = ds.last();
        assert forall|k: int| 0 <= k < earlier.len() implies sys.after_all(earlier.take(k)).admits(
            #[trigger] earlier[k],
        ) by {
            assert(earlier.take(k) =~= ds.take(k));
            assert(earlier[k] == ds[k]);
        }
        lemma_run_keeps_cover(sys, earlier, value);
        let before = sys.after_all(earlier);
        assert(ds.take(ds.len() - 1) =~= earlier);
        assert(last == ds[ds.len() - 1]);
        assert(before.admits(last));
        lemma_admitted_may_reach(before, last);
        lemma_delivery_keeps_sound(before, last);
        assert(before.nodes[last.to].wf());
        lemma_step_keeps_cover(before.nodes, last.to, last.msg, last.at, value);
    }
}

/// A value arrives wherever it can go, whatever the transport does. Take
/// a sound system in which no node holds the value yet, and let it run in
/// any way it can: messages may be lost, repeated and reordered. Whenever
/// no send of the value is pending afterwards, every node on a path of
/// neighbours that starts at a node which holds the value holds it too.
pub proof fn lemma_value_arrives_whatever_the_transport_does(
    sys: System,
    ds: Seq<Delivery>,
    value: i32,
    path: Seq<int>,
    k: int,
)
    requires
        sys.sound(),
        forall|a: int| 0 <= a < sys.nodes.len() ==> !holds(#[trigger] sys.nodes[a], value),
        sys.admits_all(ds),
        at_rest(sys.after_all(ds).nodes, value),
        is_path(sys.after_all(ds).nodes, path),
        0 <= k < path.len(),
        holds(sys.after_all(ds).nodes[path[0]], value),
    ensures
        holds(sys.after_all(ds).nodes[path[k]], value),
{
    lemma_run_keeps_cover(sys, ds, value);
    lemma_value_has_arrived_at_rest(sys.after_all(ds).nodes, value, path, k);
}


/// The transport can always complete a hop. Take a send that is pending at
/// node `a` and whose neighbour is node `b`.
/// The envelope can be delivered to `b`, and the acknowledgment that `b`
/// sends can then be delivered to `a`. The system is sound after each, and
/// after both `b` holds the value and the send is no longer pending at `a`.
pub proof fn lemma_hop_can_complete(
    sys: System,
    a: int,
    i: int,
    b: int,
    received_at: u64,
    acknowledged_at: u64,
)
    requires
        sys.sound(),
        0 <= a < sys.nodes.len(),
        0 <= b < sys.nodes.len(),
        0 <= i < sys.nodes[a].pending_messages.len(),
        sys.nodes[b].node_id == sys.nodes[a].pending_messages[i].dest,
        sys.nodes[b].accepts(gossip(sys.nodes[a].node_id, sys.nodes[a].pending_messages[i]).body),
    ensures
        ({
            let p = sys.nodes[a].pending_messages[i];
            let envelope = gossip(sys.nodes[a].node_id, p);
            let ack = envelope.reply(MessageView::BroadcastOk { in_reply_to: Some(p.id) });
            let there = Delivery { to: b, msg: envelope, at: received_at };
            let back = Delivery { to: a, msg: ack, at: acknowledged_at };
            let done = sys.after(there).after(back);
            &&& sys.admits(there)
            &&& sys.after(there).sound()
            &&& sys.after(there).admits(back)
            &&& done.sound()
            &&& holds(done.nodes[b], p.message)
            &&& forall|k: int|
                0 <= k < done.nodes[a].pending_messages.len() ==> (
                #[trigger] done.nodes[a].pending_messages[k]).id != p.id
        }),
{
    let p = sys.nodes[a].pending_messages[i];
    let envelope = gossip(sys.nodes[a].node_id, p);
    let ack = envelope.reply(MessageView::BroadcastOk { in_reply_to: Some(p.id) });
    let there = Delivery { to: b, msg: envelope, at: received_at };
    let back = Delivery { to: a, msg: ack, at: acknowledged_at };
    let mid = sys.after(there);
    let done = mid.after(back);
    assert(sys.admits(there));
    lemma_delivery_keeps_sound(sys, there);
    lemma_spread_value_is_held(sys.nodes[b], envelope, received_at);
    let out = sys.nodes[b].sent(envelope, received_at);
    assert(out[0] == ack);
    assert(out.contains(ack));
    assert(mid.wire.contains(ack));
    assert(mid.nodes[a].node_id == sys.nodes[a].node_id);
    assert(mid.admits(back));
    lemma_delivery_keeps_sound(mid, back);
    assert(mid.nodes[a].wf());
    lemma_acknowledged_is_rest(mid.nodes[a].pending_messages, p.id);
    assert(holds(mid.nodes[b], p.message));
    if a == b {
        crate::network::lemma_holding_is_kept(mid.nodes[b], ack, acknowledged_at, p.message);
    }
}

} // verus!
