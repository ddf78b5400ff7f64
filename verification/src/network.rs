//! Many nodes at once: how far a value has come.
//!
//! A network is a list of nodes with a fixed neighbourhood. The tables of
//! the nodes account for a value when every neighbour of every node that
//! holds it either holds it as well or is owed a send that is still
//! pending. No message that tells the truth undoes that, and once no send
//! of the value is pending any more, every node that can be reached from a
//! holder holds it.

use crate::dissemination::{MessageView, NodeView};
use crate::envelope::EnvelopeView;
use crate::guarantees::{lemma_held_values_stay, lemma_pending_send_is_kept_until_acknowledged};
use vstd::prelude::*;

verus! {

/// Whether `node` has taken `value` in.
pub open spec fn holds(node: NodeView, value: i32) -> bool {
    node.messages.contains(value)
}

/// Whether a send of `value` to `dest` is pending at `node`.
pub open spec fn owes(node: NodeView, value: i32, dest: Seq<char>) -> bool {
    exists|i: int|
        0 <= i < node.pending_messages.len() && (#[trigger] node.pending_messages[i]).message
            == value && node.pending_messages[i].dest == dest
}

/// Whether every node of `nodes` that goes by the id `id` holds `value`.
pub open spec fn reached(nodes: Seq<NodeView>, id: Seq<char>, value: i32) -> bool {
    forall|b: int| 0 <= b < nodes.len() && (#[trigger] nodes[b]).node_id == id ==> holds(
        nodes[b],
        value,
    )
}

/// Whether the tables account for `value`: every neighbour of every node
/// that holds it either holds it too or is owed a pending send of it.
pub open spec fn covers(nodes: Seq<NodeView>, value: i32) -> bool {
    forall|a: int, j: int|
        0 <= a < nodes.len() && 0 <= j < nodes[a].topology.len() && holds(nodes[a], value)
            ==> owes(nodes[a], value, #[trigger] nodes[a].topology[j]) || reached(
            nodes,
            nodes[a].topology[j],
            value,
        )
}

/// Whether no send of `value` is pending anywhere.
pub open spec fn at_rest(nodes: Seq<NodeView>, value: i32) -> bool {
    forall|a: int, i: int|
        0 <= a < nodes.len() && 0 <= i < nodes[a].pending_messages.len() ==> (
        #[trigger] nodes[a].pending_messages[i]).message != value
}

/// Whether `path` names nodes of `nodes` such that each one after the
/// first is a neighbour of the one before it.
pub open spec fn is_path(nodes: Seq<NodeView>, path: Seq<int>) -> bool {
    &&& forall|k: int| 0 <= k < path.len() ==> 0 <= #[trigger] path[k] < nodes.len()
    &&& forall|k: int|
        0 <= k < path.len() - 1 ==> nodes[path[k]].topology.contains(
            nodes[#[trigger] path[k + 1]].node_id,
        )
}

/// Whether the message `msg` may reach node `k` in a network with a fixed
/// neighbourhood: it gives the node no new id and no new neighbours, and
/// where it acknowledges a pending send, the neighbour of that send has
/// taken the value in, as a neighbour does before it acknowledges.
pub open spec fn may_reach(nodes: Seq<NodeView>, k: int, msg: EnvelopeView<MessageView>) -> bool {
    &&& !(msg.body is Init)
    &&& !(msg.body is Topology)
    &&& forall|i: int|
        0 <= i < nodes[k].pending_messages.len() && msg.body == (MessageView::BroadcastOk {
            in_reply_to: Some((#[trigger] nodes[k].pending_messages[i]).id),
        }) ==> reached(nodes, nodes[k].pending_messages[i].dest, nodes[k].pending_messages[i].message)
}

/// A node that holds a value holds it after any message.
pub proof fn lemma_holding_is_kept(
    node: NodeView,
    msg: EnvelopeView<MessageView>,
    now: u64,
    value: i32,
)
    requires
        holds(node, value),
    ensures
        holds(node.next(msg, now), value),
{
    lemma_held_values_stay(node, msg, now);
    let at = choose|i: int| 0 <= i < node.messages.len() && node.messages[i] == value;
    let after = node.next(msg, now).messages;
    assert(after.take(node.messages.len() as int)[at] == value);
    assert(after[at] == value);
}

/// The tables go on accounting for a value through every message that may
/// reach a node.
pub proof fn lemma_step_keeps_cover(
    nodes: Seq<NodeView>,
    k: int,
    msg: EnvelopeView<MessageView>,
    now: u64,
    value: i32,
)
    requires
        0 <= k < nodes.len(),
        nodes[k].wf(),
        may_reach(nodes, k, msg),
        covers(nodes, value),
    ensures
        covers(nodes.update(k, nodes[k].next(msg, now)), value),
{
    let node = nodes[k];
    let next = node.next(msg, now);
    let after = nodes.update(k, next);
    assert(next.topology == node.topology);
    assert(next.node_id == node.node_id);
    assert forall|a: int, j: int|
        0 <= a < after.len() && 0 <= j < after[a].topology.len() && holds(
            after[a],
            value,
        ) implies owes(after[a], value, #[trigger] after[a].topology[j]) || reached(
        after,
        after[a].topology[j],
        value,
    ) by {
        let dest = after[a].topology[j];
        assert(dest == nodes[a].topology[j]);
        if holds(nodes[a], value) {
            if reached(nodes, dest, value) {
                lemma_reach_is_kept(nodes, k, msg, now, dest, value);
            } else {
                assert(owes(nodes[a], value, dest));
                if a != k {
                    assert(after[a] == nodes[a]);
                } else {
                    let i = choose|i: int|
                        0 <= i < node.pending_messages.len() && (
                        #[trigger] node.pending_messages[i]).message == value
                            && node.pending_messages[i].dest == dest;
                    let p = node.pending_messages[i];
                    lemma_pending_send_is_kept_until_acknowledged(node, msg, now, i);
                    if msg.body == (MessageView::BroadcastOk { in_reply_to: Some(p.id) }) {
                        assert(reached(nodes, dest, value));
                    } else if msg.body is Tick && crate::dissemination::is_due(p, now) {
                        assert(next.pending_messages[i].message == value
                            && next.pending_messages[i].dest == dest);
                    } else {
                        let at = choose|at: int|
                            0 <= at < next.pending_messages.len() && next.pending_messages[at]
                                == p;
                        assert(next.pending_messages[at].message == value
                            && next.pending_messages[at].dest == dest);
                    }
                }
            }
        } else {
            // Only node `k` changes, and it takes a value in only when it is
            // asked to spread a value that is new to it.
            assert(a == k);
            assert(msg.body is Broadcast && msg.body->message == value) by {
                if !(msg.body is Broadcast) || node.messages.contains(msg.body->message) {
                    assert(next.messages == node.messages);
                } else {
                    let i = choose|i: int| 0 <= i < next.messages.len() && next.messages[i] == value;
                    if i < node.messages.len() {
                        assert(node.messages[i] == value);
                    }
                }
            }
            let at = node.pending_messages.len() + j;
            assert(next.pending_messages[at] == node.fan_out_pending(value, now)[j]);
            assert(next.pending_messages[at].message == value && next.pending_messages[at].dest
                == dest);
        }
    }
}

/// What a message to one node does not undo: the nodes that went by an id
/// and held a value still do.
pub proof fn lemma_reach_is_kept(
    nodes: Seq<NodeView>,
    k: int,
    msg: EnvelopeView<MessageView>,
    now: u64,
    id: Seq<char>,
    value: i32,
)
    requires
        0 <= k < nodes.len(),
        !(msg.body is Init),
        reached(nodes, id, value),
    ensures
        reached(nodes.update(k, nodes[k].next(msg, now)), id, value),
{
    let after = nodes.update(k, nodes[k].next(msg, now));
    assert forall|b: int| 0 <= b < after.len() && (#[trigger] after[b]).node_id == id implies holds(
        after[b],
        value,
    ) by {
        assert(holds(nodes[b], value));
        if b == k {
            lemma_holding_is_kept(nodes[k], msg, now, value);
        }
    }
}

/// Once no send of a value is pending anywhere, the value has arrived
/// wherever it can go: every node on a path of neighbours that starts at a
/// node which holds the value holds it too.
pub proof fn lemma_value_has_arrived_at_rest(
    nodes: Seq<NodeView>,
    value: i32,
    path: Seq<int>,
    k: int,
)
    requires
        covers(nodes, value),
        at_rest(nodes, value),
        is_path(nodes, path),
        0 <= k < path.len(),
        holds(nodes[path[0]], value),
    ensures
        holds(nodes[path[k]], value),
    decreases k,
{
    if k > 0 {
        lemma_value_has_arrived_at_rest(nodes, value, path, k - 1);
        let a = path[k - 1];
        let b = path[k];
        let id = nodes[b].node_id;
        assert(nodes[a].topology.contains(nodes[path[k - 1 + 1]].node_id));
        let j = choose|j: int| 0 <= j < nodes[a].topology.len() && nodes[a].topology[j] == id;
        assert(owes(nodes[a], value, nodes[a].topology[j]) || reached(
            nodes,
            nodes[a].topology[j],
            value,
        ));
        if owes(nodes[a], value, id) {
            let i = choose|i: int|
                0 <= i < nodes[a].pending_messages.len() && (
                #[trigger] nodes[a].pending_messages[i]).message == value
                    && nodes[a].pending_messages[i].dest == id;
            assert(nodes[a].pending_messages[i].message != value);
        }
        assert(nodes[b].node_id == id);
    }
}


/// The arrival of one message at one node of a network.
pub struct Delivery {
    /// Which node the message reaches.
    pub to: int,
    /// The message.
    pub msg: EnvelopeView<MessageView>,
    /// When it arrives, in milliseconds.
    pub at: u64,
}

/// The network after the node `d.to` has handled `d.msg`.
pub open spec fn deliver(nodes: Seq<NodeView>, d: Delivery) -> Seq<NodeView> {
    nodes.update(d.to, nodes[d.to].next(d.msg, d.at))
}

/// Whether every node of `nodes` is well-formed.
pub open spec fn all_wf(nodes: Seq<NodeView>) -> bool {
    forall|a: int| 0 <= a < nodes.len() ==> (#[trigger] nodes[a]).wf()
}

} // verus!
