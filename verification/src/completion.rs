//! A value can always come to rest, and in a bounded number of deliveries.
//!
//! As long as a send of a value is pending somewhere, the transport can
//! deliver its envelope and bring the acknowledgment back. Each such hop
//! uses up one unit of the work that is left: the sends of the value that
//! are pending, and the sends that the nodes which do not hold the value
//! yet will make when it reaches them. So after at most that many hops no
//! send of the value is pending, and the value has arrived wherever it can
//! go.

use crate::dissemination::{gossip, MessageView, NodeView, PendingView};
use crate::guarantees::{lemma_acknowledged_is_rest, lemma_spread_value_is_held};
use crate::network::{at_rest, holds, is_path, lemma_holding_is_kept, Delivery};
use crate::transport::{
    is_node, lemma_hop_can_complete, lemma_value_arrives_whatever_the_transport_does, System,
};
use vstd::prelude::*;

verus! {

/// How many of the sends `pending` carry `value`.
pub open spec fn count_of(pending: Seq<PendingView>, value: i32) -> nat
    decreases pending.len(),
{
    if pending.len() == 0 {
        0
    } else {
        count_of(pending.drop_last(), value) + if pending.last().message == value {
            1nat
        } else {
            0nat
        }
    }
}

/// The work that `value` still asks of `node`: its pending sends of the
/// value and, where it does not hold the value yet, one send for each of
/// its neighbours.
pub open spec fn work_of(node: NodeView, value: i32) -> nat {
    count_of(node.pending_messages, value) + if holds(node, value) {
        0nat
    } else {
        node.topology.len()
    }
}

/// The work that `value` still asks of all of `nodes`.
pub open spec fn work(nodes: Seq<NodeView>, value: i32) -> nat
    decreases nodes.len(),
{
    if nodes.len() == 0 {
        0
    } else {
        work(nodes.drop_last(), value) + work_of(nodes.last(), value)
    }
}

/// Whether the system is ready to bring `value` to rest: it is sound; the
/// neighbours that the nodes name, in their lists and in their pending
/// sends of the value, are nodes; and every node that does not hold the
/// value yet has a sequence id left for each of its neighbours.
pub open spec fn ready(sys: System, value: i32) -> bool {
    &&& sys.sound()
    &&& forall|a: int, j: int|
        0 <= a < sys.nodes.len() && 0 <= j < sys.nodes[a].topology.len() ==> is_node(
            sys.nodes,
            #[trigger] sys.nodes[a].topology[j],
        )
    &&& forall|a: int, i: int|
        0 <= a < sys.nodes.len() && 0 <= i < sys.nodes[a].pending_messages.len() && (
        #[trigger] sys.nodes[a].pending_messages[i]).message == value ==> is_node(
            sys.nodes,
            sys.nodes[a].pending_messages[i].dest,
        )
    &&& forall|a: int|
        0 <= a < sys.nodes.len() && !holds(#[trigger] sys.nodes[a], value)
            ==> sys.nodes[a].has_room()
}

/// Counting goes through a concatenation.
pub proof fn lemma_count_of_concat(s: Seq<PendingView>, t: Seq<PendingView>, value: i32)
    ensures
        count_of(s + t, value) == count_of(s, value) + count_of(t, value),
    decreases t.len(),
{
    if t.len() == 0 {
        assert(s + t =~= s);
    } else {
        assert((s + t).drop_last() =~= s + t.drop_last());
        assert((s + t).last() == t.last());
        lemma_count_of_concat(s, t.drop_last(), value);
    }
}

/// Where every send carries the value, the count is the length.
pub proof fn lemma_count_of_all(s: Seq<PendingView>, value: i32)
    requires
        forall|i: int| 0 <= i < s.len() ==> (#[trigger] s[i]).message == value,
    ensures
        count_of(s, value) == s.len(),
    decreases s.len(),
{
    if s.len() > 0 {
        assert forall|i: int| 0 <= i < s.drop_last().len() implies (#[trigger] s.drop_last()[i]).message
            == value by {
            assert(s.drop_last()[i] == s[i]);
        }
        lemma_count_of_all(s.drop_last(), value);
    }
}

/// Taking one send out takes it out of the count.
pub proof fn lemma_count_of_remove(s: Seq<PendingView>, i: int, value: i32)
    requires
        0 <= i < s.len(),
    ensures
        count_of(s.remove(i), value) + (if s[i].message == value {
            1nat
        } else {
            0nat
        }) == count_of(s, value),
    decreases s.len(),
{
    if i == s.len() - 1 {
        assert(s.remove(i) =~= s.drop_last());
    } else {
        assert(s.remove(i).drop_last() =~= s.drop_last().remove(i));
        assert(s.remove(i).last() == s.last());
        assert(s.drop_last()[i] == s[i]);
        lemma_count_of_remove(s.drop_last(), i, value);
    }
}

/// Changing one node changes the work by what changes at that node.
pub proof fn lemma_work_update(nodes: Seq<NodeView>, k: int, node: NodeView, value: i32)
    requires
        0 <= k < nodes.len(),
    ensures
        work(nodes.update(k, node), value) + work_of(nodes[k], value) == work(nodes, value)
            + work_of(node, value),
    decreases nodes.len(),
{
    let after = nodes.update(k, node);
    if k == nodes.len() - 1 {
        assert(after.drop_last() =~= nodes.drop_last());
    } else {
        assert(after.drop_last() =~= nodes.drop_last().update(k, node));
        assert(after.last() == nodes.last());
        assert(nodes.drop_last()[k] == nodes[k]);
        lemma_work_update(nodes.drop_last(), k, node, value);
    }
}

/// A node that takes a value in, or is asked to and holds it already, has
/// as much work left as before.
pub proof fn lemma_arrival_keeps_work(node: NodeView, p: PendingView, src: Seq<char>, now: u64)
    ensures
        work_of(node.next(gossip(src, p), now), p.message) == work_of(node, p.message),
{
    let value = p.message;
    let msg = gossip(src, p);
    lemma_spread_value_is_held(node, msg, now);
    if !holds(node, value) {
        let added = node.fan_out_pending(value, now);
        lemma_count_of_concat(node.pending_messages, added, value);
        lemma_count_of_all(added, value);
    }
}

/// A node that gets the acknowledgment of a pending send of a value has
/// one unit of work less.
pub proof fn lemma_acknowledgment_does_work(
    node: NodeView,
    i: int,
    msg: crate::envelope::EnvelopeView<MessageView>,
    now: u64,
)
    requires
        node.wf(),
        0 <= i < node.pending_messages.len(),
        msg.body == (MessageView::BroadcastOk { in_reply_to: Some(node.pending_messages[i].id) }),
    ensures
        work_of(node.next(msg, now), node.pending_messages[i].message) + 1 == work_of(
            node,
            node.pending_messages[i].message,
        ),
{
    let p = node.pending_messages[i];
    let at = choose|k: int| 0 <= k < node.pending_messages.len() && node.pending_messages[k].id == p.id;
    assert(at == i);
    lemma_count_of_remove(node.pending_messages, i, p.message);
}

/// One hop uses up one unit of work and leaves the system ready.
pub proof fn lemma_hop_does_work(sys: System, value: i32, a: int, i: int, now: u64) -> (hop: (
    Delivery,
    Delivery,
))
    requires
        ready(sys, value),
        0 <= a < sys.nodes.len(),
        0 <= i < sys.nodes[a].pending_messages.len(),
        sys.nodes[a].pending_messages[i].message == value,
    ensures
        sys.admits(hop.0),
        sys.after(hop.0).admits(hop.1),
        ready(sys.after(hop.0).after(hop.1), value),
        work(sys.after(hop.0).after(hop.1).nodes, value) + 1 == work(sys.nodes, value),
{
    let p = sys.nodes[a].pending_messages[i];
    let envelope = gossip(sys.nodes[a].node_id, p);
    let ack = envelope.reply(MessageView::BroadcastOk { in_reply_to: Some(p.id) });
    assert(is_node(sys.nodes, p.dest));
    let b = choose|b: int| 0 <= b < sys.nodes.len() && (#[trigger] sys.nodes[b]).node_id == p.dest;
    let there = Delivery { to: b, msg: envelope, at: now };
    let back = Delivery { to: a, msg: ack, at: now };
    let before = sys.nodes[b];
    let taken = before.next(envelope, now);
    let mid = sys.after(there);
    let done = mid.after(back);

    // The hop can be made, and the system is sound after each half of it.
    lemma_hop_can_complete(sys, a, i, b, now, now);
    lemma_spread_value_is_held(before, envelope, now);
    assert(forall|c: int| 0 <= c < sys.nodes.len() ==> (#[trigger] mid.nodes[c]).node_id
        == sys.nodes[c].node_id);
    assert(forall|c: int| 0 <= c < sys.nodes.len() ==> (#[trigger] mid.nodes[c]).topology
        == sys.nodes[c].topology);
    lemma_arrival_keeps_work(before, p, sys.nodes[a].node_id, now);
    lemma_work_update(sys.nodes, b, taken, value);
    assert(work(mid.nodes, value) == work(sys.nodes, value));

    // The send is still pending at `a`, at a place `at`.
    let sender = mid.nodes[a];
    assert(exists|k: int|
        0 <= k < sender.pending_messages.len() && sender.pending_messages[k] == p) by {
        if a == b {
            assert(taken.pending_messages[i] == p);
        } else {
            assert(sender == sys.nodes[a]);
        }
    }
    let at = choose|k: int| 0 <= k < sender.pending_messages.len() && sender.pending_messages[k] == p;

    // What the way back takes off the work.
    assert(sender.wf());
    lemma_acknowledgment_does_work(sender, at, ack, now);
    lemma_work_update(mid.nodes, a, sender.next(ack, now), value);
    lemma_acknowledged_is_rest(sender.pending_messages, p.id);

    assert forall|c: int| 0 <= c < done.nodes.len() implies (#[trigger] done.nodes[c]).node_id
        == sys.nodes[c].node_id && done.nodes[c].topology == sys.nodes[c].topology by {}
    assert forall|id: Seq<char>| is_node(sys.nodes, id) implies is_node(done.nodes, id) by {
        let c = choose|c: int| 0 <= c < sys.nodes.len() && (#[trigger] sys.nodes[c]).node_id == id;
        assert(done.nodes[c].node_id == id);
    }
    assert forall|c: int, j: int|
        0 <= c < done.nodes.len() && 0 <= j < done.nodes[c].topology.len() implies is_node(
        done.nodes,
        #[trigger] done.nodes[c].topology[j],
    ) by {
        assert(is_node(sys.nodes, sys.nodes[c].topology[j]));
    }
    assert forall|c: int|
        0 <= c < done.nodes.len() && !holds(#[trigger] done.nodes[c], value) implies done.nodes[c].has_room() by {
        if c == b {
            assert(holds(mid.nodes[b], value));
            if a == b {
                lemma_holding_is_kept(mid.nodes[b], ack, now, value);
            }
        } else if c == a {
            assert(mid.nodes[a] == sys.nodes[a]);
        } else {
            assert(done.nodes[c] == sys.nodes[c]);
        }
    }
    assert forall|c: int, k: int|
        0 <= c < done.nodes.len() && 0 <= k < done.nodes[c].pending_messages.len() && (
        #[trigger] done.nodes[c].pending_messages[k]).message == value implies is_node(
        done.nodes,
        done.nodes[c].pending_messages[k].dest,
    ) by {
        let q = done.nodes[c].pending_messages[k];
        // Every send of `mid` is accounted for.
        assert forall|e: int|
            0 <= e < mid.nodes[c].pending_messages.len() && (
            #[trigger] mid.nodes[c].pending_messages[e]).message == value implies is_node(
            sys.nodes,
            mid.nodes[c].pending_messages[e].dest,
        ) by {
            let r = mid.nodes[c].pending_messages[e];
            if c == b && e >= before.pending_messages.len() {
                let j = e - before.pending_messages.len();
                assert(!holds(before, value));
                assert(r == before.fan_out_pending(value, now)[j]);
                assert(r.dest == before.topology[j]);
            } else {
                assert(r == sys.nodes[c].pending_messages[e]);
            }
        }
        if c == a {
            assert(sender.pending_messages.contains(q));
            let e = choose|e: int|
                0 <= e < sender.pending_messages.len() && sender.pending_messages[e] == q;
            assert(mid.nodes[c].pending_messages[e].message == value);
        } else {
            assert(done.nodes[c] == mid.nodes[c]);
        }
    }
    (there, back)
}

/// Playing one run after another is playing them in a row.
pub proof fn lemma_after_all_concat(sys: System, first: Seq<Delivery>, second: Seq<Delivery>)
    requires
        sys.admits_all(first),
        sys.after_all(first).admits_all(second),
    ensures
        sys.after_all(first + second) == sys.after_all(first).after_all(second),
        sys.admits_all(first + second),
    decreases second.len(),
{
    let all = first + second;
    if second.len() == 0 {
        assert(all =~= first);
    } else {
        let shorter = second.drop_last();
        assert(all.drop_last() =~= first + shorter);
        assert(all.last() == second.last());
        assert forall|k: int| 0 <= k < shorter.len() implies sys.after_all(first).after_all(
            shorter.take(k),
        ).admits(#[trigger] shorter[k]) by {
            assert(shorter.take(k) =~= second.take(k));
            assert(shorter[k] == second[k]);
        }
        lemma_after_all_concat(sys, first, shorter);
        assert forall|k: int| 0 <= k < all.len() implies sys.after_all(all.take(k)).admits(
            #[trigger] all[k],
        ) by {
            if k < first.len() {
                assert(all.take(k) =~= first.take(k));
                assert(all[k] == first[k]);
            } else {
                let j = k - first.len();
                assert(all.take(k) =~= first + second.take(j));
                assert(all[k] == second[j]);
                if j < shorter.len() {
                    assert(second.take(j) =~= shorter.take(j));
                    assert(first + shorter.take(j) =~= (first + shorter).take(k));
                    assert((first + shorter)[k] == shorter[j]);
                } else {
                    assert(second.take(j) =~= shorter);
                }
            }
        }
    }
}

/// A value can always come to rest. From a system that is ready, there is
/// a run of deliveries, two for each unit of work that is left, after
/// which no send of the value is pending. The run is the result.
pub proof fn lemma_can_come_to_rest(sys: System, value: i32, now: u64) -> (ds: Seq<Delivery>)
    requires
        ready(sys, value),
    ensures
        sys.admits_all(ds),
        sys.after_all(ds).sound(),
        at_rest(sys.after_all(ds).nodes, value),
        ds.len() <= 2 * work(sys.nodes, value),
    decreases work(sys.nodes, value),
{
    if at_rest(sys.nodes, value) {
        Seq::empty()
    } else {
        let (a, i) = choose|a: int, i: int|
            0 <= a < sys.nodes.len() && 0 <= i < sys.nodes[a].pending_messages.len() && (
            #[trigger] sys.nodes[a].pending_messages[i]).message == value;
        let hop = lemma_hop_does_work(sys, value, a, i, now);
        let first = seq![hop.0, hop.1];
        let done = sys.after(hop.0).after(hop.1);
        let rest = lemma_can_come_to_rest(done, value, now);
        assert(sys.after_all(first) == done && sys.admits_all(first)) by {
            assert(first.drop_last() =~= seq![hop.0]);
            assert(first.drop_last().drop_last() =~= Seq::<Delivery>::empty());
            let one = seq![hop.0];
            assert(one.drop_last() =~= Seq::<Delivery>::empty());
            assert(sys.after_all(one.drop_last()) == sys);
            assert(one.last() == hop.0);
            assert(sys.after_all(one) == sys.after(hop.0));
            assert forall|k: int| 0 <= k < first.len() implies sys.after_all(first.take(k)).admits(
                #[trigger] first[k],
            ) by {
                if k == 0 {
                    assert(first.take(0) =~= Seq::<Delivery>::empty());
                } else {
                    assert(first.take(1) =~= seq![hop.0]);
                }
            }
        }
        lemma_after_all_concat(sys, first, rest);
        first + rest
    }
}


/// A value is delivered. Let a sound system in which no node holds the
/// value run in any way it can, and let it then be ready to bring the
/// value to rest. Then it can go on, by at most two deliveries for each
/// unit of the work that is left, to a state in which every node on a path
/// of neighbours that starts at a node which holds the value holds it too.
/// The deliveries to go on with are the result.
pub proof fn lemma_value_is_delivered(sys: System, so_far: Seq<Delivery>, value: i32, now: u64) -> (more:
    Seq<Delivery>)
    requires
        sys.sound(),
        forall|a: int| 0 <= a < sys.nodes.len() ==> !holds(#[trigger] sys.nodes[a], value),
        sys.admits_all(so_far),
        ready(sys.after_all(so_far), value),
    ensures
        sys.admits_all(so_far + more),
        more.len() <= 2 * work(sys.after_all(so_far).nodes, value),
        at_rest(sys.after_all(so_far + more).nodes, value),
        forall|path: Seq<int>, k: int|
            is_path(sys.after_all(so_far + more).nodes, path) && 0 <= k < path.len() && holds(
                sys.after_all(so_far + more).nodes[path[0]],
                value,
            ) ==> holds(sys.after_all(so_far + more).nodes[#[trigger] path[k]], value),
{
    let more = lemma_can_come_to_rest(sys.after_all(so_far), value, now);
    lemma_after_all_concat(sys, so_far, more);
    let end = sys.after_all(so_far + more);
    assert forall|path: Seq<int>, k: int|
        is_path(end.nodes, path) && 0 <= k < path.len() && holds(
            end.nodes[path[0]],
            value,
        ) implies holds(end.nodes[#[trigger] path[k]], value) by {
        lemma_value_arrives_whatever_the_transport_does(sys, so_far + more, value, path, k);
    }
    more
}

} // verus!
