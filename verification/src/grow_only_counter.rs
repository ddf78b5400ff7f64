//! A counter that only grows, kept in a key-value store.
//!
//! Every node owns one key of the store, named after the node, and the
//! counter is the sum of all of them. For each addition it is asked for, a
//! node reads its key and then swaps the value it saw for that value plus
//! the addition. A swap that the store refuses starts again from a fresh
//! read, and at every timer tick each request that has gone unanswered for
//! too long is sent again. At every tick the node also asks for the keys of
//! the other nodes, and it answers a read with the sum of the latest values
//! it knows.

use crate::dissemination::{names, topology_view};
use crate::envelope::{envelope_views, Envelope, EnvelopeView, HandleError};
use std::collections::VecDeque;
use vstd::prelude::*;

verus! {

/// How long, in milliseconds, a request to the store may stay unanswered
/// before a timer tick sends it again.
pub const RETRY_MILLIS: u64 = 500;

/// The store's error code for a key that does not exist.
pub const KEY_DOES_NOT_EXIST: usize = 20;

/// The store's error code for a swap whose expected value was not there.
pub const PRECONDITION_FAILED: usize = 22;

/// The id under which the store is reached.
pub open spec fn store_id() -> Seq<char> {
    "seq-kv"@
}

/// The bodies a counter node exchanges with its clients.
#[derive(Debug, Clone, PartialEq, Eq)]
pub enum Message {
    Init { msg_id: Option<usize>, node_id: String },
    InitOk { in_reply_to: Option<usize> },
    Read { msg_id: usize },
    ReadOk { value: usize, in_reply_to: Option<usize> },
    Add { msg_id: usize, delta: usize },
    AddOk { in_reply_to: Option<usize> },
    /// The neighbour lists of the network, one entry per node. The node
    /// takes the other nodes' ids from it.
    Topology { topology: Vec<(String, Vec<String>)>, msg_id: Option<usize> },
    TopologyOk { in_reply_to: Option<usize> },
    /// The retry timer has fired. Never received over the wire.
    Tick {},
}

/// What a [`Message`] holds, as mathematical values.
pub enum MessageView {
    Init { msg_id: Option<usize>, node_id: Seq<char> },
    InitOk { in_reply_to: Option<usize> },
    Read { msg_id: usize },
    ReadOk { value: usize, in_reply_to: Option<usize> },
    Add { msg_id: usize, delta: usize },
    AddOk { in_reply_to: Option<usize> },
    Topology { topology: Seq<(Seq<char>, Seq<Seq<char>>)>, msg_id: Option<usize> },
    TopologyOk { in_reply_to: Option<usize> },
    Tick,
}

impl View for Message {
    type V = MessageView;

    open spec fn view(&self) -> MessageView {
        match *self {
            Message::Init { msg_id, node_id } => MessageView::Init { msg_id, node_id: node_id@ },
            Message::InitOk { in_reply_to } => MessageView::InitOk { in_reply_to },
            Message::Read { msg_id } => MessageView::Read { msg_id },
            Message::ReadOk { value, in_reply_to } => MessageView::ReadOk { value, in_reply_to },
            Message::Add { msg_id, delta } => MessageView::Add { msg_id, delta },
            Message::AddOk { in_reply_to } => MessageView::AddOk { in_reply_to },
            Message::Topology { topology, msg_id } => MessageView::Topology {
                topology: topology_view(topology@),
                msg_id,
            },
            Message::TopologyOk { in_reply_to } => MessageView::TopologyOk { in_reply_to },
            Message::Tick {} => MessageView::Tick,
        }
    }
}

/// The bodies exchanged with the key-value store.
#[derive(Debug, Clone, PartialEq, Eq)]
pub enum KVMessage {
    Read { key: String, msg_id: usize },
    ReadOk { value: usize, in_reply_to: usize },
    Write { key: String, value: usize, msg_id: usize },
    WriteOk { in_reply_to: usize },
    Cas { key: String, from: usize, to: usize, create_if_not_exists: Option<bool>, msg_id: usize },
    CasOk { in_reply_to: usize },
    Error { in_reply_to: usize, code: usize, text: String },
}

/// What a [`KVMessage`] holds, as mathematical values.
pub enum KVMessageView {
    Read { key: Seq<char>, msg_id: usize },
    ReadOk { value: usize, in_reply_to: usize },
    Write { key: Seq<char>, value: usize, msg_id: usize },
    WriteOk { in_reply_to: usize },
    Cas {
        key: Seq<char>,
        from: usize,
        to: usize,
        create_if_not_exists: Option<bool>,
        msg_id: usize,
    },
    CasOk { in_reply_to: usize },
    Error { in_reply_to: usize, code: usize, text: Seq<char> },
}

impl View for KVMessage {
    type V = KVMessageView;

    open spec fn view(&self) -> KVMessageView {
        match *self {
            KVMessage::Read { key, msg_id } => KVMessageView::Read { key: key@, msg_id },
            KVMessage::ReadOk { value, in_reply_to } => KVMessageView::ReadOk {
                value,
                in_reply_to,
            },
            KVMessage::Write { key, value, msg_id } => KVMessageView::Write {
                key: key@,
                value,
                msg_id,
            },
            KVMessage::WriteOk { in_reply_to } => KVMessageView::WriteOk { in_reply_to },
            KVMessage::Cas { key, from, to, create_if_not_exists, msg_id } => KVMessageView::Cas {
                key: key@,
                from,
                to,
                create_if_not_exists,
                msg_id,
            },
            KVMessage::CasOk { in_reply_to } => KVMessageView::CasOk { in_reply_to },
            KVMessage::Error { in_reply_to, code, text } => KVMessageView::Error {
                in_reply_to,
                code,
                text: text@,
            },
        }
    }
}

/// The request to the store that an addition waits for an answer to.
#[derive(Debug, Clone, Copy, PartialEq, Eq, Structural)]
pub enum Attempt {
    /// A read of the node's own key, sent under `id`.
    Reading { id: usize },
    /// A swap of `from` for `to` in the node's own key, sent under `id`;
    /// with `create`, the swap may make the key.
    Swapping { id: usize, from: usize, to: usize, create: bool },
}

impl Attempt {
    /// The sequence id under which the request was sent.
    pub open spec fn id(self) -> usize {
        match self {
            Attempt::Reading { id } => id,
            Attempt::Swapping { id, .. } => id,
        }
    }
}

/// An addition that the store has not confirmed yet.
#[derive(Debug, Clone, PartialEq, Eq)]
pub struct PendingMessage {
    /// By how much the counter is to grow.
    pub delta: usize,
    /// When the request for this addition was last sent, in milliseconds.
    pub time_sent: u64,
    /// The store that the request went to.
    pub dest: String,
    /// The request that the addition waits for an answer to.
    pub attempt: Attempt,
}

/// What a [`PendingMessage`] holds, as mathematical values.
pub struct PendingView {
    pub delta: usize,
    pub time_sent: u64,
    pub dest: Seq<char>,
    pub attempt: Attempt,
}

impl View for PendingMessage {
    type V = PendingView;

    open spec fn view(&self) -> PendingView {
        PendingView {
            delta: self.delta,
            time_sent: self.time_sent,
            dest: self.dest@,
            attempt: self.attempt,
        }
    }
}

/// The views of a queue of additions, in the same order.
pub open spec fn pending_views(list: Seq<PendingMessage>) -> Seq<PendingView> {
    list.map_values(|p: PendingMessage| p@)
}

/// What a node sends when it has handled a message: answers to clients and
/// requests to the store, each list in the order of sending.
#[derive(Debug, Clone, PartialEq, Eq)]
pub struct Outbox {
    pub replies: Vec<Envelope<Message>>,
    pub requests: Vec<Envelope<KVMessage>>,
}

/// The sum of `values`.
pub open spec fn total(values: Seq<usize>) -> nat
    decreases values.len(),
{
    if values.len() == 0 {
        0
    } else {
        total(values.drop_last()) + values.last() as nat
    }
}

/// The ids of the nodes that `topology` lists, without `node_id` itself, in
/// the order of the list.
pub open spec fn other_nodes(topology: Seq<(Seq<char>, Seq<Seq<char>>)>, node_id: Seq<char>) -> Seq<
    Seq<char>,
>
    decreases topology.len(),
{
    if topology.len() == 0 {
        Seq::empty()
    } else {
        let earlier = other_nodes(topology.drop_last(), node_id);
        if topology.last().0 == node_id {
            earlier
        } else {
            earlier.push(topology.last().0)
        }
    }
}

/// The value known for the node `id`: the one that `values` holds at the
/// first place at which `peers` holds `id`, and zero where it holds it
/// nowhere.
pub open spec fn known_value(peers: Seq<Seq<char>>, values: Seq<usize>, id: Seq<char>) -> usize
    decreases peers.len(),
{
    if peers.len() == 0 || values.len() == 0 {
        0
    } else if peers[0] == id {
        values[0]
    } else {
        known_value(peers.skip(1), values.skip(1), id)
    }
}

/// The larger of two values. A key of the store only grows, so of two
/// values known for it the larger is the later.
pub open spec fn later(a: usize, b: usize) -> usize {
    if a >= b {
        a
    } else {
        b
    }
}

/// Whether a request that was last sent at `p.time_sent` is sent again at a
/// tick at time `now`. A request stamped later than `now` has waited no
/// time.
pub open spec fn is_due(p: PendingView, now: u64) -> bool {
    now >= p.time_sent && now - p.time_sent >= RETRY_MILLIS
}

/// The envelope that carries `body` from `node_id` to the store.
pub open spec fn to_store(node_id: Seq<char>, body: KVMessageView) -> EnvelopeView<KVMessageView> {
    EnvelopeView { src: node_id, dest: store_id(), body }
}

/// The request that `attempt` stands for, as the node `node_id` sends it.
pub open spec fn request_of(node_id: Seq<char>, attempt: Attempt) -> EnvelopeView<KVMessageView> {
    match attempt {
        Attempt::Reading { id } => to_store(
            node_id,
            KVMessageView::Read { key: node_id, msg_id: id },
        ),
        Attempt::Swapping { id, from, to, create } => to_store(
            node_id,
            KVMessageView::Cas {
                key: node_id,
                from,
                to,
                create_if_not_exists: if create {
                    Some(true)
                } else {
                    None
                },
                msg_id: id,
            },
        ),
    }
}

/// The requests that go out again at a tick at time `now`: for each
/// addition whose request is due, that request as it was, in the order of
/// the queue.
pub open spec fn resends(node_id: Seq<char>, pending: Seq<PendingView>, now: u64) -> Seq<
    EnvelopeView<KVMessageView>,
>
    decreases pending.len(),
{
    if pending.len() == 0 {
        Seq::empty()
    } else {
        let earlier = resends(node_id, pending.drop_last(), now);
        if is_due(pending.last(), now) {
            earlier.push(request_of(node_id, pending.last().attempt))
        } else {
            earlier
        }
    }
}

/// The queue after a tick at time `now`: every addition whose request was
/// due is stamped `now`, and nothing else changes.
pub open spec fn refreshed(pending: Seq<PendingView>, now: u64) -> Seq<PendingView> {
    Seq::new(
        pending.len(),
        |i: int|
            if is_due(pending[i], now) {
                PendingView { time_sent: now, ..pending[i] }
            } else {
                pending[i]
            },
    )
}

/// Whether one of the additions `pending` waits for the answer to the
/// request sent under `id`.
pub open spec fn waits_for(pending: Seq<PendingView>, id: usize) -> bool {
    exists|i: int| 0 <= i < pending.len() && (#[trigger] pending[i]).attempt.id() == id
}

/// The place in `pending` of the addition that waits for the answer to the
/// request sent under `id`.
pub open spec fn place_of(pending: Seq<PendingView>, id: usize) -> int {
    choose|i: int| 0 <= i < pending.len() && (#[trigger] pending[i]).attempt.id() == id
}

/// The state of a counter node, as mathematical values.
pub struct CounterView {
    /// This node's id, which is also its key in the store.
    pub node_id: Seq<char>,
    /// The next unused sequence id.
    pub counter: usize,
    /// The additions that the store has not confirmed, oldest first.
    pub pending_messages: Seq<PendingView>,
    /// The latest known value of this node's key.
    pub own_value: usize,
    /// The ids of the other nodes.
    pub peers: Seq<Seq<char>>,
    /// The latest known value of each other node's key; zero where none is
    /// known.
    pub peer_values: Seq<usize>,
    /// The sequence id of the first request of the latest round of
    /// questions about the other nodes' keys.
    pub lookup_base: usize,
    /// How many requests that round has, one for each of the first so many
    /// other nodes.
    pub lookup_live: usize,
}

/// Whether a counter node has no handler for the client body `body`.
pub open spec fn is_unexpected(body: MessageView) -> bool {
    body is InitOk || body is ReadOk || body is AddOk || body is TopologyOk
}

/// Whether a counter node has no handler for the store body `body`: it is
/// a request, or the answer to a request that the node never makes.
pub open spec fn is_unexpected_from_store(body: KVMessageView) -> bool {
    body is Read || body is Write || body is Cas || body is WriteOk
}

/// The sequence id that the store body `body` answers, if it is an answer
/// that the node has a handler for.
pub open spec fn answered(body: KVMessageView) -> Option<usize> {
    match body {
        KVMessageView::ReadOk { in_reply_to, .. } => Some(in_reply_to),
        KVMessageView::CasOk { in_reply_to } => Some(in_reply_to),
        KVMessageView::Error { in_reply_to, .. } => Some(in_reply_to),
        _ => None,
    }
}

impl CounterView {
    /// A node that has heard nothing yet.
    pub open spec fn fresh() -> CounterView {
        CounterView {
            node_id: Seq::empty(),
            counter: 0,
            pending_messages: Seq::empty(),
            own_value: 0,
            peers: Seq::empty(),
            peer_values: Seq::empty(),
            lookup_base: 0,
            lookup_live: 0,
        }
    }

    /// A value is known for each other node; the round of questions fits
    /// the list of other nodes and lies below the counter; the requests
    /// that the additions wait for have different sequence ids below the
    /// counter; and a swap grows the value it saw by its addition.
    pub open spec fn wf(self) -> bool {
        &&& self.peers.len() == self.peer_values.len()
        &&& self.lookup_live <= self.peers.len()
        &&& self.lookup_base + self.lookup_live <= self.counter
        &&& forall|i: int|
            0 <= i < self.pending_messages.len() ==> (#[trigger] self.pending_messages[i]).attempt.id()
                < self.counter
        &&& forall|i: int, j: int|
            0 <= i < self.pending_messages.len() && 0 <= j < self.pending_messages.len() && i != j
                ==> (#[trigger] self.pending_messages[i]).attempt.id() != (
            #[trigger] self.pending_messages[j]).attempt.id()
        &&& forall|i: int|
            0 <= i < self.pending_messages.len() ==> ((
            #[trigger] self.pending_messages[i]).attempt matches Attempt::Swapping { from, to, .. }
                ==> to == from + self.pending_messages[i].delta)
    }

    /// The value of the counter as far as the node knows it: its own key
    /// and every other node's.
    pub open spec fn known_total(self) -> nat {
        self.own_value as nat + total(self.peer_values)
    }

    /// Whether handling the client body `body` stays within what the
    /// machine can count: an addition needs one sequence id, a tick one for
    /// each other node, and a read a sum that fits.
    pub open spec fn accepts(self, body: MessageView) -> bool {
        match body {
            MessageView::Add { .. } => self.counter < usize::MAX,
            MessageView::Tick => self.counter + self.peers.len() <= usize::MAX,
            MessageView::Read { .. } => self.known_total() <= usize::MAX,
            _ => true,
        }
    }

    /// Whether handling the store body `body` stays within what the machine
    /// can count: where the node sends a request in answer, there is a
    /// sequence id left for it, and where that request is the swap after a
    /// read, the value that the read reports, grown by the addition, fits.
    pub open spec fn accepts_from_store(self, body: KVMessageView) -> bool {
        self.follow_up(body) is Some ==> {
            &&& self.counter < usize::MAX
            &&& body matches KVMessageView::ReadOk { value, in_reply_to } ==> value
                + self.pending_messages[place_of(self.pending_messages, in_reply_to)].delta
                <= usize::MAX
        }
    }

    /// The questions about the other nodes' keys that a tick sends: one
    /// read for each, under the sequence ids from the counter on.
    pub open spec fn lookups(self) -> Seq<EnvelopeView<KVMessageView>> {
        Seq::new(
            self.peers.len(),
            |k: int|
                to_store(
                    self.node_id,
                    KVMessageView::Read { key: self.peers[k], msg_id: (self.counter + k) as usize },
                ),
        )
    }

    /// The node after it has handled the client envelope `msg` at time
    /// `now`.
    pub open spec fn next(self, msg: EnvelopeView<MessageView>, now: u64) -> CounterView {
        match msg.body {
            MessageView::Init { node_id, .. } => CounterView { node_id, ..self },
            MessageView::Topology { topology, .. } => {
                let peers = other_nodes(topology, self.node_id);
                CounterView {
                    peers,
                    peer_values: Seq::new(
                        peers.len(),
                        |k: int| known_value(self.peers, self.peer_values, peers[k]),
                    ),
                    lookup_live: 0,
                    ..self
                }
            },
            MessageView::Add { delta, .. } => CounterView {
                pending_messages: self.pending_messages.push(
                    PendingView {
                        delta,
                        time_sent: now,
                        dest: store_id(),
                        attempt: Attempt::Reading { id: self.counter },
                    },
                ),
                counter: (self.counter + 1) as usize,
                ..self
            },
            MessageView::Tick => CounterView {
                pending_messages: refreshed(self.pending_messages, now),
                lookup_base: self.counter,
                lookup_live: self.peers.len() as usize,
                counter: (self.counter + self.peers.len()) as usize,
                ..self
            },
            _ => self,
        }
    }

    /// The answers to clients that the node sends when it handles the
    /// client envelope `msg`.
    pub open spec fn replies(self, msg: EnvelopeView<MessageView>) -> Seq<
        EnvelopeView<MessageView>,
    > {
        match msg.body {
            MessageView::Init { msg_id, .. } => seq![
                msg.reply(MessageView::InitOk { in_reply_to: msg_id }),
            ],
            MessageView::Topology { msg_id, .. } => seq![
                msg.reply(MessageView::TopologyOk { in_reply_to: msg_id }),
            ],
            MessageView::Read { msg_id } => seq![
                msg.reply(
                    MessageView::ReadOk {
                        value: self.known_total() as usize,
                        in_reply_to: Some(msg_id),
                    },
                ),
            ],
            MessageView::Add { msg_id, .. } => seq![
                msg.reply(MessageView::AddOk { in_reply_to: Some(msg_id) }),
            ],
            _ => Seq::empty(),
        }
    }

    /// The requests to the store that the node sends when it handles the
    /// client envelope `msg` at time `now`: for an addition the read of its
    /// key; at a tick every request that is due, and then the questions
    /// about the other nodes' keys.
    pub open spec fn requests(self, msg: EnvelopeView<MessageView>, now: u64) -> Seq<
        EnvelopeView<KVMessageView>,
    > {
        match msg.body {
            MessageView::Add { .. } => seq![
                request_of(self.node_id, Attempt::Reading { id: self.counter }),
            ],
            MessageView::Tick => resends(self.node_id, self.pending_messages, now)
                + self.lookups(),
            _ => Seq::empty(),
        }
    }

    /// The request that the answer `body` of the store makes the node send
    /// next, for the addition that waited for that answer, if any: after a
    /// read the swap, after a read that found no key the swap from zero
    /// that may make the key, and after any other refusal for want of a key
    /// or of the expected value a fresh read.
    pub open spec fn follow_up(self, body: KVMessageView) -> Option<Attempt> {
        if answered(body) is Some && waits_for(self.pending_messages, answered(body)->0) {
            let p = self.pending_messages[place_of(self.pending_messages, answered(body)->0)];
            match body {
                KVMessageView::ReadOk { value, .. } => if p.attempt is Reading {
                    Some(
                        Attempt::Swapping {
                            id: self.counter,
                            from: value,
                            to: (value + p.delta) as usize,
                            create: false,
                        },
                    )
                } else {
                    None
                },
                KVMessageView::Error { code, .. } => if code == KEY_DOES_NOT_EXIST || code
                    == PRECONDITION_FAILED {
                    if p.attempt is Reading && code == KEY_DOES_NOT_EXIST {
                        Some(
                            Attempt::Swapping {
                                id: self.counter,
                                from: 0,
                                to: p.delta,
                                create: true,
                            },
                        )
                    } else {
                        Some(Attempt::Reading { id: self.counter })
                    }
                } else {
                    None
                },
                _ => None,
            }
        } else {
            None
        }
    }

    /// Whether `body` confirms the swap of one of the additions.
    pub open spec fn confirms(self, body: KVMessageView) -> bool {
        &&& body matches KVMessageView::CasOk { in_reply_to }
        &&& waits_for(self.pending_messages, in_reply_to)
        &&& self.pending_messages[place_of(self.pending_messages, in_reply_to)].attempt is Swapping
    }

    /// Whether `body` answers a question of the latest round about another
    /// node's key with a value.
    pub open spec fn informs(self, body: KVMessageView) -> bool {
        &&& body matches KVMessageView::ReadOk { in_reply_to, .. }
        &&& !waits_for(self.pending_messages, in_reply_to)
        &&& self.lookup_base <= in_reply_to < self.lookup_base + self.lookup_live
        &&& self.lookup_live <= self.peer_values.len()
    }

    /// The node after it has handled the envelope `msg` of the store at
    /// time `now`.
    pub open spec fn next_from_store(self, msg: EnvelopeView<KVMessageView>, now: u64) -> CounterView {
        if self.follow_up(msg.body) is Some {
            let at = place_of(self.pending_messages, answered(msg.body)->0);
            CounterView {
                own_value: match msg.body {
                    KVMessageView::ReadOk { value, .. } => later(self.own_value, value),
                    _ => self.own_value,
                },
                counter: (self.counter + 1) as usize,
                pending_messages: self.pending_messages.update(
                    at,
                    PendingView {
                        attempt: self.follow_up(msg.body)->0,
                        time_sent: now,
                        ..self.pending_messages[at]
                    },
                ),
                ..self
            }
        } else if self.confirms(msg.body) {
            let at = place_of(self.pending_messages, answered(msg.body)->0);
            CounterView {
                own_value: later(self.own_value, self.pending_messages[at].attempt->to),
                pending_messages: self.pending_messages.remove(at),
                ..self
            }
        } else if self.informs(msg.body) {
            CounterView {
                peer_values: self.peer_values.update(
                    msg.body->ReadOk_in_reply_to - self.lookup_base,
                    msg.body->ReadOk_value,
                ),
                ..self
            }
        } else {
            self
        }
    }

    /// The requests to the store that the node sends when it handles the
    /// envelope `msg` of the store.
    pub open spec fn requests_from_store(self, msg: EnvelopeView<KVMessageView>) -> Seq<
        EnvelopeView<KVMessageView>,
    > {
        if self.follow_up(msg.body) is Some {
            seq![request_of(self.node_id, self.follow_up(msg.body)->0)]
        } else {
            Seq::empty()
        }
    }
}

/// The sum of the first values of a list is at most the sum of all.
pub proof fn lemma_total_of_prefix(values: Seq<usize>, n: int)
    requires
        0 <= n <= values.len(),
    ensures
        total(values.take(n)) <= total(values),
    decreases values.len(),
{
    if n == values.len() {
        assert(values.take(n) =~= values);
    } else {
        assert(values.drop_last().take(n) =~= values.take(n));
        lemma_total_of_prefix(values.drop_last(), n);
    }
}

/// The sum of `values`, where it fits.
fn sum(values: &Vec<usize>) -> (result: Option<usize>)
    ensures
        match result {
            Some(s) => s == total(values@),
            None => total(values@) > usize::MAX,
        },
{
    let n: usize = values.len();
    let mut acc: usize = 0;
    let mut i: usize = 0;
    assert(values@.take(0) =~= Seq::<usize>::empty());
    while i < n
        invariant
            n == values@.len(),
            i <= n,
            acc == total(values@.take(i as int)),
        decreases n - i,
    {
        proof {
            assert(values@.take(i as int + 1).drop_last() =~= values@.take(i as int));
            lemma_total_of_prefix(values@, i as int + 1);
        }
        if values[i] > usize::MAX - acc {
            return None;
        }
        acc = acc + values[i];
        i += 1;
    }
    assert(values@.take(n as int) =~= values@);
    Some(acc)
}

/// The ids of the nodes that `topology` lists, without `node_id` itself.
fn other_ids(topology: &Vec<(String, Vec<String>)>, node_id: &String) -> (list: Vec<String>)
    ensures
        names(list@) == other_nodes(topology_view(topology@), node_id@),
{
    let ghost all = topology_view(topology@);
    let mut list: Vec<String> = Vec::new();
    let n: usize = topology.len();
    let mut i: usize = 0;
    assert(names(list@) =~= other_nodes(all.take(0), node_id@));
    while i < n
        invariant
            n == topology@.len(),
            i <= n,
            all == topology_view(topology@),
            names(list@) == other_nodes(all.take(i as int), node_id@),
        decreases n - i,
    {
        proof {
            assert(all.take(i as int + 1).drop_last() =~= all.take(i as int));
            assert(all.take(i as int + 1).last() == all[i as int]);
        }
        if !(topology[i].0 == *node_id) {
            let ghost before = list@;
            let id = topology[i].0.clone();
            list.push(id);
            assert(names(list@) =~= names(before).push(id@));
        }
        i += 1;
    }
    assert(all.take(n as int) =~= all);
    list
}

/// The value known for the node `id`.
fn known(peers: &Vec<String>, values: &Vec<usize>, id: &String) -> (value: usize)
    ensures
        value == known_value(names(peers@), values@, id@),
{
    let ghost ids = names(peers@);
    let mut i: usize = 0;
    assert(ids.skip(0) =~= ids);
    assert(values@.skip(0) =~= values@);
    while i < peers.len() && i < values.len()
        invariant
            ids == names(peers@),
            i <= peers@.len(),
            i <= values@.len(),
            known_value(ids, values@, id@) == known_value(
                ids.skip(i as int),
                values@.skip(i as int),
                id@,
            ),
        decreases peers@.len() - i,
    {
        proof {
            assert(ids.skip(i as int)[0] == peers@[i as int]@);
            assert(values@.skip(i as int)[0] == values@[i as int]);
            assert(ids.skip(i as int).skip(1) =~= ids.skip(i as int + 1));
            assert(values@.skip(i as int).skip(1) =~= values@.skip(i as int + 1));
        }
        if peers[i] == *id {
            return values[i];
        }
        i += 1;
    }
    0
}

/// The id under which the store is reached.
pub fn store_name() -> (name: String)
    ensures
        name@ == store_id(),
{
    "seq-kv".to_owned()
}

/// A counter node: its id, the additions it has yet to get confirmed, each
/// with its request in flight, and the latest values it knows.
#[derive(Debug)]
pub struct GrowOnlyCounter {
    node_id: String,
    counter: usize,
    pending_messages: VecDeque<PendingMessage>,
    own_value: usize,
    peers: Vec<String>,
    peer_values: Vec<usize>,
    lookup_base: usize,
    lookup_live: usize,
}

impl View for GrowOnlyCounter {
    type V = CounterView;

    closed spec fn view(&self) -> CounterView {
        CounterView {
            node_id: self.node_id@,
            counter: self.counter,
            pending_messages: pending_views(self.pending_messages@),
            own_value: self.own_value,
            peers: names(self.peers@),
            peer_values: self.peer_values@,
            lookup_base: self.lookup_base,
            lookup_live: self.lookup_live,
        }
    }
}

impl Default for GrowOnlyCounter {
    fn default() -> (node: Self)
        ensures
            node.wf(),
            node@ == CounterView::fresh(),
    {
        GrowOnlyCounter::new()
    }
}

impl GrowOnlyCounter {
    /// The invariant of a node: what [`CounterView::wf`] says of its view.
    pub closed spec fn wf(&self) -> bool {
        self@.wf()
    }

    /// What holds of every well-formed node: its view is well-formed.
    pub proof fn lemma_wf_view(&self)
        requires
            self.wf(),
        ensures
            self@.wf(),
    {
    }

    /// A node that has heard nothing yet.
    pub fn new() -> (node: Self)
        ensures
            node.wf(),
            node@ == CounterView::fresh(),
    {
        let node = GrowOnlyCounter {
            node_id: String::new(),
            counter: 0,
            pending_messages: VecDeque::new(),
            own_value: 0,
            peers: Vec::new(),
            peer_values: Vec::new(),
            lookup_base: 0,
            lookup_live: 0,
        };
        proof {
            assert(node@.pending_messages =~= Seq::<PendingView>::empty());
            assert(node@.peers =~= Seq::<Seq<char>>::empty());
        }
        node
    }

    /// This node's id.
    pub fn node_id(&self) -> (id: &String)
        ensures
            id@ == self@.node_id,
    {
        &self.node_id
    }

    /// The next unused sequence id.
    pub fn counter(&self) -> (next: usize)
        ensures
            next == self@.counter,
    {
        self.counter
    }

    /// The additions that the store has not confirmed, oldest first.
    pub fn pending_messages(&self) -> (queue: &VecDeque<PendingMessage>)
        ensures
            pending_views(queue@) == self@.pending_messages,
    {
        &self.pending_messages
    }

    /// The latest known value of this node's key.
    pub fn own_value(&self) -> (value: usize)
        ensures
            value == self@.own_value,
    {
        self.own_value
    }

    /// The ids of the other nodes.
    pub fn peers(&self) -> (list: &Vec<String>)
        ensures
            names(list@) == self@.peers,
    {
        &self.peers
    }

    /// The latest known value of each other node's key.
    pub fn peer_values(&self) -> (list: &Vec<usize>)
        ensures
            list@ == self@.peer_values,
    {
        &self.peer_values
    }

    /// The value of the counter as far as the node knows it, where the sum
    /// fits.
    pub fn value(&self) -> (result: Option<usize>)
        ensures
            match result {
                Some(v) => v == self@.known_total(),
                None => self@.known_total() > usize::MAX,
            },
    {
        match sum(&self.peer_values) {
            Some(others) => if others > usize::MAX - self.own_value {
                None
            } else {
                Some(self.own_value + others)
            },
            None => None,
        }
    }

    /// The place of the addition that waits for the answer to the request
    /// sent under `id`, if there is one.
    fn find(&self, id: usize) -> (place: Option<usize>)
        requires
            self.wf(),
        ensures
            place is Some <==> waits_for(self@.pending_messages, id),
            place matches Some(i) ==> i == place_of(self@.pending_messages, id) && i
                < self.pending_messages@.len() && self.pending_messages@[i as int].attempt.id()
                == id,
    {
        let ghost queue = self@.pending_messages;
        let n: usize = self.pending_messages.len();
        let mut i: usize = 0;
        while i < n
            invariant
                i <= n,
                n == self.pending_messages@.len(),
                queue == self@.pending_messages,
                self.wf(),
                forall|k: int| 0 <= k < i ==> (#[trigger] queue[k]).attempt.id() != id,
            decreases n - i,
        {
            let found = match self.pending_messages[i].attempt {
                Attempt::Reading { id: own } => own == id,
                Attempt::Swapping { id: own, .. } => own == id,
            };
            if found {
                proof {
                    assert(queue[i as int].attempt.id() == id);
                    let at = place_of(queue, id);
                    assert(queue[at].attempt.id() == id);
                    assert(at == i);
                }
                return Some(i);
            }
            i += 1;
        }
        None
    }

    /// Whether [`GrowOnlyCounter::handle_message`] can take `msg`.
    pub fn accepts(&self, msg: &Envelope<Message>) -> (ok: bool)
        ensures
            ok == self@.accepts(msg@.body),
    {
        match &msg.body {
            Message::Add { .. } => self.counter < usize::MAX,
            Message::Tick {} => self.peers.len() <= usize::MAX - self.counter,
            Message::Read { .. } => self.value().is_some(),
            _ => true,
        }
    }

    /// Whether [`GrowOnlyCounter::handle_store_message`] can take `msg`.
    pub fn accepts_from_store(&self, msg: &Envelope<KVMessage>) -> (ok: bool)
        requires
            self.wf(),
        ensures
            ok == self@.accepts_from_store(msg@.body),
    {
        let has_id: bool = self.counter < usize::MAX;
        match &msg.body {
            KVMessage::ReadOk { value, in_reply_to } => {
                match self.find(*in_reply_to) {
                    Some(i) => {
                        match self.pending_messages[i].attempt {
                            Attempt::Reading { .. } => has_id && self.pending_messages[i].delta
                                <= usize::MAX - *value,
                            Attempt::Swapping { .. } => true,
                        }
                    },
                    None => true,
                }
            },
            KVMessage::Error { in_reply_to, code, .. } => {
                match self.find(*in_reply_to) {
                    Some(_) => !(*code == KEY_DOES_NOT_EXIST || *code == PRECONDITION_FAILED)
                        || has_id,
                    None => true,
                }
            },
            _ => true,
        }
    }

    /// The request that `attempt` stands for.
    fn request(&self, attempt: Attempt) -> (env: Envelope<KVMessage>)
        ensures
            env@ == request_of(self@.node_id, attempt),
    {
        match attempt {
            Attempt::Reading { id } => Envelope {
                src: self.node_id.clone(),
                dest: store_name(),
                body: KVMessage::Read { key: self.node_id.clone(), msg_id: id },
            },
            Attempt::Swapping { id, from, to, create } => Envelope {
                src: self.node_id.clone(),
                dest: store_name(),
                body: KVMessage::Cas {
                    key: self.node_id.clone(),
                    from,
                    to,
                    create_if_not_exists: if create {
                        Some(true)
                    } else {
                        None
                    },
                    msg_id: id,
                },
            },
        }
    }

    /// Gives the addition at place `i` the request `attempt` and stamps it
    /// with `now`.
    fn restart(&mut self, i: usize, attempt: Attempt, now: u64)
        requires
            i < old(self)@.pending_messages.len(),
        ensures
            final(self)@ == (CounterView {
                pending_messages: old(self)@.pending_messages.update(
                    i as int,
                    PendingView {
                        attempt,
                        time_sent: now,
                        ..old(self)@.pending_messages[i as int]
                    },
                ),
                ..old(self)@
            }),
    {
        let ghost before = self.pending_messages@;
        match self.pending_messages.remove(i) {
            Some(p) => {
                let again = PendingMessage { delta: p.delta, time_sent: now, dest: p.dest, attempt };
                self.pending_messages.insert(i, again);
                proof {
                    assert(self.pending_messages@ =~= before.update(i as int, again));
                    assert(pending_views(self.pending_messages@) =~= pending_views(before).update(
                        i as int,
                        again@,
                    ));
                }
            },
            None => {},
        }
    }

    /// Sends every request that is due at `now` again and stamps its
    /// addition.
    fn retry(&mut self, now: u64, out: &mut Vec<Envelope<KVMessage>>)
        requires
            old(out)@.len() == 0,
        ensures
            final(self)@ == (CounterView {
                pending_messages: refreshed(old(self)@.pending_messages, now),
                ..old(self)@
            }),
            envelope_views(final(out)@) == resends(
                old(self)@.node_id,
                old(self)@.pending_messages,
                now,
            ),
    {
        let ghost start = self@;
        let n: usize = self.pending_messages.len();
        let mut i: usize = 0;
        assert(envelope_views(out@) =~= resends(start.node_id, start.pending_messages.take(0), now));
        while i < n
            invariant
                i <= n,
                n == self.pending_messages@.len(),
                n == start.pending_messages.len(),
                start == old(self)@,
                self@ == (CounterView { pending_messages: self@.pending_messages, ..start }),
                forall|k: int|
                    0 <= k < n ==> (#[trigger] self@.pending_messages[k]) == if k < i {
                        refreshed(start.pending_messages, now)[k]
                    } else {
                        start.pending_messages[k]
                    },
                envelope_views(out@) == resends(
                    start.node_id,
                    start.pending_messages.take(i as int),
                    now,
                ),
            decreases n - i,
        {
            let ghost out_before = out@;
            proof {
                assert(start.pending_messages.take(i as int + 1).drop_last()
                    =~= start.pending_messages.take(i as int));
                assert(self@.pending_messages[i as int] == start.pending_messages[i as int]);
            }
            let last: u64 = self.pending_messages[i].time_sent;
            if now >= last && now - last >= RETRY_MILLIS {
                let attempt = self.pending_messages[i].attempt;
                let env = self.request(attempt);
                self.restart(i, attempt, now);
                out.push(env);
                proof {
                    assert(pending_views(self.pending_messages@).len()
                        == self.pending_messages@.len());
                    assert(envelope_views(out@) =~= envelope_views(out_before).push(env@));
                }
            }
            i += 1;
        }
        proof {
            assert(start.pending_messages.take(n as int) =~= start.pending_messages);
            assert(self@.pending_messages =~= refreshed(start.pending_messages, now));
        }
    }

    /// Asks the store for the key of every other node.
    fn ask_peers(&mut self, out: &mut Vec<Envelope<KVMessage>>)
        requires
            old(self)@.counter + old(self)@.peers.len() <= usize::MAX,
        ensures
            final(self)@ == (CounterView {
                lookup_base: old(self)@.counter,
                lookup_live: old(self)@.peers.len() as usize,
                counter: (old(self)@.counter + old(self)@.peers.len()) as usize,
                ..old(self)@
            }),
            envelope_views(final(out)@) == envelope_views(old(out)@) + old(self)@.lookups(),
    {
        let ghost start = self@;
        let ghost out_start = envelope_views(out@);
        let n: usize = self.peers.len();
        let base: usize = self.counter;
        let mut k: usize = 0;
        assert(out_start + start.lookups().take(0) =~= out_start);
        while k < n
            invariant
                k <= n,
                n == self.peers@.len(),
                base + n <= usize::MAX,
                *self == *old(self),
                start == self@,
                base == self.counter,
                envelope_views(out@) == out_start + start.lookups().take(k as int),
            decreases n - k,
        {
            let ghost out_before = out@;
            let env = Envelope {
                src: self.node_id.clone(),
                dest: store_name(),
                body: KVMessage::Read { key: self.peers[k].clone(), msg_id: base + k },
            };
            out.push(env);
            proof {
                assert(env@ == start.lookups()[k as int]);
                assert(envelope_views(out@) =~= envelope_views(out_before).push(env@));
                assert(start.lookups().take(k as int + 1) =~= start.lookups().take(k as int).push(
                    env@,
                ));
                assert(envelope_views(out@) =~= out_start + start.lookups().take(k as int + 1));
            }
            k += 1;
        }
        proof {
            assert(start.lookups().take(n as int) =~= start.lookups());
        }
        self.lookup_base = base;
        self.lookup_live = n;
        self.counter = base + n;
    }

    /// The values known for the nodes `peers`, in their order.
    fn known_values(&self, peers: &Vec<String>) -> (values: Vec<usize>)
        ensures
            values@ == Seq::new(
                peers@.len(),
                |k: int| known_value(self@.peers, self@.peer_values, names(peers@)[k]),
            ),
    {
        let mut values: Vec<usize> = Vec::new();
        let n: usize = peers.len();
        let mut k: usize = 0;
        while k < n
            invariant
                k <= n,
                n == peers@.len(),
                values@ =~= Seq::new(
                    k as nat,
                    |j: int| known_value(self@.peers, self@.peer_values, names(peers@)[j]),
                ),
            decreases n - k,
        {
            let value = known(&self.peers, &self.peer_values, &peers[k]);
            values.push(value);
            k += 1;
        }
        values
    }

    /// Handles one inbound envelope of a client, or a tick, at time `now`
    /// (in milliseconds) and returns what to send.
    ///
    /// * `Init` sets this node's id and is answered with `InitOk`. The
    ///   caller starts the retry timer, which hands in a `Tick` every
    ///   [`RETRY_MILLIS`].
    /// * `Topology` replaces the list of the other nodes with the nodes
    ///   that the message lists, keeps what is known of the keys of those
    ///   that stay, and is answered with `TopologyOk`.
    /// * `Read` is answered with `ReadOk` and the sum of the latest known
    ///   values of all keys.
    /// * `Add` is answered with `AddOk` and queued, and the node reads its
    ///   key to apply the addition.
    /// * `Tick` goes through the whole queue: for every addition whose
    ///   request was last sent [`RETRY_MILLIS`] or more ago it sends that
    ///   request again, as it was and under its old sequence id, and stamps
    ///   the addition with `now`; every younger addition stays as it is.
    ///   Then it asks for the key of every other node.
    /// * `InitOk`, `ReadOk`, `AddOk` and `TopologyOk` are refused with
    ///   [`HandleError::UnexpectedMessage`]; the node stays as it is.
    pub fn handle_message(&mut self, msg: Envelope<Message>, now: u64) -> (result: Result<
        Outbox,
        HandleError,
    >)
        requires
            old(self).wf(),
            old(self)@.accepts(msg@.body),
        ensures
            final(self).wf(),
            final(self)@ == old(self)@.next(msg@, now),
            result is Err <==> is_unexpected(msg@.body),
            result matches Ok(out) ==> envelope_views(out.replies@) == old(self)@.replies(msg@)
                && envelope_views(out.requests@) == old(self)@.requests(msg@, now),
            result matches Err(e) ==> e == HandleError::UnexpectedMessage,
    {
        let ghost start = self@;
        let mut replies: Vec<Envelope<Message>> = Vec::new();
        let mut requests: Vec<Envelope<KVMessage>> = Vec::new();
        proof {
            assert(envelope_views(requests@) =~= Seq::<EnvelopeView<KVMessageView>>::empty());
            assert(envelope_views(replies@) =~= Seq::<EnvelopeView<MessageView>>::empty());
        }
        match &msg.body {
            Message::Init { msg_id, node_id } => {
                self.node_id = node_id.clone();
                replies.push(msg.reply(Message::InitOk { in_reply_to: *msg_id }));
            },
            Message::Topology { topology, msg_id } => {
                let peers = other_ids(topology, &self.node_id);
                let values = self.known_values(&peers);
                self.peers = peers;
                self.peer_values = values;
                self.lookup_live = 0;
                replies.push(msg.reply(Message::TopologyOk { in_reply_to: *msg_id }));
                proof {
                    assert(self@.pending_messages == start.pending_messages);
                    assert(self@.peer_values =~= start.next(msg@, now).peer_values);
                }
            },
            Message::Read { msg_id } => {
                let value = match self.value() {
                    Some(v) => v,
                    None => 0,
                };
                replies.push(msg.reply(Message::ReadOk { value, in_reply_to: Some(*msg_id) }));
            },
            Message::Add { msg_id, delta } => {
                let ghost before = self.pending_messages@;
                let attempt = Attempt::Reading { id: self.counter };
                let pending = PendingMessage {
                    delta: *delta,
                    time_sent: now,
                    dest: store_name(),
                    attempt,
                };
                let env = self.request(attempt);
                self.pending_messages.push_back(pending);
                self.counter = self.counter + 1;
                requests.push(env);
                replies.push(msg.reply(Message::AddOk { in_reply_to: Some(*msg_id) }));
                proof {
                    assert(pending_views(self.pending_messages@) =~= pending_views(before).push(
                        pending@,
                    ));
                }
            },
            Message::Tick {} => {
                self.retry(now, &mut requests);
                self.ask_peers(&mut requests);
            },
            Message::InitOk { .. }
            | Message::ReadOk { .. }
            | Message::AddOk { .. }
            | Message::TopologyOk { .. } => {
                return Err(HandleError::UnexpectedMessage);
            },
        }
        proof {
            assert(envelope_views(replies@) =~= start.replies(msg@));
            assert(envelope_views(requests@) =~= start.requests(msg@, now));
            lemma_next_preserves_wf(start, msg@, now);
        }
        Ok(Outbox { replies, requests })
    }

    /// Handles one inbound envelope of the store at time `now` (in
    /// milliseconds) and returns the requests to send to the store.
    ///
    /// * `ReadOk` for the read that an addition waits for records the
    ///   value and sends the swap of that value for the value grown by the
    ///   addition. `ReadOk` for a question about another node's key records
    ///   the value for that node. Any other `ReadOk` changes nothing.
    /// * `Error` for the request that an addition waits for, with the code
    ///   for a missing key or for a failed swap, starts the addition again:
    ///   a read that found no key is followed by a swap from zero that may
    ///   make the key, and anything else by a fresh read. Any other `Error`
    ///   changes nothing; a later tick sends the request again.
    /// * `CasOk` for the swap that an addition waits for records the new
    ///   value and takes the addition off the queue. Any other `CasOk`
    ///   changes nothing.
    /// * `Read`, `Write`, `Cas` and `WriteOk` are refused with
    ///   [`HandleError::UnexpectedMessage`]; the node stays as it is.
    pub fn handle_store_message(&mut self, msg: Envelope<KVMessage>, now: u64) -> (result: Result<
        Vec<Envelope<KVMessage>>,
        HandleError,
    >)
        requires
            old(self).wf(),
            old(self)@.accepts_from_store(msg@.body),
        ensures
            final(self).wf(),
            final(self)@ == old(self)@.next_from_store(msg@, now),
            result is Err <==> is_unexpected_from_store(msg@.body),
            result matches Ok(out) ==> envelope_views(out@) == old(self)@.requests_from_store(msg@),
            result matches Err(e) ==> e == HandleError::UnexpectedMessage,
    {
        let ghost start = self@;
        let mut out: Vec<Envelope<KVMessage>> = Vec::new();
        proof {
            assert(envelope_views(out@) =~= Seq::<EnvelopeView<KVMessageView>>::empty());
            lemma_next_from_store_preserves_wf(start, msg@, now);
        }
        match &msg.body {
            KVMessage::Read { .. }
            | KVMessage::Write { .. }
            | KVMessage::Cas { .. }
            | KVMessage::WriteOk { .. } => {
                return Err(HandleError::UnexpectedMessage);
            },
            KVMessage::ReadOk { value, in_reply_to } => {
                match self.find(*in_reply_to) {
                    Some(i) => {
                        match self.pending_messages[i].attempt {
                            Attempt::Reading { .. } => {
                                let attempt = Attempt::Swapping {
                                    id: self.counter,
                                    from: *value,
                                    to: *value + self.pending_messages[i].delta,
                                    create: false,
                                };
                                if *value > self.own_value {
                                    self.own_value = *value;
                                }
                                self.follow(i, attempt, now, &mut out);
                            },
                            Attempt::Swapping { .. } => {},
                        }
                    },
                    None => {
                        if self.lookup_base <= *in_reply_to && *in_reply_to - self.lookup_base
                            < self.lookup_live {
                            self.peer_values.set(*in_reply_to - self.lookup_base, *value);
                        }
                    },
                }
            },
            KVMessage::Error { in_reply_to, code, .. } => {
                match self.find(*in_reply_to) {
                    Some(i) => {
                        if *code == KEY_DOES_NOT_EXIST || *code == PRECONDITION_FAILED {
                            let reading = match self.pending_messages[i].attempt {
                                Attempt::Reading { .. } => true,
                                Attempt::Swapping { .. } => false,
                            };
                            let attempt = if reading && *code == KEY_DOES_NOT_EXIST {
                                Attempt::Swapping {
                                    id: self.counter,
                                    from: 0,
                                    to: self.pending_messages[i].delta,
                                    create: true,
                                }
                            } else {
                                Attempt::Reading { id: self.counter }
                            };
                            self.follow(i, attempt, now, &mut out);
                        }
                    },
                    None => {},
                }
            },
            KVMessage::CasOk { in_reply_to } => {
                match self.find(*in_reply_to) {
                    Some(i) => {
                        match self.pending_messages[i].attempt {
                            Attempt::Swapping { to, .. } => {
                                let ghost before = self.pending_messages@;
                                let _ = self.pending_messages.remove(i);
                                if to > self.own_value {
                                    self.own_value = to;
                                }
                                proof {
                                    assert(pending_views(self.pending_messages@)
                                        =~= pending_views(before).remove(i as int));
                                }
                            },
                            Attempt::Reading { .. } => {},
                        }
                    },
                    None => {},
                }
            },
        }
        proof {
            assert(envelope_views(out@) =~= start.requests_from_store(msg@));
        }
        Ok(out)
    }

    /// Sends `attempt` for the addition at place `i` under the next
    /// sequence id.
    fn follow(&mut self, i: usize, attempt: Attempt, now: u64, out: &mut Vec<Envelope<KVMessage>>)
        requires
            i < old(self)@.pending_messages.len(),
            old(self)@.counter < usize::MAX,
            old(out)@.len() == 0,
        ensures
            final(self)@ == (CounterView {
                counter: (old(self)@.counter + 1) as usize,
                pending_messages: old(self)@.pending_messages.update(
                    i as int,
                    PendingView {
                        attempt,
                        time_sent: now,
                        ..old(self)@.pending_messages[i as int]
                    },
                ),
                ..old(self)@
            }),
            envelope_views(final(out)@) == seq![request_of(old(self)@.node_id, attempt)],
    {
        self.restart(i, attempt, now);
        self.counter = self.counter + 1;
        let env = self.request(attempt);
        out.push(env);
        proof {
            assert(envelope_views(out@) =~= seq![env@]);
        }
    }
}

/// A well-formed node stays well-formed through every message of a client
/// that it accepts.
pub proof fn lemma_next_preserves_wf(node: CounterView, msg: EnvelopeView<MessageView>, now: u64)
    requires
        node.wf(),
        node.accepts(msg.body),
    ensures
        node.next(msg, now).wf(),
{
    let after = node.next(msg, now);
    match msg.body {
        MessageView::Add { .. } => {
            let n = node.pending_messages.len() as int;
            assert forall|i: int| 0 <= i < after.pending_messages.len() implies (
            #[trigger] after.pending_messages[i]).attempt.id() < after.counter
                && (i < n ==> after.pending_messages[i] == node.pending_messages[i]) && (i == n
                ==> after.pending_messages[i].attempt.id() == node.counter) by {}
        },
        MessageView::Tick => {
            assert forall|i: int| 0 <= i < after.pending_messages.len() implies (
            #[trigger] after.pending_messages[i]).attempt == node.pending_messages[i].attempt
                && after.pending_messages[i].delta == node.pending_messages[i].delta by {}
        },
        _ => {},
    }
}

/// A well-formed node stays well-formed through every message of the store
/// that it accepts.
pub proof fn lemma_next_from_store_preserves_wf(
    node: CounterView,
    msg: EnvelopeView<KVMessageView>,
    now: u64,
)
    requires
        node.wf(),
        node.accepts_from_store(msg.body),
    ensures
        node.next_from_store(msg, now).wf(),
{
    let after = node.next_from_store(msg, now);
    if node.follow_up(msg.body) is Some {
        let at = place_of(node.pending_messages, answered(msg.body)->0);
        assert forall|i: int| 0 <= i < after.pending_messages.len() implies (i != at ==> (
        #[trigger] after.pending_messages[i]) == node.pending_messages[i]) && (i == at
            ==> after.pending_messages[i].attempt.id() == node.counter
            && after.pending_messages[i].delta == node.pending_messages[i].delta) by {}
    } else if node.confirms(msg.body) {
        let at = place_of(node.pending_messages, answered(msg.body)->0);
        assert forall|i: int| 0 <= i < after.pending_messages.len() implies (
        #[trigger] after.pending_messages[i]) == node.pending_messages[if i < at {
            i
        } else {
            i + 1
        }] by {}
    }
}

/// At a tick the queue keeps every addition at its place, with its amount,
/// its store and its request. An addition whose request was last sent
/// [`RETRY_MILLIS`] or more ago is stamped with the time of the tick, and
/// its request is among those that the tick sends, as it was and under the
/// same sequence id. A younger addition is not changed at all.
pub proof fn lemma_tick_retries_every_due_addition(
    node: CounterView,
    msg: EnvelopeView<MessageView>,
    now: u64,
    i: int,
)
    requires
        msg.body is Tick,
        0 <= i < node.pending_messages.len(),
    ensures
        node.next(msg, now).pending_messages.len() == node.pending_messages.len(),
        node.next(msg, now).pending_messages[i].delta == node.pending_messages[i].delta,
        node.next(msg, now).pending_messages[i].dest == node.pending_messages[i].dest,
        node.next(msg, now).pending_messages[i].attempt == node.pending_messages[i].attempt,
        is_due(node.pending_messages[i], now) ==> node.next(msg, now).pending_messages[i].time_sent
            == now && node.requests(msg, now).contains(
            request_of(node.node_id, node.pending_messages[i].attempt),
        ),
        !is_due(node.pending_messages[i], now) ==> node.next(msg, now).pending_messages[i]
            == node.pending_messages[i],
{
    if is_due(node.pending_messages[i], now) {
        lemma_due_request_is_repeated(node.node_id, node.pending_messages, now, i);
        let again = resends(node.node_id, node.pending_messages, now);
        let wanted = request_of(node.node_id, node.pending_messages[i].attempt);
        let k = choose|k: int| 0 <= k < again.len() && again[k] == wanted;
        assert(node.requests(msg, now)[k] == wanted);
    }
}

/// Every request that is due is among those that a tick sends again.
pub proof fn lemma_due_request_is_repeated(
    node_id: Seq<char>,
    pending: Seq<PendingView>,
    now: u64,
    i: int,
)
    requires
        0 <= i < pending.len(),
        is_due(pending[i], now),
    ensures
        resends(node_id, pending, now).contains(request_of(node_id, pending[i].attempt)),
    decreases pending.len(),
{
    let out = resends(node_id, pending, now);
    let earlier = resends(node_id, pending.drop_last(), now);
    let wanted = request_of(node_id, pending[i].attempt);
    if i == pending.len() - 1 {
        assert(out[earlier.len() as int] == wanted);
    } else {
        assert(pending.drop_last()[i] == pending[i]);
        lemma_due_request_is_repeated(node_id, pending.drop_last(), now, i);
        let at = choose|k: int| 0 <= k < earlier.len() && earlier[k] == wanted;
        assert(out[at] == earlier[at]);
    }
}

/// A tick sends again nothing but requests that are due: as many as there
/// are additions whose request is due, and each the request of one of them.
pub proof fn lemma_only_due_requests_are_repeated(
    node_id: Seq<char>,
    pending: Seq<PendingView>,
    now: u64,
    k: int,
)
    requires
        0 <= k < resends(node_id, pending, now).len(),
    ensures
        resends(node_id, pending, now).len() <= pending.len(),
        exists|i: int|
            0 <= i < pending.len() && is_due(#[trigger] pending[i], now) && resends(
                node_id,
                pending,
                now,
            )[k] == request_of(node_id, pending[i].attempt),
    decreases pending.len(),
{
    let out = resends(node_id, pending, now);
    let earlier = resends(node_id, pending.drop_last(), now);
    if pending.len() > 0 {
        lemma_resends_are_few(node_id, pending.drop_last(), now);
        if k < earlier.len() {
            lemma_only_due_requests_are_repeated(node_id, pending.drop_last(), now, k);
            let i = choose|i: int|
                0 <= i < pending.drop_last().len() && is_due(
                    #[trigger] pending.drop_last()[i],
                    now,
                ) && earlier[k] == request_of(node_id, pending.drop_last()[i].attempt);
            assert(pending[i] == pending.drop_last()[i]);
            assert(is_due(pending[i], now) && out[k] == request_of(node_id, pending[i].attempt));
        } else {
            let i = pending.len() - 1;
            assert(is_due(pending[i], now) && out[k] == request_of(node_id, pending[i].attempt));
        }
    }
}

/// A tick sends at most one request again for each addition.
pub proof fn lemma_resends_are_few(node_id: Seq<char>, pending: Seq<PendingView>, now: u64)
    ensures
        resends(node_id, pending, now).len() <= pending.len(),
    decreases pending.len(),
{
    if pending.len() > 0 {
        lemma_resends_are_few(node_id, pending.drop_last(), now);
    }
}

/// When the store confirms the swap of an addition, the node's own value
/// is at least the value that the swap saw grown by exactly that addition,
/// and that addition, and no other, has left the queue.
pub proof fn lemma_confirmed_addition_is_applied_once(
    node: CounterView,
    msg: EnvelopeView<KVMessageView>,
    now: u64,
)
    requires
        node.wf(),
        node.confirms(msg.body),
    ensures
        ({
            let at = place_of(node.pending_messages, msg.body->CasOk_in_reply_to);
            let p = node.pending_messages[at];
            let after = node.next_from_store(msg, now);
            &&& 0 <= at < node.pending_messages.len()
            &&& p.attempt.id() == msg.body->CasOk_in_reply_to
            &&& after.own_value == later(node.own_value, (p.attempt->from + p.delta) as usize)
            &&& after.pending_messages == node.pending_messages.remove(at)
            &&& after.counter == node.counter
        }),
{
}

/// An addition leaves the queue only when the store confirms its swap.
/// Through any other message, from a client or from the store, every
/// queued addition stays at its place with its amount.
pub proof fn lemma_addition_stays_until_confirmed(
    node: CounterView,
    msg: EnvelopeView<MessageView>,
    answer: EnvelopeView<KVMessageView>,
    now: u64,
    k: int,
)
    requires
        node.wf(),
        0 <= k < node.pending_messages.len(),
    ensures
        k < node.next(msg, now).pending_messages.len(),
        node.next(msg, now).pending_messages[k].delta == node.pending_messages[k].delta,
        !node.confirms(answer.body) ==> k < node.next_from_store(answer, now).pending_messages.len()
            && node.next_from_store(answer, now).pending_messages[k].delta
            == node.pending_messages[k].delta,
{
}

/// A read changes nothing and reports the sum of the node's own value and
/// the values it knows of the other nodes.
pub proof fn lemma_read_reports_known_total(
    node: CounterView,
    msg: EnvelopeView<MessageView>,
    now: u64,
)
    requires
        msg.body is Read,
        node.accepts(msg.body),
    ensures
        node.next(msg, now) == node,
        node.requests(msg, now).len() == 0,
        node.replies(msg).len() == 1,
        node.replies(msg)[0].body == (MessageView::ReadOk {
            value: (node.own_value + total(node.peer_values)) as usize,
            in_reply_to: Some(msg.body->Read_msg_id),
        }),
        node.own_value + total(node.peer_values) <= usize::MAX,
{
}

/// A topology message forgets nothing of a node that stays: the value that
/// was known for it is the value that is known for it afterwards.
pub proof fn lemma_topology_keeps_known_values(
    node: CounterView,
    msg: EnvelopeView<MessageView>,
    now: u64,
    k: int,
)
    requires
        msg.body is Topology,
        0 <= k < node.next(msg, now).peers.len(),
    ensures
        node.next(msg, now).peers == other_nodes(msg.body->topology, node.node_id),
        node.next(msg, now).peer_values.len() == node.next(msg, now).peers.len(),
        node.next(msg, now).peer_values[k] == known_value(
            node.peers,
            node.peer_values,
            node.next(msg, now).peers[k],
        ),
        node.next(msg, now).own_value == node.own_value,
{
}

} // verus!
