//! Reliable dissemination of values over a fixed neighbourhood.
//!
//! A node takes each new value in once, passes it to every neighbour, and
//! sends it again at every timer tick until the neighbour acknowledges it.
//! The whole behaviour is the pair of functions [`NodeView::next`] and
//! [`NodeView::sent`]; the executable handler [`Broadcast::handle_message`]
//! is proved to compute them.

use crate::delivered::DeliveredSet;
use crate::envelope::{envelope_views, Envelope, EnvelopeView, HandleError};
use crate::guarantees::lemma_next_preserves_wf;
use crate::pending_table::PendingTable;
use vstd::prelude::*;

verus! {

/// How long, in milliseconds, a send may stay unacknowledged before a timer
/// tick sends it again.
pub const RETRY_MILLIS: u64 = 500;

/// The bodies a dissemination node receives and sends.
#[derive(Debug, Clone, PartialEq, Eq)]
pub enum Message {
    Init { msg_id: Option<usize>, node_id: String },
    InitOk { in_reply_to: Option<usize> },
    Broadcast { message: i32, msg_id: Option<usize> },
    BroadcastOk { in_reply_to: Option<usize> },
    Read { msg_id: usize },
    ReadOk { messages: Vec<i32>, in_reply_to: Option<usize> },
    /// The neighbour lists of the network, one entry per node. Where a node
    /// is listed more than once, its first entry counts.
    Topology { topology: Vec<(String, Vec<String>)>, msg_id: Option<usize> },
    TopologyOk { in_reply_to: Option<usize> },
    /// The retry timer has fired. Never received over the wire.
    Tick {},
}

/// What a [`Message`] holds, as mathematical values.
pub enum MessageView {
    Init { msg_id: Option<usize>, node_id: Seq<char> },
    InitOk { in_reply_to: Option<usize> },
    Broadcast { message: i32, msg_id: Option<usize> },
    BroadcastOk { in_reply_to: Option<usize> },
    Read { msg_id: usize },
    ReadOk { messages: Seq<i32>, in_reply_to: Option<usize> },
    Topology { topology: Seq<(Seq<char>, Seq<Seq<char>>)>, msg_id: Option<usize> },
    TopologyOk { in_reply_to: Option<usize> },
    Tick,
}

/// The ids in a list of strings, as sequences of characters.
pub open spec fn names(list: Seq<String>) -> Seq<Seq<char>> {
    list.map_values(|s: String| s@)
}

/// The entries of a topology, as mathematical values.
pub open spec fn topology_view(topology: Seq<(String, Vec<String>)>) -> Seq<
    (Seq<char>, Seq<Seq<char>>),
> {
    topology.map_values(|e: (String, Vec<String>)| (e.0@, names(e.1@)))
}

impl View for Message {
    type V = MessageView;

    open spec fn view(&self) -> MessageView {
        match *self {
            Message::Init { msg_id, node_id } => MessageView::Init { msg_id, node_id: node_id@ },
            Message::InitOk { in_reply_to } => MessageView::InitOk { in_reply_to },
            Message::Broadcast { message, msg_id } => MessageView::Broadcast { message, msg_id },
            Message::BroadcastOk { in_reply_to } => MessageView::BroadcastOk { in_reply_to },
            Message::Read { msg_id } => MessageView::Read { msg_id },
            Message::ReadOk { messages, in_reply_to } => MessageView::ReadOk {
                messages: messages@,
                in_reply_to,
            },
            Message::Topology { topology, msg_id } => MessageView::Topology {
                topology: topology_view(topology@),
                msg_id,
            },
            Message::TopologyOk { in_reply_to } => MessageView::TopologyOk { in_reply_to },
            Message::Tick {} => MessageView::Tick,
        }
    }
}

/// A value that was sent to a neighbour and has not been acknowledged yet.
#[derive(Debug, Clone, PartialEq, Eq)]
pub struct PendingMessage {
    /// The sequence id under which the value was sent; the acknowledgment
    /// names it.
    pub id: usize,
    /// The value.
    pub message: i32,
    /// When the value was last sent, in milliseconds.
    pub time_sent: u64,
    /// The neighbour it was sent to.
    pub dest: String,
}

/// What a [`PendingMessage`] holds, as mathematical values.
pub struct PendingView {
    pub id: usize,
    pub message: i32,
    pub time_sent: u64,
    pub dest: Seq<char>,
}

impl View for PendingMessage {
    type V = PendingView;

    open spec fn view(&self) -> PendingView {
        PendingView {
            id: self.id,
            message: self.message,
            time_sent: self.time_sent,
            dest: self.dest@,
        }
    }
}

/// The views of a list of pending sends, in the same order.
pub open spec fn pending_views(list: Seq<PendingMessage>) -> Seq<PendingView> {
    list.map_values(|p: PendingMessage| p@)
}

/// Whether a node has no handler for `body`: it is one of the answers that a
/// node only ever sends.
pub open spec fn is_unexpected(body: MessageView) -> bool {
    body is InitOk || body is ReadOk || body is TopologyOk
}

/// Whether a send that was last made at `p.time_sent` is sent again at a
/// tick at time `now`. A send stamped later than `now` has waited no time.
pub open spec fn is_due(p: PendingView, now: u64) -> bool {
    now >= p.time_sent && now - p.time_sent >= RETRY_MILLIS
}

/// The envelope that carries the pending send `p` from `node_id` to its
/// neighbour: the value, under the send's own sequence id.
pub open spec fn gossip(node_id: Seq<char>, p: PendingView) -> EnvelopeView<MessageView> {
    EnvelopeView {
        src: node_id,
        dest: p.dest,
        body: MessageView::Broadcast { message: p.message, msg_id: Some(p.id) },
    }
}

/// The envelopes that go out at a tick at time `now`: one for each pending
/// send that is due, in the order of the table.
pub open spec fn resends(node_id: Seq<char>, pending: Seq<PendingView>, now: u64) -> Seq<
    EnvelopeView<MessageView>,
>
    decreases pending.len(),
{
    if pending.len() == 0 {
        Seq::empty()
    } else {
        let earlier = resends(node_id, pending.drop_last(), now);
        if is_due(pending.last(), now) {
            earlier.push(gossip(node_id, pending.last()))
        } else {
            earlier
        }
    }
}

/// The table after a tick at time `now`: every send that was due is stamped
/// `now`, and nothing else changes.
pub open spec fn refreshed(pending: Seq<PendingView>, now: u64) -> Seq<PendingView> {
    Seq::new(
        pending.len(),
        |i: int|
            if is_due(pending[i], now) {
                PendingView { time_sent: now, ..pending[i] }
            } else {
                pending[i]
            },
    )
}

/// The table after the acknowledgment of sequence id `id`: the send with
/// that id is gone, and an id that no send has changes nothing.
pub open spec fn acknowledged(pending: Seq<PendingView>, id: usize) -> Seq<PendingView> {
    if exists|i: int| 0 <= i < pending.len() && pending[i].id == id {
        pending.remove(choose|i: int| 0 <= i < pending.len() && pending[i].id == id)
    } else {
        pending
    }
}

/// The neighbours that `topology` gives to `node_id`: the list of the first
/// entry for that id, and no neighbours where there is none.
pub open spec fn neighbors_of(topology: Seq<(Seq<char>, Seq<Seq<char>>)>, node_id: Seq<char>) -> Seq<
    Seq<char>,
>
    decreases topology.len(),
{
    if topology.len() == 0 {
        Seq::empty()
    } else if topology[0].0 == node_id {
        topology[0].1
    } else {
        neighbors_of(topology.skip(1), node_id)
    }
}

/// The state of a dissemination node, as mathematical values.
pub struct NodeView {
    /// This node's id.
    pub node_id: Seq<char>,
    /// The values taken in so far, in the order of their first arrival.
    pub messages: Seq<i32>,
    /// The sends that await an acknowledgment, in the order of their ids.
    pub pending_messages: Seq<PendingView>,
    /// The neighbours this node passes new values to.
    pub topology: Seq<Seq<char>>,
    /// The next unused sequence id.
    pub counter: usize,
}

impl NodeView {
    /// No value was taken in twice; the pending sends stand in the order of
    /// their ids, which are all different and all below the counter.
    pub open spec fn wf(self) -> bool {
        &&& self.messages.no_duplicates()
        &&& forall|i: int, j: int|
            0 <= i < j < self.pending_messages.len() ==> self.pending_messages[i].id
                < self.pending_messages[j].id
        &&& forall|i: int|
            0 <= i < self.pending_messages.len() ==> self.pending_messages[i].id < self.counter
    }

    /// Whether there is a fresh sequence id left for every neighbour.
    pub open spec fn has_room(self) -> bool {
        self.counter + self.topology.len() <= usize::MAX
    }

    /// Whether handling `body` stays within the sequence ids that the
    /// machine can count: only a value that is new needs any.
    pub open spec fn accepts(self, body: MessageView) -> bool {
        match body {
            MessageView::Broadcast { message, .. } => self.messages.contains(message)
                || self.has_room(),
            _ => true,
        }
    }

    /// The sends that passing `message` on at time `now` adds to the table:
    /// one for each neighbour, with the sequence ids from the counter on.
    pub open spec fn fan_out_pending(self, message: i32, now: u64) -> Seq<PendingView> {
        Seq::new(
            self.topology.len(),
            |i: int|
                PendingView {
                    id: (self.counter + i) as usize,
                    message,
                    time_sent: now,
                    dest: self.topology[i],
                },
        )
    }

    /// The envelopes that passing `message` on at time `now` sends: one to
    /// each neighbour, in the order of the neighbour list.
    pub open spec fn fan_out(self, message: i32, now: u64) -> Seq<EnvelopeView<MessageView>> {
        Seq::new(
            self.topology.len(),
            |i: int| gossip(self.node_id, self.fan_out_pending(message, now)[i]),
        )
    }

    /// The node after it has handled `msg` at time `now`.
    pub open spec fn next(self, msg: EnvelopeView<MessageView>, now: u64) -> NodeView {
        match msg.body {
            MessageView::Init { node_id, .. } => NodeView { node_id, ..self },
            MessageView::Topology { topology, .. } => NodeView {
                topology: neighbors_of(topology, self.node_id),
                ..self
            },
            MessageView::Broadcast { message, .. } => if self.messages.contains(message) {
                self
            } else {
                NodeView {
                    messages: self.messages.push(message),
                    pending_messages: self.pending_messages + self.fan_out_pending(message, now),
                    counter: (self.counter + self.topology.len()) as usize,
                    ..self
                }
            },
            MessageView::BroadcastOk { in_reply_to: Some(id) } => NodeView {
                pending_messages: acknowledged(self.pending_messages, id),
                ..self
            },
            MessageView::Tick => NodeView {
                pending_messages: refreshed(self.pending_messages, now),
                ..self
            },
            _ => self,
        }
    }

    /// The envelopes the node sends when it handles `msg` at time `now`, in
    /// the order in which it sends them.
    pub open spec fn sent(self, msg: EnvelopeView<MessageView>, now: u64) -> Seq<
        EnvelopeView<MessageView>,
    > {
        match msg.body {
            MessageView::Init { msg_id, .. } => seq![
                msg.reply(MessageView::InitOk { in_reply_to: msg_id }),
            ],
            MessageView::Topology { msg_id, .. } => seq![
                msg.reply(MessageView::TopologyOk { in_reply_to: msg_id }),
            ],
            MessageView::Read { msg_id } => seq![
                msg.reply(
                    MessageView::ReadOk { messages: self.messages, in_reply_to: Some(msg_id) },
                ),
            ],
            MessageView::Broadcast { message, msg_id } => {
                let ack = seq![msg.reply(MessageView::BroadcastOk { in_reply_to: msg_id })];
                if self.messages.contains(message) {
                    ack
                } else {
                    ack + self.fan_out(message, now)
                }
            },
            MessageView::Tick => resends(self.node_id, self.pending_messages, now),
            _ => Seq::empty(),
        }
    }
}


/// A copy of a list of ids.
fn clone_names(list: &Vec<String>) -> (copy: Vec<String>)
    ensures
        copy@ == list@,
{
    let mut copy: Vec<String> = Vec::new();
    let n: usize = list.len();
    let mut i: usize = 0;
    while i < n
        invariant
            n == list@.len(),
            i <= n,
            copy@ == list@.take(i as int),
        decreases n - i,
    {
        copy.push(list[i].clone());
        i += 1;
        assert(list@.take(i as int) =~= list@.take(i as int - 1).push(list@[i as int - 1]));
    }
    assert(list@.take(n as int) =~= list@);
    copy
}

/// The neighbours that `topology` gives to `node_id`.
fn neighbors_in(topology: &Vec<(String, Vec<String>)>, node_id: &String) -> (list: Vec<String>)
    ensures
        names(list@) == neighbors_of(topology_view(topology@), node_id@),
{
    let ghost all = topology_view(topology@);
    let n: usize = topology.len();
    let mut i: usize = 0;
    assert(all.skip(0) =~= all);
    while i < n
        invariant
            n == topology@.len(),
            i <= n,
            all == topology_view(topology@),
            neighbors_of(all, node_id@) == neighbors_of(all.skip(i as int), node_id@),
        decreases n - i,
    {
        assert(all.skip(i as int)[0] == all[i as int]);
        assert(all.skip(i as int).skip(1) =~= all.skip(i as int + 1));
        if topology[i].0 == *node_id {
            return clone_names(&topology[i].1);
        }
        i += 1;
    }
    assert(all.skip(n as int).len() == 0);
    let none: Vec<String> = Vec::new();
    assert(names(none@) =~= Seq::<Seq<char>>::empty());
    none
}

/// A dissemination node: its id, the values it has taken in, the table of
/// the sends that await an acknowledgment, its neighbours, and the next
/// sequence id.
#[derive(Debug)]
pub struct Broadcast {
    node_id: String,
    messages: DeliveredSet,
    pending_messages: PendingTable,
    topology: Vec<String>,
    counter: usize,
}

impl View for Broadcast {
    type V = NodeView;

    closed spec fn view(&self) -> NodeView {
        NodeView {
            node_id: self.node_id@,
            messages: self.messages@,
            pending_messages: self.pending_messages@,
            topology: names(self.topology@),
            counter: self.counter,
        }
    }
}

impl Default for Broadcast {
    fn default() -> (node: Self)
        ensures
            node.wf(),
            node@ == NodeView::fresh(),
    {
        Broadcast::new()
    }
}

impl NodeView {
    /// A node that has heard nothing yet: no id, no values, no pending
    /// sends, no neighbours, and the counter at zero.
    pub open spec fn fresh() -> NodeView {
        NodeView {
            node_id: Seq::empty(),
            messages: Seq::empty(),
            pending_messages: Seq::empty(),
            topology: Seq::empty(),
            counter: 0,
        }
    }
}

impl Broadcast {
    /// The invariant of a node: what [`NodeView::wf`] says of its view.
    pub closed spec fn wf(&self) -> bool {
        &&& self.messages.wf()
        &&& self.pending_messages.wf()
        &&& self@.wf()
    }

    /// What holds of every well-formed node: its view is well-formed.
    pub proof fn lemma_wf_view(&self)
        requires
            self.wf(),
        ensures
            self@.wf(),
    {
    }

    /// A node that has heard nothing yet.
    pub fn new() -> (node: Self)
        ensures
            node.wf(),
            node@ == NodeView::fresh(),
    {
        let node = Broadcast {
            node_id: String::new(),
            messages: DeliveredSet::new(),
            pending_messages: PendingTable::new(),
            topology: Vec::new(),
            counter: 0,
        };
        proof {
            assert(node@.topology =~= Seq::<Seq<char>>::empty());
        }
        node
    }

    /// This node's id.
    pub fn node_id(&self) -> (id: &String)
        ensures
            id@ == self@.node_id,
    {
        &self.node_id
    }

    /// The values taken in so far, in the order of their first arrival.
    pub fn messages(&self) -> (list: Vec<i32>)
        ensures
            list@ == self@.messages,
    {
        self.messages.values()
    }

    /// The sends that await an acknowledgment, in the order of their ids.
    pub fn pending_messages(&self) -> (list: Vec<PendingMessage>)
        requires
            self.wf(),
        ensures
            pending_views(list@) == self@.pending_messages,
    {
        self.pending_messages.to_vec()
    }

    /// The neighbours this node passes new values to.
    pub fn topology(&self) -> (list: &Vec<String>)
        ensures
            names(list@) == self@.topology,
    {
        &self.topology
    }

    /// The next unused sequence id.
    pub fn counter(&self) -> (next: usize)
        ensures
            next == self@.counter,
    {
        self.counter
    }

    /// Whether [`Broadcast::handle_message`] can take `msg`: whether the
    /// sequence ids that it would need are left.
    pub fn accepts(&self, msg: &Envelope<Message>) -> (ok: bool)
        requires
            self.wf(),
        ensures
            ok == self@.accepts(msg@.body),
    {
        match &msg.body {
            Message::Broadcast { message, .. } => {
                self.messages.contains(*message) || self.topology.len() <= usize::MAX
                    - self.counter
            },
            _ => true,
        }
    }

    /// Handles one inbound envelope at time `now` (in milliseconds, on any
    /// clock that does not run backwards) and returns the envelopes to send,
    /// in the order in which to send them.
    ///
    /// * `Init` sets this node's id and is answered with `InitOk`. The
    ///   caller starts the retry timer, which hands in a `Tick` every
    ///   [`RETRY_MILLIS`].
    /// * `Topology` replaces the neighbour list as a whole with the list
    ///   given for this node, or with none where the node is not listed, and
    ///   is answered with `TopologyOk`.
    /// * `Read` is answered with `ReadOk` and every value taken in so far.
    /// * `Broadcast` is always answered with `BroadcastOk`. A value that is
    ///   new is taken in and sent to every neighbour under a fresh sequence
    ///   id, and each send is recorded as pending. A value that is known
    ///   changes nothing and is sent to nobody.
    /// * `BroadcastOk` removes the pending send that it names. One that
    ///   names none changes nothing.
    /// * `Tick` sends every pending send again that was last sent
    ///   [`RETRY_MILLIS`] or more ago, under its old sequence id, and stamps
    ///   it with `now`.
    /// * `InitOk`, `ReadOk` and `TopologyOk` are refused with
    ///   [`HandleError::UnexpectedMessage`]; the node stays as it is.
    pub fn handle_message(&mut self, msg: Envelope<Message>, now: u64) -> (result: Result<
        Vec<Envelope<Message>>,
        HandleError,
    >)
        requires
            old(self).wf(),
            old(self)@.accepts(msg@.body),
        ensures
            final(self).wf(),
            final(self)@ == old(self)@.next(msg@, now),
            result is Err <==> is_unexpected(msg@.body),
            result matches Ok(sent) ==> envelope_views(sent@) == old(self)@.sent(msg@, now),
            result matches Err(e) ==> e == HandleError::UnexpectedMessage && final(self)@ == old(
                self,
            )@,
    {
        let ghost start = self@;
        match &msg.body {
            Message::Init { msg_id, node_id } => {
                self.node_id = node_id.clone();
                let mut out: Vec<Envelope<Message>> = Vec::new();
                out.push(msg.reply(Message::InitOk { in_reply_to: *msg_id }));
                proof {
                    assert(envelope_views(out@) =~= start.sent(msg@, now));
                }
                Ok(out)
            },
            Message::Topology { topology, msg_id } => {
                self.topology = neighbors_in(topology, &self.node_id);
                assert(self@.pending_messages == start.pending_messages);
                let mut out: Vec<Envelope<Message>> = Vec::new();
                out.push(msg.reply(Message::TopologyOk { in_reply_to: *msg_id }));
                proof {
                    assert(envelope_views(out@) =~= start.sent(msg@, now));
                }
                Ok(out)
            },
            Message::Read { msg_id } => {
                let mut out: Vec<Envelope<Message>> = Vec::new();
                out.push(
                    msg.reply(
                        Message::ReadOk {
                            messages: self.messages.values(),
                            in_reply_to: Some(*msg_id),
                        },
                    ),
                );
                proof {
                    assert(envelope_views(out@) =~= start.sent(msg@, now));
                }
                Ok(out)
            },
            Message::Broadcast { message, msg_id } => {
                let is_new = self.messages.insert(*message);
                let mut out: Vec<Envelope<Message>> = Vec::new();
                out.push(msg.reply(Message::BroadcastOk { in_reply_to: *msg_id }));
                let ghost ack = envelope_views(out@);
                proof {
                    self.messages.lemma_wf_no_duplicates();
                    assert(ack =~= seq![
                        msg@.reply(MessageView::BroadcastOk { in_reply_to: *msg_id }),
                    ]);
                }
                if is_new {
                    proof {
                        assert(start.wf());
                        assert(self@.pending_messages == start.pending_messages);
                        assert forall|k: int|
                            0 <= k < self@.pending_messages.len() implies self@.pending_messages[k].id
                            < self@.counter by {
                            assert(start.pending_messages[k].id < start.counter);
                        }
                    }
                    self.pass_on(*message, now, &mut out);
                    proof {
                        lemma_next_preserves_wf(start, msg@, now);
                    }
                }
                Ok(out)
            },
            Message::BroadcastOk { in_reply_to } => {
                match in_reply_to {
                    Some(id) => {
                        self.acknowledge(*id);
                    },
                    None => {},
                }
                let out: Vec<Envelope<Message>> = Vec::new();
                proof {
                    assert(envelope_views(out@) =~= start.sent(msg@, now));
                }
                Ok(out)
            },
            Message::Tick {} => {
                let out = self.retry(now);
                Ok(out)
            },
            Message::InitOk { .. } | Message::ReadOk { .. } | Message::TopologyOk { .. } => {
                Err(HandleError::UnexpectedMessage)
            },
        }
    }

    /// Sends `message` to every neighbour and records each send.
    fn pass_on(&mut self, message: i32, now: u64, out: &mut Vec<Envelope<Message>>)
        requires
            old(self).pending_messages.wf(),
            forall|k: int|
                0 <= k < old(self)@.pending_messages.len() ==> old(self)@.pending_messages[k].id
                    < old(self)@.counter,
            old(self)@.has_room(),
        ensures
            final(self).messages == old(self).messages,
            final(self).pending_messages.wf(),
            final(self)@ == (NodeView {
                pending_messages: old(self)@.pending_messages + old(self)@.fan_out_pending(
                    message,
                    now,
                ),
                counter: (old(self)@.counter + old(self)@.topology.len()) as usize,
                ..old(self)@
            }),
            envelope_views(final(out)@) == envelope_views(old(out)@) + old(self)@.fan_out(
                message,
                now,
            ),
    {
        let ghost start = self@;
        let ghost out_start = envelope_views(out@);
        let n: usize = self.topology.len();
        let mut i: usize = 0;
        assert(start.pending_messages + start.fan_out_pending(message, now).take(0)
            =~= start.pending_messages);
        assert(out_start + start.fan_out(message, now).take(0) =~= out_start);
        while i < n
            invariant
                i <= n,
                n == self.topology@.len(),
                n == start.topology.len(),
                start.counter + n <= usize::MAX,
                forall|k: int|
                    0 <= k < start.pending_messages.len() ==> start.pending_messages[k].id
                        < start.counter,
                self.node_id == old(self).node_id,
                self.messages == old(self).messages,
                self.topology == old(self).topology,
                self.pending_messages.wf(),
                start.node_id == self.node_id@,
                start.topology == names(self.topology@),
                self.counter == start.counter + i,
                self.pending_messages@ == start.pending_messages + start.fan_out_pending(
                    message,
                    now,
                ).take(i as int),
                envelope_views(out@) == out_start + start.fan_out(message, now).take(i as int),
            decreases n - i,
        {
            let id: usize = self.counter;
            self.counter = self.counter + 1;
            let dest = self.topology[i].clone();
            let to = self.topology[i].clone();
            let ghost table_before = self.pending_messages@;
            let ghost out_before = out@;
            let pending = PendingMessage { id, message, time_sent: now, dest };
            let envelope = Envelope {
                src: self.node_id.clone(),
                dest: to,
                body: Message::Broadcast { message, msg_id: Some(id) },
            };
            proof {
                assert(pending@ == start.fan_out_pending(message, now)[i as int]);
                assert(envelope@ == start.fan_out(message, now)[i as int]);
                assert forall|k: int| 0 <= k < table_before.len() implies table_before[k].id
                    < id by {
                    if k < start.pending_messages.len() {
                        assert(table_before[k] == start.pending_messages[k]);
                    } else {
                        assert(table_before[k] == start.fan_out_pending(message, now)[k
                            - start.pending_messages.len()]);
                    }
                }
            }
            self.pending_messages.push(pending);
            out.push(envelope);
            proof {
                assert(envelope_views(out@) =~= envelope_views(out_before).push(envelope@));
                assert(start.fan_out_pending(message, now).take(i as int + 1)
                    =~= start.fan_out_pending(message, now).take(i as int).push(pending@));
                assert(start.fan_out(message, now).take(i as int + 1) =~= start.fan_out(
                    message,
                    now,
                ).take(i as int).push(envelope@));
                assert(self.pending_messages@ =~= start.pending_messages
                    + start.fan_out_pending(message, now).take(i as int + 1));
                assert(envelope_views(out@) =~= out_start + start.fan_out(message, now).take(
                    i as int + 1,
                ));
            }
            i += 1;
        }
        proof {
            assert(start.fan_out_pending(message, now).take(n as int)
                =~= start.fan_out_pending(message, now));
            assert(start.fan_out(message, now).take(n as int) =~= start.fan_out(message, now));
        }
    }

    /// Takes the send with sequence id `id` out of the table, if it is there.
    fn acknowledge(&mut self, id: usize)
        requires
            old(self).wf(),
        ensures
            final(self).messages == old(self).messages,
            final(self).pending_messages.wf(),
            final(self)@ == (NodeView {
                pending_messages: acknowledged(old(self)@.pending_messages, id),
                ..old(self)@
            }),
    {
        let ghost before = self@.pending_messages;
        match self.pending_messages.position(id) {
            Some(i) => {
                self.pending_messages.remove_at(i);
                proof {
                    let k = choose|k: int| 0 <= k < before.len() && before[k].id == id;
                    assert(before[i as int].id == id);
                    assert(k == i);
                }
            },
            None => {},
        }
    }

    /// Sends every pending send that is due at `now` again and stamps it.
    fn retry(&mut self, now: u64) -> (out: Vec<Envelope<Message>>)
        requires
            old(self).wf(),
        ensures
            final(self).messages == old(self).messages,
            final(self).pending_messages.wf(),
            final(self)@ == (NodeView {
                pending_messages: refreshed(old(self)@.pending_messages, now),
                ..old(self)@
            }),
            envelope_views(out@) == resends(old(self)@.node_id, old(self)@.pending_messages, now),
    {
        let ghost start = self@;
        let mut out: Vec<Envelope<Message>> = Vec::new();
        let n: usize = self.pending_messages.len();
        let mut i: usize = 0;
        assert(envelope_views(out@) =~= resends(start.node_id, start.pending_messages.take(0), now));
        while i < n
            invariant
                i <= n,
                n == self.pending_messages@.len(),
                n == start.pending_messages.len(),
                self.node_id == old(self).node_id,
                self.messages == old(self).messages,
                self.topology == old(self).topology,
                self.counter == old(self).counter,
                self.pending_messages.wf(),
                start == old(self)@,
                forall|k: int|
                    0 <= k < n ==> (#[trigger] self.pending_messages@[k]) == if k < i {
                        refreshed(start.pending_messages, now)[k]
                    } else {
                        start.pending_messages[k]
                    },
                envelope_views(out@) == resends(
                    start.node_id,
                    start.pending_messages.take(i as int),
                    now,
                ),
            decreases n - i,
        {
            let ghost out_before = out@;
            proof {
                assert(start.pending_messages.take(i as int + 1).drop_last()
                    =~= start.pending_messages.take(i as int));
                assert(self.pending_messages@[i as int] == start.pending_messages[i as int]);
            }
            let p = self.pending_messages.get(i);
            let last: u64 = p.time_sent;
            if now >= last && now - last >= RETRY_MILLIS {
                let envelope = Envelope {
                    src: self.node_id.clone(),
                    dest: p.dest.clone(),
                    body: Message::Broadcast { message: p.message, msg_id: Some(p.id) },
                };
                self.pending_messages.stamp(i, now);
                out.push(envelope);
                proof {
                    assert(envelope_views(out@) =~= envelope_views(out_before).push(envelope@));
                }
            }
            i += 1;
        }
        proof {
            assert(start.pending_messages.take(n as int) =~= start.pending_messages);
            assert(self@.pending_messages =~= refreshed(start.pending_messages, now));
        }
        out
    }
}

} // verus!
