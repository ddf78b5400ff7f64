use gossip_glomers::envelope::{Envelope, HandleError};
use gossip_glomers::grow_only_counter::{
    store_name, Attempt, GrowOnlyCounter, KVMessage, Message, Outbox, PendingMessage,
    KEY_DOES_NOT_EXIST, PRECONDITION_FAILED, RETRY_MILLIS,
};

fn s(text: &str) -> String {
    text.to_string()
}

fn client(node: &mut GrowOnlyCounter, body: Message, now: u64) -> Outbox {
    let msg = Envelope::new("c1", "n1", body);
    assert!(node.accepts(&msg));
    node.handle_message(msg, now).unwrap()
}

fn store(node: &mut GrowOnlyCounter, body: KVMessage, now: u64) -> Vec<Envelope<KVMessage>> {
    let msg = Envelope::new("seq-kv", "n1", body);
    assert!(node.accepts_from_store(&msg));
    node.handle_store_message(msg, now).unwrap()
}

fn to_store(body: KVMessage) -> Envelope<KVMessage> {
    Envelope::new("n1", "seq-kv", body)
}

fn read_own(id: usize) -> Envelope<KVMessage> {
    to_store(KVMessage::Read { key: s("n1"), msg_id: id })
}

fn swap(from: usize, to: usize, create: Option<bool>, id: usize) -> Envelope<KVMessage> {
    to_store(KVMessage::Cas { key: s("n1"), from, to, create_if_not_exists: create, msg_id: id })
}

fn queued(delta: usize, time_sent: u64, attempt: Attempt) -> PendingMessage {
    PendingMessage { delta, time_sent, dest: s("seq-kv"), attempt }
}

fn queue_of(node: &GrowOnlyCounter) -> Vec<PendingMessage> {
    node.pending_messages().iter().cloned().collect()
}

fn started(peers: &[&str]) -> GrowOnlyCounter {
    let mut node = GrowOnlyCounter::new();
    let out = client(&mut node, Message::Init { msg_id: Some(1), node_id: s("n1") }, 0);
    assert_eq!(out.replies, vec![Envelope::new("n1", "c1", Message::InitOk { in_reply_to: Some(1) })]);
    assert!(out.requests.is_empty());
    let mut topology = vec![(s("n1"), peers.iter().map(|p| s(p)).collect::<Vec<String>>())];
    for p in peers {
        topology.push((s(p), vec![s("n1")]));
    }
    let out = client(&mut node, Message::Topology { topology, msg_id: Some(2) }, 0);
    assert_eq!(
        out.replies,
        vec![Envelope::new("n1", "c1", Message::TopologyOk { in_reply_to: Some(2) })]
    );
    assert!(out.requests.is_empty());
    node
}

fn read_value(node: &mut GrowOnlyCounter, msg_id: usize) -> usize {
    let out = client(node, Message::Read { msg_id }, 0);
    assert!(out.requests.is_empty());
    assert_eq!(out.replies.len(), 1);
    match &out.replies[0].body {
        Message::ReadOk { value, in_reply_to } => {
            assert_eq!(*in_reply_to, Some(msg_id));
            *value
        }
        other => panic!("not a read_ok: {:?}", other),
    }
}

#[test]
fn store_goes_by_its_name() {
    assert_eq!(store_name(), "seq-kv");
}

#[test]
fn fresh_counter_reads_zero() {
    let mut node = GrowOnlyCounter::default();
    assert_eq!(node.value(), Some(0));
    assert!(node.pending_messages().is_empty());
    assert_eq!(read_value(&mut node, 5), 0);
}

#[test]
fn addition_is_acknowledged_queued_and_read_for() {
    let mut node = started(&[]);
    let out = client(&mut node, Message::Add { msg_id: 3, delta: 3 }, 10);
    assert_eq!(out.replies, vec![Envelope::new("n1", "c1", Message::AddOk { in_reply_to: Some(3) })]);
    assert_eq!(out.requests, vec![read_own(0)]);
    let out = client(&mut node, Message::Add { msg_id: 4, delta: 4 }, 11);
    assert_eq!(out.replies, vec![Envelope::new("n1", "c1", Message::AddOk { in_reply_to: Some(4) })]);
    assert_eq!(out.requests, vec![read_own(1)]);
    assert_eq!(
        queue_of(&node),
        vec![
            queued(3, 10, Attempt::Reading { id: 0 }),
            queued(4, 11, Attempt::Reading { id: 1 }),
        ]
    );
    assert_eq!(node.counter(), 2);
}

#[test]
fn two_additions_confirmed_read_as_their_sum() {
    let mut node = started(&[]);
    client(&mut node, Message::Add { msg_id: 3, delta: 3 }, 10);
    store(&mut node, KVMessage::Error { in_reply_to: 0, code: KEY_DOES_NOT_EXIST, text: s("") }, 11);
    assert_eq!(store(&mut node, KVMessage::CasOk { in_reply_to: 1 }, 12), vec![]);
    assert_eq!(read_value(&mut node, 20), 3);
    client(&mut node, Message::Add { msg_id: 4, delta: 4 }, 13);
    assert_eq!(
        store(&mut node, KVMessage::ReadOk { value: 3, in_reply_to: 2 }, 14),
        vec![swap(3, 7, None, 3)]
    );
    assert_eq!(store(&mut node, KVMessage::CasOk { in_reply_to: 3 }, 15), vec![]);
    assert_eq!(node.own_value(), 7);
    assert!(node.pending_messages().is_empty());
    assert_eq!(read_value(&mut node, 21), 7);
    assert_eq!(node.counter(), 4);
}

#[test]
fn two_additions_at_once_are_each_applied_once() {
    let mut node = started(&[]);
    client(&mut node, Message::Add { msg_id: 3, delta: 3 }, 10);
    client(&mut node, Message::Add { msg_id: 4, delta: 4 }, 10);
    // Neither read finds the key: both swaps start from zero and may make it.
    let missing = |id| KVMessage::Error { in_reply_to: id, code: KEY_DOES_NOT_EXIST, text: s("") };
    assert_eq!(store(&mut node, missing(0), 12), vec![swap(0, 3, Some(true), 2)]);
    assert_eq!(store(&mut node, missing(1), 12), vec![swap(0, 4, Some(true), 3)]);
    assert_eq!(
        queue_of(&node),
        vec![
            queued(3, 12, Attempt::Swapping { id: 2, from: 0, to: 3, create: true }),
            queued(4, 12, Attempt::Swapping { id: 3, from: 0, to: 4, create: true }),
        ]
    );
    // The store takes the first swap and refuses the second, which starts again.
    assert_eq!(store(&mut node, KVMessage::CasOk { in_reply_to: 2 }, 13), vec![]);
    assert_eq!(node.own_value(), 3);
    assert_eq!(queue_of(&node).len(), 1);
    let refused = KVMessage::Error { in_reply_to: 3, code: PRECONDITION_FAILED, text: s("") };
    assert_eq!(store(&mut node, refused, 14), vec![read_own(4)]);
    assert_eq!(
        store(&mut node, KVMessage::ReadOk { value: 3, in_reply_to: 4 }, 15),
        vec![swap(3, 7, None, 5)]
    );
    assert_eq!(store(&mut node, KVMessage::CasOk { in_reply_to: 5 }, 16), vec![]);
    assert_eq!(node.own_value(), 7);
    assert!(node.pending_messages().is_empty());
    assert_eq!(read_value(&mut node, 21), 7);
}

#[test]
fn confirmations_out_of_order_keep_the_larger_value() {
    let mut node = started(&[]);
    client(&mut node, Message::Add { msg_id: 1, delta: 3 }, 0);
    client(&mut node, Message::Add { msg_id: 2, delta: 4 }, 0);
    store(&mut node, KVMessage::ReadOk { value: 0, in_reply_to: 0 }, 1);
    store(&mut node, KVMessage::ReadOk { value: 3, in_reply_to: 1 }, 2);
    assert_eq!(store(&mut node, KVMessage::CasOk { in_reply_to: 3 }, 3), vec![]);
    assert_eq!(node.own_value(), 7);
    assert_eq!(queue_of(&node), vec![queued(3, 1, Attempt::Swapping { id: 2, from: 0, to: 3, create: false })]);
    assert_eq!(store(&mut node, KVMessage::CasOk { in_reply_to: 2 }, 4), vec![]);
    assert_eq!(node.own_value(), 7);
    assert!(node.pending_messages().is_empty());
}

#[test]
fn refused_swap_starts_again_from_a_fresh_read() {
    let mut node = started(&[]);
    client(&mut node, Message::Add { msg_id: 3, delta: 5 }, 0);
    assert_eq!(
        store(&mut node, KVMessage::ReadOk { value: 10, in_reply_to: 0 }, 1),
        vec![swap(10, 15, None, 1)]
    );
    assert_eq!(node.own_value(), 10);
    let refused = KVMessage::Error { in_reply_to: 1, code: PRECONDITION_FAILED, text: s("") };
    assert_eq!(store(&mut node, refused, 2), vec![read_own(2)]);
    assert_eq!(queue_of(&node), vec![queued(5, 2, Attempt::Reading { id: 2 })]);
    assert_eq!(
        store(&mut node, KVMessage::ReadOk { value: 12, in_reply_to: 2 }, 3),
        vec![swap(12, 17, None, 3)]
    );
    assert_eq!(store(&mut node, KVMessage::CasOk { in_reply_to: 3 }, 4), vec![]);
    assert_eq!(node.own_value(), 17);
    assert_eq!(node.value(), Some(17));
}

#[test]
fn answers_to_old_requests_change_nothing() {
    let mut node = started(&[]);
    client(&mut node, Message::Add { msg_id: 3, delta: 5 }, 0);
    store(&mut node, KVMessage::ReadOk { value: 1, in_reply_to: 0 }, 1);
    let before = (queue_of(&node), node.own_value(), node.counter());
    assert_eq!(store(&mut node, KVMessage::ReadOk { value: 99, in_reply_to: 0 }, 2), vec![]);
    assert_eq!(store(&mut node, KVMessage::ReadOk { value: 99, in_reply_to: 1 }, 2), vec![]);
    assert_eq!(store(&mut node, KVMessage::CasOk { in_reply_to: 0 }, 2), vec![]);
    assert_eq!(store(&mut node, KVMessage::CasOk { in_reply_to: 77 }, 2), vec![]);
    let other = KVMessage::Error { in_reply_to: 1, code: 11, text: s("busy") };
    assert_eq!(store(&mut node, other, 2), vec![]);
    let stale = KVMessage::Error { in_reply_to: 0, code: PRECONDITION_FAILED, text: s("") };
    assert_eq!(store(&mut node, stale, 2), vec![]);
    assert_eq!((queue_of(&node), node.own_value(), node.counter()), before);
}

#[test]
fn tick_repeats_every_due_request_and_no_younger_one() {
    let mut node = started(&[]);
    client(&mut node, Message::Add { msg_id: 1, delta: 3 }, 0);
    client(&mut node, Message::Add { msg_id: 2, delta: 4 }, 0);
    client(&mut node, Message::Add { msg_id: 3, delta: 5 }, 200);
    let out = client(&mut node, Message::Tick {}, 600);
    assert!(out.replies.is_empty());
    assert_eq!(out.requests, vec![read_own(0), read_own(1)]);
    assert_eq!(
        queue_of(&node),
        vec![
            queued(3, 600, Attempt::Reading { id: 0 }),
            queued(4, 600, Attempt::Reading { id: 1 }),
            queued(5, 200, Attempt::Reading { id: 2 }),
        ]
    );
    assert_eq!(client(&mut node, Message::Tick {}, 699).requests, vec![]);
    assert_eq!(client(&mut node, Message::Tick {}, 700).requests, vec![read_own(2)]);
    assert_eq!(queue_of(&node)[2].time_sent, 700);
    assert_eq!(node.counter(), 3);
}

#[test]
fn tick_repeats_the_request_in_flight_under_its_id() {
    let mut node = started(&[]);
    client(&mut node, Message::Add { msg_id: 3, delta: 5 }, 100);
    assert!(client(&mut node, Message::Tick {}, 100 + RETRY_MILLIS - 1).requests.is_empty());
    let out = client(&mut node, Message::Tick {}, 100 + RETRY_MILLIS);
    assert_eq!(out.requests, vec![read_own(0)]);
    assert_eq!(queue_of(&node), vec![queued(5, 600, Attempt::Reading { id: 0 })]);
    store(&mut node, KVMessage::ReadOk { value: 2, in_reply_to: 0 }, 700);
    assert!(client(&mut node, Message::Tick {}, 1199).requests.is_empty());
    assert_eq!(client(&mut node, Message::Tick {}, 1200).requests, vec![swap(2, 7, None, 1)]);
    // Without an answer the request goes out at every tick that finds it due.
    for round in 1..20u64 {
        let out = client(&mut node, Message::Tick {}, 1200 + round * RETRY_MILLIS);
        assert_eq!(out.requests, vec![swap(2, 7, None, 1)]);
    }
    assert_eq!(node.counter(), 2);
}

#[test]
fn tick_skips_requests_stamped_in_the_future() {
    let mut node = started(&[]);
    client(&mut node, Message::Add { msg_id: 3, delta: 5 }, 1000);
    assert!(client(&mut node, Message::Tick {}, 0).requests.is_empty());
    assert_eq!(queue_of(&node)[0].time_sent, 1000);
}

#[test]
fn tick_asks_for_the_other_nodes_and_read_sums_what_is_known() {
    let mut node = started(&["n2", "n3"]);
    assert_eq!(node.peers(), &vec![s("n2"), s("n3")]);
    assert_eq!(node.peer_values(), &vec![0, 0]);
    let out = client(&mut node, Message::Tick {}, 500);
    assert_eq!(
        out.requests,
        vec![
            to_store(KVMessage::Read { key: s("n2"), msg_id: 0 }),
            to_store(KVMessage::Read { key: s("n3"), msg_id: 1 }),
        ]
    );
    assert_eq!(node.counter(), 2);
    store(&mut node, KVMessage::ReadOk { value: 40, in_reply_to: 1 }, 501);
    let missing = KVMessage::Error { in_reply_to: 0, code: KEY_DOES_NOT_EXIST, text: s("") };
    assert_eq!(store(&mut node, missing, 502), vec![]);
    assert_eq!(node.peer_values(), &vec![0, 40]);
    assert_eq!(read_value(&mut node, 9), 40);

    client(&mut node, Message::Add { msg_id: 3, delta: 2 }, 503);
    store(&mut node, KVMessage::ReadOk { value: 0, in_reply_to: 2 }, 504);
    store(&mut node, KVMessage::CasOk { in_reply_to: 3 }, 505);
    assert_eq!(read_value(&mut node, 10), 42);

    // A later round makes the answers to the earlier one stale.
    client(&mut node, Message::Tick {}, 1000);
    store(&mut node, KVMessage::ReadOk { value: 1000, in_reply_to: 0 }, 1001);
    assert_eq!(node.peer_values(), &vec![0, 40]);
    store(&mut node, KVMessage::ReadOk { value: 6, in_reply_to: 4 }, 1001);
    assert_eq!(node.peer_values(), &vec![6, 40]);
    assert_eq!(read_value(&mut node, 11), 48);
}

#[test]
fn tick_sends_retries_before_questions() {
    let mut node = started(&["n2"]);
    client(&mut node, Message::Add { msg_id: 3, delta: 2 }, 0);
    let out = client(&mut node, Message::Tick {}, 500);
    assert_eq!(
        out.requests,
        vec![read_own(0), to_store(KVMessage::Read { key: s("n2"), msg_id: 1 })]
    );
}

#[test]
fn topology_keeps_what_is_known_of_nodes_that_stay() {
    let mut node = started(&["n2", "n3"]);
    client(&mut node, Message::Tick {}, 0);
    store(&mut node, KVMessage::ReadOk { value: 8, in_reply_to: 0 }, 1);
    store(&mut node, KVMessage::ReadOk { value: 40, in_reply_to: 1 }, 1);
    assert_eq!(read_value(&mut node, 1), 48);
    let topology = vec![(s("n4"), vec![]), (s("n1"), vec![s("n4")]), (s("n3"), vec![])];
    client(&mut node, Message::Topology { topology, msg_id: None }, 2);
    assert_eq!(node.peers(), &vec![s("n4"), s("n3")]);
    assert_eq!(node.peer_values(), &vec![0, 40]);
    assert_eq!(read_value(&mut node, 2), 40);
    // Answers to the questions asked under the old list no longer count.
    store(&mut node, KVMessage::ReadOk { value: 9, in_reply_to: 0 }, 3);
    assert_eq!(node.peer_values(), &vec![0, 40]);
    // The same list again changes nothing.
    let same = vec![(s("n4"), vec![]), (s("n3"), vec![])];
    client(&mut node, Message::Topology { topology: same, msg_id: None }, 4);
    assert_eq!(node.peer_values(), &vec![0, 40]);
}

#[test]
fn counter_refuses_what_it_never_asked_for() {
    let mut node = started(&[]);
    for body in [
        Message::InitOk { in_reply_to: None },
        Message::ReadOk { value: 1, in_reply_to: None },
        Message::AddOk { in_reply_to: Some(1) },
        Message::TopologyOk { in_reply_to: None },
    ] {
        let msg = Envelope::new("c1", "n1", body);
        assert!(node.accepts(&msg));
        assert_eq!(node.handle_message(msg, 0), Err(HandleError::UnexpectedMessage));
    }
    for body in [
        KVMessage::Read { key: s("n1"), msg_id: 1 },
        KVMessage::Write { key: s("n1"), value: 1, msg_id: 1 },
        KVMessage::Cas { key: s("n1"), from: 0, to: 1, create_if_not_exists: None, msg_id: 1 },
        KVMessage::WriteOk { in_reply_to: 1 },
    ] {
        let msg = Envelope::new("seq-kv", "n1", body);
        assert!(node.accepts_from_store(&msg));
        assert_eq!(node.handle_store_message(msg, 0), Err(HandleError::UnexpectedMessage));
    }
    assert_eq!(node.counter(), 0);
    assert_eq!(node.value(), Some(0));
}

#[test]
fn sum_that_does_not_fit_is_reported() {
    let mut node = started(&["n2"]);
    client(&mut node, Message::Tick {}, 0);
    store(&mut node, KVMessage::ReadOk { value: usize::MAX, in_reply_to: 0 }, 1);
    assert_eq!(node.value(), Some(usize::MAX));
    client(&mut node, Message::Add { msg_id: 1, delta: 1 }, 2);
    store(&mut node, KVMessage::ReadOk { value: 0, in_reply_to: 1 }, 3);
    store(&mut node, KVMessage::CasOk { in_reply_to: 2 }, 4);
    assert_eq!(node.own_value(), 1);
    assert_eq!(node.value(), None);
    assert!(!node.accepts(&Envelope::new("c1", "n1", Message::Read { msg_id: 1 })));
}

#[test]
fn addition_that_would_overflow_is_not_accepted() {
    let mut node = started(&[]);
    client(&mut node, Message::Add { msg_id: 1, delta: 2 }, 0);
    let msg = Envelope::new("seq-kv", "n1", KVMessage::ReadOk { value: usize::MAX - 1, in_reply_to: 0 });
    assert!(!node.accepts_from_store(&msg));
    let fits = Envelope::new("seq-kv", "n1", KVMessage::ReadOk { value: usize::MAX - 2, in_reply_to: 0 });
    assert!(node.accepts_from_store(&fits));
}
