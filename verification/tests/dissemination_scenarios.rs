use gossip_glomers::dissemination::{Broadcast, Message, PendingMessage, RETRY_MILLIS};
use gossip_glomers::envelope::{Envelope, HandleError};

fn s(text: &str) -> String {
    text.to_string()
}

fn from_client(body: Message) -> Envelope<Message> {
    Envelope::new("c1", "n1", body)
}

fn deliver(node: &mut Broadcast, msg: Envelope<Message>, now: u64) -> Vec<Envelope<Message>> {
    assert!(node.accepts(&msg));
    node.handle_message(msg, now).unwrap()
}

fn node_with_neighbors(neighbors: &[&str]) -> Broadcast {
    let mut node = Broadcast::new();
    let out = deliver(
        &mut node,
        from_client(Message::Init { msg_id: Some(1), node_id: s("n1") }),
        0,
    );
    assert_eq!(out, vec![Envelope::new("n1", "c1", Message::InitOk { in_reply_to: Some(1) })]);
    let list: Vec<String> = neighbors.iter().map(|n| s(n)).collect();
    let out = deliver(
        &mut node,
        from_client(Message::Topology {
            topology: vec![(s("n2"), vec![s("n1")]), (s("n1"), list)],
            msg_id: Some(2),
        }),
        0,
    );
    assert_eq!(out, vec![Envelope::new("n1", "c1", Message::TopologyOk { in_reply_to: Some(2) })]);
    node
}

fn gossip(dest: &str, message: i32, id: usize) -> Envelope<Message> {
    Envelope::new("n1", dest, Message::Broadcast { message, msg_id: Some(id) })
}

#[test]
fn fresh_node_is_empty() {
    let node = Broadcast::new();
    assert_eq!(node.node_id(), "");
    assert!(node.messages().is_empty());
    assert!(node.pending_messages().is_empty());
    assert!(node.topology().is_empty());
    assert_eq!(node.counter(), 0);
    let other = Broadcast::default();
    assert_eq!(other.counter(), 0);
    assert!(other.messages().is_empty());
}

#[test]
fn envelope_reply_swaps_the_ids() {
    let msg = Envelope::new("a", "b", Message::Read { msg_id: 3 });
    let answer = msg.reply(Message::Tick {});
    assert_eq!(answer.src, "b");
    assert_eq!(answer.dest, "a");
    assert_eq!(answer.body, Message::Tick {});
}

#[test]
fn init_sets_the_node_id() {
    let mut node = Broadcast::new();
    let out = deliver(
        &mut node,
        from_client(Message::Init { msg_id: None, node_id: s("n7") }),
        5,
    );
    assert_eq!(out, vec![Envelope::new("n1", "c1", Message::InitOk { in_reply_to: None })]);
    assert_eq!(node.node_id(), "n7");
    assert_eq!(node.counter(), 0);
}

#[test]
fn broadcast_is_acknowledged_and_fanned_out() {
    let mut node = node_with_neighbors(&["n2", "n3"]);
    assert_eq!(node.topology(), &vec![s("n2"), s("n3")]);
    let out = deliver(&mut node, from_client(Message::Broadcast { message: 5, msg_id: Some(7) }), 100);
    assert_eq!(
        out,
        vec![
            Envelope::new("n1", "c1", Message::BroadcastOk { in_reply_to: Some(7) }),
            gossip("n2", 5, 0),
            gossip("n3", 5, 1),
        ]
    );
    assert_eq!(node.messages(), vec![5]);
    assert_eq!(
        node.pending_messages(),
        vec![
            PendingMessage { id: 0, message: 5, time_sent: 100, dest: s("n2") },
            PendingMessage { id: 1, message: 5, time_sent: 100, dest: s("n3") },
        ]
    );
    assert_eq!(node.counter(), 2);
}

#[test]
fn unacknowledged_send_is_repeated_after_the_threshold() {
    let mut node = node_with_neighbors(&["n2", "n3"]);
    deliver(&mut node, from_client(Message::Broadcast { message: 5, msg_id: Some(7) }), 100);
    let ack = Envelope::new("n3", "n1", Message::BroadcastOk { in_reply_to: Some(1) });
    assert_eq!(deliver(&mut node, ack, 150), vec![]);
    let tick = Envelope::new("n1", "n1", Message::Tick {});
    assert_eq!(deliver(&mut node, tick.clone(), 599), vec![]);
    assert_eq!(node.pending_messages()[0].time_sent, 100);
    let out = deliver(&mut node, tick.clone(), 600);
    assert_eq!(out, vec![gossip("n2", 5, 0)]);
    assert_eq!(
        node.pending_messages(),
        vec![PendingMessage { id: 0, message: 5, time_sent: 600, dest: s("n2") }]
    );
    assert_eq!(deliver(&mut node, tick.clone(), 1099), vec![]);
    assert_eq!(deliver(&mut node, tick, 1100), vec![gossip("n2", 5, 0)]);
    assert_eq!(node.counter(), 2);
}

#[test]
fn read_before_any_broadcast_is_empty() {
    let mut node = node_with_neighbors(&["n2"]);
    let out = deliver(&mut node, from_client(Message::Read { msg_id: 1 }), 0);
    assert_eq!(
        out,
        vec![Envelope::new("n1", "c1", Message::ReadOk { messages: vec![], in_reply_to: Some(1) })]
    );
}

#[test]
fn read_lists_values_in_order_of_arrival() {
    let mut node = node_with_neighbors(&[]);
    for (k, v) in [9, -4, 9, 0, -4, 12].iter().enumerate() {
        deliver(&mut node, from_client(Message::Broadcast { message: *v, msg_id: Some(k) }), 0);
    }
    let out = deliver(&mut node, from_client(Message::Read { msg_id: 40 }), 0);
    assert_eq!(
        out,
        vec![Envelope::new(
            "n1",
            "c1",
            Message::ReadOk { messages: vec![9, -4, 0, 12], in_reply_to: Some(40) }
        )]
    );
    assert_eq!(node.messages(), vec![9, -4, 0, 12]);
}

#[test]
fn repeated_broadcast_is_kept_once() {
    let mut node = node_with_neighbors(&["n2", "n3"]);
    for k in 0..5 {
        let out = deliver(
            &mut node,
            from_client(Message::Broadcast { message: 8, msg_id: Some(k) }),
            10 * k as u64,
        );
        assert_eq!(out[0], Envelope::new("n1", "c1", Message::BroadcastOk { in_reply_to: Some(k) }));
        assert_eq!(out.len(), if k == 0 { 3 } else { 1 });
    }
    assert_eq!(node.messages(), vec![8]);
    assert_eq!(node.pending_messages().len(), 2);
    assert_eq!(node.counter(), 2);
}

#[test]
fn known_value_from_a_peer_is_not_passed_on() {
    let mut node = node_with_neighbors(&["n2", "n3"]);
    deliver(&mut node, from_client(Message::Broadcast { message: 5, msg_id: Some(7) }), 0);
    let again = Envelope::new("n2", "n1", Message::Broadcast { message: 5, msg_id: Some(33) });
    let out = deliver(&mut node, again, 1);
    assert_eq!(out, vec![Envelope::new("n1", "n2", Message::BroadcastOk { in_reply_to: Some(33) })]);
    assert_eq!(node.counter(), 2);
    assert_eq!(node.pending_messages().len(), 2);
}

#[test]
fn broadcast_without_neighbors_only_acknowledges() {
    let mut node = node_with_neighbors(&[]);
    let out = deliver(&mut node, from_client(Message::Broadcast { message: 1, msg_id: None }), 0);
    assert_eq!(out, vec![Envelope::new("n1", "c1", Message::BroadcastOk { in_reply_to: None })]);
    assert_eq!(node.messages(), vec![1]);
    assert!(node.pending_messages().is_empty());
    assert_eq!(node.counter(), 0);
}

#[test]
fn sequence_ids_go_on_across_values() {
    let mut node = node_with_neighbors(&["n2", "n3"]);
    deliver(&mut node, from_client(Message::Broadcast { message: 5, msg_id: Some(1) }), 0);
    let out = deliver(&mut node, from_client(Message::Broadcast { message: 6, msg_id: Some(2) }), 3);
    assert_eq!(out[1..], [gossip("n2", 6, 2), gossip("n3", 6, 3)]);
    let ids: Vec<usize> = node.pending_messages().iter().map(|p| p.id).collect();
    assert_eq!(ids, vec![0, 1, 2, 3]);
}

#[test]
fn acknowledgment_removes_only_the_named_send() {
    let mut node = node_with_neighbors(&["n2", "n3", "n4"]);
    deliver(&mut node, from_client(Message::Broadcast { message: 5, msg_id: Some(1) }), 0);
    let ack = |id| Envelope::new("n3", "n1", Message::BroadcastOk { in_reply_to: id });
    assert_eq!(deliver(&mut node, ack(Some(1)), 1), vec![]);
    let ids: Vec<usize> = node.pending_messages().iter().map(|p| p.id).collect();
    assert_eq!(ids, vec![0, 2]);
    // A second acknowledgment of the same id, an unknown id and no id at all change nothing.
    assert_eq!(deliver(&mut node, ack(Some(1)), 2), vec![]);
    assert_eq!(deliver(&mut node, ack(Some(77)), 2), vec![]);
    assert_eq!(deliver(&mut node, ack(None), 2), vec![]);
    let ids: Vec<usize> = node.pending_messages().iter().map(|p| p.id).collect();
    assert_eq!(ids, vec![0, 2]);
    assert_eq!(node.counter(), 3);
}

#[test]
fn topology_is_replaced_as_a_whole() {
    let mut node = node_with_neighbors(&["n2", "n3"]);
    deliver(&mut node, from_client(Message::Broadcast { message: 5, msg_id: Some(1) }), 0);
    deliver(
        &mut node,
        from_client(Message::Topology { topology: vec![(s("n1"), vec![s("n4")])], msg_id: None }),
        1,
    );
    assert_eq!(node.topology(), &vec![s("n4")]);
    let out = deliver(&mut node, from_client(Message::Broadcast { message: 6, msg_id: Some(2) }), 2);
    assert_eq!(out[1..], [gossip("n4", 6, 2)]);
    // Sends made under the earlier list keep their destinations.
    let dests: Vec<String> = node.pending_messages().into_iter().map(|p| p.dest).collect();
    assert_eq!(dests, vec![s("n2"), s("n3"), s("n4")]);
}

#[test]
fn topology_without_this_node_leaves_no_neighbors() {
    let mut node = node_with_neighbors(&["n2", "n3"]);
    let out = deliver(
        &mut node,
        from_client(Message::Topology { topology: vec![(s("n2"), vec![s("n1")])], msg_id: Some(9) }),
        1,
    );
    assert_eq!(out, vec![Envelope::new("n1", "c1", Message::TopologyOk { in_reply_to: Some(9) })]);
    assert!(node.topology().is_empty());
    let out = deliver(&mut node, from_client(Message::Broadcast { message: 6, msg_id: Some(2) }), 2);
    assert_eq!(out.len(), 1);
}

#[test]
fn topology_takes_the_first_entry_of_a_node() {
    let mut node = node_with_neighbors(&[]);
    deliver(
        &mut node,
        from_client(Message::Topology {
            topology: vec![(s("n1"), vec![s("a")]), (s("n1"), vec![s("b")])],
            msg_id: None,
        }),
        0,
    );
    assert_eq!(node.topology(), &vec![s("a")]);
}

#[test]
fn tick_skips_sends_stamped_in_the_future() {
    let mut node = node_with_neighbors(&["n2"]);
    deliver(&mut node, from_client(Message::Broadcast { message: 5, msg_id: Some(1) }), 1000);
    let tick = Envelope::new("n1", "n1", Message::Tick {});
    assert_eq!(deliver(&mut node, tick.clone(), 0), vec![]);
    assert_eq!(node.pending_messages()[0].time_sent, 1000);
    assert_eq!(deliver(&mut node, tick, 1000 + RETRY_MILLIS), vec![gossip("n2", 5, 0)]);
}

#[test]
fn tick_resends_only_what_is_due_in_table_order() {
    let mut node = node_with_neighbors(&["n2", "n3"]);
    deliver(&mut node, from_client(Message::Broadcast { message: 5, msg_id: Some(1) }), 0);
    deliver(&mut node, from_client(Message::Broadcast { message: 6, msg_id: Some(2) }), 300);
    let tick = Envelope::new("n1", "n1", Message::Tick {});
    let out = deliver(&mut node, tick.clone(), 500);
    assert_eq!(out, vec![gossip("n2", 5, 0), gossip("n3", 5, 1)]);
    let stamps: Vec<u64> = node.pending_messages().iter().map(|p| p.time_sent).collect();
    assert_eq!(stamps, vec![500, 500, 300, 300]);
    let out = deliver(&mut node, tick, 800);
    assert_eq!(out, vec![gossip("n2", 6, 2), gossip("n3", 6, 3)]);
}

#[test]
fn answers_are_refused_and_change_nothing() {
    let mut node = node_with_neighbors(&["n2"]);
    deliver(&mut node, from_client(Message::Broadcast { message: 5, msg_id: Some(1) }), 0);
    for body in [
        Message::InitOk { in_reply_to: Some(1) },
        Message::ReadOk { messages: vec![1, 2], in_reply_to: None },
        Message::TopologyOk { in_reply_to: Some(3) },
    ] {
        let msg = from_client(body);
        assert!(node.accepts(&msg));
        assert_eq!(node.handle_message(msg, 9), Err(HandleError::UnexpectedMessage));
    }
    assert_eq!(node.messages(), vec![5]);
    assert_eq!(node.pending_messages().len(), 1);
    assert_eq!(node.topology(), &vec![s("n2")]);
    assert_eq!(node.counter(), 1);
}

#[test]
fn retry_threshold_is_half_a_second() {
    assert_eq!(RETRY_MILLIS, 500);
}

#[test]
fn pending_table_is_walked_in_the_order_of_its_ids() {
    let mut node = node_with_neighbors(&["n2", "n3", "n4"]);
    for (k, v) in [10, 20, 30].iter().enumerate() {
        deliver(&mut node, from_client(Message::Broadcast { message: *v, msg_id: Some(k) }), 0);
    }
    for id in [7, 1, 4, 0, 8, 1] {
        let ack = Envelope::new("n2", "n1", Message::BroadcastOk { in_reply_to: Some(id) });
        assert_eq!(deliver(&mut node, ack, 1), vec![]);
    }
    let left: Vec<(usize, i32, String)> =
        node.pending_messages().into_iter().map(|p| (p.id, p.message, p.dest)).collect();
    assert_eq!(
        left,
        vec![(2, 10, s("n4")), (3, 20, s("n2")), (5, 20, s("n4")), (6, 30, s("n2"))]
    );
    let tick = Envelope::new("n1", "n1", Message::Tick {});
    let out = deliver(&mut node, tick, RETRY_MILLIS);
    assert_eq!(
        out,
        vec![gossip("n4", 10, 2), gossip("n2", 20, 3), gossip("n4", 20, 5), gossip("n2", 30, 6)]
    );
}
