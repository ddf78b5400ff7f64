use gossip_glomers::dissemination::{Broadcast, Message, RETRY_MILLIS};
use gossip_glomers::envelope::Envelope;

fn s(text: &str) -> String {
    text.to_string()
}

/// A line of nodes `n0 - n1 - ... `, each knowing its neighbours on both sides.
fn line(count: usize) -> Vec<Broadcast> {
    let mut topology = Vec::new();
    for k in 0..count {
        let mut neighbors = Vec::new();
        if k > 0 {
            neighbors.push(format!("n{}", k - 1));
        }
        if k + 1 < count {
            neighbors.push(format!("n{}", k + 1));
        }
        topology.push((format!("n{}", k), neighbors));
    }
    let mut nodes = Vec::new();
    for k in 0..count {
        let mut node = Broadcast::new();
        let id = format!("n{}", k);
        node.handle_message(
            Envelope::new("c0", &id, Message::Init { msg_id: None, node_id: id.clone() }),
            0,
        )
        .unwrap();
        node.handle_message(
            Envelope::new("c0", &id, Message::Topology { topology: topology.clone(), msg_id: None }),
            0,
        )
        .unwrap();
        nodes.push(node);
    }
    nodes
}

/// A transport that drops messages by a fixed pseudo-random pattern: of every `out_of`
/// messages it lets about one through.
fn lossy(out_of: u64) -> impl FnMut(u64) -> bool {
    let mut state: u64 = 0x2545_f491_4f6c_dd1d;
    move |_| {
        state = state.wrapping_mul(6364136223846793005).wrapping_add(1442695040888963407);
        (state >> 33) % out_of != 0
    }
}

fn index_of(id: &str) -> Option<usize> {
    id.strip_prefix('n').and_then(|k| k.parse().ok())
}

/// Delivers what is in flight, round after round, with one tick per node and round.
/// Of the messages between nodes, `lost` says which ones the transport drops.
fn run(
    nodes: &mut Vec<Broadcast>,
    mut in_flight: Vec<Envelope<Message>>,
    rounds: u64,
    mut lost: impl FnMut(u64) -> bool,
) {
    let mut sent: u64 = 0;
    for round in 1..=rounds {
        let now = round * RETRY_MILLIS;
        let mut next = Vec::new();
        for env in in_flight.drain(..) {
            let Some(k) = index_of(&env.dest) else { continue };
            sent += 1;
            if index_of(&env.src).is_some() && lost(sent) {
                continue;
            }
            assert!(nodes[k].accepts(&env));
            next.extend(nodes[k].handle_message(env, now).unwrap());
        }
        for node in nodes.iter_mut() {
            let id = node.node_id().clone();
            let tick = Envelope::new(&id, &id, Message::Tick {});
            next.extend(node.handle_message(tick, now).unwrap());
        }
        in_flight = next;
    }
}

#[test]
fn value_reaches_every_node_of_a_line() {
    let mut nodes = line(5);
    let start = Envelope::new("c1", "n2", Message::Broadcast { message: 42, msg_id: Some(1) });
    run(&mut nodes, vec![start], 12, |_| false);
    for node in &nodes {
        assert_eq!(node.messages(), vec![42]);
        assert!(node.pending_messages().is_empty());
    }
}

#[test]
fn value_reaches_every_node_though_messages_are_lost() {
    let mut nodes = line(4);
    let start = Envelope::new("c1", "n0", Message::Broadcast { message: 7, msg_id: Some(1) });
    // About two of every three messages between nodes are dropped.
    run(&mut nodes, vec![start], 400, lossy(3));
    for node in &nodes {
        assert_eq!(node.messages(), vec![7]);
        assert!(node.pending_messages().is_empty());
    }
}

#[test]
fn several_values_from_several_nodes_all_arrive() {
    let mut nodes = line(3);
    let starts = vec![
        Envelope::new("c1", "n0", Message::Broadcast { message: 1, msg_id: Some(1) }),
        Envelope::new("c2", "n2", Message::Broadcast { message: 2, msg_id: Some(1) }),
        Envelope::new("c3", "n1", Message::Broadcast { message: 1, msg_id: Some(2) }),
    ];
    run(&mut nodes, starts, 400, lossy(2));
    for node in &nodes {
        let mut held = node.messages();
        held.sort();
        assert_eq!(held, vec![1, 2]);
        assert!(node.pending_messages().is_empty());
    }
}

#[test]
fn send_to_a_silent_neighbor_is_repeated_for_ever() {
    let mut node = Broadcast::new();
    node.handle_message(
        Envelope::new("c1", "n1", Message::Init { msg_id: None, node_id: s("n1") }),
        0,
    )
    .unwrap();
    node.handle_message(
        Envelope::new(
            "c1",
            "n1",
            Message::Topology { topology: vec![(s("n1"), vec![s("gone")])], msg_id: None },
        ),
        0,
    )
    .unwrap();
    node.handle_message(
        Envelope::new("c1", "n1", Message::Broadcast { message: 3, msg_id: None }),
        0,
    )
    .unwrap();
    for round in 1..=50u64 {
        let out = node
            .handle_message(Envelope::new("n1", "n1", Message::Tick {}), round * RETRY_MILLIS)
            .unwrap();
        assert_eq!(
            out,
            vec![Envelope::new("n1", "gone", Message::Broadcast { message: 3, msg_id: Some(0) })]
        );
        assert_eq!(node.pending_messages()[0].time_sent, round * RETRY_MILLIS);
    }
    assert_eq!(node.pending_messages().len(), 1);
}
