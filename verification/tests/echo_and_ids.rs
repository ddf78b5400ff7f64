use gossip_glomers::echo::{Echo, Message as EchoMessage};
use gossip_glomers::envelope::{Envelope, HandleError};
use gossip_glomers::uid_generation::{Message as UidMessage, UID};

fn s(text: &str) -> String {
    text.to_string()
}

#[test]
fn echo_node_learns_its_id() {
    let mut node = Echo::new();
    assert_eq!(node.node_id(), None);
    let msg = Envelope::new("c1", "n1", EchoMessage::Init { msg_id: Some(1), node_id: s("n1") });
    let out = node.handle_message(msg).unwrap();
    assert_eq!(out, vec![Envelope::new("n1", "c1", EchoMessage::InitOk { in_reply_to: Some(1) })]);
    assert_eq!(node.node_id(), Some(&s("n1")));
    assert_eq!(Echo::default().node_id(), None);
}

#[test]
fn echo_sends_the_text_back() {
    let mut node = Echo::new();
    let msg = Envelope::new(
        "c3",
        "n2",
        EchoMessage::Echo { echo: s("Please echo 35"), msg_id: Some(12) },
    );
    let out = node.handle_message(msg).unwrap();
    assert_eq!(
        out,
        vec![Envelope::new(
            "n2",
            "c3",
            EchoMessage::EchoOk { echo: s("Please echo 35"), in_reply_to: Some(12) }
        )]
    );
    assert_eq!(node.node_id(), None);
    let bare = Envelope::new("c3", "n2", EchoMessage::Echo { echo: s(""), msg_id: None });
    assert_eq!(
        node.handle_message(bare).unwrap(),
        vec![Envelope::new("n2", "c3", EchoMessage::EchoOk { echo: s(""), in_reply_to: None })]
    );
}

#[test]
fn echo_refuses_answers() {
    let mut node = Echo::new();
    node.handle_message(Envelope::new(
        "c1",
        "n1",
        EchoMessage::Init { msg_id: None, node_id: s("n1") },
    ))
    .unwrap();
    for body in [
        EchoMessage::InitOk { in_reply_to: None },
        EchoMessage::EchoOk { echo: s("x"), in_reply_to: Some(2) },
    ] {
        let result = node.handle_message(Envelope::new("c1", "n1", body));
        assert_eq!(result, Err(HandleError::UnexpectedMessage));
    }
    assert_eq!(node.node_id(), Some(&s("n1")));
}

fn generate(node: &mut UID, msg_id: usize) -> String {
    let msg = Envelope::new("c1", "n1", UidMessage::Generate { msg_id });
    assert!(node.accepts(&msg));
    let mut out = node.handle_message(msg).unwrap();
    assert_eq!(out.len(), 1);
    let answer = out.remove(0);
    assert_eq!(answer.src, "n1");
    assert_eq!(answer.dest, "c1");
    match answer.body {
        UidMessage::GenerateOk { in_reply_to, id } => {
            assert_eq!(in_reply_to, Some(msg_id));
            id
        }
        other => panic!("not an id: {:?}", other),
    }
}

#[test]
fn ids_count_up_behind_the_node_id() {
    let mut node = UID::new();
    let init = Envelope::new("c1", "n1", UidMessage::Init { msg_id: Some(1), node_id: s("n3") });
    assert_eq!(
        node.handle_message(init).unwrap(),
        vec![Envelope::new("n1", "c1", UidMessage::InitOk { in_reply_to: Some(1) })]
    );
    assert_eq!(node.node_id(), "n3");
    assert_eq!(generate(&mut node, 2), "n3-0");
    assert_eq!(generate(&mut node, 3), "n3-1");
    for k in 2..9 {
        generate(&mut node, k);
    }
    assert_eq!(generate(&mut node, 10), "n3-9");
    assert_eq!(generate(&mut node, 11), "n3-10");
    for k in 11..99 {
        generate(&mut node, k);
    }
    assert_eq!(generate(&mut node, 4), "n3-99");
    assert_eq!(generate(&mut node, 5), "n3-100");
    assert_eq!(generate(&mut node, 6), "n3-101");
    assert_eq!(node.counter(), 102);
}

#[test]
fn ids_of_a_node_are_all_different() {
    let mut node = UID::default();
    node.handle_message(Envelope::new(
        "c1",
        "n1",
        UidMessage::Init { msg_id: None, node_id: s("n1") },
    ))
    .unwrap();
    let mut seen = std::collections::HashSet::new();
    for k in 0..1200 {
        let id = generate(&mut node, k);
        assert_eq!(id, format!("n1-{}", k));
        assert!(seen.insert(id));
    }
}

#[test]
fn id_before_init_has_an_empty_node_part() {
    let mut node = UID::new();
    assert_eq!(node.node_id(), "");
    assert_eq!(generate(&mut node, 1), "-0");
}

#[test]
fn id_node_refuses_answers() {
    let mut node = UID::new();
    for body in [
        UidMessage::InitOk { in_reply_to: Some(1) },
        UidMessage::GenerateOk { in_reply_to: None, id: s("n1-0") },
    ] {
        let msg = Envelope::new("c1", "n1", body);
        assert!(node.accepts(&msg));
        assert_eq!(node.handle_message(msg), Err(HandleError::UnexpectedMessage));
    }
    assert_eq!(node.counter(), 0);
}
