use gossip_glomers::dissemination::PendingMessage;
use gossip_glomers::pending_table::PendingTable;

fn send(id: usize, message: i32, dest: &str) -> PendingMessage {
    PendingMessage { id, message, time_sent: 0, dest: dest.to_string() }
}

fn filled() -> PendingTable {
    let mut table = PendingTable::new();
    table.push(send(2, 7, "a"));
    table.push(send(5, 8, "b"));
    table.push(send(9, 9, "c"));
    table
}

#[test]
fn new_table_is_empty() {
    let table = PendingTable::new();
    assert_eq!(table.len(), 0);
    assert!(table.to_vec().is_empty());
    assert_eq!(table.position(0), None);
}

#[test]
fn pushed_sends_are_found_by_id_and_by_place() {
    let table = filled();
    assert_eq!(table.len(), 3);
    assert_eq!(table.position(2), Some(0));
    assert_eq!(table.position(5), Some(1));
    assert_eq!(table.position(9), Some(2));
    assert_eq!(table.position(3), None);
    assert_eq!(table.get(1), &send(5, 8, "b"));
    assert_eq!(table.to_vec(), vec![send(2, 7, "a"), send(5, 8, "b"), send(9, 9, "c")]);
}

#[test]
fn removing_keeps_the_others_in_order() {
    let mut table = filled();
    table.remove_at(1);
    assert_eq!(table.to_vec(), vec![send(2, 7, "a"), send(9, 9, "c")]);
    assert_eq!(table.position(5), None);
    assert_eq!(table.position(9), Some(1));
    table.remove_at(0);
    table.remove_at(0);
    assert_eq!(table.len(), 0);
}

#[test]
fn stamping_changes_only_the_time_of_one_send() {
    let mut table = filled();
    table.stamp(2, 77);
    let mut stamped = send(9, 9, "c");
    stamped.time_sent = 77;
    assert_eq!(table.to_vec(), vec![send(2, 7, "a"), send(5, 8, "b"), stamped]);
}
