use gossip_glomers::delivered::DeliveredSet;
use gossip_glomers::envelope::Envelope;

#[test]
fn new_set_is_empty() {
    let set = DeliveredSet::new();
    assert_eq!(set.len(), 0);
    assert!(set.values().is_empty());
    assert!(!set.contains(0));
}

#[test]
fn insert_tells_whether_the_value_is_new() {
    let mut set = DeliveredSet::new();
    assert!(set.insert(4));
    assert!(!set.insert(4));
    assert!(set.insert(-4));
    assert!(!set.insert(4));
    assert_eq!(set.len(), 2);
    assert!(set.contains(4));
    assert!(set.contains(-4));
    assert!(!set.contains(5));
}

#[test]
fn values_come_in_order_of_first_arrival() {
    let mut set = DeliveredSet::new();
    for v in [3, 1, 3, 2, 1, i32::MAX, i32::MIN, 2] {
        set.insert(v);
    }
    assert_eq!(set.values(), vec![3, 1, 2, i32::MAX, i32::MIN]);
    assert_eq!(set.len(), 5);
}

#[test]
fn set_only_grows() {
    let mut set = DeliveredSet::new();
    let mut before = 0;
    for v in 0..200 {
        set.insert(v % 50);
        assert!(set.len() >= before);
        before = set.len();
        assert!(set.contains(v % 50));
    }
    assert_eq!(set.len(), 50);
}

#[test]
fn envelope_new_copies_its_arguments() {
    let env = Envelope::new("from", "to", 7u8);
    assert_eq!(env.src, "from");
    assert_eq!(env.dest, "to");
    assert_eq!(env.body, 7);
    let back = env.reply(String::from("body"));
    assert_eq!(back, Envelope { src: String::from("to"), dest: String::from("from"), body: String::from("body") });
}
