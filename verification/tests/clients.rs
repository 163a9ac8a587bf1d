use std::cell::RefCell;

use collascii::clients::{Clients, Delivery, RegistryError};
use collascii::network::Message;

/// A connection that keeps what is written to it, or refuses every write.
struct Sink {
    broken: bool,
    received: RefCell<Vec<u8>>,
}

impl Sink {
    fn new() -> Sink {
        Sink { broken: false, received: RefCell::new(Vec::new()) }
    }

    fn broken() -> Sink {
        Sink { broken: true, received: RefCell::new(Vec::new()) }
    }

    fn write(&self, bytes: &[u8]) -> bool {
        if self.broken {
            return false;
        }
        self.received.borrow_mut().extend_from_slice(bytes);
        true
    }
}

/// Writes to one recipient after the other, as a server does.
fn carry_out(clients: &Clients<Sink>, mut delivery: Delivery) -> Vec<u8> {
    while let Some(uid) = delivery.recipient() {
        let delivered = match clients.get(uid) {
            Some(sink) => sink.write(delivery.wire()),
            None => false,
        };
        delivery.record(delivered);
    }
    delivery.failed().to_vec()
}

fn recipients(mut delivery: Delivery) -> Vec<u8> {
    let mut uids = Vec::new();
    while let Some(uid) = delivery.recipient() {
        uids.push(uid);
        delivery.record(true);
    }
    uids.sort();
    uids
}

#[test]
fn new_registry_is_empty() {
    let clients: Clients<&str> = Clients::new();
    assert_eq!(0, clients.len());
    assert!(!clients.contains(1));
    assert_eq!(None, clients.get(1));
}

#[test]
fn uids_count_up_from_one() {
    let mut clients = Clients::new();
    for n in 1..=20u8 {
        assert_eq!(Ok(n), clients.add(format!("client {}", n)));
        assert_eq!(n as usize, clients.len());
    }
    assert_eq!(Some(&String::from("client 7")), clients.get(7));
    assert!(!clients.contains(0));
    assert!(!clients.contains(21));
}

#[test]
fn uid_after_remove_is_above_the_highest() {
    let mut clients = Clients::new();
    assert_eq!(Ok(1), clients.add("a"));
    assert_eq!(Ok(2), clients.add("b"));
    assert_eq!(Ok(3), clients.add("c"));
    // a uid below the highest is not given out again
    assert_eq!(Some("a"), clients.remove(1));
    assert_eq!(Ok(4), clients.add("d"));
    assert_eq!(Some("b"), clients.remove(2));
    assert_eq!(Ok(5), clients.add("e"));
    // the highest uid is free again once its client has left
    assert_eq!(Some("e"), clients.remove(5));
    assert_eq!(Ok(5), clients.add("f"));
    assert_eq!(Some("f"), clients.remove(5));
    assert_eq!(Some("d"), clients.remove(4));
    assert_eq!(Ok(4), clients.add("g"));
    assert_eq!(2, clients.len());
}

#[test]
fn first_uid_is_one_again_once_all_have_left() {
    let mut clients = Clients::new();
    assert_eq!(Ok(1), clients.add("a"));
    assert_eq!(Some("a"), clients.remove(1));
    assert_eq!(Ok(1), clients.add("b"));
}

#[test]
fn remove_of_absent_uid_is_no_error() {
    let mut clients = Clients::new();
    assert_eq!(None, clients.remove(3));
    assert_eq!(Ok(1), clients.add("a"));
    assert_eq!(Some("a"), clients.remove(1));
    assert_eq!(None, clients.remove(1));
    assert_eq!(0, clients.len());
}

#[test]
fn uid_space_runs_out() {
    let mut clients = Clients::new();
    for n in 1..=255u8 {
        assert_eq!(Ok(n), clients.add(n));
    }
    assert_eq!(Err(RegistryError::UidSpaceExhausted), clients.add(0));
    assert_eq!(255, clients.len());
    // still turned away while the highest uid is taken
    assert_eq!(Some(17), clients.remove(17));
    assert_eq!(Err(RegistryError::UidSpaceExhausted), clients.add(0));
    assert!(!clients.contains(17));
    assert_eq!(Some(255), clients.remove(255));
    assert_eq!(Ok(255), clients.add(1));
}

#[test]
fn send_names_all_but_the_sender() {
    let mut clients = Clients::new();
    for _ in 0..5 {
        clients.add(()).unwrap();
    }
    let message = Message::SetChar { x: 2, y: 3, c: 'a' };
    let delivery = clients.send(3, &message);
    assert_eq!(b"s 3 2 a\n", delivery.wire());
    assert_eq!(vec![1, 2, 4, 5], recipients(delivery));
    // a sender that is not registered is left out all the same
    assert_eq!(vec![1, 2, 3, 4, 5], recipients(clients.send(9, &message)));
}

#[test]
fn broadcast_names_all() {
    let mut clients = Clients::new();
    for _ in 0..4 {
        clients.add(()).unwrap();
    }
    clients.remove(2);
    let delivery = clients.broadcast(&Message::Quit);
    assert_eq!(b"q\n", delivery.wire());
    assert_eq!(vec![1, 3, 4], recipients(delivery));
    let nobody: Clients<()> = Clients::new();
    assert_eq!(None, nobody.broadcast(&Message::Quit).recipient());
}

#[test]
fn send_reaches_every_other_client() {
    let mut clients = Clients::new();
    for _ in 0..4 {
        clients.add(Sink::new()).unwrap();
    }
    let message = Message::SetChar { x: 1, y: 0, c: 'Z' };
    let failed = carry_out(&clients, clients.send(2, &message));
    assert!(failed.is_empty());
    for uid in [1u8, 3, 4] {
        assert_eq!(b"s 0 1 Z\n".to_vec(), *clients.get(uid).unwrap().received.borrow());
    }
    assert!(clients.get(2).unwrap().received.borrow().is_empty());
}

#[test]
fn failed_write_does_not_stop_the_others() {
    let mut clients = Clients::new();
    clients.add(Sink::new()).unwrap();
    clients.add(Sink::broken()).unwrap();
    clients.add(Sink::new()).unwrap();
    clients.add(Sink::broken()).unwrap();
    clients.add(Sink::new()).unwrap();
    let message = Message::SetChar { x: 2, y: 3, c: 'a' };
    let mut failed = carry_out(&clients, clients.send(1, &message));
    failed.sort();
    assert_eq!(vec![2, 4], failed);
    for uid in [3u8, 5] {
        assert_eq!(b"s 3 2 a\n".to_vec(), *clients.get(uid).unwrap().received.borrow());
    }
    assert!(clients.get(1).unwrap().received.borrow().is_empty());
}

#[test]
fn delivery_takes_one_recipient_at_a_time() {
    let mut clients = Clients::new();
    clients.add(()).unwrap();
    clients.add(()).unwrap();
    clients.add(()).unwrap();
    let mut delivery = clients.send(1, &Message::Quit);
    let first = delivery.recipient().unwrap();
    // asking again does not move on
    assert_eq!(Some(first), delivery.recipient());
    delivery.record(false);
    let second = delivery.recipient().unwrap();
    assert_ne!(first, second);
    assert_eq!(&[first], delivery.failed());
    delivery.record(true);
    assert_eq!(None, delivery.recipient());
    // nothing is left to take note of
    delivery.record(false);
    assert_eq!(None, delivery.recipient());
    assert_eq!(&[first], delivery.failed());
    let mut both = vec![first, second];
    both.sort();
    assert_eq!(vec![2, 3], both);
}
