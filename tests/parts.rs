use raft_mq::address::Address;
use raft_mq::hello::{hello, HelloRequest};
use raft_mq::log::is_up_to_date;
use raft_mq::message_queue::{MessageQueue, Response};

#[test]
fn address_round_trip() {
    let a = Address::from_string("127.0.0.1:8080".to_string());
    assert_eq!(a.ip(), "127.0.0.1");
    assert_eq!(*a.port(), 8080);
    assert_eq!(a.to_string(), "127.0.0.1:8080");
}

#[test]
fn address_setters() {
    let mut a = Address::new("10.0.0.1".to_string(), 0);
    assert_eq!(a.to_string(), "10.0.0.1:0");
    a.set_ip("host".to_string());
    a.set_port(65535);
    assert_eq!(a.to_string(), "host:65535");
}

#[test]
fn address_port_ends_at_next_colon() {
    let a = Address::try_from_string(&"h:12:x".to_string()).unwrap();
    assert_eq!(a.ip(), "h");
    assert_eq!(*a.port(), 12);
}

#[test]
fn bad_addresses_are_rejected() {
    assert!(Address::try_from_string(&"localhost".to_string()).is_none());
    assert!(Address::try_from_string(&"h:".to_string()).is_none());
    assert!(Address::try_from_string(&"h:65536".to_string()).is_none());
    assert!(Address::try_from_string(&"h:80a".to_string()).is_none());
    assert!(Address::try_from_string(&"h:99999999999".to_string()).is_none());
}

#[test]
fn queue_is_fifo() {
    let mut q = MessageQueue::new();
    assert!(q.is_empty());
    assert_eq!(q.push("a".to_string()), Response::Success);
    assert_eq!(q.push("b".to_string()), Response::Success);
    assert_eq!(q.len(), 2);
    assert_eq!(q.pop(), Ok("a".to_string()));
    assert_eq!(q.pop(), Ok("b".to_string()));
    assert_eq!(q.pop(), Err(Response::Failure));
    assert!(q.is_empty());
}

#[test]
fn up_to_date_rule() {
    assert!(is_up_to_date(2, 1, 1, 9));
    assert!(is_up_to_date(1, 9, 1, 9));
    assert!(!is_up_to_date(1, 8, 1, 9));
    assert!(!is_up_to_date(0, 99, 1, 0));
}

#[test]
fn port_may_carry_a_plus_sign() {
    let a = Address::from_string("h:+80".to_string());
    assert_eq!(a.ip(), "h");
    assert_eq!(*a.port(), 80);
    assert!(Address::try_from_string(&"h:+".to_string()).is_none());
    assert!(Address::try_from_string(&"h:++1".to_string()).is_none());
}

#[test]
fn hello_greets() {
    let r = hello(&HelloRequest { message: "raft".to_string() });
    assert_eq!(r.message, "Hello, raft!");
}
