use zerocopy_kv::buffer::PacketBuffer;
use zerocopy_kv::transport::{Endpoint, Ipv4, Transport};
use std::cell::RefCell;
use std::rc::Rc;

fn ip(a: u8, b: u8, c: u8, d: u8) -> Ipv4 {
    Ipv4 { a, b, c, d }
}

#[test]
fn bound_socket_receives_and_routes() {
    let mut t = Transport::new();
    let seen: Rc<RefCell<Vec<(Vec<u8>, Ipv4, u16)>>> = Rc::new(RefCell::new(Vec::new()));
    let log = seen.clone();
    let sock = t.bind(ip(10, 0, 0, 1), 6379, move |pkt: PacketBuffer, from: Ipv4, port: u16| {
        let bytes = (0..pkt.capacity()).map(|i| pkt.byte_at(i)).collect();
        log.borrow_mut().push((bytes, from, port));
    });
    assert_eq!(sock.local(), Endpoint { addr: ip(10, 0, 0, 1), port: 6379 });
    let other = t.bind(ip(10, 0, 0, 1), 11211, |_p: PacketBuffer, _a: Ipv4, _n: u16| {});
    assert_eq!(other.local().port, 11211);
    assert_eq!(t.route(Endpoint { addr: ip(10, 0, 0, 1), port: 6379 }), Some(0));
    assert_eq!(t.route(Endpoint { addr: ip(10, 0, 0, 1), port: 11211 }), Some(1));
    assert_eq!(t.route(Endpoint { addr: ip(10, 0, 0, 2), port: 6379 }), None);
    sock.deliver(PacketBuffer::from_raw(vec![7, 7]), Endpoint { addr: ip(192, 168, 1, 9), port: 40000 });
    assert_eq!(seen.borrow().as_slice(), &[(vec![7, 7], ip(192, 168, 1, 9), 40000)]);
}

#[test]
fn sends_queue_in_order_and_drain() {
    let mut t = Transport::new();
    let a = PacketBuffer::from_raw(vec![1]);
    let b = PacketBuffer::from_raw(vec![2, 2]);
    t.send(&a, &ip(1, 2, 3, 4), 53);
    t.send(&b, &ip(5, 6, 7, 8), 123);
    assert_eq!(a.handle_count(), 2);
    let out = t.take_outbound();
    assert_eq!(out.len(), 2);
    assert_eq!(out[0].to, Endpoint { addr: ip(1, 2, 3, 4), port: 53 });
    assert_eq!(out[0].pkt.byte_at(0), 1);
    assert_eq!(out[1].to.port, 123);
    assert_eq!(out[1].pkt.capacity(), 2);
    assert!(t.take_outbound().is_empty());
    drop(out);
    assert_eq!(a.handle_count(), 1);
}
