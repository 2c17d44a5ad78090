//! The edge towards the datagram transport: which local endpoints are bound
//! to which handlers, and which packets wait to be sent. Moving bytes on
//! the wire is left to the code that drives the transport.
use crate::buffer::PacketBuffer;
use std::sync::Arc;
use vstd::prelude::*;

verus! {

/// An IPv4 address, as its four octets in network order.
#[derive(Clone, Copy, Debug, PartialEq, Eq, Structural)]
pub struct Ipv4 {
    pub a: u8,
    pub b: u8,
    pub c: u8,
    pub d: u8,
}

/// An address and a port.
#[derive(Clone, Copy, Debug, PartialEq, Eq, Structural)]
pub struct Endpoint {
    pub addr: Ipv4,
    pub port: u16,
}

/// A bound socket: its local endpoint and the handler that each inbound
/// packet is handed to, with the sender's address and port.
pub struct UdpSocket<F> {
    local: Endpoint,
    read_cb: F,
}

impl<F: Fn(PacketBuffer, Ipv4, u16)> UdpSocket<F> {
    pub closed spec fn spec_local(&self) -> Endpoint {
        self.local
    }

    pub closed spec fn handler(&self) -> F {
        self.read_cb
    }

    pub fn local(&self) -> (r: Endpoint)
        ensures
            r == self.spec_local(),
    {
        self.local
    }

    /// Hands an inbound packet from `from` to the socket's handler.
    pub fn deliver(&self, pkt: PacketBuffer, from: Endpoint)
        requires
            self.handler().requires((pkt, from.addr, from.port)),
    {
        (self.read_cb)(pkt, from.addr, from.port);
    }
}

/// A packet waiting to be sent, and where to.
pub struct Datagram {
    pub pkt: PacketBuffer,
    pub to: Endpoint,
}

/// What the transport is asked to do: the endpoints bound so far, in order,
/// and the packets queued for sending, oldest first.
pub struct Transport {
    bound: Vec<Endpoint>,
    outbox: Vec<Datagram>,
}

/// The bytes and destination of each queued packet.
pub open spec fn datagrams(d: Seq<Datagram>) -> Seq<(Seq<u8>, Endpoint)> {
    d.map_values(|g: Datagram| (g.pkt@, g.to))
}

impl Transport {
    pub closed spec fn spec_bound(&self) -> Seq<Endpoint> {
        self.bound@
    }

    pub closed spec fn spec_outbound(&self) -> Seq<(Seq<u8>, Endpoint)> {
        datagrams(self.outbox@)
    }

    pub fn new() -> (r: Transport)
        ensures
            r.spec_bound() == Seq::<Endpoint>::empty(),
            r.spec_outbound() == Seq::<(Seq<u8>, Endpoint)>::empty(),
    {
        let r = Transport { bound: Vec::new(), outbox: Vec::new() };
        assert(datagrams(r.outbox@) =~= Seq::<(Seq<u8>, Endpoint)>::empty());
        r
    }

    /// Binds `addr:port` to `read_cb` and returns the socket.
    pub fn bind<F: Fn(PacketBuffer, Ipv4, u16)>(&mut self, addr: Ipv4, port: u16, read_cb: F) -> (r:
        Arc<UdpSocket<F>>)
        ensures
            r.spec_local() == (Endpoint { addr, port }),
            r.handler() == read_cb,
            final(self).spec_bound() == old(self).spec_bound().push(Endpoint { addr, port }),
            final(self).spec_outbound() == old(self).spec_outbound(),
    {
        let local = Endpoint { addr, port };
        self.bound.push(local);
        Arc::new(UdpSocket { local, read_cb })
    }

    /// Queues a share of `pkt` for sending to `addr:port`.
    pub fn send(&mut self, pkt: &PacketBuffer, addr: &Ipv4, port: u16)
        ensures
            final(self).spec_outbound() == old(self).spec_outbound().push(
                (pkt@, Endpoint { addr: *addr, port }),
            ),
            final(self).spec_bound() == old(self).spec_bound(),
    {
        let ghost before = self.outbox@;
        self.outbox.push(Datagram { pkt: pkt.duplicate(), to: Endpoint { addr: *addr, port } });
        assert(datagrams(self.outbox@) =~= datagrams(before).push((pkt@, Endpoint { addr: *addr, port })));
    }

    /// The position among the bound endpoints of the first one equal to
    /// `to`, where an inbound packet for `to` goes.
    pub fn route(&self, to: Endpoint) -> (r: Option<usize>)
        ensures
            r is None <==> forall|i: int| 0 <= i < self.spec_bound().len() ==> self.spec_bound()[i] != to,
            r matches Some(i) ==> i < self.spec_bound().len() && self.spec_bound()[i as int] == to
                && forall|j: int| 0 <= j < i ==> self.spec_bound()[j] != to,
    {
        let mut i: usize = 0;
        while i < self.bound.len()
            invariant
                i <= self.bound@.len(),
                forall|j: int| 0 <= j < i ==> self.bound@[j] != to,
            decreases self.bound@.len() - i,
        {
            if self.bound[i] == to {
                assert(self.spec_bound()[i as int] == to);
                return Some(i);
            }
            i = i + 1;
        }
        None
    }

    /// Hands every queued packet over for sending, oldest first, and empties
    /// the queue.
    pub fn take_outbound(&mut self) -> (r: Vec<Datagram>)
        ensures
            datagrams(r@) == old(self).spec_outbound(),
            final(self).spec_outbound() == Seq::<(Seq<u8>, Endpoint)>::empty(),
            final(self).spec_bound() == old(self).spec_bound(),
    {
        let mut r: Vec<Datagram> = Vec::new();
        core::mem::swap(&mut r, &mut self.outbox);
        assert(datagrams(self.outbox@) =~= Seq::<(Seq<u8>, Endpoint)>::empty());
        r
    }
}

} // verus!
