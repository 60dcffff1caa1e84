//! The UDP sockets that processes hold: which ports are bound, where the last
//! datagram of each came from, and the bytes received and not yet read.

use vstd::prelude::*;

verus! {

/// What a process names one of its sockets by.
pub type UDPDescriptor = u64;

/// One bound UDP socket.
pub struct UdpSocket {
    /// The local port.
    pub port: u16,
    /// The address and port that the last datagram came from.
    pub from: Option<(u32, u16)>,
    /// The bytes received and not yet read, oldest first.
    pub buffer: Vec<u8>,
}

/// What is asked of the network stack when a process answers on a socket: a
/// datagram of `length` bytes from the local port to where the last one came
/// from.
#[derive(Clone, Copy, PartialEq, Eq, Debug, Structural)]
pub struct UdpSend {
    pub destination_ip: u32,
    pub destination_port: u16,
    pub source_port: u16,
    pub length: u64,
}

/// Some socket of the sequence is bound to `port`.
pub open spec fn is_bound(sockets: Seq<UdpSocket>, port: u16) -> bool {
    exists|i: int| 0 <= i < sockets.len() && (#[trigger] sockets[i]).port == port
}

/// The place of the socket bound to `port`.
pub open spec fn socket_place(sockets: Seq<UdpSocket>, port: u16) -> int {
    choose|i: int| 0 <= i < sockets.len() && (#[trigger] sockets[i]).port == port
}

/// No port is bound twice.
pub open spec fn ports_distinct(sockets: Seq<UdpSocket>) -> bool {
    forall|i: int, j: int|
        0 <= i < j < sockets.len() ==> (#[trigger] sockets[i]).port != (#[trigger] sockets[j]).port
}

/// With distinct ports, a port names one place.
pub proof fn lemma_socket_place(sockets: Seq<UdpSocket>, i: int)
    requires
        ports_distinct(sockets),
        0 <= i < sockets.len(),
    ensures
        is_bound(sockets, sockets[i].port),
        socket_place(sockets, sockets[i].port) == i,
{
    let j = socket_place(sockets, sockets[i].port);
    assert(sockets[j].port == sockets[i].port);
    if j < i {
        assert(sockets[j].port != sockets[i].port);
    } else if i < j {
        assert(sockets[i].port != sockets[j].port);
    }
}

/// The socket bound to `port`.
pub open spec fn socket_of(sockets: Seq<UdpSocket>, port: u16) -> UdpSocket {
    sockets[socket_place(sockets, port)]
}

/// Every socket of `after` is a socket of `before` and is as it was there:
/// bound to the same port, with the same origin of its last datagram and the
/// same unread bytes; and the sockets of `after` stand in the order in which
/// they stood in `before`.
pub open spec fn keeps_sockets(before: Seq<UdpSocket>, after: Seq<UdpSocket>) -> bool {
    &&& forall|port: u16| #[trigger]
        is_bound(after, port) ==> is_bound(before, port) && socket_of(after, port) == socket_of(
            before,
            port,
        )
    &&& forall|p: u16, q: u16|
        #![trigger is_bound(after, p), is_bound(after, q)]
        is_bound(after, p) && is_bound(after, q) ==> (socket_place(after, p) < socket_place(
            after,
            q,
        ) <==> socket_place(before, p) < socket_place(before, q))
}

/// Taking one socket out of the list keeps every other socket as it was and
/// where it stood among the others.
pub proof fn lemma_remove_keeps_sockets(before: Seq<UdpSocket>, i: int)
    requires
        ports_distinct(before),
        0 <= i < before.len(),
    ensures
        ports_distinct(before.remove(i)),
        keeps_sockets(before, before.remove(i)),
        !is_bound(before.remove(i), before[i].port),
        forall|other: u16|
            other != before[i].port ==> (is_bound(before.remove(i), other) <==> is_bound(
                before,
                other,
            )),
{
    let after = before.remove(i);
    let port = before[i].port;
    assert forall|a: int| 0 <= a < after.len() implies #[trigger] after[a] == before[if a < i {
        a
    } else {
        a + 1
    }] by {}
    assert forall|a: int, b: int| 0 <= a < b < after.len() implies (#[trigger] after[a]).port != (
    #[trigger] after[b]).port by {
        let a2 = if a < i { a } else { a + 1 };
        let b2 = if b < i { b } else { b + 1 };
        assert(before[a2].port != before[b2].port);
    }
    assert forall|other: u16| #[trigger] is_bound(after, other) implies is_bound(before, other)
        && other != port && socket_of(after, other) == socket_of(before, other) && socket_place(
        before,
        other,
    ) == (if socket_place(after, other) < i {
        socket_place(after, other)
    } else {
        socket_place(after, other) + 1
    }) by {
        let a = socket_place(after, other);
        let a2 = if a < i { a } else { a + 1 };
        assert(before[a2].port == other);
        lemma_socket_place(before, a2);
        lemma_socket_place(before, i);
    }
    assert forall|other: u16| other != port && is_bound(before, other) implies is_bound(
        after,
        other,
    ) by {
        let b = socket_place(before, other);
        let b2 = if b < i { b } else { b - 1 };
        assert(after[b2].port == other);
    }
}

/// Sockets that were kept twice over were kept.
pub proof fn lemma_keeps_sockets_twice(
    first: Seq<UdpSocket>,
    second: Seq<UdpSocket>,
    third: Seq<UdpSocket>,
)
    requires
        keeps_sockets(first, second),
        keeps_sockets(second, third),
    ensures
        keeps_sockets(first, third),
{
    assert forall|port: u16| #[trigger] is_bound(third, port) implies is_bound(first, port)
        && socket_of(third, port) == socket_of(first, port) by {
        assert(is_bound(second, port));
    }
    assert forall|p: u16, q: u16|
        #![trigger is_bound(third, p), is_bound(third, q)]
        is_bound(third, p) && is_bound(third, q) implies (socket_place(third, p) < socket_place(
        third,
        q,
    ) <==> socket_place(first, p) < socket_place(first, q)) by {
        assert(is_bound(second, p) && is_bound(second, q));
    }
}

/// All bound sockets of the system.
pub struct OpenUdpSockets {
    pub sockets: Vec<UdpSocket>,
}

impl OpenUdpSockets {
    /// The bound sockets.
    pub open spec fn view(&self) -> Seq<UdpSocket> {
        self.sockets@
    }

    /// No port is bound twice.
    pub open spec fn wf(&self) -> bool {
        ports_distinct(self@)
    }

    /// No socket at all.
    pub fn new() -> (sockets: Self)
        ensures
            sockets.wf(),
            sockets@.len() == 0,
    {
        OpenUdpSockets { sockets: Vec::new() }
    }

    /// The place of the socket bound to `port`.
    pub fn position(&self, port: u16) -> (place: Option<usize>)
        requires
            self.wf(),
        ensures
            place is Some <==> is_bound(self@, port),
            place matches Some(i) ==> i == socket_place(self@, port) && i < self@.len()
                && self@[i as int].port
                == port,
    {
        let mut i: usize = 0;
        while i < self.sockets.len()
            invariant
                self.wf(),
                i <= self@.len(),
                forall|k: int| 0 <= k < i ==> (#[trigger] self@[k]).port != port,
            decreases self@.len() - i,
        {
            if self.sockets[i].port == port {
                proof {
                    lemma_socket_place(self@, i as int);
                }
                return Some(i);
            }
            i = i + 1;
        }
        None
    }

    /// Whether `port` is bound.
    pub fn is_port_used(&self, port: u16) -> (used: bool)
        requires
            self.wf(),
        ensures
            used == is_bound(self@, port),
    {
        self.position(port).is_some()
    }

    /// Binds a new socket to `port`. A port that is bound already is refused,
    /// and nothing changes.
    pub fn try_get_socket(&mut self, port: u16) -> (bound: bool)
        requires
            old(self).wf(),
        ensures
            final(self).wf(),
            bound == !is_bound(old(self)@, port),
            !bound ==> *final(self) == *old(self),
            bound ==> final(self)@.len() == old(self)@.len() + 1 && final(self)@.drop_last()
                == old(self)@ && final(self)@.last().port == port
                    && final(self)@.last().from is None && final(self)@.last().buffer@.len() == 0,
    {
        if self.is_port_used(port) {
            return false;
        }
        self.sockets.push(UdpSocket { port, from: None, buffer: Vec::new() });
        proof {
            let after = self@;
            let before = old(self)@;
            assert(after.drop_last() =~= before);
            assert forall|i: int, j: int| 0 <= i < j < after.len()
                implies (#[trigger] after[i]).port
                != (#[trigger] after[j]).port by {
                if j < before.len() {
                    assert(before[i].port != before[j].port);
                } else {
                    assert(before[i].port != port);
                }
            }
        }
        true
    }

    /// Where the last datagram on the socket bound to `port` came from.
    pub fn get_from(&self, port: u16) -> (from: Option<(u32, u16)>)
        requires
            self.wf(),
        ensures
            from == if is_bound(self@, port) {
                self@[socket_place(self@, port)].from
            } else {
                None
            },
    {
        match self.position(port) {
            Some(i) => self.sockets[i].from,
            None => None,
        }
    }

    /// Hands a received datagram to the socket bound to `port`: its bytes go
    /// behind those not yet read, and its origin is recorded. Without such a
    /// socket the datagram is dropped.
    pub fn put_data(&mut self, port: u16, from_ip: u32, from_port: u16, data: &Vec<u8>) -> (taken:
        bool)
        requires
            old(self).wf(),
        ensures
            final(self).wf(),
            taken == is_bound(old(self)@, port),
            !taken ==> *final(self) == *old(self),
            taken ==> {
                let i = socket_place(old(self)@, port);
                &&& final(self)@.len() == old(self)@.len()
                &&& final(self)@[i].port == port
                &&& final(self)@[i].from == Some((from_ip, from_port))
                &&& final(self)@[i].buffer@ == old(self)@[i].buffer@ + data@
                &&& forall|j: int|
                    0 <= j < old(self)@.len() && j != i ==> final(self)@[j] == old(self)@[j]
            },
    {
        let i = match self.position(port) {
            Some(i) => i,
            None => {
                return false;
            },
        };
        let ghost before = self@;
        let socket = &mut self.sockets[i];
        socket.from = Some((from_ip, from_port));
        let mut k: usize = 0;
        while k < data.len()
            invariant
                k <= data@.len(),
                socket.port == port,
                socket.from == Some((from_ip, from_port)),
                socket.buffer@ == before[i as int].buffer@ + data@.subrange(0, k as int),
            decreases data@.len() - k,
        {
            socket.buffer.push(data[k]);
            k = k + 1;
            assert(socket.buffer@ =~= before[i as int].buffer@ + data@.subrange(0, k as int));
        }
        assert(data@.subrange(0, k as int) =~= data@);
        proof {
            let after = self@;
            assert forall|a: int, b: int| 0 <= a < b < after.len()
                implies (#[trigger] after[a]).port
                != (#[trigger] after[b]).port by {
                assert(before[a].port != before[b].port);
            }
        }
        true
    }

    /// Takes up to `limit` of the oldest unread bytes off the socket bound to
    /// `port`. Without such a socket there are none.
    pub fn get_data(&mut self, port: u16, limit: u64) -> (data: Vec<u8>)
        requires
            old(self).wf(),
        ensures
            final(self).wf(),
            final(self)@.len() == old(self)@.len(),
            if is_bound(old(self)@, port) {
                let i = socket_place(old(self)@, port);
                let unread = old(self)@[i].buffer@;
                let n = if unread.len() <= limit {
                    unread.len() as int
                } else {
                    limit as int
                };
                &&& data@ == unread.subrange(0, n)
                &&& final(self)@[i].buffer@ == unread.subrange(n, unread.len() as int)
                &&& final(self)@[i].port == port
                &&& final(self)@[i].from == old(self)@[i].from
                &&& forall|j: int|
                    0 <= j < old(self)@.len() && j != i ==> final(self)@[j] == old(self)@[j]
            } else {
                data@.len() == 0 && *final(self) == *old(self)
            },
    {
        let mut data: Vec<u8> = Vec::new();
        let i = match self.position(port) {
            Some(i) => i,
            None => {
                return data;
            },
        };
        let ghost before = self@;
        let ghost unread = before[i as int].buffer@;
        let socket = &mut self.sockets[i];
        let available: usize = socket.buffer.len();
        let n: usize = if available as u64 <= limit {
            available
        } else {
            limit as usize
        };
        let mut rest: Vec<u8> = Vec::new();
        let mut k: usize = 0;
        while k < available
            invariant
                k <= available,
                n <= available,
                available == unread.len(),
                socket.buffer@ == unread,
                data@ == unread.subrange(
                    0,
                    if k <= n {
                        k as int
                    } else {
                        n as int
                    },
                ),
                rest@ == unread.subrange(
                    n as int,
                    if k <= n {
                        n as int
                    } else {
                        k as int
                    },
                ),
            decreases available - k,
        {
            if k < n {
                data.push(socket.buffer[k]);
                assert(data@ =~= unread.subrange(0, k + 1));
                assert(rest@ =~= unread.subrange(n as int, n as int));
            } else {
                rest.push(socket.buffer[k]);
                assert(rest@ =~= unread.subrange(n as int, k + 1));
            }
            k = k + 1;
        }
        socket.buffer = rest;
        proof {
            let after = self@;
            assert forall|a: int, b: int| 0 <= a < b < after.len()
                implies (#[trigger] after[a]).port
                != (#[trigger] after[b]).port by {
                assert(before[a].port != before[b].port);
            }
        }
        data
    }

    /// Unbinds `port`: the socket bound to it leaves the list, and every other
    /// socket stays as it is and where it stands. Nothing changes where the
    /// port is not bound.
    pub fn close(&mut self, port: u16)
        requires
            old(self).wf(),
        ensures
            final(self).wf(),
            final(self)@ == if is_bound(old(self)@, port) {
                old(self)@.remove(socket_place(old(self)@, port))
            } else {
                old(self)@
            },
            !is_bound(final(self)@, port),
            forall|other: u16|
                other != port ==> (is_bound(final(self)@, other) <==> is_bound(old(self)@, other)),
            keeps_sockets(old(self)@, final(self)@),
    {
        match self.position(port) {
            Some(i) => {
                proof {
                    lemma_remove_keeps_sockets(self@, i as int);
                }
                self.sockets.remove(i);
            },
            None => {},
        }
    }
}

} // verus!
