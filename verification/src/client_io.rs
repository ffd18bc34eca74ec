//! The table of connections that one I/O worker serves, under poll tokens.
use vstd::prelude::*;
use std::collections::HashMap;
use crate::network::Message;
use crate::framing::{drained_rest, drained_payloads, accepted_prefix, receive_end, received_as,
    receive_frames, ReceiveEnd};

verus! {

broadcast use vstd::std_specs::hash::group_hash_axioms;

/// What an I/O worker knows of one connected peer: its address and the bytes
/// received from it that do not make a whole frame yet.
pub struct Connection {
    pub addr: String,
    pub buffer: Vec<u8>,
}

/// The value of a [`Connection`].
pub struct ConnectionView {
    pub addr: Seq<char>,
    pub buffer: Seq<u8>,
}

impl View for Connection {
    type V = ConnectionView;

    open spec fn view(&self) -> ConnectionView {
        ConnectionView { addr: self.addr@, buffer: self.buffer@ }
    }
}

/// The connections of one I/O worker, each under the token that its poll
/// registration carries, and the count from which the next token is taken.
/// Closing a connection lowers the count again, so a later connection may
/// take the token of one still open and replace it.
pub struct ClientIo {
    clients: HashMap<usize, Connection>,
    current_client_count: usize,
}

/// Every table keeps at most as many connections as its count: a
/// connection is dropped only while open, so lowering the count never wraps.
pub open spec fn count_covers(v: ClientIoView) -> bool {
    v.connections.dom().len() <= v.client_count
}

/// The value of a [`ClientIo`].
pub struct ClientIoView {
    pub connections: Map<usize, ConnectionView>,
    pub client_count: nat,
}

impl View for ClientIo {
    type V = ClientIoView;

    closed spec fn view(&self) -> ClientIoView {
        ClientIoView {
            connections: self.clients@.map_values(|c: Connection| c@),
            client_count: self.current_client_count as nat,
        }
    }
}

impl ClientIo {
    /// No connections, count zero.
    pub fn new() -> (io: ClientIo)
        ensures
            io@.connections == Map::<usize, ConnectionView>::empty(),
            io@.client_count == 0,
            count_covers(io@),
    {
        let io = ClientIo { clients: HashMap::new(), current_client_count: 0 };
        assert(io@.connections =~= Map::<usize, ConnectionView>::empty());
        io
    }

    /// Registers a new peer at `addr` under the token equal to the count, and
    /// raises the count.
    pub fn add_client(&mut self, addr: String) -> (token: usize)
        requires
            old(self)@.client_count < usize::MAX,
        ensures
            count_covers(old(self)@) ==> count_covers(final(self)@),
            token == old(self)@.client_count,
            final(self)@.client_count == old(self)@.client_count + 1,
            final(self)@.connections == old(self)@.connections.insert(
                token,
                ConnectionView { addr: addr@, buffer: Seq::empty() },
            ),
    {
        let token = self.current_client_count;
        self.current_client_count = self.current_client_count + 1;
        let conn = Connection { addr, buffer: Vec::new() };
        let ghost before = self.clients@;
        proof {
            assert(self.clients@.dom().finite());
            assert(old(self)@.connections.dom() =~= before.dom());
        }
        let _ = self.clients.insert(token, conn);
        proof {
            assert(self.clients@ == before.insert(token, conn));
            assert(self@.connections.dom() =~= self.clients@.dom());
            if before.dom().contains(token) {
                assert(self.clients@.dom() =~= before.dom());
            } else {
                assert(self.clients@.dom() =~= before.dom().insert(token));
            }
        }
        assert(self@.connections =~= old(self)@.connections.insert(
            token,
            ConnectionView { addr: addr@, buffer: Seq::empty() },
        ));
        token
    }

    /// The count from which the next token is taken.
    pub fn client_count(&self) -> (n: usize)
        ensures
            n == self@.client_count,
    {
        self.current_client_count
    }

    /// The address of the peer under `token`, if there is one.
    pub fn addr_of(&self, token: usize) -> (addr: Option<String>)
        ensures
            match addr {
                Some(a) => self@.connections.contains_key(token) && a@ == self@.connections[token].addr,
                None => !self@.connections.contains_key(token),
            },
    {
        match self.clients.get(&token) {
            Some(conn) => Some(conn.addr.clone()),
            None => None,
        }
    }

    /// Drops the connection under `token` and lowers the count.
    pub fn remove_client(&mut self, token: usize)
        requires
            old(self)@.connections.contains_key(token),
            count_covers(old(self)@),
        ensures
            final(self)@.connections == old(self)@.connections.remove(token),
            final(self)@.client_count == old(self)@.client_count - 1,
            count_covers(final(self)@),
    {
        let ghost before = self.clients@;
        proof {
            assert(self.clients@.dom().finite());
            assert(old(self)@.connections.dom() =~= before.dom());
            assert(before.dom().contains(token));
            assert(before.dom().len() >= 1);
        }
        let _ = self.clients.remove(&token);
        proof {
            assert(self.clients@ == before.remove(token));
            assert(self.clients@.dom() =~= before.dom().remove(token));
            assert(self@.connections.dom() =~= self.clients@.dom());
        }
        self.current_client_count = self.current_client_count - 1;
        assert(self@.connections =~= old(self)@.connections.remove(token));
    }

    /// Appends `bytes`, just read from the peer under `token`, to its buffer
    /// and runs one pass of the receive loop over it (see
    /// [`receive_frames`]): the messages that the pass delivers, addressed
    /// to `local_addr` from the peer, and how the pass ends.
    pub fn receive(&mut self, token: usize, bytes: &[u8], local_addr: &String) -> (res: (Vec<Message>, ReceiveEnd))
        requires
            old(self)@.connections.contains_key(token),
        ensures
            ({
                let conn = old(self)@.connections[token];
                let buf = conn.buffer + bytes@;
                &&& final(self)@.client_count == old(self)@.client_count
                &&& final(self)@.connections == old(self)@.connections.insert(
                    token,
                    ConnectionView { addr: conn.addr, buffer: drained_rest(buf) },
                )
                &&& res.0.len() == accepted_prefix(drained_payloads(buf))
                &&& forall|i: int| 0 <= i < res.0.len() ==> received_as(#[trigger] res.0@[i],
                    drained_payloads(buf)[i], local_addr@, conn.addr)
                &&& res.1 == receive_end(buf)
            }),
            count_covers(old(self)@) ==> count_covers(final(self)@),
    {
        let ghost before = self.clients@;
        proof {
            assert(self.clients@.dom().finite());
            assert(old(self)@.connections.dom() =~= before.dom());
        }
        let removed = self.clients.remove(&token);
        match removed {
            Some(conn) => {
                assert(conn == before[token]);
                assert(self.clients@ == before.remove(token));
                let mut conn = conn;
                let mut i: usize = 0;
                let ghost start = conn.buffer@;
                let ghost addr0 = conn.addr@;
                while i < bytes.len()
                    invariant
                        i <= bytes.len(),
                        conn.addr@ == addr0,
                        conn.buffer@ == start + bytes@.subrange(0, i as int),
                    decreases bytes.len() - i,
                {
                    conn.buffer.push(bytes[i]);
                    i = i + 1;
                    assert(bytes@.subrange(0, i as int) == bytes@.subrange(0, i - 1) + seq![bytes@[i - 1]]);
                }
                assert(bytes@.subrange(0, bytes@.len() as int) == bytes@);
                let res = receive_frames(&mut conn.buffer, local_addr, &conn.addr);
                assert(conn.buffer@ == drained_rest(before[token].buffer@ + bytes@));
                let _ = self.clients.insert(token, conn);
                proof {
                    assert(self.clients@.dom() =~= before.dom());
                    assert(self@.connections.dom() =~= self.clients@.dom());
                    assert(old(self)@.connections[token] == before[token]@);
                    assert(self.clients@[token]@ == ConnectionView {
                        addr: old(self)@.connections[token].addr,
                        buffer: drained_rest(old(self)@.connections[token].buffer + bytes@),
                    });
                }
                assert(self@.connections =~= old(self)@.connections.insert(
                    token,
                    ConnectionView {
                        addr: old(self)@.connections[token].addr,
                        buffer: drained_rest(old(self)@.connections[token].buffer + bytes@),
                    },
                ));
                res
            },
            None => {
                proof {
                    assert(false);
                }
                (Vec::new(), ReceiveEnd::Drained)
            },
        }
    }
}

} // verus!
