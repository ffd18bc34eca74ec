//! How the listening worker spreads connections over I/O workers and routes
//! outgoing messages to them.
use vstd::prelude::*;
use crate::network::{Message, MessageOptions};

verus! {

/// How many connections the listening worker hands to its first I/O worker
/// before it starts a new I/O worker for each further connection.
pub const MAX_CLIENTS_THREAD: u8 = 20;

/// The listening worker's bookkeeping: how many connections it has handed
/// out, how many extra I/O workers it has started, and which I/O worker
/// serves each peer address. Worker 0 is the one started first; worker `n`
/// is the `n`-th one started later.
pub struct NetworkWorker {
    current_connection_count: u32,
    thread_count: u32,
    client_map: Vec<(String, u32)>,
    map_view: Ghost<Map<Seq<char>, u32>>,
    handed: Ghost<Seq<u32>>,
}

/// The value of a [`NetworkWorker`].
pub struct NetworkWorkerView {
    pub connection_count: nat,
    pub thread_count: nat,
    pub client_map: Map<Seq<char>, u32>,
    /// The worker that each connection was handed to, in the order the
    /// connections came.
    pub handed: Seq<u32>,
}

/// How many of the connections in `handed` went to worker `w`.
pub open spec fn handed_to(handed: Seq<u32>, w: u32) -> nat
    decreases handed.len(),
{
    if handed.len() == 0 {
        0
    } else {
        handed_to(handed.drop_last(), w) + if handed.last() == w { 1nat } else { 0nat }
    }
}

/// The smaller of `a` and `b`.
pub open spec fn min_nat(a: nat, b: nat) -> nat {
    if a <= b { a } else { b }
}

/// The number of extra I/O workers after `connections` connections: one for
/// each connection from the `MAX_CLIENTS_THREAD + 1`-th on, since the count
/// of connections is never reset.
pub open spec fn workers_started(connections: nat) -> nat {
    if connections >= MAX_CLIENTS_THREAD {
        (connections - MAX_CLIENTS_THREAD) as nat
    } else {
        0
    }
}

/// Where the listening worker sends an outgoing message.
#[derive(Clone, Copy, Debug, PartialEq, Eq, Structural)]
pub enum Route {
    /// A request to shut the network side down, which it cannot do yet.
    Shutdown,
    /// To the I/O worker with this number.
    Worker(u32),
    /// To nobody: no connection has the recipient's address.
    UnknownRecipient,
}

impl View for NetworkWorker {
    type V = NetworkWorkerView;

    closed spec fn view(&self) -> NetworkWorkerView {
        NetworkWorkerView {
            connection_count: self.current_connection_count as nat,
            thread_count: self.thread_count as nat,
            client_map: self.map_view@,
            handed: self.handed@,
        }
    }
}

proof fn lemma_handed_to(handed: Seq<u32>, w: u32)
    requires
        forall|i: int| 0 <= i < handed.len() ==> #[trigger] handed[i] == workers_started((i + 1) as nat),
    ensures
        handed_to(handed, w) == (if w == 0 {
            min_nat(handed.len(), MAX_CLIENTS_THREAD as nat)
        } else if w + 19 < handed.len() {
            1nat
        } else {
            0nat
        }),
    decreases handed.len(),
{
    if handed.len() > 0 {
        let prev = handed.drop_last();
        assert forall|i: int| 0 <= i < prev.len() implies #[trigger] prev[i] == workers_started((i + 1) as nat) by {
            assert(prev[i] == handed[i]);
        }
        lemma_handed_to(prev, w);
        assert(handed.last() == workers_started(handed.len()));
    }
}

/// Where a message goes in the state `w` (see [`NetworkWorker::route`]).
pub open spec fn route_of(w: NetworkWorkerView, msg: Message) -> Route {
    if msg.options == MessageOptions::Shutdown {
        Route::Shutdown
    } else if w.client_map.contains_key(msg.recipient@) {
        Route::Worker(w.client_map[msg.recipient@])
    } else {
        Route::UnknownRecipient
    }
}

impl NetworkWorker {
    /// The entries hold the map, one entry per address; the extra workers
    /// number exactly [`workers_started`] of the connections; every address
    /// is served by a worker that exists.
    pub closed spec fn wf(&self) -> bool {
        &&& forall|i: int| 0 <= i < self.client_map.len() ==> {
            &&& self.map_view@.contains_key((#[trigger] self.client_map@[i]).0@)
            &&& self.map_view@[self.client_map@[i].0@] == self.client_map@[i].1
        }
        &&& forall|k: Seq<char>| #[trigger] self.map_view@.contains_key(k) ==> exists|i: int|
            0 <= i < self.client_map.len() && (#[trigger] self.client_map@[i]).0@ == k
        &&& forall|i: int, j: int| 0 <= i < j < self.client_map.len() ==>
            (#[trigger] self.client_map@[i]).0@ != (#[trigger] self.client_map@[j]).0@
        &&& self.thread_count == workers_started(self.current_connection_count as nat)
        &&& forall|k: Seq<char>| #[trigger] self.map_view@.contains_key(k) ==> self.map_view@[k] <= self.thread_count
        &&& self.handed@.len() == self.current_connection_count
        &&& forall|i: int| 0 <= i < self.handed@.len() ==> #[trigger] self.handed@[i] == workers_started((i + 1) as nat)
    }

    /// In every well-formed state the extra workers number exactly
    /// [`workers_started`] of the connections handed out, and every address
    /// is served by a worker that has been started.
    ///
    /// The first worker is handed the first `MAX_CLIENTS_THREAD` connections
    /// and no worker is ever handed more than `MAX_CLIENTS_THREAD`; every
    /// later worker gets exactly the one connection it was started for.
    pub proof fn lemma_workers_follow_connections(&self)
        requires
            self.wf(),
        ensures
            self@.thread_count == workers_started(self@.connection_count),
            forall|k: Seq<char>| #[trigger] self@.client_map.contains_key(k) ==> self@.client_map[k] <= self@.thread_count,
            self@.handed.len() == self@.connection_count,
            handed_to(self@.handed, 0) == min_nat(self@.connection_count, MAX_CLIENTS_THREAD as nat),
            forall|w: u32| 1 <= w <= self@.thread_count ==> #[trigger] handed_to(self@.handed, w) == 1,
            forall|w: u32| #[trigger] handed_to(self@.handed, w) <= MAX_CLIENTS_THREAD,
    {
        assert forall|w: u32| #[trigger] handed_to(self@.handed, w) == (if w == 0 {
            min_nat(self@.connection_count, MAX_CLIENTS_THREAD as nat)
        } else if w + 19 < self@.handed.len() {
            1nat
        } else {
            0nat
        }) by {
            lemma_handed_to(self@.handed, w);
        }
    }

    /// Nothing handed out yet.
    pub fn new() -> (w: NetworkWorker)
        ensures
            w.wf(),
            w@.connection_count == 0,
            w@.thread_count == 0,
            w@.client_map == Map::<Seq<char>, u32>::empty(),
            w@.handed == Seq::<u32>::empty(),
    {
        NetworkWorker {
            current_connection_count: 0,
            thread_count: 0,
            client_map: Vec::new(),
            map_view: Ghost(Map::empty()),
            handed: Ghost(Seq::empty()),
        }
    }

    /// How many connections have been handed out.
    pub fn connection_count(&self) -> (n: u32)
        ensures
            n == self@.connection_count,
    {
        self.current_connection_count
    }

    /// How many extra I/O workers have been started.
    pub fn thread_count(&self) -> (n: u32)
        ensures
            n == self@.thread_count,
    {
        self.thread_count
    }

    /// Hands the new connection from `addr` to an I/O worker. Once
    /// `MAX_CLIENTS_THREAD` connections have been handed out, a new I/O worker
    /// is started for it (the result says so). The address is then served by
    /// the newest worker.
    pub fn add_client(&mut self, addr: String) -> (start_worker: bool)
        requires
            old(self).wf(),
            old(self)@.connection_count < u32::MAX,
        ensures
            final(self).wf(),
            start_worker == (old(self)@.connection_count >= MAX_CLIENTS_THREAD),
            final(self)@.connection_count == old(self)@.connection_count + 1,
            final(self)@.thread_count == old(self)@.thread_count + if start_worker { 1nat } else { 0nat },
            final(self)@.thread_count <= u32::MAX,
            final(self)@.client_map == old(self)@.client_map.insert(addr@, final(self)@.thread_count as u32),
            final(self)@.handed == old(self)@.handed.push(final(self)@.thread_count as u32),
    {
        let start_worker = self.current_connection_count >= MAX_CLIENTS_THREAD as u32;
        if start_worker {
            self.thread_count = self.thread_count + 1;
        }
        self.current_connection_count = self.current_connection_count + 1;
        let worker = self.thread_count;
        let ghost key = addr@;
        let ghost old_map = self.map_view@;
        let ghost old_entries = self.client_map@;
        let mut i: usize = 0;
        let mut found = false;
        while i < self.client_map.len()
            invariant
                self.client_map@ == old_entries,
                addr@ == key,
                i <= old_entries.len(),
                forall|j: int| 0 <= j < i ==> (#[trigger] old_entries[j]).0@ != key,
            ensures
                i < old_entries.len() ==> old_entries[i as int].0@ == key,
                i == old_entries.len() || i < old_entries.len(),
            decreases old_entries.len() - i,
        {
            if self.client_map[i].0 == addr {
                break;
            }
            i = i + 1;
        }
        if i < self.client_map.len() {
            self.client_map.set(i, (addr, worker));
        } else {
            self.client_map.push((addr, worker));
        }
        self.map_view = Ghost(old_map.insert(key, worker));
        self.handed = Ghost(self.handed@.push(worker));
        proof {
            let entries = self.client_map@;
            let m = self.map_view@;
            assert forall|k: Seq<char>| #[trigger] m.contains_key(k) implies exists|j: int|
                0 <= j < entries.len() && (#[trigger] entries[j]).0@ == k by {
                if k == key {
                    assert(entries[i as int].0@ == k);
                } else {
                    let j = choose|j: int| 0 <= j < old_entries.len() && (#[trigger] old_entries[j]).0@ == k;
                    assert(entries[j].0@ == k);
                }
            }
            assert forall|a: int, b: int| 0 <= a < b < entries.len() implies
                (#[trigger] entries[a]).0@ != (#[trigger] entries[b]).0@ by {
                if a == i as int {
                    assert(old_entries[b].0@ != key);
                } else if b == i as int {
                    assert(old_entries[a].0@ != key);
                } else {
                    assert(entries[a] == old_entries[a]);
                    assert(entries[b] == old_entries[b]);
                }
            }
            assert forall|j: int| 0 <= j < entries.len() implies {
                &&& m.contains_key((#[trigger] entries[j]).0@)
                &&& m[entries[j].0@] == entries[j].1
            } by {
                if j != i as int {
                    assert(entries[j] == old_entries[j]);
                    assert(old_entries[j].0@ != key);
                }
            }
        }
        start_worker
    }

    /// Where an outgoing message goes: nowhere yet for a shutdown request,
    /// else to the worker that serves its recipient, if any.
    pub fn route(&self, msg: &Message) -> (r: Route)
        requires
            self.wf(),
        ensures
            r == route_of(self@, *msg),
    {
        if msg.options == MessageOptions::Shutdown {
            return Route::Shutdown;
        }
        let mut i: usize = 0;
        while i < self.client_map.len()
            invariant
                self.wf(),
                msg.options != MessageOptions::Shutdown,
                i <= self.client_map.len(),
                forall|j: int| 0 <= j < i ==> (#[trigger] self.client_map@[j]).0@ != msg.recipient@,
            decreases self.client_map.len() - i,
        {
            if self.client_map[i].0 == msg.recipient {
                return Route::Worker(self.client_map[i].1);
            }
            i = i + 1;
        }
        proof {
            if self.map_view@.contains_key(msg.recipient@) {
                let j = choose|j: int| 0 <= j < self.client_map.len() && (#[trigger] self.client_map@[j]).0@ == msg.recipient@;
                assert(self.client_map@[j].0@ != msg.recipient@);
            }
        }
        Route::UnknownRecipient
    }

    /// Forwards `msgs` in order, as the listening worker does with what it is
    /// asked to send: each message goes to the worker that serves its
    /// recipient, until the first one that cannot be forwarded (a shutdown
    /// request or an unknown recipient). Returns the forwarded messages with
    /// their workers, and the route of the message that stopped the batch.
    /// Nothing at or after a shutdown request is forwarded.
    pub fn route_batch(&self, msgs: &Vec<Message>) -> (res: (Vec<(u32, Message)>, Option<Route>))
        requires
            self.wf(),
        ensures
            res.0.len() <= msgs.len(),
            forall|i: int| 0 <= i < res.0.len() ==> {
                &&& route_of(self@, msgs@[i]) == Route::Worker((#[trigger] res.0@[i]).0)
                &&& res.0@[i].1 == msgs@[i]
            },
            res.1 is None ==> res.0.len() == msgs.len(),
            res.1 matches Some(r) ==> {
                &&& res.0.len() < msgs.len()
                &&& r == route_of(self@, msgs@[res.0.len() as int])
                &&& r !is Worker
            },
            forall|j: int| 0 <= j < msgs.len() && (#[trigger] msgs@[j]).options == MessageOptions::Shutdown
                ==> res.0.len() <= j,
    {
        let mut forwarded: Vec<(u32, Message)> = Vec::new();
        let mut i: usize = 0;
        while i < msgs.len()
            invariant
                self.wf(),
                i <= msgs.len(),
                forwarded.len() == i,
                forall|k: int| 0 <= k < i ==> {
                    &&& route_of(self@, msgs@[k]) == Route::Worker((#[trigger] forwarded@[k]).0)
                    &&& forwarded@[k].1 == msgs@[k]
                },
            decreases msgs.len() - i,
        {
            match self.route(&msgs[i]) {
                Route::Worker(w) => {
                    forwarded.push((w, msgs[i].clone()));
                },
                r => {
                    proof {
                        assert forall|j: int| 0 <= j < msgs.len() && (#[trigger] msgs@[j]).options
                            == MessageOptions::Shutdown implies forwarded.len() <= j by {
                            if j < forwarded.len() {
                                assert(route_of(self@, msgs@[j]) == Route::Worker(forwarded@[j].0));
                            }
                        }
                    }
                    return (forwarded, Some(r));
                },
            }
            i = i + 1;
        }
        proof {
            assert forall|j: int| 0 <= j < msgs.len() && (#[trigger] msgs@[j]).options
                == MessageOptions::Shutdown implies forwarded.len() <= j by {
                assert(route_of(self@, msgs@[j]) == Route::Worker(forwarded@[j].0));
            }
        }
        (forwarded, None)
    }
}

} // verus!
