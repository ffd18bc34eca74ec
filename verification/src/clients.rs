//! The peers the console knows, filing received messages with them, and
//! the messages it sends and measures.
use vstd::prelude::*;
use vstd::string::StringExecFns;
use crate::network::{Message, MessageOptions, MAX_MESSAGE_BYTES, utf8_len};
use crate::timestamps::{sent_times, sent_timestamps};

verus! {

/// A peer that the console knows: its address, the messages received from
/// it, and a nickname.
pub struct ClientUser {
    pub addr: String,
    pub messages: Vec<Message>,
    pub nickname: String,
}

impl ClientUser {
    /// A peer that connected to us from `addr`: no messages, no nickname.
    pub fn incoming(addr: String) -> (c: ClientUser)
        ensures
            c.addr@ == addr@,
            c.messages@ == Seq::<Message>::empty(),
            c.nickname@ == Seq::<char>::empty(),
    {
        ClientUser { addr, messages: Vec::new(), nickname: String::new() }
    }

    /// A peer that we connected to at `peer_addr` from our own `local_addr`,
    /// which becomes its nickname.
    pub fn connected(peer_addr: String, local_addr: String) -> (c: ClientUser)
        ensures
            c.addr@ == peer_addr@,
            c.messages@ == Seq::<Message>::empty(),
            c.nickname@ == local_addr@,
    {
        ClientUser { addr: peer_addr, messages: Vec::new(), nickname: local_addr }
    }

    /// How the console shows the peer.
    pub fn describe(&self) -> (s: String)
        ensures
            s@ == "Client with address "@ + self.addr@ + ", and nickname "@ + self.nickname@,
    {
        let mut s = String::new();
        s.append("Client with address ");
        s.append(self.addr.as_str());
        s.append(", and nickname ");
        s.append(self.nickname.as_str());
        s
    }
}

/// Adds a peer for each address in `addrs`, in order, as [`ClientUser::incoming`]
/// makes it; the known peers stay as they are.
pub fn update_clients(clients: &mut Vec<ClientUser>, addrs: Vec<String>)
    ensures
        final(clients)@.len() == old(clients)@.len() + addrs@.len(),
        forall|i: int| 0 <= i < old(clients)@.len() ==> #[trigger] final(clients)@[i] == old(clients)@[i],
        forall|i: int| 0 <= i < addrs@.len() ==> {
            let c = #[trigger] final(clients)@[old(clients)@.len() + i];
            &&& c.addr@ == addrs@[i]@
            &&& c.messages@ == Seq::<Message>::empty()
            &&& c.nickname@ == Seq::<char>::empty()
        },
{
    let ghost start = clients@;
    let mut addrs = addrs;
    let ghost all = addrs@;
    let mut i: usize = 0;
    while i < addrs.len()
        invariant
            addrs@ == all,
            i <= all.len(),
            clients@.len() == start.len() + i,
            forall|k: int| 0 <= k < start.len() ==> #[trigger] clients@[k] == start[k],
            forall|k: int| 0 <= k < i ==> {
                let c = #[trigger] clients@[start.len() + k];
                &&& c.addr@ == all[k]@
                &&& c.messages@ == Seq::<Message>::empty()
                &&& c.nickname@ == Seq::<char>::empty()
            },
        decreases all.len() - i,
    {
        let addr = addrs[i].clone();
        clients.push(ClientUser::incoming(addr));
        i = i + 1;
    }
}

/// How many of `clients` have the address `addr`.
pub open spec fn count_with_addr(clients: Seq<ClientUser>, addr: Seq<char>) -> nat
    decreases clients.len(),
{
    if clients.len() == 0 {
        0
    } else {
        count_with_addr(clients.drop_last(), addr) + if clients.last().addr@ == addr { 1nat } else { 0nat }
    }
}

/// `s` repeated `k` times.
pub open spec fn repeated<A>(s: Seq<A>, k: nat) -> Seq<A>
    decreases k,
{
    if k == 0 {
        Seq::empty()
    } else {
        repeated(s, (k - 1) as nat) + s
    }
}

/// The messages of `msgs` sent from `addr`, in order.
pub open spec fn sent_from(msgs: Seq<Message>, addr: Seq<char>) -> Seq<Message>
    decreases msgs.len(),
{
    if msgs.len() == 0 {
        Seq::empty()
    } else {
        let rest = sent_from(msgs.drop_last(), addr);
        if msgs.last().sender@ == addr {
            rest.push(msgs.last())
        } else {
            rest
        }
    }
}

/// What the console shows while it files `msgs` with `clients`: each message
/// once for every known peer that sent it, in order.
pub open spec fn shown_messages(msgs: Seq<Message>, clients: Seq<ClientUser>) -> Seq<Message>
    decreases msgs.len(),
{
    if msgs.len() == 0 {
        Seq::empty()
    } else {
        shown_messages(msgs.drop_last(), clients)
            + repeated(seq![msgs.last()], count_with_addr(clients, msgs.last().sender@))
    }
}

/// The messages filed with each peer of `clients`, counted together.
pub open spec fn filed_total(msgs: Seq<Message>, clients: Seq<ClientUser>) -> nat
    decreases clients.len(),
{
    if clients.len() == 0 {
        0
    } else {
        filed_total(msgs, clients.drop_last()) + sent_from(msgs, clients.last().addr@).len()
    }
}

/// A peer is filed exactly the messages of `msgs` whose sender is its
/// address, all of them and in order.
pub proof fn lemma_filed_are_those_sent(msgs: Seq<Message>, addr: Seq<char>)
    ensures
        sent_from(msgs, addr) == msgs.filter(|m: Message| m.sender@ == addr),
    decreases msgs.len(),
{
    reveal(Seq::filter);
    if msgs.len() > 0 {
        lemma_filed_are_those_sent(msgs.drop_last(), addr);
    }
}

proof fn lemma_filed_total_step(msgs: Seq<Message>, clients: Seq<ClientUser>)
    requires
        msgs.len() > 0,
    ensures
        filed_total(msgs, clients) == filed_total(msgs.drop_last(), clients)
            + count_with_addr(clients, msgs.last().sender@),
    decreases clients.len(),
{
    if clients.len() > 0 {
        lemma_filed_total_step(msgs, clients.drop_last());
    }
}

/// The console shows each message once for every time it is filed: as many
/// lines as messages filed over all peers.
pub proof fn lemma_shown_count_is_filed_count(msgs: Seq<Message>, clients: Seq<ClientUser>)
    ensures
        shown_messages(msgs, clients).len() == filed_total(msgs, clients),
    decreases msgs.len(),
{
    if msgs.len() > 0 {
        lemma_shown_count_is_filed_count(msgs.drop_last(), clients);
        lemma_filed_total_step(msgs, clients);
        let k = count_with_addr(clients, msgs.last().sender@);
        let one = seq![msgs.last()];
        lemma_repeated_len(one, k);
        assert(one.len() == 1);
        assert(one.len() * k == k) by (nonlinear_arith)
            requires
                one.len() == 1,
        ;
    } else {
        lemma_filed_total_empty(msgs, clients);
    }
}

proof fn lemma_filed_total_empty(msgs: Seq<Message>, clients: Seq<ClientUser>)
    requires
        msgs.len() == 0,
    ensures
        filed_total(msgs, clients) == 0,
    decreases clients.len(),
{
    if clients.len() > 0 {
        lemma_filed_total_empty(msgs, clients.drop_last());
    }
}

/// Files each of `incoming`, in order, with every known peer whose address
/// is its sender, and returns the messages to show (see [`shown_messages`]).
pub fn check_messages(clients: &mut Vec<ClientUser>, incoming: &Vec<Message>) -> (shown: Vec<Message>)
    ensures
        final(clients)@.len() == old(clients)@.len(),
        forall|i: int| 0 <= i < old(clients)@.len() ==> {
            &&& (#[trigger] final(clients)@[i]).addr == old(clients)@[i].addr
            &&& final(clients)@[i].nickname == old(clients)@[i].nickname
            &&& final(clients)@[i].messages@ == old(clients)@[i].messages@ + sent_from(incoming@, old(clients)@[i].addr@)
        },
        shown@ == shown_messages(incoming@, old(clients)@),
        forall|i: int| 0 <= i < old(clients)@.len() ==> (#[trigger] final(clients)@[i]).messages@
            == old(clients)@[i].messages@ + incoming@.filter(|m: Message| m.sender@ == old(clients)@[i].addr@),
        shown@.len() == filed_total(incoming@, old(clients)@),
{
    let ghost start = clients@;
    let mut shown: Vec<Message> = Vec::new();
    let mut i: usize = 0;
    assert(incoming@.take(0) =~= Seq::<Message>::empty());
    while i < incoming.len()
        invariant
            i <= incoming.len(),
            clients@.len() == start.len(),
            forall|k: int| 0 <= k < start.len() ==> {
                &&& (#[trigger] clients@[k]).addr == start[k].addr
                &&& clients@[k].nickname == start[k].nickname
                &&& clients@[k].messages@ == start[k].messages@ + sent_from(incoming@.take(i as int), start[k].addr@)
            },
            shown@ == shown_messages(incoming@.take(i as int), start),
        decreases incoming.len() - i,
    {
        let msg = &incoming[i];
        let ghost prefix = incoming@.take(i as int + 1);
        assert(prefix.drop_last() =~= incoming@.take(i as int));
        assert(prefix.last() == incoming@[i as int]);
        let ghost shown_before = shown@;
        let mut j: usize = 0;
        assert(start.take(0) =~= Seq::<ClientUser>::empty());
        while j < clients.len()
            invariant
                i < incoming.len(),
                prefix == incoming@.take(i as int + 1),
                prefix.drop_last() == incoming@.take(i as int),
                prefix.last() == *msg,
                *msg == incoming@[i as int],
                j <= clients.len(),
                clients@.len() == start.len(),
                forall|k: int| 0 <= k < start.len() ==> {
                    &&& (#[trigger] clients@[k]).addr == start[k].addr
                    &&& clients@[k].nickname == start[k].nickname
                    &&& clients@[k].messages@ == start[k].messages@ + if k < j {
                        sent_from(prefix, start[k].addr@)
                    } else {
                        sent_from(prefix.drop_last(), start[k].addr@)
                    }
                },
                shown@ == shown_before + repeated(seq![*msg], count_with_addr(start.take(j as int), msg.sender@)),
            decreases clients.len() - j,
        {
            assert(start.take(j as int + 1).drop_last() =~= start.take(j as int));
            assert(start.take(j as int + 1).last() == start[j as int]);
            if clients[j].addr == msg.sender {
                let ghost before = shown@;
                clients[j].messages.push(msg.clone());
                shown.push(msg.clone());
                assert(shown@ =~= before + seq![*msg]);
            }
            j = j + 1;
        }
        assert(start.take(start.len() as int) =~= start);
        i = i + 1;
    }
    assert(incoming@.take(incoming.len() as int) =~= incoming@);
    proof {
        lemma_shown_count_is_filed_count(incoming@, start);
        assert forall|i: int| 0 <= i < start.len() implies (#[trigger] clients@[i]).messages@
            == start[i].messages@ + incoming@.filter(|m: Message| m.sender@ == start[i].addr@) by {
            let a = start[i].addr@;
            lemma_filed_are_those_sent(incoming@, a);
            assert(clients@[i].messages@ == start[i].messages@ + sent_from(incoming@, a));
            assert((|m: Message| m.sender@ == start[i].addr@) =~= (|m: Message| m.sender@ == a));
        }
    }
    shown
}

/// Whether one of `clients` has the address `addr`.
pub open spec fn has_client(clients: Seq<ClientUser>, addr: Seq<char>) -> bool {
    exists|i: int| 0 <= i < clients.len() && (#[trigger] clients[i]).addr@ == addr
}

/// The message that the console sends when the user writes `msg_data` to
/// the peer named `client_name`: from `ME` to that peer, if a known peer has
/// that address; none otherwise. A text longer than a message may carry is
/// outside the contract when the peer is known.
pub fn send_message(clients: &Vec<ClientUser>, client_name: String, msg_data: String) -> (m: Option<Message>)
    requires
        has_client(clients@, client_name@) ==> utf8_len(msg_data@) <= MAX_MESSAGE_BYTES,
    ensures
        m is Some <==> has_client(clients@, client_name@),
        m matches Some(msg) ==> {
            &&& msg.data@ == msg_data@
            &&& msg.recipient@ == client_name@
            &&& msg.sender@ == "ME"@
            &&& msg.options == MessageOptions::Plain
        },
{
    let mut i: usize = 0;
    while i < clients.len()
        invariant
            i <= clients.len(),
            forall|k: int| 0 <= k < i ==> (#[trigger] clients@[k]).addr@ != client_name@,
            has_client(clients@, client_name@) ==> utf8_len(msg_data@) <= MAX_MESSAGE_BYTES,
        decreases clients.len() - i,
    {
        if clients[i].addr == client_name {
            assert(has_client(clients@, client_name@)) by {
                assert(clients@[i as int].addr@ == client_name@);
            }
            let me = String::from_str("ME");
            return match Message::new(msg_data, client_name, me) {
                Ok(msg) => Some(msg),
                Err(_) => None,
            };
        }
        i = i + 1;
    }
    None
}

/// An upper bound on the milliseconds since the epoch that the clock reads.
pub const MAX_CLOCK_MILLIS: i64 = 10_000_000_000_000_000;

/// Calls `chrono::Utc::now().timestamp_millis()`. chrono's source reads the
/// system clock as a time after the epoch (it panics on one before) and
/// builds a date no later than its last representable year, so the reading
/// lies between zero and [`MAX_CLOCK_MILLIS`]. Nothing more is stated: the
/// reading is the time.
#[verifier::external_body]
fn now_millis() -> (t: i64)
    ensures
        0 <= t <= MAX_CLOCK_MILLIS,
{
    chrono::Utc::now().timestamp_millis()
}

/// The delays of the send times `times` against the clock readings
/// `readings` taken for them: each reading less its send time.
pub fn delays_from(readings: &Vec<i64>, times: &Vec<i64>) -> (delays: Vec<i64>)
    requires
        readings.len() == times.len(),
        forall|k: int| 0 <= k < times.len() ==> i64::MIN <= #[trigger] readings@[k] - times@[k] <= i64::MAX,
    ensures
        delays.len() == times.len(),
        forall|k: int| 0 <= k < times.len() ==> #[trigger] delays@[k] == readings@[k] - times@[k],
{
    let mut delays: Vec<i64> = Vec::new();
    let mut k: usize = 0;
    while k < times.len()
        invariant
            readings.len() == times.len(),
            forall|j: int| 0 <= j < times.len() ==> i64::MIN <= #[trigger] readings@[j] - times@[j] <= i64::MAX,
            k <= times.len(),
            delays.len() == k,
            forall|j: int| 0 <= j < k ==> #[trigger] delays@[j] == readings@[j] - times@[j],
        decreases times.len() - k,
    {
        assert(i64::MIN <= readings@[k as int] - times@[k as int] <= i64::MAX);
        delays.push(readings[k] - times[k]);
        k = k + 1;
    }
    delays
}

/// The send times that timing messages carry, in order: those of each
/// message once for every known peer that sent it.
pub open spec fn bench_times(msgs: Seq<Message>, clients: Seq<ClientUser>) -> Seq<i64>
    decreases msgs.len(),
{
    if msgs.len() == 0 {
        Seq::empty()
    } else {
        bench_times(msgs.drop_last(), clients)
            + repeated(sent_times(msgs.last().data@), count_with_addr(clients, msgs.last().sender@))
    }
}

/// For the timing test: for each of `incoming`, in order, and each known
/// peer that sent it, the delays of the send times it carries (see
/// [`sent_times`]), each measured against a fresh clock reading. A send time
/// so early that a delay could leave `i64` is outside the contract.
pub fn check_messages_bench(clients: &Vec<ClientUser>, incoming: &Vec<Message>) -> (delays: Vec<i64>)
    requires
        forall|k: int| 0 <= k < bench_times(incoming@, clients@).len() ==>
            #[trigger] bench_times(incoming@, clients@)[k] >= MAX_CLOCK_MILLIS - i64::MAX,
    ensures
        delays@.len() == bench_times(incoming@, clients@).len(),
        forall|k: int| 0 <= k < delays@.len() ==>
            0 <= #[trigger] delays@[k] + bench_times(incoming@, clients@)[k] <= MAX_CLOCK_MILLIS,
{
    let ghost all = bench_times(incoming@, clients@);
    let mut delays: Vec<i64> = Vec::new();
    let mut i: usize = 0;
    assert(incoming@.take(0) =~= Seq::<Message>::empty());
    proof {
        lemma_bench_times_prefix(incoming@, clients@, 0);
    }
    while i < incoming.len()
        invariant
            i <= incoming.len(),
            all == bench_times(incoming@, clients@),
            forall|k: int| 0 <= k < all.len() ==> #[trigger] all[k] >= MAX_CLOCK_MILLIS - i64::MAX,
            bench_times(incoming@.take(i as int), clients@).len() <= all.len(),
            bench_times(incoming@.take(i as int), clients@) == all.take(bench_times(incoming@.take(i as int), clients@).len() as int),
            delays@.len() == bench_times(incoming@.take(i as int), clients@).len(),
            forall|k: int| 0 <= k < delays@.len() ==> 0 <= #[trigger] delays@[k] + all[k] <= MAX_CLOCK_MILLIS,
        decreases incoming.len() - i,
    {
        let msg = &incoming[i];
        let ghost prefix = incoming@.take(i as int + 1);
        assert(prefix.drop_last() =~= incoming@.take(i as int));
        assert(prefix.last() == incoming@[i as int]);
        proof {
            lemma_bench_times_prefix(incoming@, clients@, i as int + 1);
        }
        let ghost base = delays@.len();
        let ghost times = sent_times(msg.data@);
        let mut j: usize = 0;
        assert(clients@.take(0) =~= Seq::<ClientUser>::empty());
        while j < clients.len()
            invariant
                i < incoming.len(),
                *msg == incoming@[i as int],
                times == sent_times(msg.data@),
                j <= clients.len(),
                all == bench_times(incoming@, clients@),
                forall|k: int| 0 <= k < all.len() ==> #[trigger] all[k] >= MAX_CLOCK_MILLIS - i64::MAX,
                base == bench_times(incoming@.take(i as int), clients@).len(),
                bench_times(incoming@.take(i as int + 1), clients@) == bench_times(incoming@.take(i as int), clients@)
                    + repeated(times, count_with_addr(clients@, msg.sender@)),
                bench_times(incoming@.take(i as int + 1), clients@) == all.take(bench_times(incoming@.take(i as int + 1), clients@).len() as int),
                bench_times(incoming@.take(i as int + 1), clients@).len() <= all.len(),
                delays@.len() == base + repeated(times, count_with_addr(clients@.take(j as int), msg.sender@)).len(),
                forall|k: int| 0 <= k < delays@.len() ==> 0 <= #[trigger] delays@[k] + all[k] <= MAX_CLOCK_MILLIS,
            decreases clients.len() - j,
        {
            assert(clients@.take(j as int + 1).drop_last() =~= clients@.take(j as int));
            if clients[j].addr == msg.sender {
                let stamps = sent_timestamps(&msg.data);
                let mut t: usize = 0;
                let ghost before = delays@.len();
                let ghost cj = count_with_addr(clients@.take(j as int), msg.sender@);
                let ghost call = count_with_addr(clients@, msg.sender@);
                let ghost head = bench_times(incoming@.take(i as int), clients@);
                proof {
                    lemma_repeated_len(times, cj);
                    lemma_count_prefix(clients@, msg.sender@, j as int + 1);
                    assert(count_with_addr(clients@.take(j as int + 1), msg.sender@) == cj + 1);
                }
                let mut readings: Vec<i64> = Vec::new();
                while t < stamps.len()
                    invariant
                        t <= stamps.len(),
                        readings.len() == t,
                        forall|k: int| 0 <= k < t ==> 0 <= #[trigger] readings@[k] <= MAX_CLOCK_MILLIS,
                    decreases stamps.len() - t,
                {
                    readings.push(now_millis());
                    t = t + 1;
                }
                proof {
                    assert forall|k: int| 0 <= k < times.len() implies
                        #[trigger] times[k] >= MAX_CLOCK_MILLIS - i64::MAX && all[before + k] == times[k] by {
                        lemma_copy_position(all, head, times, call, cj, before as int, k);
                    }
                }
                let measured = delays_from(&readings, &stamps);
                let mut u: usize = 0;
                while u < measured.len()
                    invariant
                        stamps@ == times,
                        measured.len() == times.len(),
                        readings.len() == times.len(),
                        u <= measured.len(),
                        delays@.len() == before + u,
                        forall|k: int| 0 <= k < times.len() ==> #[trigger] measured@[k] == readings@[k] - times[k],
                        forall|k: int| 0 <= k < times.len() ==> 0 <= #[trigger] readings@[k] <= MAX_CLOCK_MILLIS,
                        forall|k: int| 0 <= k < times.len() ==> all[before + k] == #[trigger] times[k],
                        forall|k: int| 0 <= k < delays@.len() ==> 0 <= #[trigger] delays@[k] + all[k] <= MAX_CLOCK_MILLIS,
                    decreases measured.len() - u,
                {
                    assert(all[before + u] == times[u as int]);
                    delays.push(measured[u]);
                    u = u + 1;
                }
                proof {
                    lemma_repeated_len(times, cj + 1);
                    assert(times.len() * (cj + 1) == times.len() * cj + times.len()) by (nonlinear_arith);
                }
            }
            j = j + 1;
        }
        assert(clients@.take(clients.len() as int) =~= clients@);
        i = i + 1;
    }
    assert(incoming@.take(incoming.len() as int) =~= incoming@);
    delays
}

proof fn lemma_repeated_len<A>(s: Seq<A>, k: nat)
    ensures
        repeated(s, k).len() == s.len() * k,
    decreases k,
{
    if k == 0 {
        assert(s.len() * k == 0) by (nonlinear_arith)
            requires
                k == 0,
        ;
    } else {
        let k1 = (k - 1) as nat;
        lemma_repeated_len(s, k1);
        assert(repeated(s, k) == repeated(s, k1) + s);
        assert(s.len() * k == s.len() * k1 + s.len()) by (nonlinear_arith)
            requires
                k1 == k - 1,
        ;
    }
}

proof fn lemma_copy_position(all: Seq<i64>, head: Seq<i64>, times: Seq<i64>, k: nat, m: nat, start: int, x: int)
    requires
        m < k,
        0 <= x < times.len(),
        start == head.len() + times.len() * m,
        (head + repeated(times, k)).len() <= all.len(),
        head + repeated(times, k) == all.take((head + repeated(times, k)).len() as int),
    ensures
        start + x < all.len(),
        all[start + x] == times[x],
{
    let whole = head + repeated(times, k);
    lemma_repeated_index(times, k, m as int, x);
    assert(whole[start + x] == repeated(times, k)[times.len() * m + x]);
    assert(whole[start + x] == all[start + x]);
}

proof fn lemma_repeated_index<A>(s: Seq<A>, k: nat, m: int, t: int)
    requires
        0 <= m < k,
        0 <= t < s.len(),
    ensures
        s.len() * m + t < repeated(s, k).len(),
        repeated(s, k)[s.len() * m + t] == s[t],
    decreases k,
{
    lemma_repeated_len(s, (k - 1) as nat);
    lemma_repeated_len(s, k);
    if m < k - 1 {
        lemma_repeated_index(s, (k - 1) as nat, m, t);
        assert(s.len() * m + t < s.len() * (k - 1)) by (nonlinear_arith)
            requires
                m < k - 1,
                0 <= t < s.len(),
        ;
    } else {
        assert(s.len() * m == s.len() * (k - 1));
    }
}

proof fn lemma_count_prefix(clients: Seq<ClientUser>, addr: Seq<char>, j: int)
    requires
        0 <= j <= clients.len(),
    ensures
        count_with_addr(clients.take(j), addr) <= count_with_addr(clients, addr),
    decreases clients.len(),
{
    if j < clients.len() {
        assert(clients.drop_last().take(j) =~= clients.take(j));
        lemma_count_prefix(clients.drop_last(), addr, j);
    } else {
        assert(clients.take(j) =~= clients);
    }
}

proof fn lemma_bench_times_prefix(msgs: Seq<Message>, clients: Seq<ClientUser>, i: int)
    requires
        0 <= i <= msgs.len(),
    ensures
        bench_times(msgs.take(i), clients)
            == bench_times(msgs, clients).take(bench_times(msgs.take(i), clients).len() as int),
        bench_times(msgs.take(i), clients).len() <= bench_times(msgs, clients).len(),
    decreases msgs.len(),
{
    if i < msgs.len() {
        assert(msgs.drop_last().take(i) =~= msgs.take(i));
        lemma_bench_times_prefix(msgs.drop_last(), clients, i);
        let a = bench_times(msgs.take(i), clients);
        let b = bench_times(msgs.drop_last(), clients);
        let c = bench_times(msgs, clients);
        assert(c == b + repeated(sent_times(msgs.last().data@), count_with_addr(clients, msgs.last().sender@)));
        assert(c.take(a.len() as int) =~= b.take(a.len() as int));
    } else {
        assert(msgs.take(i) =~= msgs);
        assert(bench_times(msgs, clients).take(bench_times(msgs, clients).len() as int) =~= bench_times(msgs, clients));
    }
}

} // verus!
