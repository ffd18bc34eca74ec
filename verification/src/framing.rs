//! The wire format: length-prefixed frames, the receive loop that takes
//! them off a connection's buffer, and the selection of outgoing frames.
use vstd::prelude::*;
use vstd::utf8::{valid_utf8, decode_utf8, encode_utf8, decode_utf8_encode_utf8};
use vstd::string::StringSliceAdditionalSpecFns;
use vstd::slice::slice_subrange;
use vstd::slice::slice_to_vec;
use crate::network::{Message, MessageOptions, MAX_MESSAGE_BYTES};

verus! {

// A frame on the wire is a two-byte big-endian length followed by the payload.
// The length is the payload's length taken modulo 2^16.

/// The two header bytes announcing a payload of `len` bytes.
pub open spec fn frame_header(len: nat) -> Seq<u8> {
    seq![((len % 65536) / 256) as u8, (len % 256) as u8]
}

/// The bytes sent for one payload.
pub open spec fn frame_of(payload: Seq<u8>) -> Seq<u8> {
    frame_header(payload.len()) + payload
}

/// The payload size that the first two bytes of `buf` announce.
pub open spec fn announced_size(buf: Seq<u8>) -> nat
    recommends
        buf.len() >= 2,
{
    (buf[0] as nat) * 256 + (buf[1] as nat)
}

/// Whether the receive loop takes a frame off the front of `buf`: there are
/// more than two bytes, and after the header more than two bytes beyond the
/// announced payload.
pub open spec fn frame_ready(buf: Seq<u8>) -> bool {
    buf.len() > 2 && buf.len() > announced_size(buf) + 4
}

/// The payload of the frame at the front of `buf`.
pub open spec fn front_payload(buf: Seq<u8>) -> Seq<u8> {
    buf.subrange(2, 2 + announced_size(buf) as int)
}

/// What stays of `buf` once the frame at its front is taken off.
pub open spec fn after_front(buf: Seq<u8>) -> Seq<u8> {
    buf.subrange(2 + announced_size(buf) as int, buf.len() as int)
}

/// Whether the receive loop ends on `buf`: it takes frames off the front
/// while more than two bytes remain, and it spins for ever on more than two
/// bytes that hold no ready frame.
pub open spec fn drains(buf: Seq<u8>) -> bool
    decreases buf.len(),
{
    if buf.len() <= 2 {
        true
    } else if frame_ready(buf) {
        drains(after_front(buf))
    } else {
        false
    }
}

/// The payloads that the receive loop takes off `buf`, in order.
pub open spec fn drained_payloads(buf: Seq<u8>) -> Seq<Seq<u8>>
    decreases buf.len(),
{
    if buf.len() > 2 && frame_ready(buf) {
        seq![front_payload(buf)] + drained_payloads(after_front(buf))
    } else {
        Seq::empty()
    }
}

/// The bytes that stay in the buffer once the receive loop is done.
pub open spec fn drained_rest(buf: Seq<u8>) -> Seq<u8>
    decreases buf.len(),
{
    if buf.len() > 2 && frame_ready(buf) {
        drained_rest(after_front(buf))
    } else {
        buf
    }
}

/// The byte sequences held by a sequence of byte vectors.
pub open spec fn byte_views(v: Seq<Vec<u8>>) -> Seq<Seq<u8>> {
    v.map_values(|p: Vec<u8>| p@)
}

/// The frame that carries the UTF-8 bytes of `data`.
pub fn encode_frame(data: &str) -> (frame: Vec<u8>)
    ensures
        frame@ == frame_of(data.spec_bytes()),
{
    let bytes = data.as_bytes();
    let len = bytes.len();
    let size: u16 = (len % 65536) as u16;
    let mut frame: Vec<u8> = Vec::new();
    frame.push((size / 256) as u8);
    frame.push((size % 256) as u8);
    let mut i: usize = 0;
    while i < len
        invariant
            bytes@ == data.spec_bytes(),
            len == bytes@.len(),
            i <= len,
            frame@ == frame_header(len as nat) + bytes@.subrange(0, i as int),
        decreases len - i,
    {
        frame.push(bytes[i]);
        i = i + 1;
        assert(bytes@.subrange(0, i as int) == bytes@.subrange(0, i - 1) + seq![bytes@[i - 1]]);
    }
    assert(bytes@.subrange(0, len as int) == bytes@);
    frame
}

/// The receive loop ends on `buf` exactly when fewer than three bytes stay
/// once it has taken off every ready frame.
pub proof fn lemma_drains_iff_short_rest(buf: Seq<u8>)
    ensures
        drains(buf) <==> drained_rest(buf).len() <= 2,
    decreases buf.len(),
{
    if buf.len() > 2 && frame_ready(buf) {
        lemma_drains_iff_short_rest(after_front(buf));
    }
}

/// Takes every ready frame off the front of `buffer`, as the receive loop
/// does, and returns their payloads in order. The loop ends normally exactly
/// when at most two bytes stay; otherwise it would spin on what stays.
pub fn drain_frames(buffer: &mut Vec<u8>) -> (payloads: Vec<Vec<u8>>)
    ensures
        byte_views(payloads@) == drained_payloads(old(buffer)@),
        final(buffer)@ == drained_rest(old(buffer)@),
        drains(old(buffer)@) <==> final(buffer)@.len() <= 2,
{
    let ghost start = buffer@;
    proof {
        lemma_drains_iff_short_rest(start);
    }
    let mut payloads: Vec<Vec<u8>> = Vec::new();
    let mut pos: usize = 0;
    assert(buffer@.subrange(0, buffer@.len() as int) == buffer@);
    assert(byte_views(payloads@) == Seq::<Seq<u8>>::empty());
    while buffer.len() - pos > 2
        invariant
            buffer@ == start,
            pos <= buffer.len(),
            drained_payloads(start) == byte_views(payloads@)
                + drained_payloads(buffer@.subrange(pos as int, buffer@.len() as int)),
            drained_rest(start) == drained_rest(buffer@.subrange(pos as int, buffer@.len() as int)),
        ensures
            buffer.len() - pos <= 2 || !frame_ready(buffer@.subrange(pos as int, buffer@.len() as int)),
        decreases buffer.len() - pos,
    {
        let ghost rest = buffer@.subrange(pos as int, buffer@.len() as int);
        let size: usize = (buffer[pos] as usize) * 256 + (buffer[pos + 1] as usize);
        assert(size == announced_size(rest));
        if buffer.len() - pos - 2 > size + 2 {
            assert(frame_ready(rest));
            let payload = slice_to_vec(slice_subrange(buffer.as_slice(), pos + 2, pos + 2 + size));
            assert(payload@ == front_payload(rest));
            let ghost before = byte_views(payloads@);
            payloads.push(payload);
            assert(byte_views(payloads@) =~= before + seq![front_payload(rest)]);
            assert(after_front(rest) == buffer@.subrange(pos + 2 + size, buffer@.len() as int));
            pos = pos + 2 + size;
        } else {
            assert(!frame_ready(rest));
            break;
        }
    }
    let ghost rest = buffer@.subrange(pos as int, buffer@.len() as int);
    assert(drained_payloads(rest) == Seq::<Seq<u8>>::empty());
    assert(drained_rest(rest) == rest);
    let remaining = slice_to_vec(slice_subrange(buffer.as_slice(), pos, buffer.len()));
    *buffer = remaining;
    assert(byte_views(payloads@) + Seq::<Seq<u8>>::empty() == byte_views(payloads@));
    payloads
}

/// The bytes sent for a sequence of payloads, one frame after the other.
pub open spec fn frames_of(payloads: Seq<Seq<u8>>) -> Seq<u8>
    decreases payloads.len(),
{
    if payloads.len() == 0 {
        Seq::empty()
    } else {
        frame_of(payloads[0]) + frames_of(payloads.drop_first())
    }
}

/// A frame followed by more than two bytes is taken off the front whole: the
/// receive loop gives back its payload and goes on with the bytes after it.
pub proof fn lemma_frame_then_more(payload: Seq<u8>, more: Seq<u8>)
    requires
        payload.len() < 65536,
        more.len() > 2,
    ensures
        frame_ready(frame_of(payload) + more),
        front_payload(frame_of(payload) + more) == payload,
        after_front(frame_of(payload) + more) == more,
        drains(frame_of(payload) + more) == drains(more),
        drained_payloads(frame_of(payload) + more) == seq![payload] + drained_payloads(more),
        drained_rest(frame_of(payload) + more) == drained_rest(more),
{
    let buf = frame_of(payload) + more;
    let n = payload.len();
    assert(buf[0] == ((n % 65536) / 256) as u8);
    assert(buf[1] == (n % 256) as u8);
    assert(announced_size(buf) == n);
    assert(front_payload(buf) =~= payload);
    assert(after_front(buf) =~= more);
}

/// A frame with nothing after it is never taken off: on a non-empty payload
/// the receive loop does not end, and an empty one stays in the buffer.
pub proof fn lemma_lone_frame_waits(payload: Seq<u8>)
    requires
        payload.len() < 65536,
    ensures
        !frame_ready(frame_of(payload)),
        payload.len() > 0 ==> !drains(frame_of(payload)),
        payload.len() == 0 ==> drained_rest(frame_of(payload)) == frame_of(payload),
{
    let buf = frame_of(payload);
    let n = payload.len();
    assert(buf[0] == ((n % 65536) / 256) as u8);
    assert(buf[1] == (n % 256) as u8);
    assert(announced_size(buf) == n);
}

/// Once the receive loop has taken a frame off a buffer it never ends on
/// it: more than two bytes follow every frame it takes, and they stay.
pub proof fn lemma_taken_frame_means_spinning(buf: Seq<u8>)
    requires
        drained_payloads(buf).len() > 0,
    ensures
        !drains(buf),
        drained_rest(buf).len() > 2,
    decreases buf.len(),
{
    lemma_drains_iff_short_rest(buf);
    let rest = after_front(buf);
    if drained_payloads(rest).len() > 0 {
        lemma_taken_frame_means_spinning(rest);
    } else {
        assert(rest.len() > 2);
        assert(drained_rest(rest) == rest);
    }
}

/// Frames sent one after the other, followed by more than two bytes, come
/// back as the same payloads in the same order.
#[verifier::rlimit(40)]
pub proof fn lemma_frames_round_trip(payloads: Seq<Seq<u8>>, more: Seq<u8>)
    requires
        forall|i: int| 0 <= i < payloads.len() ==> (#[trigger] payloads[i]).len() < 65536,
        more.len() > 2,
    ensures
        drains(frames_of(payloads) + more) == drains(more),
        drained_payloads(frames_of(payloads) + more) == payloads + drained_payloads(more),
        drained_rest(frames_of(payloads) + more) == drained_rest(more),
    decreases payloads.len(),
{
    if payloads.len() == 0 {
        assert(frames_of(payloads) + more =~= more);
        assert(payloads + drained_payloads(more) =~= drained_payloads(more));
    } else {
        let tail = payloads.drop_first();
        assert forall|i: int| 0 <= i < tail.len() implies (#[trigger] tail[i]).len() < 65536 by {
            assert(tail[i] == payloads[i + 1]);
        }
        lemma_frames_round_trip(tail, more);
        let rest = frames_of(tail) + more;
        assert(rest.len() > 2);
        lemma_frame_then_more(payloads[0], rest);
        assert(frames_of(payloads) + more =~= frame_of(payloads[0]) + rest);
        assert(payloads =~= seq![payloads[0]] + tail);
        assert(seq![payloads[0]] + (tail + drained_payloads(more)) =~= payloads + drained_payloads(more));
    }
}

/// How a pass of the receive loop over a connection's buffer ends.
#[derive(Clone, Copy, Debug, PartialEq, Eq, Structural)]
pub enum ReceiveEnd {
    /// At most two bytes stay: the loop waits for more input.
    Drained,
    /// More than two bytes stay but no frame is ready: the loop spins for ever.
    Spins,
    /// A payload is not valid UTF-8: the receiver stops.
    InvalidText,
    /// A payload is longer than a message may be: the receiver stops.
    Oversized,
}

/// Whether a payload becomes a message: valid UTF-8 of at most
/// [`MAX_MESSAGE_BYTES`] bytes.
pub open spec fn payload_accepted(payload: Seq<u8>) -> bool {
    valid_utf8(payload) && payload.len() <= MAX_MESSAGE_BYTES
}

/// How many payloads at the front of `payloads` become messages before the
/// first one that does not.
pub open spec fn accepted_prefix(payloads: Seq<Seq<u8>>) -> nat
    decreases payloads.len(),
{
    if payloads.len() == 0 {
        0
    } else if !payload_accepted(payloads[0]) {
        0
    } else {
        1 + accepted_prefix(payloads.drop_first())
    }
}

/// How the receive loop ends on `buf`: at the first payload that does not
/// become a message if there is one, else by draining or spinning.
pub open spec fn receive_end(buf: Seq<u8>) -> ReceiveEnd {
    let payloads = drained_payloads(buf);
    let k = accepted_prefix(payloads);
    if k < payloads.len() {
        if !valid_utf8(payloads[k as int]) {
            ReceiveEnd::InvalidText
        } else {
            ReceiveEnd::Oversized
        }
    } else if drains(buf) {
        ReceiveEnd::Drained
    } else {
        ReceiveEnd::Spins
    }
}

/// `m` is the message that `payload` becomes when the peer at `peer` sends it
/// to this end at `local`.
pub open spec fn received_as(m: Message, payload: Seq<u8>, local: Seq<char>, peer: Seq<char>) -> bool {
    &&& m.data@ == decode_utf8(payload)
    &&& m.sender@ == peer
    &&& m.recipient@ == local
    &&& m.options == MessageOptions::Plain
}

proof fn lemma_accepted_prefix_split(payloads: Seq<Seq<u8>>, i: int)
    requires
        0 <= i <= payloads.len(),
        forall|j: int| 0 <= j < i ==> payload_accepted(#[trigger] payloads[j]),
    ensures
        accepted_prefix(payloads) == i + accepted_prefix(payloads.subrange(i, payloads.len() as int)),
    decreases i,
{
    if i > 0 {
        let tail = payloads.drop_first();
        assert forall|j: int| 0 <= j < i - 1 implies payload_accepted(#[trigger] tail[j]) by {
            assert(tail[j] == payloads[j + 1]);
        }
        lemma_accepted_prefix_split(tail, i - 1);
        assert(tail.subrange(i - 1, tail.len() as int) =~= payloads.subrange(i, payloads.len() as int));
    } else {
        assert(payloads.subrange(0, payloads.len() as int) =~= payloads);
    }
}

/// The messages a pass delivers are those of the taken payloads before the
/// first one that is not valid UTF-8 or is longer than
/// [`MAX_MESSAGE_BYTES`] bytes; every valid payload within the limit, of any
/// script, becomes a message.
pub proof fn lemma_accepted_prefix_stops_at_first_fault(payloads: Seq<Seq<u8>>)
    ensures
        accepted_prefix(payloads) <= payloads.len(),
        forall|j: int| 0 <= j < accepted_prefix(payloads) ==> valid_utf8(#[trigger] payloads[j])
            && payloads[j].len() <= MAX_MESSAGE_BYTES,
        accepted_prefix(payloads) < payloads.len() ==> !(valid_utf8(payloads[accepted_prefix(payloads) as int])
            && payloads[accepted_prefix(payloads) as int].len() <= MAX_MESSAGE_BYTES),
    decreases payloads.len(),
{
    if payloads.len() > 0 && payload_accepted(payloads[0]) {
        let tail = payloads.drop_first();
        lemma_accepted_prefix_stops_at_first_fault(tail);
        assert forall|j: int| 0 <= j < accepted_prefix(payloads) implies valid_utf8(#[trigger] payloads[j])
            && payloads[j].len() <= MAX_MESSAGE_BYTES by {
            if j > 0 {
                assert(payloads[j] == tail[j - 1]);
            }
        }
        if accepted_prefix(payloads) < payloads.len() {
            assert(payloads[accepted_prefix(payloads) as int] == tail[accepted_prefix(tail) as int]);
        }
    }
}

/// How a pass of the receive loop ends, in terms of the payloads it takes:
/// it stops on the first payload that is not valid UTF-8 (`InvalidText`) or,
/// being valid, is longer than [`MAX_MESSAGE_BYTES`] bytes (`Oversized`);
/// with no such payload it ends normally exactly when at most two bytes stay,
/// and spins otherwise.
pub proof fn lemma_receive_end_cases(buf: Seq<u8>)
    ensures
        ({
            let ps = drained_payloads(buf);
            let k = accepted_prefix(ps) as int;
            &&& receive_end(buf) == ReceiveEnd::InvalidText <==> (k < ps.len() && !valid_utf8(ps[k]))
            &&& receive_end(buf) == ReceiveEnd::Oversized <==> (k < ps.len() && valid_utf8(ps[k])
                && ps[k].len() > MAX_MESSAGE_BYTES)
            &&& receive_end(buf) == ReceiveEnd::Drained <==> (k == ps.len() && drained_rest(buf).len() <= 2)
            &&& receive_end(buf) == ReceiveEnd::Spins <==> (k == ps.len() && drained_rest(buf).len() > 2)
        }),
{
    lemma_accepted_prefix_stops_at_first_fault(drained_payloads(buf));
    lemma_drains_iff_short_rest(buf);
}

proof fn lemma_first_rejected(payloads: Seq<Seq<u8>>, i: int)
    requires
        0 <= i < payloads.len(),
        forall|j: int| 0 <= j < i ==> payload_accepted(#[trigger] payloads[j]),
        !payload_accepted(payloads[i]),
    ensures
        accepted_prefix(payloads) == i,
{
    lemma_accepted_prefix_split(payloads, i);
    assert(payloads.subrange(i, payloads.len() as int)[0] == payloads[i]);
}

/// Declares `std::string::FromUtf8Error`, the error of [`string_from_utf8`].
#[verifier::external_type_specification]
#[verifier::external_body]
pub struct ExFromUtf8Error(std::string::FromUtf8Error);

/// Calls `String::from_utf8` on a copy of `bytes`. Its documentation: it
/// succeeds exactly on valid UTF-8, and the string then holds the characters
/// that the bytes encode.
#[verifier::external_body]
fn string_from_utf8(bytes: &[u8]) -> (res: Result<String, std::string::FromUtf8Error>)
    ensures
        res is Ok <==> valid_utf8(bytes@),
        res matches Ok(s) ==> s@ == decode_utf8(bytes@),
{
    String::from_utf8(bytes.to_vec())
}

/// One pass of the receive loop over `buffer`, which holds what a peer at
/// `peer_addr` has sent to this end at `local_addr`: takes the ready frames
/// off the front and turns their payloads into messages, in order, up to the
/// first payload that is not valid UTF-8 or is too long. Says how the pass
/// ends.
pub fn receive_frames(buffer: &mut Vec<u8>, local_addr: &String, peer_addr: &String) -> (res: (Vec<Message>, ReceiveEnd))
    ensures
        final(buffer)@ == drained_rest(old(buffer)@),
        res.0.len() == accepted_prefix(drained_payloads(old(buffer)@)),
        forall|i: int| 0 <= i < res.0.len() ==> received_as(#[trigger] res.0@[i],
            drained_payloads(old(buffer)@)[i], local_addr@, peer_addr@),
        res.1 == receive_end(old(buffer)@),
        forall|i: int| 0 <= i < res.0.len() ==> valid_utf8(#[trigger] drained_payloads(old(buffer)@)[i])
            && drained_payloads(old(buffer)@)[i].len() <= MAX_MESSAGE_BYTES
            && encode_utf8(res.0@[i].data@) == drained_payloads(old(buffer)@)[i],
        res.0.len() < drained_payloads(old(buffer)@).len() ==> !(valid_utf8(drained_payloads(old(buffer)@)[res.0.len() as int])
            && drained_payloads(old(buffer)@)[res.0.len() as int].len() <= MAX_MESSAGE_BYTES),
{
    let ghost start = buffer@;
    let payloads = drain_frames(buffer);
    let ghost ps = drained_payloads(start);
    proof {
        lemma_accepted_prefix_stops_at_first_fault(ps);
        assert forall|i: int| 0 <= i < accepted_prefix(ps) implies encode_utf8(decode_utf8(#[trigger] ps[i])) == ps[i] by {
            decode_utf8_encode_utf8(ps[i]);
        }
    }
    assert(forall|j: int| 0 <= j < payloads.len() ==> #[trigger] payloads@[j]@ == ps[j]);
    let mut messages: Vec<Message> = Vec::new();
    let mut i: usize = 0;
    proof {
        lemma_accepted_prefix_split(ps, 0);
    }
    while i < payloads.len()
        invariant
            byte_views(payloads@) == ps,
            start == old(buffer)@,
            ps == drained_payloads(start),
            buffer@ == drained_rest(start),
            i <= payloads.len(),
            messages.len() == i,
            forall|j: int| 0 <= j < i ==> payload_accepted(#[trigger] ps[j]),
            forall|j: int| 0 <= j < i ==> received_as(#[trigger] messages@[j], ps[j], local_addr@, peer_addr@),
            forall|j: int| 0 <= j < i ==> encode_utf8((#[trigger] messages@[j]).data@) == ps[j],
        decreases payloads.len() - i,
    {
        let payload = &payloads[i];
        assert(payload@ == ps[i as int]);
        let size = payload.len();
        match string_from_utf8(payload.as_slice()) {
            Ok(text) => {
                if size > MAX_MESSAGE_BYTES as usize {
                    proof {
                        lemma_first_rejected(ps, i as int);
                    }
                    return (messages, ReceiveEnd::Oversized);
                }
                proof {
                    decode_utf8_encode_utf8(ps[i as int]);
                }
                let message = match Message::new(text, local_addr.clone(), peer_addr.clone()) {
                    Ok(m) => m,
                    Err(_) => {
                        proof { assert(false); }
                        Message::shutdown()
                    },
                };
                messages.push(message);
                i = i + 1;
            },
            Err(_) => {
                proof {
                    lemma_first_rejected(ps, i as int);
                }
                return (messages, ReceiveEnd::InvalidText);
            },
        }
    }
    proof {
        lemma_accepted_prefix_split(ps, i as int);
        assert(ps.subrange(i as int, ps.len() as int).len() == 0);
    }
    if buffer.len() <= 2 {
        (messages, ReceiveEnd::Drained)
    } else {
        (messages, ReceiveEnd::Spins)
    }
}

/// The messages of `messages` not addressed to `addr`, in order.
pub open spec fn not_for(messages: Seq<Message>, addr: Seq<char>) -> Seq<Message>
    decreases messages.len(),
{
    if messages.len() == 0 {
        Seq::empty()
    } else {
        let rest = not_for(messages.drop_last(), addr);
        if messages.last().recipient@ == addr {
            rest
        } else {
            rest.push(messages.last())
        }
    }
}

/// The frames that carry the messages of `messages` addressed to `addr`, in
/// order.
pub open spec fn frames_for(messages: Seq<Message>, addr: Seq<char>) -> Seq<Seq<u8>>
    decreases messages.len(),
{
    if messages.len() == 0 {
        Seq::empty()
    } else {
        let rest = frames_for(messages.drop_last(), addr);
        if messages.last().recipient@ == addr {
            rest.push(frame_of(encode_utf8(messages.last().data@)))
        } else {
            rest
        }
    }
}

/// Handing a peer its messages loses none and invents none: every message
/// either stays or leaves as exactly one frame.
pub proof fn lemma_take_conserves(messages: Seq<Message>, addr: Seq<char>)
    ensures
        not_for(messages, addr).len() + frames_for(messages, addr).len() == messages.len(),
    decreases messages.len(),
{
    if messages.len() > 0 {
        lemma_take_conserves(messages.drop_last(), addr);
    }
}

/// The messages that stay are exactly those of `messages` not addressed to
/// `addr`, in order, and the frames are those of exactly the messages
/// addressed to `addr`, in order: each carries its message's UTF-8 text.
pub proof fn lemma_take_is_partition(messages: Seq<Message>, addr: Seq<char>)
    ensures
        not_for(messages, addr) == messages.filter(|m: Message| m.recipient@ != addr),
        frames_for(messages, addr) == messages.filter_map(|m: Message|
            if m.recipient@ == addr { Some(frame_of(encode_utf8(m.data@))) } else { None }),
        forall|i: int| 0 <= i < not_for(messages, addr).len() ==> (#[trigger] not_for(messages, addr)[i]).recipient@ != addr,
    decreases messages.len(),
{
    reveal(Seq::filter);
    if messages.len() > 0 {
        lemma_take_is_partition(messages.drop_last(), addr);
    }
    let kept = not_for(messages, addr);
    assert(kept == messages.filter(|m: Message| m.recipient@ != addr));
    assert forall|i: int| 0 <= i < kept.len() implies (#[trigger] kept[i]).recipient@ != addr by {
        messages.lemma_filter_pred(|m: Message| m.recipient@ != addr, i);
    }
}

/// Takes the messages addressed to the peer at `addr` out of `messages` and
/// returns the frames to write to it, in order; the others stay, in order.
pub fn take_messages_for(messages: &mut Vec<Message>, addr: &String) -> (frames: Vec<Vec<u8>>)
    ensures
        final(messages)@ == not_for(old(messages)@, addr@),
        byte_views(frames@) == frames_for(old(messages)@, addr@),
        forall|i: int| 0 <= i < final(messages)@.len() ==> (#[trigger] final(messages)@[i]).recipient@ != addr@,
        final(messages)@.len() + frames@.len() == old(messages)@.len(),
        final(messages)@ == old(messages)@.filter(|m: Message| m.recipient@ != addr@),
        byte_views(frames@) == old(messages)@.filter_map(|m: Message|
            if m.recipient@ == addr@ { Some(frame_of(encode_utf8(m.data@))) } else { None }),
{
    let ghost all = messages@;
    let mut kept: Vec<Message> = Vec::new();
    let mut frames: Vec<Vec<u8>> = Vec::new();
    let mut i: usize = 0;
    assert(all.take(0) =~= Seq::<Message>::empty());
    assert(byte_views(frames@) =~= Seq::<Seq<u8>>::empty());
    while i < messages.len()
        invariant
            messages@ == all,
            i <= all.len(),
            kept@ == not_for(all.take(i as int), addr@),
            byte_views(frames@) == frames_for(all.take(i as int), addr@),
        decreases all.len() - i,
    {
        let ghost prefix = all.take(i as int + 1);
        assert(prefix.drop_last() =~= all.take(i as int));
        assert(prefix.last() == all[i as int]);
        let m = &messages[i];
        if m.recipient == *addr {
            let frame = encode_frame(m.data.as_str());
            let ghost before = byte_views(frames@);
            frames.push(frame);
            assert(byte_views(frames@) =~= before.push(frame_of(encode_utf8(all[i as int].data@))));
        } else {
            kept.push(m.clone());
        }
        i = i + 1;
    }
    assert(all.take(all.len() as int) =~= all);
    proof {
        let a = addr@;
        lemma_take_is_partition(all, a);
        lemma_take_conserves(all, a);
        assert((|m: Message| m.recipient@ != addr@) =~= (|m: Message| m.recipient@ != a));
        assert((|m: Message| if m.recipient@ == addr@ { Some(frame_of(encode_utf8(m.data@))) } else { None })
            =~= (|m: Message| if m.recipient@ == a { Some(frame_of(encode_utf8(m.data@))) } else { None }));
    }
    *messages = kept;
    frames
}

} // verus!
