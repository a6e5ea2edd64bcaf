//! Properties of whole transfers: round trip, empty input, sequence
//! wraparound, retries, cancellation.

use vstd::prelude::*;
use crate::port::ErrorKind;
use crate::progress::Progress;
use crate::protocol::{
    chunk_len, complement, failed, frame, join, next_seq, padded, receive_exchange, receive_session,
    send_exchange, send_session, zeros, Exchange, ACK, ATTEMPTS, CAN, EOT, NAK, PACKET_LEN, SOH,
};

verus! {

/// What a sender writes for `data` from sequence number `seq` on, when the
/// receiver acknowledges every packet at once.
pub open spec fn wire(seq: u8, data: Seq<u8>) -> Seq<u8>
    decreases data.len(),
{
    if data.len() == 0 {
        seq![EOT, EOT]
    } else {
        frame(seq, padded(data.take(chunk_len(data) as int)))
            + wire(next_seq(seq), data.skip(chunk_len(data) as int))
    }
}

/// What a receiver that acknowledges every packet of `data` at once answers
/// after its opening NAK: one ACK per packet, then NAK and ACK for the end
/// of transmission.
pub open spec fn acks(data: Seq<u8>) -> Seq<u8>
    decreases data.len(),
{
    if data.len() == 0 {
        seq![NAK, ACK]
    } else {
        seq![ACK] + acks(data.skip(chunk_len(data) as int))
    }
}

/// The `Packet` events of a sender of `data` from sequence number `seq` on,
/// when every packet is acknowledged at once: each names its own packet.
pub open spec fn sent_events(seq: u8, data: Seq<u8>) -> Seq<Progress>
    decreases data.len(),
{
    if data.len() == 0 {
        seq![]
    } else {
        seq![Progress::Packet(seq)] + sent_events(next_seq(seq), data.skip(chunk_len(data) as int))
    }
}

/// The `Packet` events of a receiver of `wire(seq, data)`: each names the
/// sequence number that it expects next.
pub open spec fn received_events(seq: u8, data: Seq<u8>) -> Seq<Progress>
    decreases data.len(),
{
    if data.len() == 0 {
        seq![]
    } else {
        seq![Progress::Packet(next_seq(seq))] + received_events(next_seq(seq), data.skip(chunk_len(data) as int))
    }
}

/// `data` padded with zeros to a whole number of packets.
pub open spec fn padded_packets(data: Seq<u8>) -> Seq<u8> {
    data + zeros(((PACKET_LEN - data.len() % 128) % 128) as nat)
}

/// A sender's session as seen with the opening NAK read in front of it,
/// and the events of that handshake reported first.
pub open spec fn shifted(e: Exchange) -> Exchange {
    Exchange { consumed: e.consumed + 1, events: seq![Progress::Waiting, Progress::Started] + e.events, ..e }
}

/// A receiver's session on `rd` with its opening NAK written in front, and
/// `Started` reported first if a packet starts it.
pub open spec fn opened(e: Exchange, rd: Seq<u8>) -> Exchange {
    Exchange {
        written: seq![NAK] + e.written,
        events: if rd.len() > 0 && rd[0] == SOH { seq![Progress::Started] + e.events } else { e.events },
        ..e
    }
}

proof fn lemma_padded_len(chunk: Seq<u8>)
    requires
        chunk.len() <= PACKET_LEN,
    ensures
        padded(chunk).len() == PACKET_LEN,
{
}

/// The first packet of `data` followed by the rest, padded, is `data` padded.
proof fn lemma_padded_split(data: Seq<u8>)
    requires
        data.len() > 0,
    ensures
        padded(data.take(chunk_len(data) as int)) + padded_packets(data.skip(chunk_len(data) as int))
            == padded_packets(data),
{
    let n = chunk_len(data) as int;
    if data.len() < 128 {
        assert(data.skip(n) =~= Seq::<u8>::empty());
        assert(data.take(n) =~= data);
        assert(padded_packets(data.skip(n)) =~= Seq::<u8>::empty());
        assert(padded(data.take(n)) + padded_packets(data.skip(n)) =~= padded_packets(data));
    } else {
        assert(padded(data.take(n)) =~= data.take(n));
        assert((data.len() - 128) % 128 == data.len() % 128) by (nonlinear_arith)
            requires data.len() >= 128;
        assert(data.take(n) + padded_packets(data.skip(n)) =~= padded_packets(data));
    }
}

/// A sender that has had its opening NAK, answered as `acks` says, sends
/// `wire` and succeeds.
proof fn lemma_send_acked(seq: u8, data: Seq<u8>)
    ensures
        send_session(seq, true, data, ATTEMPTS as nat, acks(data))
            == (Exchange {
                result: Ok(0),
                written: wire(seq, data),
                consumed: acks(data).len(),
                payload: seq![],
                events: sent_events(seq, data),
            }),
    decreases data.len(),
{
    if data.len() > 0 {
        let n = chunk_len(data);
        let p = padded(data.take(n as int));
        lemma_padded_len(data.take(n as int));
        let rest = data.skip(n as int);
        assert(acks(data).skip(1) =~= acks(rest));
        lemma_send_acked(next_seq(seq), rest);
        assert(Seq::<u8>::empty() + Seq::<u8>::empty() =~= Seq::<u8>::empty());
    }
}

/// A receiver that has sent its opening NAK, fed `wire`, answers as `acks`
/// says and delivers the data padded to whole packets.
proof fn lemma_receive_wire(seq: u8, data: Seq<u8>)
    ensures
        receive_session(seq, true, ATTEMPTS as nat, wire(seq, data))
            == (Exchange {
                result: Ok(0),
                written: acks(data),
                consumed: wire(seq, data).len(),
                payload: padded_packets(data),
                events: received_events(seq, data),
            }),
    decreases data.len(),
{
    let w = wire(seq, data);
    if data.len() == 0 {
        assert(padded_packets(data) =~= Seq::<u8>::empty());
    } else {
        let n = chunk_len(data);
        let p = padded(data.take(n as int));
        lemma_padded_len(data.take(n as int));
        let rest = data.skip(n as int);
        lemma_receive_wire(next_seq(seq), rest);
        assert(w.subrange(3, 131) =~= p);
        assert(w[0] == SOH);
        assert(w[1] == seq);
        assert(w[2] == complement(seq));
        assert(w[131] == crate::protocol::checksum(p));
        assert(w.skip(132) =~= wire(next_seq(seq), rest));
        lemma_padded_split(data);
    }
}

/// A sender before its handshake, reading NAK and then `rd`, does what a
/// sender after it does on `rd`, with that one byte more read.
proof fn lemma_send_opening(seq: u8, data: Seq<u8>, tries: nat, rd: Seq<u8>)
    ensures
        send_session(seq, false, data, tries, seq![NAK] + rd) == shifted(send_session(seq, true, data, tries, rd)),
{
    let x = seq![NAK] + rd;
    assert(x.drop_first() =~= rd);
    if data.len() > 0 {
        let n = chunk_len(data);
        let e = send_exchange(seq, true, padded(data.take(n as int)), rd);
        let rest_rd = rd.skip(e.consumed as int);
        assert(x.skip((e.consumed + 1) as int) =~= rest_rd);
        let ws = seq![Progress::Waiting, Progress::Started];
        let r1 = send_session(next_seq(seq), true, data.skip(n as int), ATTEMPTS as nat, rest_rd);
        let r2 = send_session(seq, true, data, (tries - 1) as nat, rest_rd);
        assert(ws + e.events + r1.events =~= ws + (e.events + r1.events));
        assert(ws + e.events + r2.events =~= ws + (e.events + r2.events));
    }
}

/// A receiver before its handshake does what one after it does, with its
/// opening NAK written in front.
proof fn lemma_receive_opening(seq: u8, tries: nat, rd: Seq<u8>)
    ensures
        receive_session(seq, false, tries, rd) == opened(receive_session(seq, true, tries, rd), rd),
{
    let e = receive_exchange(seq, true, rd);
    let rest_rd = rd.skip(e.consumed as int);
    if e.result == Ok::<usize, ErrorKind>(128) {
        let r = receive_session(next_seq(seq), true, ATTEMPTS as nat, rest_rd);
        assert(seq![NAK] + e.written + r.written =~= seq![NAK] + (e.written + r.written));
        assert(seq![Progress::Started] + e.events + r.events =~= seq![Progress::Started] + (e.events + r.events));
    } else if e.result == Err::<usize, ErrorKind>(ErrorKind::Interrupted) && tries > 1 {
        let r = receive_session(seq, true, (tries - 1) as nat, rest_rd);
        assert(seq![NAK] + e.written + r.written =~= seq![NAK] + (e.written + r.written));
        assert(seq![Progress::Started] + e.events + r.events =~= seq![Progress::Started] + (e.events + r.events));
    }
}

/// Round trip: a sender of `data` and a receiver that answer each other
/// (what either one writes is what the other reads) both succeed. The
/// sender writes `wire(1, data)` and so reports the length of `data`; the
/// receiver delivers `data` padded with zeros to whole packets.
pub proof fn lemma_round_trip(data: Seq<u8>)
    ensures
        ({
            let tx = send_session(1, false, data, ATTEMPTS as nat, seq![NAK] + acks(data));
            let rx = receive_session(1, false, ATTEMPTS as nat, tx.written);
            &&& tx.result is Ok
            &&& tx.written == wire(1, data)
            &&& rx.result is Ok
            &&& rx.written == seq![NAK] + acks(data)
            &&& tx.consumed == rx.written.len()
            &&& rx.consumed == tx.written.len()
            &&& rx.payload == padded_packets(data)
            &&& tx.events == seq![Progress::Waiting, Progress::Started] + sent_events(1, data)
            &&& rx.events == (if data.len() > 0 { seq![Progress::Started] } else { seq![] }) + received_events(1, data)
        }),
{
    lemma_send_opening(1, data, ATTEMPTS as nat, acks(data));
    lemma_send_acked(1, data);
    lemma_receive_opening(1, ATTEMPTS as nat, wire(1, data));
    lemma_receive_wire(1, data);
    if data.len() == 0 {
        assert(Seq::<Progress>::empty() + received_events(1, data) =~= received_events(1, data));
    }
}

/// Empty input: a send of nothing is the end-of-transmission handshake
/// alone. Against a receiver that follows the protocol it writes EOT twice
/// and succeeds, so the send reports 0 bytes.
pub proof fn lemma_empty_send(seq: u8, started: bool, tries: nat, rd: Seq<u8>)
    ensures
        send_session(seq, started, Seq::<u8>::empty(), tries, rd) == send_exchange(seq, started, Seq::<u8>::empty(), rd),
        send_session(seq, false, Seq::<u8>::empty(), tries, seq![NAK, NAK, ACK])
            == (Exchange {
                result: Ok(0),
                written: seq![EOT, EOT],
                consumed: 3,
                payload: seq![],
                events: seq![Progress::Waiting, Progress::Started],
            }),
{
    assert(seq![NAK, NAK, ACK].drop_first() =~= seq![NAK, ACK]);
    assert(seq![Progress::Waiting, Progress::Started] + Seq::<Progress>::empty()
        =~= seq![Progress::Waiting, Progress::Started]);
}

/// In `wire(seq, data)`, packet `k` (from 0) carries the sequence number
/// `(seq + k) % 256` and its complement.
pub proof fn lemma_wire_sequence(seq: u8, data: Seq<u8>, k: nat)
    requires
        data.len() > 128 * k,
    ensures
        wire(seq, data).len() >= 132 * k + 3,
        wire(seq, data).subrange((132 * k) as int, (132 * k + 3) as int)
            == seq![SOH, ((seq + k) % 256) as u8, complement(((seq + k) % 256) as u8)],
    decreases k,
{
    let w = wire(seq, data);
    let n = chunk_len(data);
    lemma_padded_len(data.take(n as int));
    if k == 0 {
        assert(w.subrange(0, 3) =~= seq![SOH, seq, complement(seq)]);
    } else {
        let rest = data.skip(n as int);
        assert(n == 128);
        lemma_wire_sequence(next_seq(seq), rest, (k - 1) as nat);
        vstd::arithmetic::div_mod::lemma_add_mod_noop(seq + 1, k - 1, 256);
        vstd::arithmetic::div_mod::lemma_add_mod_noop((seq + 1) % 256, k - 1, 256);
        assert(((next_seq(seq) + (k - 1)) % 256) == ((seq + k) % 256));
        let f = frame(seq, padded(data.take(n as int)));
        assert(f.len() == 132);
        assert(w == f + wire(next_seq(seq), rest));
        assert(w.subrange((132 * k) as int, (132 * k + 3) as int) =~= wire(next_seq(seq), rest).subrange(
            (132 * (k - 1)) as int, (132 * (k - 1) + 3) as int));
    }
}

/// Sequence wraparound: in a transfer from sequence number 1, packet 256
/// carries sequence number 0 and complement 255, and the transfer still
/// goes through as the round trip says.
pub proof fn lemma_wraparound(data: Seq<u8>)
    requires
        data.len() > 255 * 128,
    ensures
        wire(1, data).subrange(255 * 132int, 255 * 132int + 3) == seq![SOH, 0u8, 255u8],
        send_session(1, false, data, ATTEMPTS as nat, seq![NAK] + acks(data)).result is Ok,
        receive_session(1, false, ATTEMPTS as nat, wire(1, data)).payload == padded_packets(data),
{
    lemma_wire_sequence(1, data, 255);
    lemma_round_trip(data);
}

/// One rejection, one resend: a sender whose packet the receiver rejects
/// once sends that same packet, with the same sequence number, once more,
/// and then goes on with the next packet; nothing before it is sent again.
pub proof fn lemma_resend_once(seq: u8, data: Seq<u8>, tries: nat, rd: Seq<u8>)
    requires
        data.len() > 0,
        tries > 1,
    ensures
        ({
            let f = frame(seq, padded(data.take(chunk_len(data) as int)));
            let rest = send_session(next_seq(seq), true, data.skip(chunk_len(data) as int), ATTEMPTS as nat, rd);
            send_session(seq, true, data, tries, seq![NAK, ACK] + rd) == (Exchange {
                result: rest.result,
                written: f + f + rest.written,
                consumed: rest.consumed + 2,
                payload: rest.payload,
                events: seq![Progress::Packet(seq)] + rest.events,
            })
        }),
{
    let n = chunk_len(data);
    lemma_padded_len(data.take(n as int));
    let x = seq![NAK, ACK] + rd;
    assert(x.skip(1) =~= seq![ACK] + rd);
    assert((seq![ACK] + rd).skip(1) =~= rd);
    let f = frame(seq, padded(data.take(n as int)));
    let rest = send_session(next_seq(seq), true, data.skip(n as int), ATTEMPTS as nat, rd);
    let e1 = send_exchange(seq, true, padded(data.take(n as int)), x);
    let e2 = send_exchange(seq, true, padded(data.take(n as int)), seq![ACK] + rd);
    assert(e1 == failed(ErrorKind::Interrupted, f, 1));
    assert(e2 == (Exchange {
        result: Ok(128),
        written: f,
        consumed: 1,
        payload: seq![],
        events: seq![Progress::Packet(seq)],
    }));
    assert(send_session(seq, true, data, (tries - 1) as nat, seq![ACK] + rd) == join(e2, rest));
    assert(send_session(seq, true, data, tries, x) == join(e1, join(e2, rest)));
    assert(f + (f + rest.written) =~= f + f + rest.written);
    assert(Seq::<u8>::empty() + (Seq::<u8>::empty() + rest.payload) =~= rest.payload);
    assert(Seq::<Progress>::empty() + (seq![Progress::Packet(seq)] + rest.events)
        =~= seq![Progress::Packet(seq)] + rest.events);
}

/// One bad checksum, one more read: a receiver that gets a packet with a
/// wrong checksum answers NAK and expects the same sequence number again;
/// the packet sent again is accepted and the transfer goes on.
pub proof fn lemma_reread_once(seq: u8, payload: Seq<u8>, bad: u8, tries: nat, rd: Seq<u8>)
    requires
        payload.len() == PACKET_LEN,
        bad != crate::protocol::checksum(payload),
        tries > 1,
    ensures
        ({
            let attempt = seq![SOH, seq, complement(seq)] + payload + seq![bad];
            let rest = receive_session(next_seq(seq), true, ATTEMPTS as nat, rd);
            receive_session(seq, true, tries, attempt + (frame(seq, payload) + rd)) == (Exchange {
                result: rest.result,
                written: seq![NAK, ACK] + rest.written,
                consumed: rest.consumed + 264,
                payload: payload + rest.payload,
                events: seq![Progress::Packet(next_seq(seq))] + rest.events,
            })
        }),
{
    let attempt = seq![SOH, seq, complement(seq)] + payload + seq![bad];
    let x = attempt + (frame(seq, payload) + rd);
    assert(x.subrange(3, 131) =~= payload);
    assert(x[131] == bad);
    let y = x.skip(132);
    assert(y =~= frame(seq, payload) + rd);
    assert(y.subrange(3, 131) =~= payload);
    assert(y[131] == crate::protocol::checksum(payload));
    assert(y.skip(132) =~= rd);
    let rest = receive_session(next_seq(seq), true, ATTEMPTS as nat, rd);
    let e1 = receive_exchange(seq, true, x);
    let e2 = receive_exchange(seq, true, y);
    assert(e1 == failed(ErrorKind::Interrupted, seq![NAK], 132));
    assert(e2 == (Exchange {
        result: Ok(128),
        written: seq![ACK],
        consumed: 132,
        payload: payload,
        events: seq![Progress::Packet(next_seq(seq))],
    }));
    assert(receive_session(seq, true, (tries - 1) as nat, y) == join(e2, rest));
    assert(receive_session(seq, true, tries, x) == join(e1, join(e2, rest)));
    assert(seq![NAK] + (seq![ACK] + rest.written) =~= seq![NAK, ACK] + rest.written);
    assert(Seq::<u8>::empty() + (payload + rest.payload) =~= payload + rest.payload);
    assert(Seq::<Progress>::empty() + (seq![Progress::Packet(next_seq(seq))] + rest.events)
        =~= seq![Progress::Packet(next_seq(seq))] + rest.events);
}

/// Cancel: a cancel byte read where a handshake byte is expected ends the
/// transfer at once with `ConnectionAborted`, and nothing more is written
/// than was written before it.
pub proof fn lemma_cancel(seq: u8, data: Seq<u8>, tries: nat, rd: Seq<u8>)
    ensures
        send_session(seq, false, data, tries, seq![CAN] + rd)
            == (Exchange { events: seq![Progress::Waiting], ..failed(ErrorKind::ConnectionAborted, seq![], 1) }),
        send_session(seq, true, Seq::<u8>::empty(), tries, seq![CAN] + rd)
            == failed(ErrorKind::ConnectionAborted, seq![EOT], 1),
        send_session(seq, true, Seq::<u8>::empty(), tries, seq![NAK, CAN] + rd)
            == failed(ErrorKind::ConnectionAborted, seq![EOT, EOT], 2),
        data.len() > 0 ==> send_session(seq, true, data, tries, seq![CAN] + rd)
            == failed(ErrorKind::ConnectionAborted, frame(seq, padded(data.take(chunk_len(data) as int))), 1),
        receive_session(seq, false, tries, seq![CAN] + rd) == failed(ErrorKind::ConnectionAborted, seq![NAK], 1),
        receive_session(seq, true, tries, seq![CAN] + rd) == failed(ErrorKind::ConnectionAborted, seq![], 1),
        receive_session(seq, true, tries, seq![EOT, CAN] + rd)
            == failed(ErrorKind::ConnectionAborted, seq![NAK], 2),
{
    if data.len() > 0 {
        lemma_padded_len(data.take(chunk_len(data) as int));
    }
    assert((seq![NAK, CAN] + rd)[1] == CAN);
    assert(seq![EOT] + Seq::<u8>::empty() =~= seq![EOT]);
    assert(seq![EOT, EOT] + Seq::<u8>::empty() =~= seq![EOT, EOT]);
    assert(seq![NAK] + Seq::<u8>::empty() =~= seq![NAK]);
    assert(frame(seq, padded(data.take(chunk_len(data) as int))) + Seq::<u8>::empty()
        =~= frame(seq, padded(data.take(chunk_len(data) as int))));
}

/// `s` written `n` times.
pub open spec fn repeat(s: Seq<u8>, n: nat) -> Seq<u8>
    decreases n,
{
    if n == 0 {
        seq![]
    } else {
        s + repeat(s, (n - 1) as nat)
    }
}

/// Retries run out on the sender's side: a packet that the receiver
/// rejects on each of the `tries` attempts left fails the send with
/// `BrokenPipe`, after the same packet was sent `tries` times. A send
/// gives each packet `ATTEMPTS` attempts.
pub proof fn lemma_rejections_break(seq: u8, data: Seq<u8>, tries: nat, rd: Seq<u8>)
    requires
        data.len() > 0,
        tries >= 1,
    ensures
        send_session(seq, true, data, tries, repeat(seq![NAK], tries) + rd) == failed(
            ErrorKind::BrokenPipe, repeat(frame(seq, padded(data.take(chunk_len(data) as int))), tries), tries),
    decreases tries,
{
    let f = frame(seq, padded(data.take(chunk_len(data) as int)));
    lemma_padded_len(data.take(chunk_len(data) as int));
    let x = repeat(seq![NAK], tries) + rd;
    assert(x[0] == NAK);
    if tries == 1 {
        assert(repeat(f, 1) =~= f);
    } else {
        assert(x.skip(1) =~= repeat(seq![NAK], (tries - 1) as nat) + rd);
        lemma_rejections_break(seq, data, (tries - 1) as nat, rd);
    }
}

/// Retries run out on the receiver's side: a packet whose checksum is wrong
/// on each of the `tries` attempts left fails the receive with
/// `BrokenPipe`, after a NAK for each. A receive gives each packet
/// `ATTEMPTS` attempts.
pub proof fn lemma_bad_checksums_break(seq: u8, payload: Seq<u8>, bad: u8, tries: nat, rd: Seq<u8>)
    requires
        payload.len() == PACKET_LEN,
        bad != crate::protocol::checksum(payload),
        tries >= 1,
    ensures
        receive_session(seq, true, tries, repeat(seq![SOH, seq, complement(seq)] + payload + seq![bad], tries) + rd)
            == (Exchange {
                result: Err(ErrorKind::BrokenPipe),
                written: repeat(seq![NAK], tries),
                consumed: 132 * tries,
                payload: seq![],
                events: seq![],
            }),
    decreases tries,
{
    let attempt = seq![SOH, seq, complement(seq)] + payload + seq![bad];
    let x = repeat(attempt, tries) + rd;
    assert(repeat(attempt, tries) == attempt + repeat(attempt, (tries - 1) as nat));
    assert(x =~= attempt + (repeat(attempt, (tries - 1) as nat) + rd));
    assert(x.subrange(3, 131) =~= payload);
    assert(x[131] == bad);
    if tries == 1 {
        assert(repeat(seq![NAK], 0) =~= Seq::<u8>::empty());
        assert(repeat(seq![NAK], 1) =~= seq![NAK]);
    } else {
        assert(x.skip(132) =~= repeat(attempt, (tries - 1) as nat) + rd);
        lemma_bad_checksums_break(seq, payload, bad, (tries - 1) as nat, rd);
    }
}

} // verus!
