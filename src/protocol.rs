//! The wire format and what each call and each whole transfer does, as
//! functions of the bytes read from the peer.

use vstd::prelude::*;
use crate::port::ErrorKind;
use crate::progress::Progress;

verus! {

/// Start of a data packet.
pub const SOH: u8 = 0x01;
/// End of transmission.
pub const EOT: u8 = 0x04;
/// Acknowledgement.
pub const ACK: u8 = 0x06;
/// Not ready: asks the sender to start, or to send a packet again.
pub const NAK: u8 = 0x15;
/// Cancel.
pub const CAN: u8 = 0x18;

/// Payload bytes in every packet.
pub const PACKET_LEN: usize = 128;

/// Attempts that a transfer makes on one packet before it gives up.
pub const ATTEMPTS: usize = 10;

/// Addition of two bytes modulo 256.
pub open spec fn add8(a: u8, b: u8) -> u8 {
    ((a + b) % 256) as u8
}

/// The checksum of a payload: the sum of its bytes modulo 256.
pub open spec fn checksum(s: Seq<u8>) -> u8
    decreases s.len(),
{
    if s.len() == 0 {
        0
    } else {
        add8(checksum(s.drop_last()), s.last())
    }
}

/// The sequence number that follows `s`, modulo 256.
pub open spec fn next_seq(s: u8) -> u8 {
    ((s + 1) % 256) as u8
}

/// The one's complement of a sequence number.
pub open spec fn complement(s: u8) -> u8 {
    (255 - s) as u8
}

/// A data packet on the wire.
pub open spec fn frame(seq: u8, payload: Seq<u8>) -> Seq<u8> {
    seq![SOH, seq, complement(seq)] + payload + seq![checksum(payload)]
}

/// `n` zero bytes.
pub open spec fn zeros(n: nat) -> Seq<u8> {
    Seq::new(n, |i: int| 0u8)
}

/// A chunk of at most one packet, padded with zeros to a full packet.
pub open spec fn padded(chunk: Seq<u8>) -> Seq<u8> {
    chunk + zeros((PACKET_LEN - chunk.len()) as nat)
}

/// How the local side fails on a byte `b` that it did not expect: the peer
/// cancelled if `b` is the cancel byte, else the framing is broken.
pub open spec fn refusal(b: u8) -> ErrorKind {
    if b == CAN {
        ErrorKind::ConnectionAborted
    } else {
        ErrorKind::InvalidData
    }
}

/// What the local side writes on an unexpected byte `b`: a cancel byte,
/// unless the peer cancelled already.
pub open spec fn refusal_bytes(b: u8) -> Seq<u8> {
    if b == CAN {
        seq![]
    } else {
        seq![CAN]
    }
}

/// One call of a packet primitive seen from outside: what it returned, the
/// bytes it wrote, how many bytes it read, (for a receive) the payload it
/// delivered, and the progress events it reported.
pub struct Exchange {
    pub result: Result<usize, ErrorKind>,
    pub written: Seq<u8>,
    pub consumed: nat,
    pub payload: Seq<u8>,
    pub events: Seq<Progress>,
}

/// An exchange that writes `written` after `consumed` bytes and fails with `k`.
pub open spec fn failed(k: ErrorKind, written: Seq<u8>, consumed: nat) -> Exchange {
    Exchange { result: Err(k), written, consumed, payload: seq![], events: seq![] }
}

/// An exchange that ends because the stream ran out after `consumed` bytes.
pub open spec fn ran_out(written: Seq<u8>, consumed: nat) -> Exchange {
    failed(ErrorKind::UnexpectedEof, written, consumed)
}

/// The sender's part after its handshake, where `rd` is what it reads from
/// the peer. A payload of neither 0 nor 128 bytes is refused before any
/// byte is written.
pub open spec fn send_body(seq: u8, payload: Seq<u8>, rd: Seq<u8>) -> Exchange {
    if payload.len() != 0 && payload.len() != PACKET_LEN {
        failed(ErrorKind::UnexpectedEof, seq![], 0)
    } else if payload.len() == 0 {
        if rd.len() == 0 {
            ran_out(seq![EOT], 0)
        } else if rd[0] != NAK {
            failed(refusal(rd[0]), seq![EOT] + refusal_bytes(rd[0]), 1)
        } else if rd.len() == 1 {
            ran_out(seq![EOT, EOT], 1)
        } else if rd[1] != ACK {
            failed(refusal(rd[1]), seq![EOT, EOT] + refusal_bytes(rd[1]), 2)
        } else {
            Exchange { result: Ok(0), written: seq![EOT, EOT], consumed: 2, payload: seq![], events: seq![] }
        }
    } else {
        if rd.len() == 0 {
            ran_out(frame(seq, payload), 0)
        } else if rd[0] == ACK {
            Exchange {
                result: Ok(128),
                written: frame(seq, payload),
                consumed: 1,
                payload: seq![],
                events: seq![Progress::Packet(seq)],
            }
        } else if rd[0] == NAK {
            failed(ErrorKind::Interrupted, frame(seq, payload), 1)
        } else {
            failed(refusal(rd[0]), frame(seq, payload) + refusal_bytes(rd[0]), 1)
        }
    }
}

/// One call of the sender's packet primitive with sequence number `seq` and
/// payload `payload` (empty for the end of the transfer), where `rd` is what
/// it reads from the peer.
pub open spec fn send_exchange(seq: u8, started: bool, payload: Seq<u8>, rd: Seq<u8>) -> Exchange {
    if started {
        send_body(seq, payload, rd)
    } else if rd.len() == 0 {
        Exchange { events: seq![Progress::Waiting], ..ran_out(seq![], 0) }
    } else if rd[0] != NAK {
        Exchange { events: seq![Progress::Waiting], ..failed(refusal(rd[0]), refusal_bytes(rd[0]), 1) }
    } else {
        let e = send_body(seq, payload, rd.drop_first());
        Exchange { consumed: e.consumed + 1, events: seq![Progress::Waiting, Progress::Started] + e.events, ..e }
    }
}

/// The receiver's part after its optional opening NAK, where `rd` is what it
/// reads from the peer.
pub open spec fn receive_body(seq: u8, rd: Seq<u8>) -> Exchange {
    if rd.len() == 0 {
        ran_out(seq![], 0)
    } else if rd[0] == EOT {
        if rd.len() == 1 {
            ran_out(seq![NAK], 1)
        } else if rd[1] != EOT {
            failed(refusal(rd[1]), seq![NAK] + refusal_bytes(rd[1]), 2)
        } else {
            Exchange { result: Ok(0), written: seq![NAK, ACK], consumed: 2, payload: seq![], events: seq![] }
        }
    } else if rd[0] != SOH {
        failed(refusal(rd[0]), refusal_bytes(rd[0]), 1)
    } else if rd.len() == 1 {
        ran_out(seq![], 1)
    } else if rd[1] != seq {
        failed(refusal(rd[1]), refusal_bytes(rd[1]), 2)
    } else if rd.len() == 2 {
        ran_out(seq![], 2)
    } else if rd[2] != complement(seq) {
        failed(refusal(rd[2]), refusal_bytes(rd[2]), 3)
    } else if rd.len() <= 131 {
        ran_out(seq![], rd.len())
    } else if rd[131] == checksum(rd.subrange(3, 131)) {
        Exchange {
            result: Ok(128),
            written: seq![ACK],
            consumed: 132,
            payload: rd.subrange(3, 131),
            events: seq![Progress::Packet(next_seq(seq))],
        }
    } else {
        failed(ErrorKind::Interrupted, seq![NAK], 132)
    }
}

/// One call of the receiver's packet primitive with expected sequence number
/// `seq`, where `rd` is what it reads from the peer.
pub open spec fn receive_exchange(seq: u8, started: bool, rd: Seq<u8>) -> Exchange {
    let e = receive_body(seq, rd);
    if started {
        e
    } else {
        Exchange {
            written: seq![NAK] + e.written,
            events: if rd.len() > 0 && rd[0] == SOH { seq![Progress::Started] + e.events } else { e.events },
            ..e
        }
    }
}

/// `first` followed by `rest`: what both wrote, read and delivered, and the
/// result of `rest`.
pub open spec fn join(first: Exchange, rest: Exchange) -> Exchange {
    Exchange {
        result: rest.result,
        written: first.written + rest.written,
        consumed: first.consumed + rest.consumed,
        payload: first.payload + rest.payload,
        events: first.events + rest.events,
    }
}

/// `join` is associative.
pub proof fn lemma_join_assoc(a: Exchange, b: Exchange, c: Exchange)
    ensures
        join(a, join(b, c)) == join(join(a, b), c),
{
    assert(a.written + (b.written + c.written) =~= (a.written + b.written) + c.written);
    assert(a.payload + (b.payload + c.payload) =~= (a.payload + b.payload) + c.payload);
    assert(a.events + (b.events + c.events) =~= (a.events + b.events) + c.events);
}

/// How many bytes of `data` go into its first packet.
pub open spec fn chunk_len(data: Seq<u8>) -> nat {
    if data.len() < PACKET_LEN {
        data.len()
    } else {
        PACKET_LEN as nat
    }
}

/// A whole send of `data`, from sequence number `seq`, with `tries`
/// attempts left for its first packet, where `rd` is what the sender reads
/// from the peer. Each packet gets up to `ATTEMPTS` attempts, the last
/// packet is padded with zeros, and the transfer ends with EOT. The result
/// is `Ok` exactly when the whole transfer went through.
pub open spec fn send_session(seq: u8, started: bool, data: Seq<u8>, tries: nat, rd: Seq<u8>) -> Exchange
    decreases data.len(), tries,
{
    if data.len() == 0 {
        send_exchange(seq, started, seq![], rd)
    } else {
        let n = chunk_len(data);
        let e = send_exchange(seq, started, padded(data.take(n as int)), rd);
        let rest_rd = rd.skip(e.consumed as int);
        if e.result is Ok {
            join(e, send_session(next_seq(seq), true, data.skip(n as int), ATTEMPTS as nat, rest_rd))
        } else if e.result == Err::<usize, ErrorKind>(ErrorKind::Interrupted) {
            if tries <= 1 {
                Exchange { result: Err(ErrorKind::BrokenPipe), ..e }
            } else {
                join(e, send_session(seq, true, data, (tries - 1) as nat, rest_rd))
            }
        } else {
            e
        }
    }
}

/// A whole receive from sequence number `seq`, with `tries` attempts left
/// for its first packet, where `rd` is what the receiver reads from the
/// peer. Each packet gets up to `ATTEMPTS` attempts; the transfer ends at
/// EOT. The payload is every packet received, in order, and the result is
/// `Ok` exactly when the transfer ended with EOT.
pub open spec fn receive_session(seq: u8, started: bool, tries: nat, rd: Seq<u8>) -> Exchange
    decreases rd.len(),
{
    let e = receive_exchange(seq, started, rd);
    let rest_rd = rd.skip(e.consumed as int);
    if e.result == Ok::<usize, ErrorKind>(128) {
        join(e, receive_session(next_seq(seq), true, ATTEMPTS as nat, rest_rd))
    } else if e.result == Err::<usize, ErrorKind>(ErrorKind::Interrupted) {
        if tries <= 1 {
            Exchange { result: Err(ErrorKind::BrokenPipe), ..e }
        } else {
            join(e, receive_session(seq, true, (tries - 1) as nat, rest_rd))
        }
    } else {
        e
    }
}

/// Past a receive exchange that went on to the next attempt or packet,
/// more input changes nothing: the exchange saw all it needed.
pub proof fn lemma_receive_prefix(seq: u8, started: bool, r: Seq<u8>, y: Seq<u8>)
    requires
        receive_exchange(seq, started, r).consumed == r.len(),
        receive_exchange(seq, started, r).result == Ok::<usize, ErrorKind>(128)
            || receive_exchange(seq, started, r).result == Err::<usize, ErrorKind>(ErrorKind::Interrupted),
        r.len() <= y.len(),
        y.take(r.len() as int) == r,
    ensures
        receive_exchange(seq, started, y) == receive_exchange(seq, started, r),
{
    assert(r.len() == 132);
    assert forall|i: int| 0 <= i < 132 implies y[i] == r[i] by {
        assert(y.take(132)[i] == y[i]);
    }
    assert(y.subrange(3, 131) =~= r.subrange(3, 131));
}

/// Past a send exchange that went on to the next attempt or packet, more
/// input changes nothing: the exchange saw all it needed.
pub proof fn lemma_send_prefix(seq: u8, started: bool, payload: Seq<u8>, r: Seq<u8>, y: Seq<u8>)
    requires
        send_exchange(seq, started, payload, r).consumed == r.len(),
        send_exchange(seq, started, payload, r).result is Ok
            || send_exchange(seq, started, payload, r).result == Err::<usize, ErrorKind>(ErrorKind::Interrupted),
        r.len() <= y.len(),
        y.take(r.len() as int) == r,
    ensures
        send_exchange(seq, started, payload, y) == send_exchange(seq, started, payload, r),
{
    assert forall|i: int| 0 <= i < r.len() implies y[i] == r[i] by {
        assert(y.take(r.len() as int)[i] == y[i]);
    }
    if !started && r.len() > 0 {
        assert forall|i: int| 0 <= i < r.len() - 1 implies y.drop_first()[i] == r.drop_first()[i] by {}
    }
}

/// A send session whose first exchange, on `step`, went on is that
/// exchange followed by the session after it, whatever input comes later.
pub proof fn lemma_send_unfold(seq: u8, started: bool, data: Seq<u8>, tries: nat, step: Seq<u8>)
    requires
        data.len() > 0,
        send_exchange(seq, started, padded(data.take(chunk_len(data) as int)), step).consumed == step.len(),
        send_exchange(seq, started, padded(data.take(chunk_len(data) as int)), step).result is Ok
            || (send_exchange(seq, started, padded(data.take(chunk_len(data) as int)), step).result
                == Err::<usize, ErrorKind>(ErrorKind::Interrupted) && tries > 1),
    ensures
        forall|y: Seq<u8>| #![trigger send_session(seq, started, data, tries, y)]
            step.len() <= y.len() && y.take(step.len() as int) == step ==> {
                let e = send_exchange(seq, started, padded(data.take(chunk_len(data) as int)), step);
                send_session(seq, started, data, tries, y) == join(e, if e.result is Ok {
                    send_session(next_seq(seq), true, data.skip(chunk_len(data) as int), ATTEMPTS as nat, y.skip(step.len() as int))
                } else {
                    send_session(seq, true, data, (tries - 1) as nat, y.skip(step.len() as int))
                })
            },
{
    assert forall|y: Seq<u8>| #![trigger send_session(seq, started, data, tries, y)]
        step.len() <= y.len() && y.take(step.len() as int) == step implies {
            let e = send_exchange(seq, started, padded(data.take(chunk_len(data) as int)), step);
            send_session(seq, started, data, tries, y) == join(e, if e.result is Ok {
                send_session(next_seq(seq), true, data.skip(chunk_len(data) as int), ATTEMPTS as nat, y.skip(step.len() as int))
            } else {
                send_session(seq, true, data, (tries - 1) as nat, y.skip(step.len() as int))
            })
        } by {
        lemma_send_prefix(seq, started, padded(data.take(chunk_len(data) as int)), step, y);
    }
}

/// A receive session whose first exchange, on `step`, went on is that
/// exchange followed by the session after it, whatever input comes later.
pub proof fn lemma_receive_unfold(seq: u8, started: bool, tries: nat, step: Seq<u8>)
    requires
        receive_exchange(seq, started, step).consumed == step.len(),
        receive_exchange(seq, started, step).result == Ok::<usize, ErrorKind>(128)
            || (receive_exchange(seq, started, step).result == Err::<usize, ErrorKind>(ErrorKind::Interrupted)
                && tries > 1),
    ensures
        forall|y: Seq<u8>| #![trigger receive_session(seq, started, tries, y)]
            step.len() <= y.len() && y.take(step.len() as int) == step ==> {
                let e = receive_exchange(seq, started, step);
                receive_session(seq, started, tries, y) == join(e, if e.result is Ok {
                    receive_session(next_seq(seq), true, ATTEMPTS as nat, y.skip(step.len() as int))
                } else {
                    receive_session(seq, true, (tries - 1) as nat, y.skip(step.len() as int))
                })
            },
{
    assert forall|y: Seq<u8>| #![trigger receive_session(seq, started, tries, y)]
        step.len() <= y.len() && y.take(step.len() as int) == step implies {
            let e = receive_exchange(seq, started, step);
            receive_session(seq, started, tries, y) == join(e, if e.result is Ok {
                receive_session(next_seq(seq), true, ATTEMPTS as nat, y.skip(step.len() as int))
            } else {
                receive_session(seq, true, (tries - 1) as nat, y.skip(step.len() as int))
            })
        } by {
        lemma_receive_prefix(seq, started, step, y);
    }
}

/// The loop step of a whole send: if the session from the start is `acc`
/// followed by the session from `done` on, and that one is `e` followed by
/// the session after `step`, then the first is `acc` and `e` followed by the
/// session after `done + step`.
pub proof fn lemma_send_advance(s0: u8, st0: bool, data: Seq<u8>, acc: Exchange, e: Exchange,
    done: Seq<u8>, step: Seq<u8>, seq1: u8, st1: bool, rest1: Seq<u8>, tries1: nat,
    seq2: u8, st2: bool, rest2: Seq<u8>, tries2: nat)
    requires
        forall|x: Seq<u8>| #![trigger send_session(s0, st0, data, ATTEMPTS as nat, x)]
            done.len() <= x.len() && x.take(done.len() as int) == done
            ==> send_session(s0, st0, data, ATTEMPTS as nat, x)
                == join(acc, send_session(seq1, st1, rest1, tries1, x.skip(done.len() as int))),
        forall|y: Seq<u8>| #![trigger send_session(seq1, st1, rest1, tries1, y)]
            step.len() <= y.len() && y.take(step.len() as int) == step
            ==> send_session(seq1, st1, rest1, tries1, y)
                == join(e, send_session(seq2, st2, rest2, tries2, y.skip(step.len() as int))),
    ensures
        forall|x: Seq<u8>| #![trigger send_session(s0, st0, data, ATTEMPTS as nat, x)]
            (done + step).len() <= x.len() && x.take((done + step).len() as int) == done + step
            ==> send_session(s0, st0, data, ATTEMPTS as nat, x)
                == join(join(acc, e), send_session(seq2, st2, rest2, tries2, x.skip((done + step).len() as int))),
{
    assert forall|x: Seq<u8>| #![trigger send_session(s0, st0, data, ATTEMPTS as nat, x)]
        (done + step).len() <= x.len() && x.take((done + step).len() as int) == done + step
        implies send_session(s0, st0, data, ATTEMPTS as nat, x)
            == join(join(acc, e), send_session(seq2, st2, rest2, tries2, x.skip((done + step).len() as int))) by {
        let d = done.len() as int;
        assert(x.take(d) =~= (done + step).take(d));
        assert((done + step).take(d) =~= done);
        let y = x.skip(d);
        assert(y.take(step.len() as int) =~= (done + step).skip(d));
        assert((done + step).skip(d) =~= step);
        assert(y.skip(step.len() as int) =~= x.skip((done + step).len() as int));
        lemma_join_assoc(acc, e, send_session(seq2, st2, rest2, tries2, x.skip((done + step).len() as int)));
    }
}

/// The loop step of a whole receive, as `lemma_send_advance` is for a send.
pub proof fn lemma_receive_advance(s0: u8, st0: bool, acc: Exchange, e: Exchange,
    done: Seq<u8>, step: Seq<u8>, seq1: u8, st1: bool, tries1: nat, seq2: u8, st2: bool, tries2: nat)
    requires
        forall|x: Seq<u8>| #![trigger receive_session(s0, st0, ATTEMPTS as nat, x)]
            done.len() <= x.len() && x.take(done.len() as int) == done
            ==> receive_session(s0, st0, ATTEMPTS as nat, x)
                == join(acc, receive_session(seq1, st1, tries1, x.skip(done.len() as int))),
        forall|y: Seq<u8>| #![trigger receive_session(seq1, st1, tries1, y)]
            step.len() <= y.len() && y.take(step.len() as int) == step
            ==> receive_session(seq1, st1, tries1, y)
                == join(e, receive_session(seq2, st2, tries2, y.skip(step.len() as int))),
    ensures
        forall|x: Seq<u8>| #![trigger receive_session(s0, st0, ATTEMPTS as nat, x)]
            (done + step).len() <= x.len() && x.take((done + step).len() as int) == done + step
            ==> receive_session(s0, st0, ATTEMPTS as nat, x)
                == join(join(acc, e), receive_session(seq2, st2, tries2, x.skip((done + step).len() as int))),
{
    assert forall|x: Seq<u8>| #![trigger receive_session(s0, st0, ATTEMPTS as nat, x)]
        (done + step).len() <= x.len() && x.take((done + step).len() as int) == done + step
        implies receive_session(s0, st0, ATTEMPTS as nat, x)
            == join(join(acc, e), receive_session(seq2, st2, tries2, x.skip((done + step).len() as int))) by {
        let d = done.len() as int;
        assert(x.take(d) =~= (done + step).take(d));
        assert((done + step).take(d) =~= done);
        let y = x.skip(d);
        assert(y.take(step.len() as int) =~= (done + step).skip(d));
        assert((done + step).skip(d) =~= step);
        assert(y.skip(step.len() as int) =~= x.skip((done + step).len() as int));
        lemma_join_assoc(acc, e, receive_session(seq2, st2, tries2, x.skip((done + step).len() as int)));
    }
}

/// Whatever comes in, a whole receive delivers whole packets.
pub proof fn lemma_receive_whole_packets(seq: u8, started: bool, tries: nat, rd: Seq<u8>)
    ensures
        receive_session(seq, started, tries, rd).payload.len() % 128 == 0,
    decreases rd.len(),
{
    let e = receive_exchange(seq, started, rd);
    let rest_rd = rd.skip(e.consumed as int);
    if e.result == Ok::<usize, ErrorKind>(128) {
        lemma_receive_whole_packets(next_seq(seq), true, ATTEMPTS as nat, rest_rd);
    } else if e.result == Err::<usize, ErrorKind>(ErrorKind::Interrupted) && tries > 1 {
        lemma_receive_whole_packets(seq, true, (tries - 1) as nat, rest_rd);
    }
}

/// The checksum of `data`.
pub fn packet_checksum(data: &[u8]) -> (c: u8)
    ensures
        c == checksum(data@),
{
    let mut acc: u8 = 0;
    let mut i: usize = 0;
    while i < data.len()
        invariant
            i <= data@.len(),
            acc == checksum(data@.take(i as int)),
        decreases data@.len() - i,
    {
        proof {
            let t = data@.take(i + 1);
            assert(t.drop_last() =~= data@.take(i as int));
        }
        acc = acc.wrapping_add(data[i]);
        i = i + 1;
    }
    proof {
        assert(data@.take(i as int) =~= data@);
    }
    acc
}

} // verus!
