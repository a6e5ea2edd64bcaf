use std::cell::RefCell;

use xmodem::{packet_checksum, ErrorKind, MemPort, Progress, ProgressFn, Xmodem};

const SOH: u8 = 0x01;
const EOT: u8 = 0x04;
const ACK: u8 = 0x06;
const NAK: u8 = 0x15;
const CAN: u8 = 0x18;

/// The answers of a receiver that acknowledges `packets` packets at once.
fn acks(packets: usize) -> Vec<u8> {
    let mut v = vec![NAK];
    for _ in 0..packets {
        v.push(ACK);
    }
    v.push(NAK);
    v.push(ACK);
    v
}

fn frame(seq: u8, payload: &[u8]) -> Vec<u8> {
    assert_eq!(payload.len(), 128);
    let mut v = vec![SOH, seq, 255 - seq];
    v.extend_from_slice(payload);
    v.push(payload.iter().fold(0u8, |a, b| a.wrapping_add(*b)));
    v
}

fn send(data: &[u8], replies: Vec<u8>) -> (Result<usize, ErrorKind>, Vec<u8>) {
    let mut tx = Xmodem::new(MemPort::new(replies));
    let r = tx.send_all(data);
    (r, tx.into_inner().output().clone())
}

fn receive(input: Vec<u8>) -> (Result<usize, ErrorKind>, Vec<u8>, Vec<u8>) {
    let mut rx = Xmodem::new(MemPort::new(input));
    let mut into = Vec::new();
    let r = rx.receive_all(&mut into);
    (r, into, rx.into_inner().output().clone())
}

fn round_trip(data: &[u8]) {
    let packets = (data.len() + 127) / 128;
    let (r, wire) = send(data, acks(packets));
    assert_eq!(r, Ok(data.len()));
    let (r, into, answers) = receive(wire);
    assert_eq!(r, Ok(packets * 128));
    assert_eq!(answers, acks(packets));
    assert_eq!(&into[..data.len()], data);
    assert!(into[data.len()..].iter().all(|b| *b == 0));
    assert_eq!(into.len() % 128, 0);
}

#[test]
fn example_three_bytes() {
    let data = [0x41u8, 0x42, 0x43];
    let (r, wire) = send(&data, acks(1));
    assert_eq!(r, Ok(3));
    assert_eq!(wire.len(), 132 + 2);
    assert_eq!(&wire[..6], &[SOH, 1, 254, 0x41, 0x42, 0x43]);
    assert!(wire[6..131].iter().all(|b| *b == 0));
    assert_eq!(wire[131], ((0x41u32 + 0x42 + 0x43) % 256) as u8);
    assert_eq!(wire[131], 0xC6);
    assert_eq!(&wire[132..], &[EOT, EOT]);

    let (r, into, answers) = receive(wire);
    assert_eq!(r, Ok(128));
    assert_eq!(into.len(), 128);
    assert_eq!(&into[..3], &[0x41, 0x42, 0x43]);
    assert_eq!(answers, vec![NAK, ACK, NAK, ACK]);
}

#[test]
fn transmit_and_receive_entry_points() {
    let data = [0x41u8, 0x42, 0x43];
    let (r, port) = Xmodem::transmit(&data, MemPort::new(acks(1)));
    assert_eq!(r, Ok(3));
    assert_eq!(port.output().len(), 134);
    let mut wire = frame(1, &{
        let mut p = [0u8; 128];
        p[..3].copy_from_slice(&data);
        p
    });
    wire.extend_from_slice(&[EOT, EOT]);
    let mut into = vec![9u8];
    let (r, port) = Xmodem::receive(MemPort::new(wire), &mut into);
    assert_eq!(r, Ok(128));
    assert_eq!(port.output(), &vec![NAK, ACK, NAK, ACK]);
    assert_eq!(into.len(), 129);
    assert_eq!(&into[..4], &[9, 0x41, 0x42, 0x43]);
}

#[test]
fn round_trips_of_many_lengths() {
    for len in [0usize, 1, 127, 128, 129, 255, 256, 1000] {
        let data: Vec<u8> = (0..len).map(|i| (i * 7 + 3) as u8).collect();
        round_trip(&data);
    }
}

#[test]
fn empty_input_is_only_the_end_handshake() {
    let (r, wire) = send(&[], vec![NAK, NAK, ACK]);
    assert_eq!(r, Ok(0));
    assert_eq!(wire, vec![EOT, EOT]);
    let (r, into, answers) = receive(vec![EOT, EOT]);
    assert_eq!(r, Ok(0));
    assert!(into.is_empty());
    assert_eq!(answers, vec![NAK, NAK, ACK]);
}

#[test]
fn sequence_wraps_after_255_packets() {
    let data: Vec<u8> = (0..300 * 128).map(|i| (i % 251) as u8).collect();
    let (r, wire) = send(&data, acks(300));
    assert_eq!(r, Ok(data.len()));
    assert_eq!(&wire[254 * 132..254 * 132 + 3], &[SOH, 255, 0]);
    assert_eq!(&wire[255 * 132..255 * 132 + 3], &[SOH, 0, 255]);
    assert_eq!(&wire[256 * 132..256 * 132 + 3], &[SOH, 1, 254]);
    let (r, into, _) = receive(wire);
    assert_eq!(r, Ok(data.len()));
    assert_eq!(into, data);
}

#[test]
fn rejected_packet_is_sent_once_more_with_the_same_number() {
    let data: Vec<u8> = (0..200).map(|i| i as u8).collect();
    let (r, wire) = send(&data, vec![NAK, ACK, NAK, ACK, NAK, ACK]);
    assert_eq!(r, Ok(200));
    let mut second = [0u8; 128];
    second[..72].copy_from_slice(&data[128..]);
    let mut expected = frame(1, &data[..128]);
    expected.extend(frame(2, &second));
    expected.extend(frame(2, &second));
    expected.extend_from_slice(&[EOT, EOT]);
    assert_eq!(wire, expected);
}

#[test]
fn bad_checksum_is_read_once_more() {
    let payload = [5u8; 128];
    let mut bad = frame(1, &payload);
    bad[131] = bad[131].wrapping_add(1);
    let mut input = bad;
    input.extend(frame(1, &payload));
    input.extend_from_slice(&[EOT, EOT]);
    let (r, into, answers) = receive(input);
    assert_eq!(r, Ok(128));
    assert_eq!(into, payload.to_vec());
    assert_eq!(answers, vec![NAK, NAK, ACK, NAK, ACK]);
}

#[test]
fn ten_rejections_break_the_send() {
    let data = [1u8; 128];
    let mut replies = vec![NAK];
    replies.extend([NAK; 10]);
    let (r, wire) = send(&data, replies);
    assert_eq!(r, Err(ErrorKind::BrokenPipe));
    assert_eq!(wire.len(), 10 * 132);
    for k in 0..10 {
        assert_eq!(&wire[k * 132..k * 132 + 132], &frame(1, &data)[..]);
    }
}

#[test]
fn nine_rejections_do_not_break_the_send() {
    let data = [1u8; 128];
    let mut replies = vec![NAK];
    replies.extend([NAK; 9]);
    replies.extend([ACK, NAK, ACK]);
    let (r, wire) = send(&data, replies);
    assert_eq!(r, Ok(128));
    assert_eq!(wire.len(), 10 * 132 + 2);
}

#[test]
fn ten_bad_checksums_break_the_receive() {
    let payload = [3u8; 128];
    let mut bad = frame(1, &payload);
    bad[131] = bad[131].wrapping_add(1);
    let mut input = Vec::new();
    for _ in 0..10 {
        input.extend(bad.iter());
    }
    input.extend(frame(1, &payload));
    let (r, into, answers) = receive(input);
    assert_eq!(r, Err(ErrorKind::BrokenPipe));
    assert!(into.is_empty());
    let mut expected = vec![NAK];
    expected.extend([NAK; 10]);
    assert_eq!(answers, expected);
}

#[test]
fn cancel_before_the_first_packet_aborts_the_send() {
    let (r, wire) = send(&[1, 2, 3], vec![CAN]);
    assert_eq!(r, Err(ErrorKind::ConnectionAborted));
    assert!(wire.is_empty());
}

#[test]
fn cancel_in_answer_to_a_packet_aborts_the_send() {
    let (r, wire) = send(&[1, 2, 3], vec![NAK, CAN]);
    assert_eq!(r, Err(ErrorKind::ConnectionAborted));
    assert_eq!(wire.len(), 132);
}

#[test]
fn cancel_during_the_end_handshake_aborts_the_send() {
    let (r, wire) = send(&[], vec![NAK, CAN]);
    assert_eq!(r, Err(ErrorKind::ConnectionAborted));
    assert_eq!(wire, vec![EOT]);
    let (r, wire) = send(&[], vec![NAK, NAK, CAN]);
    assert_eq!(r, Err(ErrorKind::ConnectionAborted));
    assert_eq!(wire, vec![EOT, EOT]);
}

#[test]
fn cancel_aborts_the_receive() {
    let (r, _, answers) = receive(vec![CAN]);
    assert_eq!(r, Err(ErrorKind::ConnectionAborted));
    assert_eq!(answers, vec![NAK]);
    let (r, _, answers) = receive(vec![EOT, CAN]);
    assert_eq!(r, Err(ErrorKind::ConnectionAborted));
    assert_eq!(answers, vec![NAK, NAK]);
}

#[test]
fn short_receive_buffer_fails_before_any_io() {
    let mut rx = Xmodem::new(MemPort::new(vec![SOH, 1, 254]));
    let mut buf = [0u8; 127];
    assert_eq!(rx.read_packet(&mut buf), Err(ErrorKind::UnexpectedEof));
    let mut big = [0u8; 129];
    assert_eq!(rx.read_packet(&mut big), Err(ErrorKind::UnexpectedEof));
    assert!(rx.get_ref().output().is_empty());
    let mut buf = [0u8; 128];
    assert_eq!(rx.read_packet(&mut buf), Err(ErrorKind::UnexpectedEof));
    assert_eq!(rx.into_inner().output(), &vec![NAK]);
}

#[test]
fn wrong_packet_length_sends_nothing() {
    let mut tx = Xmodem::new(MemPort::new(vec![NAK, ACK]));
    assert_eq!(tx.write_packet(&[1, 2, 3]), Err(ErrorKind::UnexpectedEof));
    assert!(tx.get_ref().output().is_empty());
    assert_eq!(tx.write_packet(&[0u8; 129]), Err(ErrorKind::UnexpectedEof));
    assert!(tx.get_ref().output().is_empty());
    assert_eq!(tx.write_packet(&[0u8; 128]), Ok(128));
    assert_eq!(tx.get_ref().output().len(), 132);
}

#[test]
fn bad_start_byte_is_cancelled() {
    let (r, _, answers) = receive(vec![0x02]);
    assert_eq!(r, Err(ErrorKind::InvalidData));
    assert_eq!(answers, vec![NAK, CAN]);
}

#[test]
fn wrong_sequence_number_is_cancelled() {
    let (r, _, answers) = receive(frame(2, &[0u8; 128]));
    assert_eq!(r, Err(ErrorKind::InvalidData));
    assert_eq!(answers, vec![NAK, CAN]);
    let mut wire = frame(1, &[0u8; 128]);
    wire[2] = 0;
    let (r, _, answers) = receive(wire);
    assert_eq!(r, Err(ErrorKind::InvalidData));
    assert_eq!(answers, vec![NAK, CAN]);
}

#[test]
fn unexpected_answer_is_cancelled() {
    let (r, wire) = send(&[7], vec![NAK, 0x00]);
    assert_eq!(r, Err(ErrorKind::InvalidData));
    assert_eq!(wire.len(), 133);
    assert_eq!(wire[132], CAN);
}

#[test]
fn unexpected_start_of_send_is_cancelled() {
    let (r, wire) = send(&[7], vec![ACK]);
    assert_eq!(r, Err(ErrorKind::InvalidData));
    assert_eq!(wire, vec![CAN]);
}

#[test]
fn second_eot_must_follow() {
    let (r, _, answers) = receive(vec![EOT, SOH]);
    assert_eq!(r, Err(ErrorKind::InvalidData));
    assert_eq!(answers, vec![NAK, NAK, CAN]);
}

#[test]
fn truncated_packet_is_an_unexpected_end() {
    let mut wire = frame(1, &[4u8; 128]);
    wire.truncate(60);
    let (r, _, answers) = receive(wire);
    assert_eq!(r, Err(ErrorKind::UnexpectedEof));
    assert_eq!(answers, vec![NAK]);
    let (r, _, _) = receive(Vec::new());
    assert_eq!(r, Err(ErrorKind::UnexpectedEof));
}

#[test]
fn checksum_is_the_byte_sum_modulo_256() {
    let mut p = [0u8; 128];
    p[..3].copy_from_slice(&[0x41, 0x42, 0x43]);
    assert_eq!(packet_checksum(&p), 0xC6);
    assert_eq!(packet_checksum(&[0xFF, 0x02]), 0x01);
    assert_eq!(packet_checksum(&[]), 0);
}

struct Recorder {
    events: RefCell<Vec<Progress>>,
}

impl ProgressFn for &Recorder {
    fn report(&mut self, p: Progress) {
        self.events.borrow_mut().push(p);
    }
}

#[test]
fn progress_events_follow_the_transfer() {
    let rec = Recorder { events: RefCell::new(Vec::new()) };
    let data = vec![1u8; 200];
    let mut tx = Xmodem::new_with_progress(MemPort::new(acks(2)), &rec);
    assert_eq!(tx.send_all(&data), Ok(200));
    assert_eq!(
        *rec.events.borrow(),
        vec![Progress::Waiting, Progress::Started, Progress::Packet(1), Progress::Packet(2)]
    );
    let wire = tx.into_inner().output().clone();

    let rec = Recorder { events: RefCell::new(Vec::new()) };
    let mut into = Vec::new();
    assert_eq!(Xmodem::receive_with_progress(MemPort::new(wire), &mut into, &rec).0, Ok(256));
    assert_eq!(*rec.events.borrow(), vec![Progress::Started, Progress::Packet(2), Progress::Packet(3)]);
}

#[test]
fn transmit_with_progress_counts_source_bytes() {
    let rec = Recorder { events: RefCell::new(Vec::new()) };
    assert_eq!(Xmodem::transmit_with_progress(&[9u8; 130], MemPort::new(acks(2)), &rec).0, Ok(130));
    assert_eq!(rec.events.borrow().len(), 4);
}
