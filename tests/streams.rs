use xmodem::{ByteStream, Channel, ErrorKind, MemPort, ReadExt, WriteExt, Xmodem};

const EOT: u8 = 0x04;
const ACK: u8 = 0x06;
const NAK: u8 = 0x15;

/// A stream that reports an interruption before every other call and hands
/// out or takes at most one byte at a time.
struct Choppy {
    input: Vec<u8>,
    pos: usize,
    output: Vec<u8>,
    tick: bool,
}

impl Choppy {
    fn new(input: Vec<u8>) -> Choppy {
        Choppy { input, pos: 0, output: Vec::new(), tick: false }
    }

    fn interrupt(&mut self) -> bool {
        self.tick = !self.tick;
        self.tick
    }
}

impl ByteStream for Choppy {
    fn read_bytes(&mut self, buf: &mut [u8]) -> Result<usize, ErrorKind> {
        if self.interrupt() {
            return Err(ErrorKind::Interrupted);
        }
        if buf.is_empty() || self.pos >= self.input.len() {
            return Ok(0);
        }
        buf[0] = self.input[self.pos];
        self.pos += 1;
        Ok(1)
    }

    fn write_bytes(&mut self, buf: &[u8]) -> Result<usize, ErrorKind> {
        if self.interrupt() {
            return Err(ErrorKind::Interrupted);
        }
        if buf.is_empty() {
            return Ok(0);
        }
        self.output.push(buf[0]);
        Ok(1)
    }

    fn flush_bytes(&mut self) -> Result<(), ErrorKind> {
        if self.interrupt() {
            return Err(ErrorKind::Interrupted);
        }
        Ok(())
    }
}

/// A stream that accepts no bytes.
struct Full;

impl ByteStream for Full {
    fn read_bytes(&mut self, _buf: &mut [u8]) -> Result<usize, ErrorKind> {
        Ok(0)
    }

    fn write_bytes(&mut self, _buf: &[u8]) -> Result<usize, ErrorKind> {
        Ok(0)
    }

    fn flush_bytes(&mut self) -> Result<(), ErrorKind> {
        Ok(())
    }
}

/// A stream whose every call fails.
struct Broken;

impl ByteStream for Broken {
    fn read_bytes(&mut self, _buf: &mut [u8]) -> Result<usize, ErrorKind> {
        Err(ErrorKind::TimedOut)
    }

    fn write_bytes(&mut self, _buf: &[u8]) -> Result<usize, ErrorKind> {
        Err(ErrorKind::Other)
    }

    fn flush_bytes(&mut self) -> Result<(), ErrorKind> {
        Err(ErrorKind::Other)
    }
}

#[test]
fn read_max_fills_the_buffer_across_interruptions() {
    let mut port = Channel::new(Choppy::new(vec![1, 2, 3, 4, 5]));
    let mut buf = [0u8; 3];
    assert_eq!(port.read_max(&mut buf), Ok(3));
    assert_eq!(buf, [1, 2, 3]);
    let mut buf = [0u8; 4];
    assert_eq!(port.read_max(&mut buf), Ok(2));
    assert_eq!(&buf[..2], &[4, 5]);
}

#[test]
fn write_max_writes_everything_across_interruptions() {
    let mut port = Channel::new(Choppy::new(Vec::new()));
    assert_eq!(port.write_max(&[7, 8, 9]), Ok(3));
    assert_eq!(port.into_inner().output, vec![7, 8, 9]);
}

#[test]
fn write_max_stops_when_nothing_is_accepted() {
    assert_eq!(Channel::new(Full).write_max(&[1, 2]), Ok(0));
    assert_eq!(Channel::new(Broken).write_max(&[1, 2]), Err(ErrorKind::Other));
    let mut buf = [0u8; 2];
    assert_eq!(Channel::new(Broken).read_max(&mut buf), Err(ErrorKind::TimedOut));
}

#[test]
fn transfer_survives_interrupted_streams() {
    let data: Vec<u8> = (0..300).map(|i| (i * 3) as u8).collect();
    let mut tx = Xmodem::new(Channel::new(Choppy::new(vec![NAK, ACK, ACK, ACK, NAK, ACK])));
    assert_eq!(tx.send_all(&data), Ok(300));
    let wire = tx.into_inner().into_inner().output;
    assert_eq!(wire.len(), 3 * 132 + 2);

    let mut rx = Xmodem::new(Channel::new(Choppy::new(wire)));
    let mut into = Vec::new();
    assert_eq!(rx.receive_all(&mut into), Ok(384));
    assert_eq!(&into[..300], &data[..]);
    assert_eq!(rx.into_inner().into_inner().output, vec![NAK, ACK, ACK, ACK, NAK, ACK]);
}

#[test]
fn stream_that_accepts_nothing_fails_with_write_zero() {
    let mut rx = Xmodem::new(Channel::new(Full));
    let mut buf = [0u8; 128];
    assert_eq!(rx.read_packet(&mut buf), Err(ErrorKind::WriteZero));
}

#[test]
fn stream_failures_pass_through() {
    let mut tx = Xmodem::new(Channel::new(Broken));
    assert_eq!(tx.write_packet(&[0u8; 128]), Err(ErrorKind::TimedOut));
    let mut rx = Xmodem::new(Channel::new(Broken));
    let mut buf = [0u8; 128];
    assert_eq!(rx.read_packet(&mut buf), Err(ErrorKind::Other));
    assert_eq!(rx.flush(), Err(ErrorKind::Other));
}

#[test]
fn end_of_transmission_alone_through_mem_port() {
    let mut tx = Xmodem::new(MemPort::new(vec![NAK, NAK, ACK]));
    assert_eq!(tx.write_packet(&[]), Ok(0));
    assert_eq!(tx.get_ref().output(), &vec![EOT, EOT]);
    assert_eq!(tx.flush(), Ok(()));
}

/// A stream that claims to have read more than it was asked for.
struct Boastful;

impl ByteStream for Boastful {
    fn read_bytes(&mut self, buf: &mut [u8]) -> Result<usize, ErrorKind> {
        Ok(buf.len() + 1)
    }

    fn write_bytes(&mut self, buf: &[u8]) -> Result<usize, ErrorKind> {
        Ok(buf.len() + 1)
    }

    fn flush_bytes(&mut self) -> Result<(), ErrorKind> {
        Ok(())
    }
}

#[test]
fn channel_refuses_impossible_counts() {
    let mut port = Channel::new(Boastful);
    let mut buf = [0u8; 4];
    assert_eq!(port.read_max(&mut buf), Err(ErrorKind::Other));
    assert_eq!(port.write_max(&[1]), Err(ErrorKind::Other));
}

#[test]
fn trace_keeps_the_first_bytes_read() {
    let mut payload = [0u8; 128];
    payload[0] = 0x41;
    let mut input = vec![0x01, 1, 254];
    input.extend_from_slice(&payload);
    input.push(0x41);
    input.extend_from_slice(&[EOT, EOT]);

    let mut rx = Xmodem::new(xmodem::Traced::new(MemPort::new(input.clone())));
    let mut into = Vec::new();
    assert_eq!(rx.receive_all(&mut into), Ok(128));
    assert_eq!(rx.get_ref().recorded(), &input);
    assert_eq!(xmodem::TRACE_LEN, 1024);

    let mut rx = Xmodem::new(xmodem::Traced::with_capacity(MemPort::new(input.clone()), 10));
    let mut into = Vec::new();
    assert_eq!(rx.receive_all(&mut into), Ok(128));
    let traced = rx.into_inner();
    assert_eq!(traced.recorded(), &input[..10].to_vec());
    assert_eq!(traced.into_inner().output(), &vec![NAK, ACK, NAK, ACK]);
}
