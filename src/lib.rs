//! The XMODEM file-transfer protocol (128-byte packets, one-byte checksums)
//! over any duplex byte stream, with its behaviour stated in contracts.

use vstd::prelude::*;

pub mod io_ext;
pub mod laws;
pub mod port;
pub mod progress;
pub mod protocol;
pub mod trace;
pub mod xmodem;

pub use crate::io_ext::{ReadExt, WriteExt};
pub use crate::port::{ByteStream, Channel, ErrorKind, MemPort, Port};
pub use crate::progress::{Progress, ProgressFn, Silent};
pub use crate::protocol::packet_checksum;
pub use crate::trace::{Traced, TRACE_LEN};
pub use crate::xmodem::Xmodem;

verus! {

} // verus!
