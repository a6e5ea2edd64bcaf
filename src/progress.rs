//! Progress events and the callback that receives them.

use vstd::prelude::*;

verus! {

/// Lifecycle events of a transfer, handed to the progress callback.
#[derive(Clone, Copy, Debug, PartialEq, Eq, Structural)]
pub enum Progress {
    /// The sender waits for the receiver's first not-ready byte.
    Waiting,
    /// The handshake is done; the first packet is under way.
    Started,
    /// A packet was exchanged; the sequence number it names.
    Packet(u8),
}

/// A receiver of progress events. Events are delivered synchronously, on
/// the transfer's own thread, before the operation that caused them returns.
pub trait ProgressFn {
    /// Called once for each event.
    fn report(&mut self, p: Progress);
}

/// A progress callback that ignores every event.
pub struct Silent;

impl ProgressFn for Silent {
    fn report(&mut self, p: Progress) {
    }
}

} // verus!
