//! Data model for a simple UDP request/response protocol: the events a
//! driver feeds into a state machine, and the responses it carries out.
//! The driver owns sockets and clocks; the state machine owns nothing
//! but its own state.

use vstd::prelude::*;

verus! {

/// What the driver should do after an event was handled.
#[derive(Debug, Clone, Copy, PartialEq, Eq)]
pub enum ConnectionStatus {
    /// The connection is terminated; close the socket.
    Terminated,
    /// Wait up to this many milliseconds for a packet to arrive; feed a
    /// timeout event if none does.
    WaitingForPacket(u64),
}

/// An input to the protocol state machine.
#[derive(Debug, Clone, PartialEq, Eq)]
pub enum Event<T> {
    /// The given packet was received on this connection.
    PacketReceived(T),
    /// The driver timed out waiting for a packet to arrive.
    Timeout,
}

/// The mathematical value of an `Event`.
pub enum EventView<PV> {
    PacketReceived(PV),
    Timeout,
}

impl<T: View> View for Event<T> {
    type V = EventView<T::V>;

    open spec fn view(&self) -> EventView<T::V> {
        match self {
            Event::PacketReceived(p) => EventView::PacketReceived(p@),
            Event::Timeout => EventView::Timeout,
        }
    }
}

/// What the state machine asks of the driver: optionally send a packet,
/// then either close the connection or wait for the next event.
#[derive(Debug, Clone, PartialEq, Eq)]
pub struct Response<T> {
    pub packet: Option<T>,
    pub next_status: ConnectionStatus,
}

/// The mathematical value of a `Response`.
pub struct ResponseView<PV> {
    pub packet: Option<PV>,
    pub next_status: ConnectionStatus,
}

impl<T: View> View for Response<T> {
    type V = ResponseView<T::V>;

    open spec fn view(&self) -> ResponseView<T::V> {
        ResponseView {
            packet: match self.packet {
                Some(p) => Some(p@),
                None => None,
            },
            next_status: self.next_status,
        }
    }
}

/// A state machine driven by received packets and timeouts.
pub trait SimpleUdpProtocol {
    type Packet;

    type Error;

    /// Whether the state machine is prepared to be fed this event; the
    /// driver must not feed an event to a terminated connection, nor a
    /// timeout before anything was sent.
    spec fn event_allowed(&self, event: &Event<Self::Packet>) -> bool;

    /// Feeds one event and yields what the driver should do next.
    fn handle_event(&mut self, event: Event<Self::Packet>) -> Result<
        Response<Self::Packet>,
        Self::Error,
    >
        requires
            old(self).event_allowed(&event),
    ;
}

} // verus!
