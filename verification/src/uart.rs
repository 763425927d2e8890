//! The USB CDC-ACM to UART bridge: what to do on each USB or UART event.

use vstd::prelude::*;

verus! {

/// A UART whose baud rate the host can change.
pub trait UartBaud {
    /// Sets the baud rate.
    fn set_baud(&mut self, baudrate: u32);
}

/// Whether the host side of the bridge is connected.
#[derive(Clone, Copy, Debug, PartialEq, Eq, Structural)]
pub enum BridgeState {
    /// Waiting for the host to open the port.
    WaitingConnection,
    /// Forwarding data both ways.
    Connected,
}

/// Something that happened on the USB or UART side.
#[derive(Clone, Copy, Debug, PartialEq, Eq, Structural)]
pub enum BridgeEvent {
    /// The host opened the port.
    HostConnected,
    /// The host changed the line coding; its data rate is given.
    LineCodingChanged(u32),
    /// A USB packet of the given length arrived.
    UsbReceived(usize),
    /// Reading from USB failed.
    UsbReadFailed,
    /// Writing the USB packet to the UART failed.
    UartWriteFailed,
    /// The UART has the given number of bytes buffered.
    UartReceived(usize),
    /// Reading from the UART failed.
    UartReadFailed,
    /// Writing UART data to USB sent the given number of bytes.
    UsbWritten(usize),
    /// Writing UART data to USB failed.
    UsbWriteFailed,
}

/// What the bridge does next.
#[derive(Clone, Copy, Debug, PartialEq, Eq, Structural)]
pub enum BridgeAction {
    /// Nothing (the event is only reported).
    Nothing,
    /// Set the UART to the given baud rate.
    SetBaud(u32),
    /// Write the first bytes of the USB packet, this many, to the UART.
    WriteUart(usize),
    /// Write the UART's buffered bytes, this many, to USB.
    WriteUsb(usize),
    /// Drop this many bytes from the UART's buffer, as they were sent.
    ConsumeUart(usize),
    /// Treat the host as gone and wait for it to connect again.
    Disconnect,
}

/// How the bridge reacts to one event: while connected, a new line coding
/// sets the baud rate, data is forwarded in both directions, and bytes sent
/// to USB are consumed from the UART buffer; a failed USB read or write
/// means the host is gone when `usb_errors_disconnect` holds and is only
/// reported otherwise; UART errors are only reported. While waiting, only a
/// connection matters.
pub open spec fn bridge_next(
    usb_errors_disconnect: bool,
    state: BridgeState,
    event: BridgeEvent,
) -> (BridgeState, BridgeAction) {
    match state {
        BridgeState::WaitingConnection => match event {
            BridgeEvent::HostConnected => (BridgeState::Connected, BridgeAction::Nothing),
            _ => (BridgeState::WaitingConnection, BridgeAction::Nothing),
        },
        BridgeState::Connected => match event {
            BridgeEvent::LineCodingChanged(rate) => (BridgeState::Connected, BridgeAction::SetBaud(rate)),
            BridgeEvent::UsbReceived(n) => (BridgeState::Connected, BridgeAction::WriteUart(n)),
            BridgeEvent::UsbReadFailed => if usb_errors_disconnect {
                (BridgeState::WaitingConnection, BridgeAction::Disconnect)
            } else {
                (BridgeState::Connected, BridgeAction::Nothing)
            },
            BridgeEvent::UartReceived(n) => (BridgeState::Connected, BridgeAction::WriteUsb(n)),
            BridgeEvent::UsbWritten(n) => (BridgeState::Connected, BridgeAction::ConsumeUart(n)),
            BridgeEvent::UsbWriteFailed => if usb_errors_disconnect {
                (BridgeState::WaitingConnection, BridgeAction::Disconnect)
            } else {
                (BridgeState::Connected, BridgeAction::Nothing)
            },
            _ => (BridgeState::Connected, BridgeAction::Nothing),
        },
    }
}

/// The bridge forwards nothing before the host connects, and each USB
/// failure that ends the connection leaves it waiting for the host again.
pub proof fn lemma_bridge_connection_discipline(usb_errors_disconnect: bool, event: BridgeEvent, state: BridgeState)
    ensures
        bridge_next(usb_errors_disconnect, BridgeState::WaitingConnection, event).1 == BridgeAction::Nothing,
        bridge_next(usb_errors_disconnect, state, event).1 == BridgeAction::Disconnect
            <==> (state == BridgeState::Connected && usb_errors_disconnect && (event
            == BridgeEvent::UsbReadFailed || event == BridgeEvent::UsbWriteFailed)),
        bridge_next(usb_errors_disconnect, state, event).1 == BridgeAction::Disconnect
            ==> bridge_next(usb_errors_disconnect, state, event).0 == BridgeState::WaitingConnection,
{
}

/// The bridge's decisions, one event at a time.
pub struct UartBridge {
    pub state: BridgeState,
    /// Whether a failed USB transfer ends the connection.
    pub usb_errors_disconnect: bool,
}

impl UartBridge {
    /// A bridge waiting for the host.
    pub fn new(usb_errors_disconnect: bool) -> (r: Self)
        ensures
            r.state == BridgeState::WaitingConnection,
            r.usb_errors_disconnect == usb_errors_disconnect,
    {
        UartBridge { state: BridgeState::WaitingConnection, usb_errors_disconnect }
    }

    /// Takes one event and says what to do.
    pub fn step(&mut self, event: BridgeEvent) -> (action: BridgeAction)
        ensures
            (final(self).state, action) == bridge_next(
                old(self).usb_errors_disconnect,
                old(self).state,
                event,
            ),
            final(self).usb_errors_disconnect == old(self).usb_errors_disconnect,
    {
        match self.state {
            BridgeState::WaitingConnection => match event {
                BridgeEvent::HostConnected => {
                    self.state = BridgeState::Connected;
                    BridgeAction::Nothing
                },
                _ => BridgeAction::Nothing,
            },
            BridgeState::Connected => match event {
                BridgeEvent::LineCodingChanged(rate) => BridgeAction::SetBaud(rate),
                BridgeEvent::UsbReceived(n) => BridgeAction::WriteUart(n),
                BridgeEvent::UsbReadFailed => if self.usb_errors_disconnect {
                    self.state = BridgeState::WaitingConnection;
                    BridgeAction::Disconnect
                } else {
                    BridgeAction::Nothing
                },
                BridgeEvent::UartReceived(n) => BridgeAction::WriteUsb(n),
                BridgeEvent::UsbWritten(n) => BridgeAction::ConsumeUart(n),
                BridgeEvent::UsbWriteFailed => if self.usb_errors_disconnect {
                    self.state = BridgeState::WaitingConnection;
                    BridgeAction::Disconnect
                } else {
                    BridgeAction::Nothing
                },
                _ => BridgeAction::Nothing,
            },
        }
    }
}

} // verus!
