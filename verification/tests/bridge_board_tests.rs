use rust_link::board::{
    delay_poll, delay_poll_24bit, fill_ramp, led_level, micros_delay_round, ns_to_cycles,
    pin_level, refill_dummy_samples, ticks_per_us, DelayPoll, HostStatus,
};
use rust_link::uart::{BridgeAction, BridgeEvent, BridgeState, UartBridge};

#[test]
fn bridge_forwards_while_connected() {
    let mut b = UartBridge::new(true);
    assert_eq!(b.step(BridgeEvent::UsbReceived(5)), BridgeAction::Nothing);
    assert_eq!(b.step(BridgeEvent::HostConnected), BridgeAction::Nothing);
    assert_eq!(b.state, BridgeState::Connected);
    assert_eq!(b.step(BridgeEvent::LineCodingChanged(115200)), BridgeAction::SetBaud(115200));
    assert_eq!(b.step(BridgeEvent::UsbReceived(5)), BridgeAction::WriteUart(5));
    assert_eq!(b.step(BridgeEvent::UartReceived(7)), BridgeAction::WriteUsb(7));
    assert_eq!(b.step(BridgeEvent::UsbWritten(7)), BridgeAction::ConsumeUart(7));
    assert_eq!(b.step(BridgeEvent::UartReadFailed), BridgeAction::Nothing);
    assert_eq!(b.step(BridgeEvent::UartWriteFailed), BridgeAction::Nothing);
    assert_eq!(b.state, BridgeState::Connected);
    assert_eq!(b.step(BridgeEvent::UsbWriteFailed), BridgeAction::Disconnect);
    assert_eq!(b.state, BridgeState::WaitingConnection);
    b.step(BridgeEvent::HostConnected);
    assert_eq!(b.step(BridgeEvent::UsbReadFailed), BridgeAction::Disconnect);
}

#[test]
fn bridge_that_keeps_going_on_usb_errors() {
    let mut b = UartBridge::new(false);
    b.step(BridgeEvent::HostConnected);
    assert_eq!(b.step(BridgeEvent::UsbReadFailed), BridgeAction::Nothing);
    assert_eq!(b.step(BridgeEvent::UsbWriteFailed), BridgeAction::Nothing);
    assert_eq!(b.state, BridgeState::Connected);
}

#[test]
fn systick_arithmetic() {
    assert_eq!(ticks_per_us(150_000_000), 150);
    assert_eq!(ticks_per_us(1_499_999), 1);
    assert_eq!(ticks_per_us(1_500_000), 2);
    assert_eq!(delay_poll(10, 100, 95), DelayPoll::Wait(5, 95));
    assert_eq!(delay_poll(10, 100, 90), DelayPoll::Done(90));
    // the counter counts down and wraps
    assert_eq!(delay_poll(10, 3, u32::MAX - 6), DelayPoll::Done(u32::MAX - 6));
    assert_eq!(delay_poll_24bit(10, 3, 0x00ff_fffe), DelayPoll::Wait(5, 0x00ff_fffe));
}

#[test]
fn micros_delay_rounds() {
    assert_eq!(micros_delay_round(0x1fff, 150), None);
    assert_eq!(micros_delay_round(0x2005, 2), Some((10, 0x2000)));
    // a multiple of 0x2000 never shrinks
    assert_eq!(micros_delay_round(0x2000, 150), Some((0, 0x2000)));
}

#[test]
fn cycle_delay() {
    assert_eq!(ns_to_cycles(1000, 24_000_000), 24);
    assert_eq!(ns_to_cycles(u32::MAX, u32::MAX), ((u32::MAX as u64 * u32::MAX as u64) / 1_000_000_000) as u32);
}

#[test]
fn status_led_and_pin_level() {
    assert!(led_level(HostStatus::Connected(true)));
    assert!(!led_level(HostStatus::Running(false)));
    assert!(pin_level(true, true, false));
    assert!(!pin_level(false, true, false));
}

#[test]
fn dummy_adc_pattern() {
    let mut buf = [0u16; 4];
    fill_ramp(&mut buf);
    assert_eq!(buf, [0, 1, 2, 3]);
    refill_dummy_samples(&mut buf);
    assert_eq!(buf, [4, 5, 6, 7]);
    let mut wrap = [0u16, u16::MAX - 1];
    refill_dummy_samples(&mut wrap);
    assert_eq!(wrap, [u16::MAX, 0]);
}

#[test]
fn dummy_ramp_continues_across_refills() {
    let mut buf = [5u16, 9];
    let mut seen: Vec<u16> = Vec::new();
    for _ in 0..3 {
        refill_dummy_samples(&mut buf);
        seen.extend_from_slice(&buf);
    }
    assert_eq!(seen, vec![10, 11, 12, 13, 14, 15]);
}
