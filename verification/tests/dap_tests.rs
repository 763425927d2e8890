use std::cell::RefCell;
use std::collections::VecDeque;
use std::rc::Rc;

use rust_link::dap::context::{Context, DbgDelay, DbgPin, SWJ_PIN_NRESET, SWJ_PIN_SWCLK, SWJ_PIN_SWDIO};
use rust_link::dap::jtag::Jtag;
use rust_link::dap::swd::Swd;
use rust_link::dap::wire::{APnDP, DPRegister, SwdError};

/// A simulated wire: records the SWDIO level at each rising SWCLK edge while
/// SWDIO drives, and answers SWDIO reads from a script.
#[derive(Default)]
struct Wire {
    swclk_high: bool,
    swdio_level: bool,
    swdio_output: bool,
    nreset_level: bool,
    written: Vec<bool>,
    script: VecDeque<bool>,
    log: Vec<String>,
    timing: Vec<String>,
}

#[derive(Clone, Copy)]
enum Line {
    Clk,
    Dio,
    Rst,
}

struct SimPin {
    line: Line,
    wire: Rc<RefCell<Wire>>,
}

impl DbgPin for SimPin {
    fn into_input(&mut self) {
        let mut w = self.wire.borrow_mut();
        if let Line::Dio = self.line {
            w.swdio_output = false;
        }
        w.log.push(format!("in{}", self.name()));
    }
    fn into_output_in_state(&mut self, high: bool) {
        self.set(high);
        let mut w = self.wire.borrow_mut();
        if let Line::Dio = self.line {
            w.swdio_output = true;
        }
        w.log.push(format!("out{}{}", self.name(), high as u8));
    }
    fn set_low(&mut self) {
        self.check_owned();
        self.set(false);
    }
    fn set_high(&mut self) {
        self.check_owned();
        self.set(true);
    }
    fn is_high(&self) -> bool {
        let mut w = self.wire.borrow_mut();
        match self.line {
            Line::Clk => w.swclk_high,
            Line::Rst => w.nreset_level,
            Line::Dio => {
                if w.swdio_output {
                    w.swdio_level
                } else {
                    w.script.pop_front().unwrap_or(false)
                }
            }
        }
    }
}

impl SimPin {
    /// The probe may only drive SWDIO while it holds the line.
    fn check_owned(&self) {
        if let Line::Dio = self.line {
            assert!(self.wire.borrow().swdio_output, "SWDIO driven while released");
        }
    }

    fn name(&self) -> &'static str {
        match self.line {
            Line::Clk => "C",
            Line::Dio => "D",
            Line::Rst => "R",
        }
    }
    fn set(&mut self, high: bool) {
        let mut w = self.wire.borrow_mut();
        match self.line {
            Line::Clk => {
                if high && !w.swclk_high && w.swdio_output {
                    let b = w.swdio_level;
                    w.written.push(b);
                }
                w.swclk_high = high;
            }
            Line::Dio => w.swdio_level = high,
            Line::Rst => w.nreset_level = high,
        }
    }
}

/// A simulated tick counter that records each reading and each wait.
struct SimDelay {
    wire: Rc<RefCell<Wire>>,
}

impl DbgDelay for SimDelay {
    fn get_current(&self) -> u32 {
        self.wire.borrow_mut().timing.push("now".to_string());
        0
    }
    fn delay_ticks_from_last(&self, ticks: u32, last: u32) -> u32 {
        self.wire.borrow_mut().timing.push(format!("wait{}", ticks));
        last
    }
}

fn port(cpu: u32) -> (Context<SimPin, SimDelay>, Rc<RefCell<Wire>>) {
    let wire = Rc::new(RefCell::new(Wire::default()));
    let pin = |line| SimPin { line, wire: wire.clone() };
    let delay = SimDelay { wire: wire.clone() };
    (Context::from_pins(pin(Line::Dio), pin(Line::Clk), pin(Line::Rst), cpu, delay), wire)
}

fn bits_of(value: u64, n: usize) -> Vec<bool> {
    (0..n).map(|i| (value >> i) & 1 == 1).collect()
}

fn value_of(bits: &[bool]) -> u64 {
    bits.iter().enumerate().map(|(i, b)| (*b as u64) << i).sum()
}

#[test]
fn context_clock_settings() {
    let (mut ctx, _) = port(150_000_000);
    assert_eq!(ctx.max_frequency(), 100_000);
    assert_eq!(ctx.half_period_ticks(), 750);
    assert_eq!(ctx.cycles_per_us(), 150);
    assert!(ctx.process_swj_clock(1_000_000));
    assert_eq!(ctx.max_frequency(), 1_000_000);
    assert_eq!(ctx.half_period_ticks(), 75);
    assert!(!ctx.process_swj_clock(150_000_000));
    assert_eq!(ctx.max_frequency(), 1_000_000);
}

fn scripted_read(ack: u64, data: u32, parity: bool) -> VecDeque<bool> {
    let mut s: VecDeque<bool> = VecDeque::new();
    s.extend(bits_of(ack << 1, 4));
    s.extend(bits_of(data as u64, 32));
    s.push_back(parity);
    s.push_back(false);
    s
}

#[test]
fn swd_read_ok() {
    let (ctx, wire) = port(48_000_000);
    let mut swd = Swd::new(ctx);
    wire.borrow_mut().written.clear();
    wire.borrow_mut().script = scripted_read(0b001, 0x2BA0_1477, 0x2BA0_1477u32.count_ones() % 2 == 1);
    assert_eq!(swd.read_inner(APnDP::DP, DPRegister::DPIDR), Ok(0x2BA0_1477));
    let w = wire.borrow();
    // the request byte, then eight idle cycles
    assert_eq!(value_of(&w.written[..8]), 0xA5);
    assert_eq!(&w.written[8..], &[false; 8]);
    assert!(w.script.is_empty());
}

#[test]
fn swd_read_bad_parity() {
    let (ctx, wire) = port(48_000_000);
    let mut swd = Swd::new(ctx);
    wire.borrow_mut().script = scripted_read(0b001, 0x1, false);
    assert_eq!(swd.read_inner(APnDP::AP, DPRegister::RDBUFF), Err(SwdError::BadParity));
}

#[test]
fn swd_read_wait_and_fault_and_garbage() {
    for (ack, err) in [
        (0b010, SwdError::AckWait),
        (0b100, SwdError::AckFault),
        (0b111, SwdError::AckProtocol),
        (0b000, SwdError::AckUnknown(0)),
        (0b110, SwdError::AckUnknown(6)),
    ] {
        let (ctx, wire) = port(48_000_000);
        let mut swd = Swd::new(ctx);
        wire.borrow_mut().script = bits_of(ack << 1, 4).into_iter().collect();
        assert_eq!(swd.read_inner(APnDP::DP, DPRegister::CTRLSTAT), Err(err));
        // only the acknowledgement phase was read
        assert!(wire.borrow().script.is_empty());
    }
}

#[test]
fn swd_write_ok_sends_data_and_parity() {
    let (ctx, wire) = port(48_000_000);
    let mut swd = Swd::new(ctx);
    wire.borrow_mut().written.clear();
    wire.borrow_mut().script = bits_of(0b001 << 1, 5).into_iter().collect();
    assert_eq!(swd.write_inner(APnDP::DP, DPRegister::SELECT, 0x0000_00F0), Ok(()));
    let w = wire.borrow();
    assert_eq!(value_of(&w.written[..8]), 0xB1);
    assert_eq!(value_of(&w.written[8..40]), 0xF0);
    assert_eq!(w.written[40], false); // four ones: even
    assert_eq!(&w.written[41..], &[false; 8]);
}

#[test]
fn swd_write_refused() {
    let (ctx, wire) = port(48_000_000);
    let mut swd = Swd::new(ctx);
    wire.borrow_mut().written.clear();
    wire.borrow_mut().script = bits_of(0b010 << 1, 5).into_iter().collect();
    assert_eq!(swd.write_inner(APnDP::AP, DPRegister::DPIDR, 7), Err(SwdError::AckWait));
    assert_eq!(wire.borrow().written.len(), 16);
}

#[test]
fn swd_sequences() {
    let (ctx, wire) = port(48_000_000);
    let mut swd = Swd::new(ctx);
    wire.borrow_mut().written.clear();
    assert_eq!(swd.write_sequence(12, &[0xFF, 0x05, 0xAA]), Ok(()));
    assert_eq!(value_of(&wire.borrow().written), 0x5FF);
    assert_eq!(wire.borrow().written.len(), 12);

    wire.borrow_mut().script = bits_of(0b1_0110_1001, 9).into_iter().collect();
    let mut data = [0x10u8, 0x00, 0x00];
    assert_eq!(swd.read_sequence(9, &mut data), Ok(()));
    assert_eq!(data, [0x10 | 0x69, 0x01, 0x00]);
}

#[test]
fn swj_sequence_clocks_the_bits() {
    let (mut ctx, wire) = port(48_000_000);
    ctx.process_swj_sequence(&[0x9E, 0xE7], 16);
    assert_eq!(value_of(&wire.borrow().written), 0xE79E);
}

#[test]
fn swj_pins_drive_and_read_back() {
    let (mut ctx, wire) = port(48_000_000);
    let r = ctx.process_swj_pins(SWJ_PIN_SWCLK | SWJ_PIN_NRESET, SWJ_PIN_SWCLK | SWJ_PIN_SWDIO | SWJ_PIN_NRESET, 0);
    // SWCLK stays high; SWDIO was released and reads the script (empty: low);
    // nRESET was released (it keeps its last level, low)
    assert_eq!(r, SWJ_PIN_SWCLK);
    assert_eq!(&wire.borrow().log[..], &["outC1", "outD1", "inR", "inC", "inD", "inR"]);
}

#[test]
fn high_impedance_releases_all() {
    let (mut ctx, wire) = port(48_000_000);
    ctx.high_impedance_mode();
    assert_eq!(&wire.borrow().log[..], &["inD", "inC", "inR"]);
}

#[test]
fn jtag_is_absent() {
    let (ctx, _) = port(48_000_000);
    let mut jtag = Jtag::new(ctx);
    let mut rx = [3u8; 4];
    assert_eq!(jtag.sequences(&[1, 2, 3], &mut rx), 0);
    assert_eq!(rx, [3; 4]);
    assert!(jtag.set_clock(1_000_000));
    assert_eq!(jtag.into_context().max_frequency(), 1_000_000);
}

#[test]
fn swj_pins_wait_stops_once_the_lines_settle() {
    let (mut ctx, wire) = port(48_000_000);
    // SWCLK is driven high and reads high at the first check
    ctx.process_swj_pins(SWJ_PIN_SWCLK, SWJ_PIN_SWCLK, 10);
    assert_eq!(&wire.borrow().timing[..], &["now", "wait48"]);
}

#[test]
fn swj_pins_wait_runs_out_when_a_line_never_settles() {
    let (mut ctx, wire) = port(48_000_000);
    // nRESET is released for a high level, but nothing pulls it up
    let r = ctx.process_swj_pins(SWJ_PIN_NRESET, SWJ_PIN_NRESET, 3);
    assert_eq!(r & SWJ_PIN_NRESET, 0);
    assert_eq!(&wire.borrow().timing[..], &["now", "wait48", "wait48", "wait48"]);
}

#[test]
fn swj_pins_without_wait_only_reads_the_counter() {
    let (mut ctx, wire) = port(48_000_000);
    ctx.process_swj_pins(SWJ_PIN_NRESET, SWJ_PIN_NRESET, 0);
    assert_eq!(&wire.borrow().timing[..], &["now"]);
}

#[test]
fn swj_sequence_waits_half_a_period_per_edge() {
    let (mut ctx, wire) = port(48_000_000);
    // 48 MHz / 100 kHz / 2 = 240 ticks per half period
    ctx.process_swj_sequence(&[0x9E], 3);
    let mut expected = vec!["now".to_string()];
    expected.extend(std::iter::repeat("wait240".to_string()).take(1 + 2 * 3));
    assert_eq!(wire.borrow().timing, expected);
}

#[test]
fn swd_bits_follow_the_clock_setting() {
    let (mut ctx, wire) = port(48_000_000);
    assert!(ctx.process_swj_clock(1_000_000));
    let mut swd = Swd::new(ctx);
    assert_eq!(swd.write_sequence(2, &[0x3]), Ok(()));
    assert_eq!(&wire.borrow().timing[..], &["now", "wait24", "wait24", "wait24", "wait24"]);
}
