//! The PPK2 command set and the probe's reaction to each command.

use vstd::prelude::*;

verus! {

/// The commands of the PPK2 protocol, decoded from the first byte of a
/// command packet.
#[derive(Clone, Copy, Debug, PartialEq, Eq, Structural)]
pub enum Commands {
    NoOp,
    TriggerSet,
    AvgNumSet,
    TriggerWindowSet,
    TriggerIntervalSet,
    TriggerSingleSet,
    AverageStart,
    AverageStop,
    RangeSet,
    LcdSet,
    TriggerStop,
    DeviceRunningSet,
    RegulatorSet,
    SwitchPointDown,
    SwitchPointUp,
    TriggerExtToggle,
    SetPowerMode,
    ResUserSet,
    SpikeFilteringOn,
    SpikeFilteringOff,
    GetMetaData,
    Reset,
    SetUserGains,
    Unkown(u8),
}

/// The wire code of a command.
pub open spec fn command_code(c: Commands) -> u8 {
    match c {
        Commands::NoOp => 0x00,
        Commands::TriggerSet => 0x01,
        Commands::AvgNumSet => 0x02,
        Commands::TriggerWindowSet => 0x03,
        Commands::TriggerIntervalSet => 0x04,
        Commands::TriggerSingleSet => 0x05,
        Commands::AverageStart => 0x06,
        Commands::AverageStop => 0x07,
        Commands::RangeSet => 0x08,
        Commands::LcdSet => 0x09,
        Commands::TriggerStop => 0x0A,
        Commands::DeviceRunningSet => 0x0C,
        Commands::RegulatorSet => 0x0D,
        Commands::SwitchPointDown => 0x0E,
        Commands::SwitchPointUp => 0x0F,
        Commands::TriggerExtToggle => 0x10,
        Commands::SetPowerMode => 0x11,
        Commands::ResUserSet => 0x12,
        Commands::SpikeFilteringOn => 0x15,
        Commands::SpikeFilteringOff => 0x16,
        Commands::GetMetaData => 0x19,
        Commands::Reset => 0x20,
        Commands::SetUserGains => 0x25,
        Commands::Unkown(v) => v,
    }
}

/// Whether a byte is the code of a command of the protocol.
pub open spec fn is_known_code(b: u8) -> bool {
    ||| 0x00 <= b <= 0x0A
    ||| 0x0C <= b <= 0x12
    ||| b == 0x15
    ||| b == 0x16
    ||| b == 0x19
    ||| b == 0x20
    ||| b == 0x25
}

/// The command that a byte encodes.
pub open spec fn decode_command(b: u8) -> Commands {
    if b == 0x00 {
        Commands::NoOp
    } else if b == 0x01 {
        Commands::TriggerSet
    } else if b == 0x02 {
        Commands::AvgNumSet
    } else if b == 0x03 {
        Commands::TriggerWindowSet
    } else if b == 0x04 {
        Commands::TriggerIntervalSet
    } else if b == 0x05 {
        Commands::TriggerSingleSet
    } else if b == 0x06 {
        Commands::AverageStart
    } else if b == 0x07 {
        Commands::AverageStop
    } else if b == 0x08 {
        Commands::RangeSet
    } else if b == 0x09 {
        Commands::LcdSet
    } else if b == 0x0A {
        Commands::TriggerStop
    } else if b == 0x0C {
        Commands::DeviceRunningSet
    } else if b == 0x0D {
        Commands::RegulatorSet
    } else if b == 0x0E {
        Commands::SwitchPointDown
    } else if b == 0x0F {
        Commands::SwitchPointUp
    } else if b == 0x10 {
        Commands::TriggerExtToggle
    } else if b == 0x11 {
        Commands::SetPowerMode
    } else if b == 0x12 {
        Commands::ResUserSet
    } else if b == 0x15 {
        Commands::SpikeFilteringOn
    } else if b == 0x16 {
        Commands::SpikeFilteringOff
    } else if b == 0x19 {
        Commands::GetMetaData
    } else if b == 0x20 {
        Commands::Reset
    } else if b == 0x25 {
        Commands::SetUserGains
    } else {
        Commands::Unkown(b)
    }
}

impl vstd::std_specs::convert::FromSpecImpl<u8> for Commands {
    open spec fn obeys_from_spec() -> bool {
        true
    }

    open spec fn from_spec(v: u8) -> Self {
        decode_command(v)
    }
}

impl From<u8> for Commands {
    fn from(value: u8) -> (r: Self) {
        match value {
            0x00 => Commands::NoOp,
            0x01 => Commands::TriggerSet,
            0x02 => Commands::AvgNumSet,
            0x03 => Commands::TriggerWindowSet,
            0x04 => Commands::TriggerIntervalSet,
            0x05 => Commands::TriggerSingleSet,
            0x06 => Commands::AverageStart,
            0x07 => Commands::AverageStop,
            0x08 => Commands::RangeSet,
            0x09 => Commands::LcdSet,
            0x0A => Commands::TriggerStop,
            0x0C => Commands::DeviceRunningSet,
            0x0D => Commands::RegulatorSet,
            0x0E => Commands::SwitchPointDown,
            0x0F => Commands::SwitchPointUp,
            0x10 => Commands::TriggerExtToggle,
            0x11 => Commands::SetPowerMode,
            0x12 => Commands::ResUserSet,
            0x15 => Commands::SpikeFilteringOn,
            0x16 => Commands::SpikeFilteringOff,
            0x19 => Commands::GetMetaData,
            0x20 => Commands::Reset,
            0x25 => Commands::SetUserGains,
            _ => Commands::Unkown(value),
        }
    }
}

/// Decoding loses nothing: the decoded command carries the byte it came
/// from, and it is `Unkown` exactly for the bytes that no command uses.
pub proof fn lemma_decode_keeps_code(b: u8)
    ensures
        command_code(decode_command(b)) == b,
        decode_command(b) is Unkown <==> !is_known_code(b),
{
}

/// A command is decoded back from its own code, unless it is an `Unkown`
/// holding the code of a known command.
pub proof fn lemma_decode_of_code(c: Commands)
    requires
        c is Unkown ==> !is_known_code(c->Unkown_0),
    ensures
        decode_command(command_code(c)) == c,
{
}

} // verus!
