//! Sensor settings, each with its register bit pattern and physical value.
use vstd::prelude::*;

verus! {

/// Integration (exposure) time of one ADC cycle.
#[derive(Clone, Copy, Debug, PartialEq, Eq, Structural)]
pub enum Integration {
    T100ms,
    T200ms,
    T300ms,
    T400ms,
    T500ms,
    T600ms,
}

/// Analog gain applied before digitization.
#[derive(Clone, Copy, Debug, PartialEq, Eq, Structural)]
pub enum Gain {
    Low,
    Med,
    High,
    Max,
}

/// Number of consecutive out-of-threshold cycles before an interrupt fires.
#[derive(Clone, Copy, Debug, PartialEq, Eq, Structural)]
pub enum Persist {
    F0,
    F1,
    F2,
    F3,
    F5,
    F10,
    F15,
    F20,
    F25,
    F30,
    F35,
    F40,
    F45,
    F50,
    F55,
    F60,
}

/// One raw reading of the two photodiode channels.
#[derive(Clone, Copy, Debug, PartialEq, Eq, Structural)]
pub struct AlsData {
    pub visible: u16,
    pub infrared: u16,
}

impl Integration {
    /// ATIME field of the config register.
    pub open spec fn spec_bits(self) -> u8 {
        match self {
            Integration::T100ms => 0x00,
            Integration::T200ms => 0x01,
            Integration::T300ms => 0x02,
            Integration::T400ms => 0x03,
            Integration::T500ms => 0x04,
            Integration::T600ms => 0x05,
        }
    }

    /// Integration time in milliseconds.
    pub open spec fn spec_millis(self) -> u16 {
        match self {
            Integration::T100ms => 100,
            Integration::T200ms => 200,
            Integration::T300ms => 300,
            Integration::T400ms => 400,
            Integration::T500ms => 500,
            Integration::T600ms => 600,
        }
    }

    pub fn bits(self) -> (r: u8)
        ensures
            r == self.spec_bits(),
    {
        match self {
            Integration::T100ms => 0x00,
            Integration::T200ms => 0x01,
            Integration::T300ms => 0x02,
            Integration::T400ms => 0x03,
            Integration::T500ms => 0x04,
            Integration::T600ms => 0x05,
        }
    }
}

impl Gain {
    /// AGAIN field of the config register, in place.
    pub open spec fn spec_bits(self) -> u8 {
        match self {
            Gain::Low => 0x00,
            Gain::Med => 0x10,
            Gain::High => 0x20,
            Gain::Max => 0x30,
        }
    }

    /// Multiplier that the lux formula uses for this gain.
    pub open spec fn spec_multiplier(self) -> u16 {
        match self {
            Gain::Low => 1,
            Gain::Med => 25,
            Gain::High => 400,
            Gain::Max => 9200,
        }
    }

    pub fn bits(self) -> (r: u8)
        ensures
            r == self.spec_bits(),
    {
        match self {
            Gain::Low => 0x00,
            Gain::Med => 0x10,
            Gain::High => 0x20,
            Gain::Max => 0x30,
        }
    }
}

impl Persist {
    /// Value of the persist register.
    pub open spec fn spec_bits(self) -> u8 {
        match self {
            Persist::F0 => 0x00,
            Persist::F1 => 0x01,
            Persist::F2 => 0x02,
            Persist::F3 => 0x03,
            Persist::F5 => 0x04,
            Persist::F10 => 0x05,
            Persist::F15 => 0x06,
            Persist::F20 => 0x07,
            Persist::F25 => 0x08,
            Persist::F30 => 0x09,
            Persist::F35 => 0x0A,
            Persist::F40 => 0x0B,
            Persist::F45 => 0x0C,
            Persist::F50 => 0x0D,
            Persist::F55 => 0x0E,
            Persist::F60 => 0x0F,
        }
    }

    pub fn bits(self) -> (r: u8)
        ensures
            r == self.spec_bits(),
    {
        match self {
            Persist::F0 => 0x00,
            Persist::F1 => 0x01,
            Persist::F2 => 0x02,
            Persist::F3 => 0x03,
            Persist::F5 => 0x04,
            Persist::F10 => 0x05,
            Persist::F15 => 0x06,
            Persist::F20 => 0x07,
            Persist::F25 => 0x08,
            Persist::F30 => 0x09,
            Persist::F35 => 0x0A,
            Persist::F40 => 0x0B,
            Persist::F45 => 0x0C,
            Persist::F50 => 0x0D,
            Persist::F55 => 0x0E,
            Persist::F60 => 0x0F,
        }
    }
}

/// A gain multiplier that some gain setting maps to.
pub open spec fn is_gain_multiplier(m: u16) -> bool {
    m == 1 || m == 25 || m == 400 || m == 9200
}

/// An integration time, in milliseconds, that some setting maps to.
pub open spec fn is_integration_millis(t: u16) -> bool {
    t == 100 || t == 200 || t == 300 || t == 400 || t == 500 || t == 600
}

} // verus!
