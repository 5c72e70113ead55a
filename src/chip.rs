//! Register map and bit layout of the TSL2591 light sensor.
use vstd::prelude::*;

verus! {

/// Seven-bit bus address of the sensor.
pub const I2C_ADDR: u8 = 0x29;

/// Value held by the identity register.
pub const DEV_ID: u8 = 0x50;

/// Largest channel count with an integration time above 100 ms.
pub const MAX_ADC: u16 = 65535;

/// Largest channel count with an integration time of 100 ms.
pub const MAX_ADC_100: u16 = 36863;

/// Device factor of the lux formula.
pub const LUX_DF: u16 = 408;

/// Registers.
pub const REG_ENABLE: u8 = 0x00;
pub const REG_CONFIG: u8 = 0x01;
pub const REG_AILTL: u8 = 0x04;
pub const REG_PERSIST: u8 = 0x0C;
pub const REG_ID: u8 = 0x12;
pub const REG_STATUS: u8 = 0x13;
pub const REG_C0DATAL: u8 = 0x14;

/// Command byte: CMD:7 | TRANSACTION:6:5 | ADDR/SF:4:0.
pub const CMD_NORMAL: u8 = 0x80 | 0x20;
pub const CMD_SPECIAL: u8 = 0x80 | 0x40 | 0x20;
pub const CMD_CLEAR_INT: u8 = CMD_SPECIAL | 0x07;

/// Enable register: NPIEN:7 | SAI:6 | AIEN:4 | AEN:1 | PON:0.
pub const POWER_MASK: u8 = 0x02 | 0x01;
pub const POWER_ON: u8 = 0x02 | 0x01;
pub const POWER_OFF: u8 = 0;
pub const AEN_MASK: u8 = 0x02;
pub const AEN_ON: u8 = 0x02;
pub const AEN_OFF: u8 = 0;
pub const AIEN_MASK: u8 = 0x10;
pub const AIEN_ON: u8 = 0x10;
pub const AIEN_OFF: u8 = 0;

/// Config register: SRESET:7 | AGAIN:5:4 | ATIME:2:0.
pub const SRESET: u8 = 0x80;
pub const AGAIN_MASK: u8 = 0x20 | 0x10;
pub const ATIME_MASK: u8 = 0x04 | 0x02 | 0x01;

/// Status register: AVALID:0.
pub const AVALID_MASK: u8 = 0x01;

} // verus!
