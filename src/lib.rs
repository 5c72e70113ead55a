//! Driver for the TSL2591 ambient light sensor, with its transactions on the
//! bus and its fixed-point lux conversion stated as contracts.
pub mod bus;
pub mod chip;
pub mod driver;
pub mod laws;
pub mod lux;
pub mod settings;

pub use driver::{check_id, Error, Tsl2591};
pub use bus::I2cBus;
pub use lux::{compute_lux, Lux};
pub use settings::{AlsData, Gain, Integration, Persist};
