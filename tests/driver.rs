use std::cell::RefCell;
use std::rc::Rc;

use tsl2591_rs::{compute_lux, AlsData, Error, Gain, I2cBus, Integration, Persist, Tsl2591};

const ENABLE: usize = 0x00;
const CONFIG: usize = 0x01;
const AILTL: usize = 0x04;
const PERSIST: usize = 0x0C;
const ID: usize = 0x12;
const STATUS: usize = 0x13;
const C0DATAL: usize = 0x14;

#[derive(Debug, Clone, Copy, PartialEq)]
struct Fault(usize);

/// A register file behind the bus, as the sensor keeps it.
struct Chip {
    regs: [u8; 32],
    writes: Vec<Vec<u8>>,
    reads: Vec<u8>,
    transfers: usize,
    fail_at: Vec<usize>,
}

#[derive(Clone)]
struct Bus(Rc<RefCell<Chip>>);

impl Bus {
    fn new(id: u8) -> Bus {
        let mut regs = [0u8; 32];
        regs[ID] = id;
        Bus(Rc::new(RefCell::new(Chip {
            regs,
            writes: Vec::new(),
            reads: Vec::new(),
            transfers: 0,
            fail_at: Vec::new(),
        })))
    }

    fn chip(&self) -> std::cell::RefMut<'_, Chip> {
        self.0.borrow_mut()
    }

    /// Makes the transfer with this index (counted from now) fail.
    fn fail_after(&self, n: usize) {
        let mut c = self.chip();
        let at = c.transfers + n;
        c.fail_at.push(at);
    }

    fn set_channels(&self, visible: u16, infrared: u16) {
        let mut c = self.chip();
        c.regs[C0DATAL] = (visible & 0xff) as u8;
        c.regs[C0DATAL + 1] = (visible >> 8) as u8;
        c.regs[C0DATAL + 2] = (infrared & 0xff) as u8;
        c.regs[C0DATAL + 3] = (infrared >> 8) as u8;
    }

    fn clear_log(&self) {
        let mut c = self.chip();
        c.writes.clear();
        c.reads.clear();
    }
}

impl Chip {
    /// The error of the next transfer, where it is set to fail: each
    /// failure carries the transfer's index.
    fn next_fault(&mut self) -> Option<Fault> {
        let n = self.transfers;
        self.transfers += 1;
        if self.fail_at.contains(&n) {
            Some(Fault(n))
        } else {
            None
        }
    }
}

impl I2cBus for Bus {
    type Error = Fault;

    fn write(&mut self, address: u8, bytes: &[u8]) -> Result<(), Fault> {
        let mut c = self.chip();
        assert_eq!(address, 0x29);
        if let Some(f) = c.next_fault() {
            return Err(f);
        }
        c.writes.push(bytes.to_vec());
        if bytes[0] & 0xe0 == 0xa0 {
            let reg = (bytes[0] & 0x1f) as usize;
            for (i, b) in bytes[1..].iter().enumerate() {
                c.regs[reg + i] = *b;
            }
            if reg == CONFIG && bytes.len() > 1 && bytes[1] & 0x80 != 0 {
                c.regs[CONFIG] = 0;
            }
        }
        Ok(())
    }

    fn write_read(&mut self, address: u8, bytes: &[u8], read: &mut [u8]) -> Result<(), Fault> {
        let mut c = self.chip();
        assert_eq!(address, 0x29);
        if let Some(f) = c.next_fault() {
            return Err(f);
        }
        let reg = (bytes[0] & 0x1f) as usize;
        c.reads.push(reg as u8);
        for (i, b) in read.iter_mut().enumerate() {
            *b = c.regs[reg + i];
        }
        Ok(())
    }
}

fn device(bus: &Bus) -> Tsl2591<Bus> {
    let d = Tsl2591::new(bus.clone()).unwrap();
    bus.clear_log();
    d
}

#[test]
fn new_resets_checks_identity_and_powers_on() {
    let bus = Bus::new(0x50);
    let d = Tsl2591::new(bus.clone()).unwrap();
    assert!(d.powered_on);
    let c = bus.chip();
    assert_eq!(c.regs[ENABLE] & 0x03, 0x03);
    assert!(c.writes.contains(&vec![0xa1, 0x80]));
    assert!(c.reads.contains(&(ID as u8)));
}

#[test]
fn new_rejects_another_identity_byte() {
    let bus = Bus::new(0x51);
    match Tsl2591::new(bus.clone()) {
        Err(Error::InvalidId(id)) => assert_eq!(id, 0x51),
        _ => panic!("expected InvalidId"),
    }
    // Nothing was written after the identity read: gain and time untouched.
    let c = bus.chip();
    assert_eq!(*c.reads.last().unwrap(), ID as u8);
    assert_eq!(c.regs[CONFIG], 0);
}

#[test]
fn new_reports_transport_failure() {
    let bus = Bus::new(0x50);
    bus.fail_after(0);
    assert!(matches!(Tsl2591::new(bus.clone()), Err(Error::I2cError(_))));
}

#[test]
fn new_with_wrong_id_starts_from_default_settings_when_retried() {
    let bus = Bus::new(0x00);
    assert!(matches!(Tsl2591::new(bus.clone()), Err(Error::InvalidId(0x00))));
    bus.chip().regs[ID] = 0x50;
    bus.set_channels(100, 0);
    let mut d = Tsl2591::new(bus.clone()).unwrap();
    // Low gain and 100 ms: 100 visible counts are 408 lux.
    let l = d.get_lux(false).unwrap();
    assert_eq!((l.integer, l.fractional), (408, 0));
}

#[test]
fn write_and_read_frame_the_command_byte() {
    let bus = Bus::new(0x50);
    let mut d = device(&bus);
    d.write(0x0c, 0x05).unwrap();
    assert_eq!(bus.chip().writes, vec![vec![0xac, 0x05]]);
    let mut buf = [0u8; 1];
    d.read(0x0c, &mut buf).unwrap();
    assert_eq!(buf, [0x05]);
}

#[test]
fn update_keeps_bits_outside_the_mask() {
    let bus = Bus::new(0x50);
    let mut d = device(&bus);
    bus.chip().regs[0x08] = 0b1010_0100;
    d.update(0x08, 0b0000_0011, 0xff).unwrap();
    assert_eq!(bus.chip().regs[0x08], 0b1010_0111);
    d.update(0x08, 0b1000_0001, 0b0000_0000).unwrap();
    assert_eq!(bus.chip().regs[0x08], 0b0010_0110);
}

#[test]
fn update_repeated_writes_once() {
    let bus = Bus::new(0x50);
    let mut d = device(&bus);
    d.update(0x08, 0x30, 0x20).unwrap();
    assert_eq!(bus.chip().writes.len(), 1);
    d.update(0x08, 0x30, 0x20).unwrap();
    assert_eq!(bus.chip().writes.len(), 1);
    assert_eq!(bus.chip().reads.len(), 2);
}

#[test]
fn update_read_failure_writes_nothing() {
    let bus = Bus::new(0x50);
    let mut d = device(&bus);
    bus.fail_after(0);
    assert!(matches!(d.update(0x08, 0xff, 0x01), Err(Error::I2cError(_))));
    assert!(bus.chip().writes.is_empty());
}

#[test]
fn clear_interrupt_is_sent_every_time() {
    let bus = Bus::new(0x50);
    let mut d = device(&bus);
    d.clear_interrupt().unwrap();
    d.clear_interrupt().unwrap();
    assert_eq!(bus.chip().writes, vec![vec![0xe7], vec![0xe7]]);
}

#[test]
fn enable_interrupt_toggles_its_bit() {
    let bus = Bus::new(0x50);
    let mut d = device(&bus);
    d.enable_interrupt(true).unwrap();
    assert_eq!(bus.chip().regs[ENABLE], 0x13);
    d.enable_interrupt(false).unwrap();
    assert_eq!(bus.chip().regs[ENABLE], 0x03);
}

#[test]
fn power_off_and_on_track_the_power_bits() {
    let bus = Bus::new(0x50);
    let mut d = device(&bus);
    d.power_off().unwrap();
    assert!(!d.powered_on);
    assert_eq!(bus.chip().regs[ENABLE] & 0x03, 0);
    d.power_on().unwrap();
    assert!(d.powered_on);
    assert_eq!(bus.chip().regs[ENABLE] & 0x03, 0x03);
}

#[test]
fn power_off_failure_keeps_the_power_state() {
    let bus = Bus::new(0x50);
    let mut d = device(&bus);
    bus.fail_after(0);
    assert!(d.power_off().is_err());
    assert!(d.powered_on);
}

#[test]
fn get_id_reads_the_identity_register() {
    let bus = Bus::new(0x50);
    let mut d = device(&bus);
    assert_eq!(d.get_id().unwrap(), 0x50);
}

#[test]
fn set_again_writes_gain_bits_while_powered_down() {
    let bus = Bus::new(0x50);
    let mut d = device(&bus);
    d.set_again(Gain::Max).unwrap();
    let c = bus.chip();
    assert_eq!(c.regs[CONFIG] & 0x30, 0x30);
    assert_eq!(c.writes, vec![vec![0xa0, 0x00], vec![0xa1, 0x30], vec![0xa0, 0x03]]);
}

#[test]
fn set_atime_writes_time_bits() {
    let bus = Bus::new(0x50);
    let mut d = device(&bus);
    d.set_atime(Integration::T600ms).unwrap();
    assert_eq!(bus.chip().regs[CONFIG] & 0x07, 0x05);
    assert!(d.powered_on);
}

#[test]
fn set_persist_writes_the_register() {
    let bus = Bus::new(0x50);
    let mut d = device(&bus);
    d.set_persist(Persist::F60).unwrap();
    assert_eq!(bus.chip().regs[PERSIST], 0x0f);
    d.set_persist(Persist::F5).unwrap();
    assert_eq!(bus.chip().regs[PERSIST], 0x04);
}

#[test]
fn set_threshold_sends_both_little_endian_in_one_transfer() {
    let bus = Bus::new(0x50);
    let mut d = device(&bus);
    d.set_threshold(0x1234, 0xabcd).unwrap();
    let c = bus.chip();
    assert!(c.writes.contains(&vec![0xa4, 0x34, 0x12, 0xcd, 0xab]));
    assert_eq!(&c.regs[AILTL..AILTL + 4], &[0x34, 0x12, 0xcd, 0xab]);
    assert_eq!(c.regs[ENABLE] & 0x03, 0x03);
}

#[test]
fn failed_change_still_powers_back_on() {
    let bus = Bus::new(0x50);
    let mut d = device(&bus);
    // Transfer 0: power-off read, 1: power-off write, 2: config read fails.
    bus.fail_after(2);
    assert!(matches!(d.set_again(Gain::High), Err(Error::I2cError(_))));
    assert_eq!(bus.chip().regs[ENABLE] & 0x03, 0x03);
    assert!(d.powered_on);
    // The gain was not applied: a reading still converts with gain 1.
    bus.set_channels(100, 0);
    let l = d.get_lux(false).unwrap();
    assert_eq!((l.integer, l.fractional), (408, 0));
}

#[test]
fn failed_power_off_applies_nothing() {
    let bus = Bus::new(0x50);
    let mut d = device(&bus);
    bus.fail_after(0);
    assert!(d.set_persist(Persist::F10).is_err());
    assert!(bus.chip().writes.is_empty());
    assert_eq!(bus.chip().regs[PERSIST], 0);
}

#[test]
fn is_cycle_complete_reads_the_valid_bit() {
    let bus = Bus::new(0x50);
    let mut d = device(&bus);
    assert!(!d.is_cycle_complete().unwrap());
    bus.chip().regs[STATUS] = 0x11;
    assert!(d.is_cycle_complete().unwrap());
}

#[test]
fn incomplete_cycle_fails_without_reading_channels() {
    let bus = Bus::new(0x50);
    let mut d = device(&bus);
    bus.chip().regs[STATUS] = 0x10;
    assert!(matches!(d.get_raw_als_data(true), Err(Error::CycleIncomplete)));
    let c = bus.chip();
    assert_eq!(c.reads, vec![STATUS as u8]);
    assert!(c.writes.is_empty());
}

#[test]
fn complete_cycle_rearms_then_reads_both_channels() {
    let bus = Bus::new(0x50);
    let mut d = device(&bus);
    bus.chip().regs[STATUS] = 0x01;
    bus.set_channels(0x1234, 0x0102);
    let data = d.get_raw_als_data(true).unwrap();
    assert_eq!(data, AlsData { visible: 0x1234, infrared: 0x0102 });
    let c = bus.chip();
    assert_eq!(c.writes, vec![vec![0xa0, 0x01], vec![0xa0, 0x03]]);
    assert_eq!(*c.reads.last().unwrap(), C0DATAL as u8);
}

#[test]
fn unchecked_read_goes_straight_to_the_channels() {
    let bus = Bus::new(0x50);
    let mut d = device(&bus);
    bus.set_channels(7, 3);
    assert_eq!(d.get_raw_als_data(false).unwrap(), AlsData { visible: 7, infrared: 3 });
    assert_eq!(bus.chip().reads, vec![C0DATAL as u8]);
}

#[test]
fn saturation_at_100ms_starts_at_36863() {
    let bus = Bus::new(0x50);
    let mut d = device(&bus);
    bus.set_channels(36862, 36862);
    assert!(d.get_raw_als_data(false).is_ok());
    bus.set_channels(36863, 0);
    match d.get_raw_als_data(false) {
        Err(Error::AdcSaturated(data)) => assert_eq!(data, AlsData { visible: 36863, infrared: 0 }),
        _ => panic!("expected AdcSaturated"),
    }
    bus.set_channels(0, 40000);
    assert!(matches!(d.get_raw_als_data(false), Err(Error::AdcSaturated(_))));
}

#[test]
fn saturation_above_100ms_starts_at_65535() {
    let bus = Bus::new(0x50);
    let mut d = device(&bus);
    d.set_atime(Integration::T200ms).unwrap();
    bus.set_channels(36863, 65534);
    assert!(d.get_raw_als_data(false).is_ok());
    bus.set_channels(65535, 0);
    assert!(matches!(d.get_raw_als_data(false), Err(Error::AdcSaturated(_))));
    assert!(matches!(d.get_lux(false), Err(Error::AdcSaturated(_))));
}

#[test]
fn high_gain_converts_with_400() {
    let bus = Bus::new(0x50);
    let mut d = device(&bus);
    d.set_again(Gain::High).unwrap();
    d.set_atime(Integration::T600ms).unwrap();
    bus.set_channels(1000, 100);
    let l = d.get_lux(false).unwrap();
    let expected = compute_lux(AlsData { visible: 1000, infrared: 100 }, 400, 600);
    assert_eq!(l, expected);
    assert_ne!(l, compute_lux(AlsData { visible: 1000, infrared: 100 }, 25, 600));
}

#[test]
fn med_gain_600ms_reference_reading() {
    let bus = Bus::new(0x50);
    let mut d = device(&bus);
    d.set_again(Gain::Med).unwrap();
    d.set_atime(Integration::T600ms).unwrap();
    bus.set_channels(1000, 100);
    let l = d.get_lux(false).unwrap();
    assert_eq!((l.integer, l.fractional), (22, 32000));
}

#[test]
fn check_id_accepts_only_the_sensor_identity() {
    assert!(tsl2591_rs::check_id::<Fault>(0x50).is_ok());
    assert!(matches!(tsl2591_rs::check_id::<Fault>(0x51), Err(Error::InvalidId(0x51))));
    assert!(matches!(tsl2591_rs::check_id::<Fault>(0x00), Err(Error::InvalidId(0x00))));
}

#[test]
fn transport_error_is_handed_back_unchanged() {
    let bus = Bus::new(0x50);
    let mut d = device(&bus);
    let base = bus.chip().transfers;
    bus.fail_after(0);
    match d.write(0x0c, 1) {
        Err(Error::I2cError(f)) => assert_eq!(f, Fault(base)),
        _ => panic!("expected I2cError"),
    }
    let base = bus.chip().transfers;
    bus.fail_after(1);
    bus.chip().regs[0x08] = 0;
    match d.update(0x08, 0xff, 0x01) {
        Err(Error::I2cError(f)) => assert_eq!(f, Fault(base + 1)),
        _ => panic!("expected I2cError"),
    }
}

#[test]
fn failed_change_reports_its_own_error_before_the_power_on_error() {
    let bus = Bus::new(0x50);
    let mut d = device(&bus);
    let base = bus.chip().transfers;
    // 0: power-off read, 1: power-off write, 2: config read fails,
    // 3: power-on read fails too.
    bus.fail_after(2);
    bus.fail_after(3);
    match d.set_atime(Integration::T300ms) {
        Err(Error::I2cError(f)) => assert_eq!(f, Fault(base + 2)),
        _ => panic!("expected I2cError"),
    }
    assert!(!d.powered_on);
    assert!(!d.is_powered_on());
}

#[test]
fn failed_power_off_error_is_returned_and_nothing_follows() {
    let bus = Bus::new(0x50);
    let mut d = device(&bus);
    let base = bus.chip().transfers;
    bus.fail_after(0);
    match d.set_threshold(1, 2) {
        Err(Error::I2cError(f)) => assert_eq!(f, Fault(base)),
        _ => panic!("expected I2cError"),
    }
    assert_eq!(bus.chip().transfers, base + 1);
}

#[test]
fn failed_status_read_stops_the_acquisition() {
    let bus = Bus::new(0x50);
    let mut d = device(&bus);
    let base = bus.chip().transfers;
    bus.fail_after(0);
    match d.get_lux(true) {
        Err(Error::I2cError(f)) => assert_eq!(f, Fault(base)),
        _ => panic!("expected I2cError"),
    }
    assert_eq!(bus.chip().transfers, base + 1);
}

#[test]
fn wrong_identity_stops_after_the_identity_read() {
    let bus = Bus::new(0x42);
    assert!(matches!(Tsl2591::new(bus.clone()), Err(Error::InvalidId(0x42))));
    let c = bus.chip();
    // Reset: power-off read, soft-reset write, power-on read and write;
    // then the identity read, and nothing after it.
    assert_eq!(c.transfers, 5);
    assert_eq!(*c.reads.last().unwrap(), ID as u8);
    assert_eq!(c.writes, vec![vec![0xa1, 0x80], vec![0xa0, 0x03]]);
}

#[test]
fn failed_identity_read_returns_its_error() {
    let bus = Bus::new(0x50);
    bus.fail_after(4);
    match Tsl2591::new(bus.clone()) {
        Err(Error::I2cError(f)) => assert_eq!(f, Fault(4)),
        _ => panic!("expected I2cError"),
    }
    assert_eq!(bus.chip().transfers, 5);
}

#[test]
fn construction_order_when_the_bus_behaves() {
    let bus = Bus::new(0x50);
    let d = Tsl2591::new(bus.clone()).unwrap();
    assert!(d.is_powered_on());
    let c = bus.chip();
    assert_eq!(c.reads, vec![ENABLE as u8, ENABLE as u8, ID as u8, ENABLE as u8]);
    assert_eq!(c.writes, vec![vec![0xa1, 0x80], vec![0xa0, 0x03]]);
}
