//! The sensor driver: every operation as a sequence of bus exchanges.
use vstd::prelude::*;
use crate::bus::{
    first_fault, lemma_first_fault_concat, lemma_first_fault_none, lemma_records_concat, records_faults,
    all_ok, change_end, is_read, cycle_len, lemma_cycle_len, lemma_first_kept, lemma_powered_down, lemma_powered_down_stop, lemma_runs_single, off_len, command, does, lemma_all_ok_concat, lemma_runs_cons, lemma_runs_one, lemma_runs_stop,
    merged, power_step, received, runs, runs_powered_down, Exchange, I2cBus, Step,
    Transfer,
};
use crate::chip;
use crate::lux::{compute_lux, lux_of, Lux};
use crate::settings::{is_gain_multiplier, is_integration_millis, AlsData, Gain, Integration, Persist};

verus! {

/// Why an operation failed.
#[derive(Clone, Copy, Debug)]
pub enum Error<E> {
    /// The transport reported a fault.
    I2cError(E),
    /// The identity register held another byte than the sensor's.
    InvalidId(u8),
    /// A channel reached its ceiling; the reading is kept.
    AdcSaturated(AlsData),
    /// The integration cycle had not completed.
    CycleIncomplete,
}

impl<E> From<E> for Error<E> {
    fn from(error: E) -> (r: Error<E>)
        ensures
            r == Error::I2cError(error),
    {
        Error::I2cError(error)
    }
}

impl<E> vstd::std_specs::convert::FromSpecImpl<E> for Error<E> {
    open spec fn obeys_from_spec() -> bool {
        true
    }

    open spec fn from_spec(error: E) -> Error<E> {
        Error::I2cError(error)
    }
}

/// What the driver knows of the sensor, every exchange it made with it, and
/// the transport's error for each exchange (none where it succeeded).
pub struct DeviceState<E> {
    pub gain_multiplier: u16,
    pub integration_ms: u16,
    pub powered_on: bool,
    pub exchanges: Seq<Exchange>,
    pub faults: Seq<Option<E>>,
}

impl<E> DeviceState<E> {
    /// The settings come from the closed sets of gains and integration times.
    pub open spec fn wf(self) -> bool {
        is_gain_multiplier(self.gain_multiplier) && is_integration_millis(self.integration_ms)
    }

    /// The exchanges made since `before`.
    pub open spec fn issued_since(self, before: DeviceState<E>) -> Seq<Exchange> {
        self.exchanges.skip(before.exchanges.len() as int)
    }

    /// `self` came from `before` by appending exchanges that run `steps`.
    pub open spec fn performed(self, before: DeviceState<E>, steps: Seq<Step>) -> bool {
        self.appended_to(before) && runs(steps, self.issued_since(before))
    }

    /// Gain and integration time are those of `before`.
    pub open spec fn kept_settings(self, before: DeviceState<E>) -> bool {
        self.gain_multiplier == before.gain_multiplier && self.integration_ms
            == before.integration_ms
    }

    /// `self` came from `before` by running `steps`, with the settings and
    /// the power state unchanged.
    pub open spec fn ran(self, before: DeviceState<E>, steps: Seq<Step>) -> bool {
        &&& self.performed(before, steps)
        &&& self.kept_settings(before)
        &&& self.powered_on == before.powered_on
    }

    /// The transport errors of the exchanges made since `before`.
    pub open spec fn faults_since(self, before: DeviceState<E>) -> Seq<Option<E>> {
        self.faults.skip(before.faults.len() as int)
    }

    /// `self` holds the exchanges of `before`, then more, each with its
    /// transport error on record.
    pub open spec fn appended_to(self, before: DeviceState<E>) -> bool {
        &&& before.exchanges.len() <= self.exchanges.len()
        &&& self.exchanges == before.exchanges + self.issued_since(before)
        &&& before.faults.len() <= self.faults.len()
        &&& self.faults == before.faults + self.faults_since(before)
        &&& records_faults(self.faults_since(before), self.issued_since(before))
    }

    /// The first transport error since `before`, if any.
    pub open spec fn first_fault_since(self, before: DeviceState<E>) -> Option<E> {
        first_fault(self.faults_since(before))
    }

    /// `self` came from `before` by applying `change` while powered down,
    /// and notes the sensor as powered on exactly when the final power-on
    /// succeeded (unchanged where the power-off failed).
    pub open spec fn cycled(self, before: DeviceState<E>, change: Step) -> bool {
        let t = self.issued_since(before);
        &&& self.appended_to(before)
        &&& runs_powered_down(change, t)
        &&& self.powered_on == if all_ok(t.take(off_len(t))) {
            all_ok(t.skip(change_end(change, t)))
        } else {
            before.powered_on
        }
    }

    /// `self` came from `before` by one acquisition of the channel counts,
    /// with the settings and the power state unchanged.
    pub open spec fn acquired(self, before: DeviceState<E>, check_complete: bool) -> bool {
        &&& self.appended_to(before)
        &&& acquires(check_complete, self.issued_since(before))
        &&& self.kept_settings(before)
        &&& self.powered_on == before.powered_on
    }

    /// Every exchange made since `before` succeeded.
    pub open spec fn succeeded_since(self, before: DeviceState<E>) -> bool {
        all_ok(self.issued_since(before))
    }
}

/// One exchange appended to the record is all that was issued since.
proof fn lemma_pushed<E>(before: DeviceState<E>, after: DeviceState<E>, e: Exchange, f: Option<E>)
    requires
        after.exchanges == before.exchanges.push(e),
        after.faults == before.faults.push(f),
        f is Some <==> !e.ok,
    ensures
        after.issued_since(before) == seq![e],
        after.faults_since(before) == seq![f],
        after.appended_to(before),
        after.succeeded_since(before) == e.ok,
        after.first_fault_since(before) == f,
{
    assert(after.issued_since(before) =~= seq![e]);
    assert(after.faults_since(before) =~= seq![f]);
    assert(after.exchanges =~= before.exchanges + seq![e]);
    assert(after.faults =~= before.faults + seq![f]);
    assert(seq![f].drop_first() =~= Seq::<Option<E>>::empty());
    reveal_with_fuel(first_fault, 2);
    if e.ok {
        assert(all_ok(seq![e]));
    } else {
        assert(!seq![e][0].ok);
    }
}

/// The exchanges since `a` are those from `a` to `b`, then those from `b` on.
proof fn lemma_chain<E>(a: DeviceState<E>, b: DeviceState<E>, c: DeviceState<E>)
    requires
        b.appended_to(a),
        c.appended_to(b),
    ensures
        c.appended_to(a),
        c.issued_since(a) == b.issued_since(a) + c.issued_since(b),
        c.faults_since(a) == b.faults_since(a) + c.faults_since(b),
        c.succeeded_since(a) == (b.succeeded_since(a) && c.succeeded_since(b)),
        b.first_fault_since(a) is None <==> b.succeeded_since(a),
        c.first_fault_since(b) is None <==> c.succeeded_since(b),
        c.first_fault_since(a) == if b.succeeded_since(a) {
            c.first_fault_since(b)
        } else {
            b.first_fault_since(a)
        },
{
    assert(c.issued_since(a) =~= b.issued_since(a) + c.issued_since(b));
    assert(c.faults_since(a) =~= b.faults_since(a) + c.faults_since(b));
    assert(c.exchanges =~= a.exchanges + c.issued_since(a));
    assert(c.faults =~= a.faults + c.faults_since(a));
    lemma_all_ok_concat(b.issued_since(a), c.issued_since(b));
    lemma_records_concat(b.faults_since(a), b.issued_since(a), c.faults_since(b), c.issued_since(b));
    lemma_first_fault_none(b.faults_since(a), b.issued_since(a));
    lemma_first_fault_none(c.faults_since(b), c.issued_since(b));
    lemma_first_fault_concat(b.faults_since(a), c.faults_since(b));
}

/// A state with no exchange since `a`: nothing failed and nothing is owed.
proof fn lemma_nothing_since<E>(a: DeviceState<E>)
    ensures
        a.appended_to(a),
        a.issued_since(a) =~= Seq::<Exchange>::empty(),
        a.faults_since(a) =~= Seq::<Option<E>>::empty(),
{
    assert(a.exchanges =~= a.exchanges + a.issued_since(a));
    assert(a.faults =~= a.faults + a.faults_since(a));
}

/// Low byte of a 16-bit value, as sent first on the wire.
pub open spec fn low_byte(x: u16) -> u8 {
    (x % 256) as u8
}

/// High byte of a 16-bit value, as sent second on the wire.
pub open spec fn high_byte(x: u16) -> u8 {
    (x / 256) as u8
}

/// The 16-bit value of two bytes, low byte first.
pub open spec fn from_le(lo: u8, hi: u8) -> u16 {
    (lo + 256 * hi) as u16
}

/// The data-valid bit of a status byte is set.
pub open spec fn data_valid(status: u8) -> bool {
    status & chip::AVALID_MASK != 0
}

/// The steps that re-arm the integration cycle, then read both channels.
pub open spec fn rearm_and_read() -> Seq<Step> {
    seq![
        Step::Update(chip::REG_ENABLE, chip::AEN_MASK, chip::AEN_OFF),
        Step::Update(chip::REG_ENABLE, chip::AEN_MASK, chip::AEN_ON),
        Step::Read(chip::REG_C0DATAL, 4),
    ]
}

/// `t` is one acquisition. With `check_complete`, the status register is
/// read first, and only a set data-valid bit leads on to re-arming and
/// reading the channels; without it, the channels are read at once.
pub open spec fn acquires(check_complete: bool, t: Seq<Exchange>) -> bool {
    if check_complete {
        &&& t.len() >= 1
        &&& does(Step::Read(chip::REG_STATUS, 1), t.take(1))
        &&& if t[0].ok && data_valid(received(t[0])[0]) {
            runs(rearm_and_read(), t.skip(1))
        } else {
            t.len() == 1
        }
    } else {
        runs(seq![Step::Read(chip::REG_C0DATAL, 4)], t)
    }
}

/// Channel counts at or above this value are saturated.
pub open spec fn saturation_ceiling(integration_ms: u16) -> u16 {
    if integration_ms == 100 {
        chip::MAX_ADC_100
    } else {
        chip::MAX_ADC
    }
}

/// Either channel of `als` reached the ceiling.
pub open spec fn saturated(als: AlsData, integration_ms: u16) -> bool {
    als.visible >= saturation_ceiling(integration_ms) || als.infrared
        >= saturation_ceiling(integration_ms)
}

/// The two channel counts in four data bytes, each little-endian.
pub open spec fn decode(bytes: Seq<u8>) -> AlsData {
    AlsData { visible: from_le(bytes[0], bytes[1]), infrared: from_le(bytes[2], bytes[3]) }
}

/// What an acquisition whose exchanges `t` all succeeded returns.
pub open spec fn als_outcome<E>(check_complete: bool, t: Seq<Exchange>, integration_ms: u16) -> Result<
    AlsData,
    Error<E>,
> {
    if check_complete && !data_valid(received(t[0])[0]) {
        Err(Error::CycleIncomplete)
    } else {
        let als = decode(received(t.last()));
        if saturated(als, integration_ms) {
            Err(Error::AdcSaturated(als))
        } else {
            Ok(als)
        }
    }
}

/// What a lux reading whose exchanges `t` all succeeded returns.
pub open spec fn lux_outcome<E>(check_complete: bool, t: Seq<Exchange>, state: DeviceState<E>) -> Result<
    Lux,
    Error<E>,
> {
    match als_outcome::<E>(check_complete, t, state.integration_ms) {
        Ok(als) => Ok(lux_of(als, state.gain_multiplier, state.integration_ms)),
        Err(e) => Err(e),
    }
}

/// The change that a reset makes while powered down.
pub open spec fn soft_reset() -> Step {
    Step::Write(chip::REG_CONFIG, chip::SRESET)
}

/// Where the reset ends in the exchanges `t` of a construction.
pub open spec fn reset_len(t: Seq<Exchange>) -> int {
    cycle_len(soft_reset(), t)
}

/// The identity byte that a construction with exchanges `t` read.
pub open spec fn id_read(t: Seq<Exchange>) -> u8 {
    received(t[reset_len(t)])[0]
}

/// `t` is a construction that succeeded: a reset, the identity read back as
/// the sensor's, and a power-on.
pub open spec fn constructed(t: Seq<Exchange>) -> bool {
    &&& all_ok(t)
    &&& reset_len(t) < t.len()
    &&& runs_powered_down(soft_reset(), t.take(reset_len(t)))
    &&& runs(seq![Step::Read(chip::REG_ID, 1), power_step(true)], t.skip(reset_len(t)))
    &&& id_read(t) == chip::DEV_ID
}

/// `t` is a construction, stopping at the first failure: either a reset
/// that failed and is all of `t`; or a reset that succeeded, then the
/// identity read, then, where that succeeded and read the sensor's byte, a
/// power-on. No exchange follows a failed identity read or a wrong byte.
pub open spec fn construction(t: Seq<Exchange>) -> bool {
    let k = reset_len(t);
    ||| runs_powered_down(soft_reset(), t) && !all_ok(t)
    ||| {
        &&& k < t.len()
        &&& runs_powered_down(soft_reset(), t.take(k))
        &&& all_ok(t.take(k))
        &&& is_read(t[k], chip::REG_ID, 1)
        &&& if t[k].ok && received(t[k])[0] == chip::DEV_ID {
            runs(seq![power_step(true)], t.skip(k + 1))
        } else {
            t.len() == k + 1
        }
    }
}

/// Re-arming and reading run in order, each step only after the previous
/// one succeeded.
proof fn lemma_rearm_runs(t1: Seq<Exchange>, t2: Seq<Exchange>, t3: Seq<Exchange>)
    requires
        runs(seq![rearm_and_read()[0]], t1),
        !all_ok(t1) ==> t2.len() == 0 && t3.len() == 0,
        all_ok(t1) ==> runs(seq![rearm_and_read()[1]], t2),
        all_ok(t1) && !all_ok(t2) ==> t3.len() == 0,
        all_ok(t1) && all_ok(t2) ==> runs(seq![rearm_and_read()[2]], t3),
    ensures
        runs(rearm_and_read(), t1 + t2 + t3),
        all_ok(t1) && all_ok(t2) && t3.len() > 0 ==> (t1 + t2 + t3).last() == t3.last(),
{
    let steps = rearm_and_read();
    let rest = steps.drop_first();
    assert(seq![steps[0]] + rest =~= steps);
    assert(seq![rest[0]] + rest.drop_first() =~= rest);
    assert(rest.drop_first() =~= seq![steps[2]]);
    lemma_runs_single(steps[0], t1);
    if !all_ok(t1) {
        assert(t1 + t2 + t3 =~= t1);
        lemma_runs_stop(steps[0], rest, t1);
    } else {
        lemma_runs_single(steps[1], t2);
        if !all_ok(t2) {
            assert(t1 + t2 + t3 =~= t1 + t2);
            lemma_runs_stop(rest[0], rest.drop_first(), t2);
            lemma_runs_cons(steps[0], rest, t1, t2);
        } else {
            lemma_runs_cons(rest[0], rest.drop_first(), t2, t3);
            lemma_runs_cons(steps[0], rest, t1, t2 + t3);
            assert(t1 + t2 + t3 =~= t1 + (t2 + t3));
        }
    }
}

/// The error is a fault of the transport.
pub open spec fn transport_failed<T, E>(r: Result<T, Error<E>>) -> bool {
    r matches Err(Error::I2cError(_))
}

/// The transport's error that `r` hands back, if it is one.
pub open spec fn transport_error<T, E>(r: Result<T, Error<E>>) -> Option<E> {
    match r {
        Err(Error::I2cError(e)) => Some(e),
        _ => None,
    }
}

/// A transport error in `r` is the first one that the exchanges since
/// `before` met, unchanged.
pub open spec fn carries_first_fault<T, E>(
    r: Result<T, Error<E>>,
    after: DeviceState<E>,
    before: DeviceState<E>,
) -> bool {
    transport_failed(r) ==> transport_error(r) == after.first_fault_since(before)
}

/// Accepts the identity byte of a TSL2591 and refuses any other, carrying it.
pub fn check_id<E>(id: u8) -> (r: Result<(), Error<E>>)
    ensures
        r is Ok <==> id == chip::DEV_ID,
        r is Err ==> r == Err::<(), Error<E>>(Error::InvalidId(id)),
{
    if id != chip::DEV_ID {
        Err(Error::InvalidId(id))
    } else {
        Ok(())
    }
}

/// Driver of one TSL2591 sensor on the bus `I`.
pub struct Tsl2591<I: I2cBus> {
    i2c: I,
    again: u16,
    atime: u16,
    pub powered_on: bool,
    log: Ghost<Seq<Exchange>>,
    faults: Ghost<Seq<Option<I::Error>>>,
}

impl<I: I2cBus> View for Tsl2591<I> {
    type V = DeviceState<I::Error>;

    closed spec fn view(&self) -> DeviceState<I::Error> {
        DeviceState {
            gain_multiplier: self.again,
            integration_ms: self.atime,
            powered_on: self.powered_on,
            exchanges: self.log@,
            faults: self.faults@,
        }
    }
}

impl<I: I2cBus> Tsl2591<I> {
    /// Whether the driver notes the sensor as powered on: the value of the
    /// public `powered_on` field.
    pub fn is_powered_on(&self) -> (r: bool)
        ensures
            r == self@.powered_on,
    {
        self.powered_on
    }

    fn map_again(again: Gain) -> (r: u16)
        ensures
            r == again.spec_multiplier(),
    {
        match again {
            Gain::Low => 1,
            Gain::Med => 25,
            Gain::High => 400,
            Gain::Max => 9200,
        }
    }

    fn map_atime(atime: Integration) -> (r: u16)
        ensures
            r == atime.spec_millis(),
    {
        match atime {
            Integration::T100ms => 100,
            Integration::T200ms => 200,
            Integration::T300ms => 300,
            Integration::T400ms => 400,
            Integration::T500ms => 500,
            Integration::T600ms => 600,
        }
    }

    /// Sends `bytes` to the sensor and records the exchange.
    fn transmit(&mut self, bytes: &[u8]) -> (r: Result<(), Error<I::Error>>)
        ensures
            final(self)@ == (DeviceState {
                exchanges: old(self)@.exchanges.push(
                    Exchange { address: chip::I2C_ADDR, transfer: Transfer::Write(bytes@), ok: r is Ok },
                ),
                faults: old(self)@.faults.push(transport_error(r)),
                ..old(self)@
            }),
            r is Err ==> transport_failed(r),
            carries_first_fault(r, final(self)@, old(self)@),
    {
        let r = self.i2c.write(chip::I2C_ADDR, bytes);
        let ok = r.is_ok();
        let ghost fault = if r is Ok {
            None
        } else {
            Some(r->Err_0)
        };
        self.faults = Ghost(self.faults@.push(fault));
        self.log = Ghost(
            self.log@.push(
                Exchange { address: chip::I2C_ADDR, transfer: Transfer::Write(bytes@), ok: ok },
            ),
        );
        match r {
            Ok(()) => Ok(()),
            Err(e) => Err(Error::from(e)),
        }
    }

    /// Sends `bytes`, fills `buf` from the sensor, and records the exchange.
    fn transfer(&mut self, bytes: &[u8], buf: &mut [u8]) -> (r: Result<(), Error<I::Error>>)
        ensures
            final(buf)@.len() == old(buf)@.len(),
            final(self)@ == (DeviceState {
                exchanges: old(self)@.exchanges.push(
                    Exchange {
                        address: chip::I2C_ADDR,
                        transfer: Transfer::WriteRead(bytes@, final(buf)@),
                        ok: r is Ok,
                    },
                ),
                faults: old(self)@.faults.push(transport_error(r)),
                ..old(self)@
            }),
            r is Err ==> transport_failed(r),
            carries_first_fault(r, final(self)@, old(self)@),
    {
        let r = self.i2c.write_read(chip::I2C_ADDR, bytes, buf);
        let ok = r.is_ok();
        let ghost fault = if r is Ok {
            None
        } else {
            Some(r->Err_0)
        };
        self.faults = Ghost(self.faults@.push(fault));
        self.log = Ghost(
            self.log@.push(
                Exchange {
                    address: chip::I2C_ADDR,
                    transfer: Transfer::WriteRead(bytes@, buf@),
                    ok: ok,
                },
            ),
        );
        match r {
            Ok(()) => Ok(()),
            Err(e) => Err(Error::from(e)),
        }
    }

    /// Writes `val` to register `reg`.
    pub fn write(&mut self, reg: u8, val: u8) -> (r: Result<(), Error<I::Error>>)
        ensures
            final(self)@.ran(old(self)@, seq![Step::Write(reg, val)]),
            r is Ok <==> final(self)@.succeeded_since(old(self)@),
            r is Err ==> transport_failed(r),
            carries_first_fault(r, final(self)@, old(self)@),
    {
        let bytes = [chip::CMD_NORMAL | reg, val];
        let r = self.transmit(&bytes);
        proof {
            lemma_pushed(old(self)@, self@, self@.exchanges.last(), self@.faults.last());
            assert(bytes@ =~= seq![command(reg), val]);
            lemma_runs_one(Step::Write(reg, val), self@.issued_since(old(self)@));
        }
        r
    }

    /// Fills `buf` with the registers starting at `reg`.
    pub fn read(&mut self, reg: u8, buf: &mut [u8]) -> (r: Result<(), Error<I::Error>>)
        ensures
            final(buf)@.len() == old(buf)@.len(),
            final(self)@.ran(old(self)@, seq![Step::Read(reg, old(buf)@.len())]),
            r is Ok <==> final(self)@.succeeded_since(old(self)@),
            r is Err ==> transport_failed(r),
            carries_first_fault(r, final(self)@, old(self)@),
            received(final(self)@.exchanges.last()) == final(buf)@,
    {
        let bytes = [chip::CMD_NORMAL | reg];
        let r = self.transfer(&bytes, buf);
        proof {
            lemma_pushed(old(self)@, self@, self@.exchanges.last(), self@.faults.last());
            assert(bytes@ =~= seq![command(reg)]);
            lemma_runs_one(Step::Read(reg, old(buf)@.len()), self@.issued_since(old(self)@));
        }
        r
    }

    /// Reads register `reg` and writes back `(old & !mask) | (val & mask)`,
    /// only where that differs from what was read.
    pub fn update(&mut self, reg: u8, mask: u8, val: u8) -> (r: Result<(), Error<I::Error>>)
        ensures
            final(self)@.ran(old(self)@, seq![Step::Update(reg, mask, val)]),
            r is Ok <==> final(self)@.succeeded_since(old(self)@),
            r is Err ==> transport_failed(r),
            carries_first_fault(r, final(self)@, old(self)@),
    {
        let ghost start = self@;
        let mut old_value = [0u8; 1];
        let cmd = [chip::CMD_NORMAL | reg];
        let read = self.transfer(&cmd, &mut old_value);
        let ghost first = self@.exchanges.last();
        proof {
            lemma_pushed(start, self@, first, self@.faults.last());
            assert(cmd@ =~= seq![command(reg)]);
        }
        if read.is_err() {
            proof {
                lemma_runs_one(Step::Update(reg, mask, val), self@.issued_since(start));
            }
            return read;
        }
        let new_value = (old_value[0] & !mask) | (val & mask);
        if new_value != old_value[0] {
            let ghost mid = self@;
            let bytes = [chip::CMD_NORMAL | reg, new_value];
            let written = self.transmit(&bytes);
            proof {
                lemma_pushed(mid, self@, self@.exchanges.last(), self@.faults.last());
                lemma_chain(start, mid, self@);
                let t = self@.issued_since(start);
                assert(t =~= seq![first, self@.exchanges.last()]);
                assert(bytes@ =~= seq![command(reg), merged(old_value[0], mask, val)]);
                lemma_runs_one(Step::Update(reg, mask, val), t);
            }
            written
        } else {
            proof {
                lemma_runs_one(Step::Update(reg, mask, val), self@.issued_since(start));
            }
            Ok(())
        }
    }

    /// Sets the power bits; the driver notes the sensor as powered on once
    /// that succeeded.
    pub fn power_on(&mut self) -> (r: Result<(), Error<I::Error>>)
        ensures
            final(self)@.performed(old(self)@, seq![power_step(true)]),
            final(self)@.kept_settings(old(self)@),
            final(self)@.powered_on == (r is Ok || old(self)@.powered_on),
            r is Ok <==> final(self)@.succeeded_since(old(self)@),
            r is Err ==> transport_failed(r),
            carries_first_fault(r, final(self)@, old(self)@),
    {
        let r = self.update(chip::REG_ENABLE, chip::POWER_MASK, chip::POWER_ON);
        if r.is_ok() {
            self.powered_on = true;
        }
        r
    }

    /// Clears the power bits; the driver notes the sensor as powered off once
    /// that succeeded.
    pub fn power_off(&mut self) -> (r: Result<(), Error<I::Error>>)
        ensures
            final(self)@.performed(old(self)@, seq![power_step(false)]),
            final(self)@.kept_settings(old(self)@),
            final(self)@.powered_on == (r is Err && old(self)@.powered_on),
            r is Ok <==> final(self)@.succeeded_since(old(self)@),
            r is Err ==> transport_failed(r),
            carries_first_fault(r, final(self)@, old(self)@),
    {
        let r = self.update(chip::REG_ENABLE, chip::POWER_MASK, chip::POWER_OFF);
        if r.is_ok() {
            self.powered_on = false;
        }
        r
    }

    /// Reads the identity register.
    pub fn get_id(&mut self) -> (r: Result<u8, Error<I::Error>>)
        ensures
            final(self)@.ran(old(self)@, seq![Step::Read(chip::REG_ID, 1)]),
            r is Ok <==> final(self)@.succeeded_since(old(self)@),
            r is Ok ==> r == Ok::<u8, Error<I::Error>>(
                received(final(self)@.exchanges.last())[0],
            ),
            r is Err ==> transport_failed(r),
            carries_first_fault(r, final(self)@, old(self)@),
    {
        let mut device_id = [0u8; 1];
        let r = self.read(chip::REG_ID, &mut device_id);
        match r {
            Ok(()) => Ok(device_id[0]),
            Err(e) => Err(e),
        }
    }

    /// Reports whether the data-valid bit of the status register is set.
    pub fn is_cycle_complete(&mut self) -> (r: Result<bool, Error<I::Error>>)
        ensures
            final(self)@.ran(old(self)@, seq![Step::Read(chip::REG_STATUS, 1)]),
            r is Ok <==> final(self)@.succeeded_since(old(self)@),
            r is Ok ==> r == Ok::<bool, Error<I::Error>>(
                received(final(self)@.exchanges.last())[0] & chip::AVALID_MASK != 0,
            ),
            r is Err ==> transport_failed(r),
            carries_first_fault(r, final(self)@, old(self)@),
    {
        let mut status = [0u8; 1];
        let r = self.read(chip::REG_STATUS, &mut status);
        match r {
            Ok(()) => Ok(status[0] & chip::AVALID_MASK != 0),
            Err(e) => Err(e),
        }
    }

    /// Sets or clears the interrupt-enable bit, with no power cycle.
    pub fn enable_interrupt(&mut self, enable: bool) -> (r: Result<(), Error<I::Error>>)
        ensures
            final(self)@.ran(
                old(self)@,
                seq![
                    Step::Update(
                        chip::REG_ENABLE,
                        chip::AIEN_MASK,
                        if enable {
                            chip::AIEN_ON
                        } else {
                            chip::AIEN_OFF
                        },
                    ),
                ],
            ),
            r is Ok <==> final(self)@.succeeded_since(old(self)@),
            r is Err ==> transport_failed(r),
            carries_first_fault(r, final(self)@, old(self)@),
    {
        let aien = if enable {
            chip::AIEN_ON
        } else {
            chip::AIEN_OFF
        };
        self.update(chip::REG_ENABLE, chip::AIEN_MASK, aien)
    }

    /// Issues the special clear-interrupt command; it is sent every time.
    pub fn clear_interrupt(&mut self) -> (r: Result<(), Error<I::Error>>)
        ensures
            final(self)@.ran(old(self)@, seq![Step::Send(seq![chip::CMD_CLEAR_INT])]),
            r is Ok <==> final(self)@.succeeded_since(old(self)@),
            r is Err ==> transport_failed(r),
            carries_first_fault(r, final(self)@, old(self)@),
    {
        let bytes = [chip::CMD_CLEAR_INT];
        let r = self.transmit(&bytes);
        proof {
            lemma_pushed(old(self)@, self@, self@.exchanges.last(), self@.faults.last());
            assert(bytes@ =~= seq![chip::CMD_CLEAR_INT]);
            lemma_runs_one(Step::Send(seq![chip::CMD_CLEAR_INT]), self@.issued_since(old(self)@));
        }
        r
    }

    /// Powers on again after a change made while powered down: the change's
    /// failure comes first, then that of the power-on.
    fn finish_powered_down(
        &mut self,
        change: Ghost<Step>,
        start: Ghost<DeviceState<I::Error>>,
        before_change: Ghost<DeviceState<I::Error>>,
        changed: Result<(), Error<I::Error>>,
    ) -> (r: Result<(), Error<I::Error>>)
        requires
            before_change@.performed(start@, seq![power_step(false)]),
            before_change@.succeeded_since(start@),
            !before_change@.powered_on,
            old(self)@.appended_to(before_change@),
            does(change@, old(self)@.issued_since(before_change@)),
            old(self)@.powered_on == before_change@.powered_on,
            changed is Ok <==> old(self)@.succeeded_since(before_change@),
            changed is Err ==> transport_failed(changed),
            carries_first_fault(changed, old(self)@, before_change@),
        ensures
            final(self)@.cycled(start@, change@),
            final(self)@.kept_settings(old(self)@),
            r is Ok <==> final(self)@.succeeded_since(start@),
            r is Err ==> transport_failed(r),
            carries_first_fault(r, final(self)@, start@),
    {
        let ghost mid = self@;
        let on = self.power_on();
        proof {
            let t0 = before_change@.issued_since(start@);
            let t1 = mid.issued_since(before_change@);
            let t2 = self@.issued_since(mid);
            lemma_chain(before_change@, mid, self@);
            lemma_chain(start@, before_change@, self@);
            lemma_chain(start@, before_change@, mid);
            assert(self@.issued_since(before_change@) == t1 + t2);
            assert(self@.issued_since(start@) =~= t0 + t1 + t2);
            lemma_powered_down(change@, t0, t1, t2);
            lemma_all_ok_concat(t0 + t1, t2);
            lemma_all_ok_concat(t0, t1);
        }
        if changed.is_err() {
            changed
        } else {
            on
        }
    }

    /// Powers off before a change; where that fails, the change is not
    /// attempted and the failure is the whole of it.
    fn begin_powered_down(&mut self, change: Ghost<Step>) -> (r: Result<(), Error<I::Error>>)
        ensures
            final(self)@.performed(old(self)@, seq![power_step(false)]),
            final(self)@.kept_settings(old(self)@),
            r is Ok ==> !final(self)@.powered_on,
            r is Ok <==> final(self)@.succeeded_since(old(self)@),
            r is Err ==> transport_failed(r),
            carries_first_fault(r, final(self)@, old(self)@),
            r is Err ==> final(self)@.cycled(old(self)@, change@),
    {
        let r = self.power_off();
        proof {
            if r.is_err() {
                lemma_powered_down_stop(change@, self@.issued_since(old(self)@));
            }
        }
        r
    }

    /// Resets the sensor: power off, set the soft-reset bit, power on.
    pub fn reset(&mut self) -> (r: Result<(), Error<I::Error>>)
        ensures
            final(self)@.cycled(old(self)@, Step::Write(chip::REG_CONFIG, chip::SRESET)),
            final(self)@.kept_settings(old(self)@),
            r is Ok <==> final(self)@.succeeded_since(old(self)@),
            r is Err ==> transport_failed(r),
            carries_first_fault(r, final(self)@, old(self)@),
    {
        let ghost change = Step::Write(chip::REG_CONFIG, chip::SRESET);
        let ghost start = self@;
        let off = self.begin_powered_down(Ghost(change));
        if off.is_err() {
            return off;
        }
        let ghost before_change = self@;
        let changed = self.write(chip::REG_CONFIG, chip::SRESET);
        proof {
            lemma_runs_single(change, self@.issued_since(before_change));
        }
        self.finish_powered_down(Ghost(change), Ghost(start), Ghost(before_change), changed)
    }

    /// Sets the analog gain while powered down; the driver takes the gain's
    /// multiplier once the whole sequence succeeded.
    pub fn set_again(&mut self, gain: Gain) -> (r: Result<(), Error<I::Error>>)
        ensures
            final(self)@.cycled(
                old(self)@,
                Step::Update(chip::REG_CONFIG, chip::AGAIN_MASK, gain.spec_bits()),
            ),
            final(self)@.gain_multiplier == if r is Ok {
                gain.spec_multiplier()
            } else {
                old(self)@.gain_multiplier
            },
            final(self)@.integration_ms == old(self)@.integration_ms,
            r is Ok <==> final(self)@.succeeded_since(old(self)@),
            r is Err ==> transport_failed(r),
            carries_first_fault(r, final(self)@, old(self)@),
    {
        let ghost change = Step::Update(chip::REG_CONFIG, chip::AGAIN_MASK, gain.spec_bits());
        let ghost start = self@;
        let off = self.begin_powered_down(Ghost(change));
        if off.is_err() {
            return off;
        }
        let ghost before_change = self@;
        let changed = self.update(chip::REG_CONFIG, chip::AGAIN_MASK, gain.bits());
        proof {
            lemma_runs_single(change, self@.issued_since(before_change));
        }
        let r = self.finish_powered_down(
            Ghost(change),
            Ghost(start),
            Ghost(before_change),
            changed,
        );
        if r.is_ok() {
            self.again = Self::map_again(gain);
        }
        r
    }

    /// Sets the integration time while powered down; the driver takes its
    /// length in milliseconds once the whole sequence succeeded.
    pub fn set_atime(&mut self, time: Integration) -> (r: Result<(), Error<I::Error>>)
        ensures
            final(self)@.cycled(
                old(self)@,
                Step::Update(chip::REG_CONFIG, chip::ATIME_MASK, time.spec_bits()),
            ),
            final(self)@.integration_ms == if r is Ok {
                time.spec_millis()
            } else {
                old(self)@.integration_ms
            },
            final(self)@.gain_multiplier == old(self)@.gain_multiplier,
            r is Ok <==> final(self)@.succeeded_since(old(self)@),
            r is Err ==> transport_failed(r),
            carries_first_fault(r, final(self)@, old(self)@),
    {
        let ghost change = Step::Update(chip::REG_CONFIG, chip::ATIME_MASK, time.spec_bits());
        let ghost start = self@;
        let off = self.begin_powered_down(Ghost(change));
        if off.is_err() {
            return off;
        }
        let ghost before_change = self@;
        let changed = self.update(chip::REG_CONFIG, chip::ATIME_MASK, time.bits());
        proof {
            lemma_runs_single(change, self@.issued_since(before_change));
        }
        let r = self.finish_powered_down(
            Ghost(change),
            Ghost(start),
            Ghost(before_change),
            changed,
        );
        if r.is_ok() {
            self.atime = Self::map_atime(time);
        }
        r
    }

    /// Writes the persistence filter while powered down.
    pub fn set_persist(&mut self, persist: Persist) -> (r: Result<(), Error<I::Error>>)
        ensures
            final(self)@.cycled(old(self)@, Step::Write(chip::REG_PERSIST, persist.spec_bits())),
            final(self)@.kept_settings(old(self)@),
            r is Ok <==> final(self)@.succeeded_since(old(self)@),
            r is Err ==> transport_failed(r),
            carries_first_fault(r, final(self)@, old(self)@),
    {
        let ghost change = Step::Write(chip::REG_PERSIST, persist.spec_bits());
        let ghost start = self@;
        let off = self.begin_powered_down(Ghost(change));
        if off.is_err() {
            return off;
        }
        let ghost before_change = self@;
        let changed = self.write(chip::REG_PERSIST, persist.bits());
        proof {
            lemma_runs_single(change, self@.issued_since(before_change));
        }
        self.finish_powered_down(Ghost(change), Ghost(start), Ghost(before_change), changed)
    }

    /// Writes the low and high interrupt thresholds, each little-endian, in
    /// one transfer while powered down.
    pub fn set_threshold(&mut self, lower: u16, upper: u16) -> (r: Result<(), Error<I::Error>>)
        ensures
            final(self)@.cycled(
                old(self)@,
                Step::Send(
                    seq![
                        command(chip::REG_AILTL),
                        low_byte(lower),
                        high_byte(lower),
                        low_byte(upper),
                        high_byte(upper),
                    ],
                ),
            ),
            final(self)@.kept_settings(old(self)@),
            r is Ok <==> final(self)@.succeeded_since(old(self)@),
            r is Err ==> transport_failed(r),
            carries_first_fault(r, final(self)@, old(self)@),
    {
        let buf = [
            chip::CMD_NORMAL | chip::REG_AILTL,
            (lower % 256) as u8,
            (lower / 256) as u8,
            (upper % 256) as u8,
            (upper / 256) as u8,
        ];
        let ghost change = Step::Send(buf@);
        let ghost start = self@;
        let off = self.begin_powered_down(Ghost(change));
        if off.is_err() {
            proof {
                assert(buf@ =~= seq![
                    command(chip::REG_AILTL),
                    low_byte(lower),
                    high_byte(lower),
                    low_byte(upper),
                    high_byte(upper),
                ]);
            }
            return off;
        }
        let ghost before_change = self@;
        let changed = self.transmit(&buf);
        proof {
            lemma_pushed(before_change, self@, self@.exchanges.last(), self@.faults.last());
            assert(buf@ =~= seq![
                command(chip::REG_AILTL),
                low_byte(lower),
                high_byte(lower),
                low_byte(upper),
                high_byte(upper),
            ]);
        }
        self.finish_powered_down(Ghost(change), Ghost(start), Ghost(before_change), changed)
    }

    /// Reads both channel counts. With `check_complete`, fails at once unless
    /// the integration cycle completed, and re-arms the next cycle before
    /// reading. A saturated reading is returned inside the error.
    pub fn get_raw_als_data(&mut self, check_complete: bool) -> (r: Result<AlsData, Error<I::Error>>)
        ensures
            final(self)@.acquired(old(self)@, check_complete),
            transport_failed(r) <==> !final(self)@.succeeded_since(old(self)@),
            carries_first_fault(r, final(self)@, old(self)@),
            final(self)@.succeeded_since(old(self)@) ==> r == als_outcome::<I::Error>(
                check_complete,
                final(self)@.issued_since(old(self)@),
                old(self)@.integration_ms,
            ),
    {
        if !check_complete {
            return self.read_channels();
        }
        let ghost start = self@;
        let complete = self.is_cycle_complete();
        let ghost after_status = self@;
        proof {
            lemma_runs_single(Step::Read(chip::REG_STATUS, 1), self@.issued_since(start));
            assert(self@.issued_since(start).take(1) =~= self@.issued_since(start));
        }
        match complete {
            Err(e) => {
                return Err(e);
            },
            Ok(false) => {
                return Err(Error::CycleIncomplete);
            },
            Ok(true) => {},
        }
        let data = self.rearm_and_read_channels();
        proof {
            let t0 = after_status.issued_since(start);
            let t1 = self@.issued_since(after_status);
            lemma_chain(start, after_status, self@);
            lemma_first_kept(t0, t1);
            if t1.len() > 0 {
                assert((t0 + t1).last() == t1.last());
            }
        }
        data
    }

    /// Re-arms the integration cycle by clearing and setting the channel
    /// enable bit, then reads both channels.
    fn rearm_and_read_channels(&mut self) -> (r: Result<AlsData, Error<I::Error>>)
        ensures
            final(self)@.ran(old(self)@, rearm_and_read()),
            transport_failed(r) <==> !final(self)@.succeeded_since(old(self)@),
            carries_first_fault(r, final(self)@, old(self)@),
            final(self)@.succeeded_since(old(self)@) ==> r == als_outcome::<I::Error>(
                false,
                final(self)@.issued_since(old(self)@),
                old(self)@.integration_ms,
            ),
    {
        let ghost start = self@;
        let first = self.update(chip::REG_ENABLE, chip::AEN_MASK, chip::AEN_OFF);
        let ghost mid1 = self@;
        if first.is_err() {
            proof {
                lemma_rearm_runs(mid1.issued_since(start), Seq::empty(), Seq::empty());
                assert(mid1.issued_since(start) + Seq::<Exchange>::empty() + Seq::<Exchange>::empty()
                    =~= mid1.issued_since(start));
            }
            return Err(first.unwrap_err());
        }
        let second = self.update(chip::REG_ENABLE, chip::AEN_MASK, chip::AEN_ON);
        let ghost mid2 = self@;
        proof {
            lemma_chain(start, mid1, mid2);
        }
        if second.is_err() {
            proof {
                let t1 = mid1.issued_since(start);
                let t2 = mid2.issued_since(mid1);
                lemma_rearm_runs(t1, t2, Seq::empty());
                assert(t1 + t2 + Seq::<Exchange>::empty() =~= t1 + t2);
            }
            return Err(second.unwrap_err());
        }
        let data = self.read_channels();
        proof {
            lemma_chain(start, mid2, self@);
            let t1 = mid1.issued_since(start);
            let t2 = mid2.issued_since(mid1);
            let t3 = self@.issued_since(mid2);
            lemma_rearm_runs(t1, t2, t3);
            assert(self@.issued_since(start) =~= t1 + t2 + t3);
        }
        data
    }

    /// Reads both channels in one transfer and checks them for saturation.
    fn read_channels(&mut self) -> (r: Result<AlsData, Error<I::Error>>)
        ensures
            final(self)@.ran(old(self)@, seq![Step::Read(chip::REG_C0DATAL, 4)]),
            transport_failed(r) <==> !final(self)@.succeeded_since(old(self)@),
            carries_first_fault(r, final(self)@, old(self)@),
            final(self)@.succeeded_since(old(self)@) ==> r == als_outcome::<I::Error>(
                false,
                final(self)@.issued_since(old(self)@),
                old(self)@.integration_ms,
            ),
    {
        let mut als_data = [0u8; 4];
        let read = self.read(chip::REG_C0DATAL, &mut als_data);
        if read.is_err() {
            return Err(read.unwrap_err());
        }
        let als = AlsData {
            visible: als_data[0] as u16 + als_data[1] as u16 * 256,
            infrared: als_data[2] as u16 + als_data[3] as u16 * 256,
        };
        let max_count = if self.atime == 100 {
            chip::MAX_ADC_100
        } else {
            chip::MAX_ADC
        };
        if als.visible >= max_count || als.infrared >= max_count {
            Err(Error::AdcSaturated(als))
        } else {
            Ok(als)
        }
    }

    /// Reads both channels and converts them to lux under the current gain
    /// and integration time. Fails as `get_raw_als_data` does, saturation
    /// included.
    pub fn get_lux(&mut self, check_complete: bool) -> (r: Result<Lux, Error<I::Error>>)
        requires
            old(self)@.wf(),
        ensures
            final(self)@.acquired(old(self)@, check_complete),
            transport_failed(r) <==> !final(self)@.succeeded_since(old(self)@),
            carries_first_fault(r, final(self)@, old(self)@),
            final(self)@.succeeded_since(old(self)@) ==> r == lux_outcome::<I::Error>(
                check_complete,
                final(self)@.issued_since(old(self)@),
                old(self)@,
            ),
    {
        let als = self.get_raw_als_data(check_complete);
        match als {
            Ok(data) => Ok(compute_lux(data, self.again, self.atime)),
            Err(e) => Err(e),
        }
    }

    /// Resets the sensor, checks its identity and powers it on. Every
    /// exchange of a successful construction is on record in the driver.
    pub fn new(i2c: I) -> (r: Result<Tsl2591<I>, Error<I::Error>>)
        ensures
            r is Ok ==> ({
                let d = r->Ok_0@;
                &&& d.wf()
                &&& d.gain_multiplier == Gain::Low.spec_multiplier()
                &&& d.integration_ms == Integration::T100ms.spec_millis()
                &&& d.powered_on
                &&& constructed(d.exchanges)
            }),
            r matches Err(Error::InvalidId(id)) ==> id != chip::DEV_ID,
            r is Err ==> transport_failed(r) || r matches Err(Error::InvalidId(_)),
    {
        let mut tsl2591 = Tsl2591 {
            i2c,
            again: Self::map_again(Gain::Low),
            atime: Self::map_atime(Integration::T100ms),
            powered_on: false,
            log: Ghost(Seq::empty()),
            faults: Ghost(Seq::empty()),
        };
        let r = tsl2591.init();
        proof {
            assert(tsl2591@.issued_since(DeviceState { exchanges: Seq::empty(), faults: Seq::empty(), ..tsl2591@ })
                =~= tsl2591@.exchanges);
        }
        match r {
            Ok(()) => Ok(tsl2591),
            Err(e) => Err(e),
        }
    }

    /// The body of construction: reset, identity check, power-on, stopping
    /// at the first failure.
    fn init(&mut self) -> (r: Result<(), Error<I::Error>>)
        ensures
            final(self)@.appended_to(old(self)@),
            final(self)@.kept_settings(old(self)@),
            construction(final(self)@.issued_since(old(self)@)),
            r is Ok <==> ({
                let t = final(self)@.issued_since(old(self)@);
                all_ok(t) && id_read(t) == chip::DEV_ID
            }),
            r is Ok ==> final(self)@.powered_on,
            r is Ok ==> constructed(final(self)@.issued_since(old(self)@)),
            r matches Err(Error::InvalidId(_)) <==> ({
                let t = final(self)@.issued_since(old(self)@);
                all_ok(t) && id_read(t) != chip::DEV_ID
            }),
            r matches Err(Error::InvalidId(id)) ==> ({
                let t = final(self)@.issued_since(old(self)@);
                &&& id == id_read(t)
                &&& t.len() == reset_len(t) + 1
            }),
            r is Err ==> transport_failed(r) || r matches Err(Error::InvalidId(_)),
            transport_failed(r) <==> !final(self)@.succeeded_since(old(self)@),
            carries_first_fault(r, final(self)@, old(self)@),
    {
        let ghost start = self@;
        let reset = self.reset();
        if reset.is_err() {
            return reset;
        }
        let ghost after_reset = self@;
        let ghost tr = after_reset.issued_since(start);
        let id = self.get_id();
        let ghost after_id = self@;
        let ghost ti = after_id.issued_since(after_reset);
        proof {
            lemma_chain(start, after_reset, self@);
            lemma_cycle_len(soft_reset(), tr, ti);
            lemma_runs_single(Step::Read(chip::REG_ID, 1), ti);
            assert(self@.issued_since(start) =~= tr + ti);
            assert((tr + ti)[reset_len(tr + ti)] == ti[0]);
        }
        let value = match id {
            Ok(v) => v,
            Err(e) => {
                return Err(e);
            },
        };
        let checked = check_id(value);
        if checked.is_err() {
            return checked;
        }
        let on = self.power_on();
        proof {
            let to = self@.issued_since(after_id);
            let t = self@.issued_since(start);
            lemma_chain(after_reset, after_id, self@);
            lemma_chain(start, after_reset, self@);
            lemma_all_ok_concat(tr, ti + to);
            lemma_all_ok_concat(ti, to);
            assert(t =~= tr + (ti + to));
            lemma_cycle_len(soft_reset(), tr, ti + to);
            lemma_runs_cons(Step::Read(chip::REG_ID, 1), seq![power_step(true)], ti, to);
            assert(seq![Step::Read(chip::REG_ID, 1)] + seq![power_step(true)] =~= seq![
                Step::Read(chip::REG_ID, 1),
                power_step(true),
            ]);
            lemma_first_kept(ti, to);
            assert(t[reset_len(t)] == ti[0]);
            assert(t.skip(reset_len(t) + 1) =~= to);
        }
        on
    }
}

} // verus!
