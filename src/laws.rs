//! Properties that relate the driver's operations, proved over their specs.
use vstd::prelude::*;
use crate::bus::{all_ok, is_read, lemma_runs_single, merged, received, runs, Exchange, Step};
use crate::chip;
use crate::driver::{acquires, als_outcome, data_valid, lux_outcome, saturated, DeviceState, Error};
use crate::lux::{lux_of, Lux};
use crate::settings::{is_gain_multiplier, is_integration_millis, AlsData, Gain};

verus! {

/// An update leaves the bits outside `mask` as they were and sets the bits
/// inside it to exactly `value & mask`.
pub proof fn lemma_update_bits(old: u8, mask: u8, value: u8)
    ensures
        merged(old, mask, value) & !mask == old & !mask,
        merged(old, mask, value) & mask == value & mask,
{
    assert((((old & !mask) | (value & mask)) & !mask) == (old & !mask)) by (bit_vector);
    assert((((old & !mask) | (value & mask)) & mask) == (value & mask)) by (bit_vector);
}

/// The value a register holds after the exchanges `t` of an update that
/// succeeded: the written value, or what was read where nothing was written.
pub open spec fn held_after_update(t: Seq<Exchange>, mask: u8, value: u8) -> u8 {
    merged(received(t[0])[0], mask, value)
}

/// Issuing the same update twice in a row: where the second read returns
/// what the register holds after the first update, the second update writes
/// nothing.
pub proof fn lemma_repeated_update_writes_nothing(
    reg: u8,
    mask: u8,
    value: u8,
    first: Seq<Exchange>,
    second: Seq<Exchange>,
)
    requires
        runs(seq![Step::Update(reg, mask, value)], first),
        all_ok(first),
        runs(seq![Step::Update(reg, mask, value)], second),
        second[0].ok,
        received(second[0])[0] == held_after_update(first, mask, value),
    ensures
        second.len() == 1,
{
    lemma_runs_single(Step::Update(reg, mask, value), first);
    lemma_runs_single(Step::Update(reg, mask, value), second);
    let held = held_after_update(first, mask, value);
    let old = received(first[0])[0];
    assert(((((old & !mask) | (value & mask)) & !mask) | (value & mask)) == ((old & !mask) | (
    value & mask))) by (bit_vector);
    assert(merged(held, mask, value) == held);
}

/// The clear-interrupt command is sent on every call, whatever came before.
pub proof fn lemma_clear_interrupt_always_sent(t: Seq<Exchange>)
    requires
        runs(seq![Step::Send(seq![chip::CMD_CLEAR_INT])], t),
    ensures
        t.len() == 1,
        t[0].address == chip::I2C_ADDR,
        t[0].transfer == crate::bus::Transfer::Write(seq![chip::CMD_CLEAR_INT]),
{
    lemma_runs_single(Step::Send(seq![chip::CMD_CLEAR_INT]), t);
}

/// Where the status read of a checked acquisition finds the data-valid bit
/// clear, the acquisition ends there, with no channel read, and reports an
/// incomplete cycle.
pub proof fn lemma_incomplete_cycle_reads_no_channels<E>(t: Seq<Exchange>, integration_ms: u16)
    requires
        acquires(true, t),
        t[0].ok,
        !data_valid(received(t[0])[0]),
    ensures
        t.len() == 1,
        is_read(t[0], chip::REG_STATUS, 1),
        all_ok(t),
        als_outcome::<E>(true, t, integration_ms) == Err::<AlsData, Error<E>>(
            Error::CycleIncomplete,
        ),
{
    assert(t.take(1) =~= t);
    assert(all_ok(t)) by {
        assert forall|i: int| 0 <= i < t.len() implies #[trigger] t[i].ok by {}
    }
}

/// A reading is saturated at 36863 counts with a 100 ms integration time and
/// at 65535 counts with any other.
pub proof fn lemma_saturation_threshold(als: AlsData, integration_ms: u16)
    ensures
        integration_ms == 100 ==> (saturated(als, integration_ms) <==> (als.visible >= 36863
            || als.infrared >= 36863)),
        integration_ms != 100 ==> (saturated(als, integration_ms) <==> (als.visible >= 65535
            || als.infrared >= 65535)),
{
}

/// A reading with no visible counts is zero lux, whatever the infrared.
pub proof fn lemma_dark_is_zero_lux(infrared: u16, gain_multiplier: u16, integration_ms: u16)
    requires
        is_gain_multiplier(gain_multiplier),
        is_integration_millis(integration_ms),
    ensures
        lux_of(AlsData { visible: 0, infrared }, gain_multiplier, integration_ms) == (Lux {
            integer: 0,
            fractional: 0,
        }),
{
    let cpl = integration_ms * gain_multiplier * 1_000_000;
    assert(cpl > 0) by (nonlinear_arith)
        requires
            cpl == integration_ms * gain_multiplier * 1_000_000,
            integration_ms >= 100,
            gain_multiplier >= 1,
    ;
    assert(0int / cpl == 0);
    assert(0int % cpl == 0);
}

/// Once a gain has been set, a lux reading converts with that gain's
/// multiplier: 1, 25, 400 or 9200 for Low, Med, High and Max.
pub proof fn lemma_gain_round_trip<E>(
    gain: Gain,
    state: DeviceState<E>,
    check_complete: bool,
    t: Seq<Exchange>,
)
    requires
        state.gain_multiplier == gain.spec_multiplier(),
    ensures
        lux_outcome::<E>(check_complete, t, state) == match als_outcome::<E>(
            check_complete,
            t,
            state.integration_ms,
        ) {
            Ok(als) => Ok(
                lux_of(
                    als,
                    match gain {
                        Gain::Low => 1u16,
                        Gain::Med => 25u16,
                        Gain::High => 400u16,
                        Gain::Max => 9200u16,
                    },
                    state.integration_ms,
                ),
            ),
            Err(e) => Err(e),
        },
{
}

} // verus!
