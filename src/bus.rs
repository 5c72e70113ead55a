//! The bus transport, and the exchanges that the driver's operations make on it.
use vstd::prelude::*;
use crate::chip;

verus! {

/// A blocking two-wire bus, as the board provides it.
pub trait I2cBus {
    /// The transport's own error.
    type Error;

    /// Writes `bytes` to the device at `address` in one transfer.
    fn write(&mut self, address: u8, bytes: &[u8]) -> Result<(), Self::Error>;

    /// Writes `bytes`, then fills `read` from the device at `address`, in one
    /// combined transfer. `read` keeps its length: an implementation can
    /// change the bytes of a slice, never how many there are.
    fn write_read(&mut self, address: u8, bytes: &[u8], read: &mut [u8]) -> (r: Result<
        (),
        Self::Error,
    >)
        ensures
            final(read)@.len() == old(read)@.len(),
    ;
}

/// What one transfer on the bus carried.
pub enum Transfer {
    /// Bytes sent to the device.
    Write(Seq<u8>),
    /// Bytes sent, then bytes received.
    WriteRead(Seq<u8>, Seq<u8>),
}

/// One transfer with the device, and whether the transport reported success.
pub struct Exchange {
    pub address: u8,
    pub transfer: Transfer,
    pub ok: bool,
}

/// One register-level operation of the driver.
pub enum Step {
    /// Write a value to a register.
    Write(u8, u8),
    /// Read the given number of bytes starting at a register.
    Read(u8, nat),
    /// Read a register and write back `(old & !mask) | (value & mask)` when
    /// that differs: register, mask, value.
    Update(u8, u8, u8),
    /// Send the given bytes as they are.
    Send(Seq<u8>),
}

/// The command byte of a normal transaction on register `reg`.
pub open spec fn command(reg: u8) -> u8 {
    chip::CMD_NORMAL | reg
}

/// The register value that an update of `old` with `mask` and `value` writes.
pub open spec fn merged(old: u8, mask: u8, value: u8) -> u8 {
    (old & !mask) | (value & mask)
}

/// The bytes that an exchange received; none for a plain write.
pub open spec fn received(e: Exchange) -> Seq<u8> {
    match e.transfer {
        Transfer::WriteRead(_, input) => input,
        Transfer::Write(_) => Seq::empty(),
    }
}

/// `e` is a write of `bytes` to the sensor.
pub open spec fn is_write(e: Exchange, bytes: Seq<u8>) -> bool {
    e.address == chip::I2C_ADDR && e.transfer == Transfer::Write(bytes)
}

/// `e` reads `len` bytes from register `reg` of the sensor.
pub open spec fn is_read(e: Exchange, reg: u8, len: nat) -> bool {
    &&& e.address == chip::I2C_ADDR
    &&& e.transfer matches Transfer::WriteRead(out, input)
    &&& out == seq![command(reg)]
    &&& input.len() == len
}

/// Every exchange of `t` succeeded.
pub open spec fn all_ok(t: Seq<Exchange>) -> bool {
    forall|i: int| 0 <= i < t.len() ==> #[trigger] t[i].ok
}

/// An update whose read came back as `t[0]` must write.
pub open spec fn update_writes(mask: u8, value: u8, t: Seq<Exchange>) -> bool {
    t.len() >= 1 && t[0].ok && merged(received(t[0])[0], mask, value) != received(t[0])[0]
}

/// How many exchanges `step` makes, given how the first one went.
pub open spec fn step_len(step: Step, t: Seq<Exchange>) -> int {
    match step {
        Step::Update(_, mask, value) => if update_writes(mask, value, t) {
            2
        } else {
            1
        },
        _ => 1,
    }
}

/// `t` is exactly the exchanges of one `step`.
pub open spec fn does(step: Step, t: Seq<Exchange>) -> bool {
    &&& t.len() == step_len(step, t)
    &&& match step {
        Step::Write(reg, value) => is_write(t[0], seq![command(reg), value]),
        Step::Read(reg, len) => is_read(t[0], reg, len),
        Step::Send(bytes) => is_write(t[0], bytes),
        Step::Update(reg, mask, value) => {
            &&& is_read(t[0], reg, 1)
            &&& t.len() == 2 ==> is_write(
                t[1],
                seq![command(reg), merged(received(t[0])[0], mask, value)],
            )
        },
    }
}

/// `t` is what `steps` do in order, stopping after the first step that failed.
pub open spec fn runs(steps: Seq<Step>, t: Seq<Exchange>) -> bool
    decreases steps.len(),
{
    if steps.len() == 0 {
        t.len() == 0
    } else {
        let k = step_len(steps[0], t);
        &&& k <= t.len()
        &&& does(steps[0], t.take(k))
        &&& if all_ok(t.take(k)) {
            runs(steps.drop_first(), t.skip(k))
        } else {
            t.len() == k
        }
    }
}

/// The step that powers the sensor on or off.
pub open spec fn power_step(on: bool) -> Step {
    Step::Update(
        chip::REG_ENABLE,
        chip::POWER_MASK,
        if on {
            chip::POWER_ON
        } else {
            chip::POWER_OFF
        },
    )
}

/// Number of exchanges that the power-off step of `t` made.
pub open spec fn off_len(t: Seq<Exchange>) -> int {
    step_len(power_step(false), t)
}

/// Number of exchanges that the power-off step and `change` made in `t`.
pub open spec fn change_end(change: Step, t: Seq<Exchange>) -> int {
    off_len(t) + step_len(change, t.skip(off_len(t)))
}

/// Number of exchanges that power-off, `change` and power-on made in `t`.
pub open spec fn cycle_len(change: Step, t: Seq<Exchange>) -> int {
    change_end(change, t) + step_len(power_step(true), t.skip(change_end(change, t)))
}

/// `t` is `change` applied while powered down: power off; if that succeeded,
/// the change, then power on whether or not the change succeeded.
pub open spec fn runs_powered_down(change: Step, t: Seq<Exchange>) -> bool {
    &&& runs(seq![power_step(false)], t.take(off_len(t)))
    &&& off_len(t) <= t.len()
    &&& if all_ok(t.take(off_len(t))) {
        &&& change_end(change, t) <= t.len()
        &&& does(change, t.subrange(off_len(t), change_end(change, t)))
        &&& runs(seq![power_step(true)], t.skip(change_end(change, t)))
    } else {
        t.len() == off_len(t)
    }
}



/// A sequence whose first element stands in `t1` has the same first element
/// once more exchanges follow it.
pub(crate) proof fn lemma_first_kept(t1: Seq<Exchange>, t2: Seq<Exchange>)
    requires
        t1.len() >= 1,
    ensures
        (t1 + t2)[0] == t1[0],
        (t1 + t2).take(t1.len() as int) =~= t1,
        (t1 + t2).skip(t1.len() as int) =~= t2,
{
}

/// One step, alone, runs as the sequence of that step.
pub proof fn lemma_runs_one(step: Step, t: Seq<Exchange>)
    requires
        does(step, t),
    ensures
        runs(seq![step], t),
{
    assert(t.take(t.len() as int) =~= t);
    assert(t.skip(t.len() as int) =~= Seq::<Exchange>::empty());
    assert(seq![step].drop_first() =~= Seq::<Step>::empty());
    reveal_with_fuel(runs, 2);
}

/// A step that succeeded, followed by a run of further steps, runs as the
/// whole sequence.
pub proof fn lemma_runs_cons(step: Step, steps: Seq<Step>, t1: Seq<Exchange>, t2: Seq<Exchange>)
    requires
        does(step, t1),
        all_ok(t1),
        runs(steps, t2),
    ensures
        runs(seq![step] + steps, t1 + t2),
{
    lemma_first_kept(t1, t2);
    assert((seq![step] + steps)[0] == step);
    assert((seq![step] + steps).drop_first() =~= steps);
}

/// A step that failed ends the run of any sequence that it starts.
pub proof fn lemma_runs_stop(step: Step, steps: Seq<Step>, t: Seq<Exchange>)
    requires
        does(step, t),
        !all_ok(t),
    ensures
        runs(seq![step] + steps, t),
{
    assert(t.take(t.len() as int) =~= t);
    assert((seq![step] + steps)[0] == step);
}

/// The exchanges of two runs succeeded together exactly when each did.
pub proof fn lemma_all_ok_concat(t1: Seq<Exchange>, t2: Seq<Exchange>)
    ensures
        all_ok(t1 + t2) == (all_ok(t1) && all_ok(t2)),
{
    if all_ok(t1) && all_ok(t2) {
        assert forall|i: int| 0 <= i < (t1 + t2).len() implies #[trigger] (t1 + t2)[i].ok by {
            if i >= t1.len() {
                assert((t1 + t2)[i] == t2[i - t1.len()]);
            }
        }
    }
    if all_ok(t1 + t2) {
        assert forall|i: int| 0 <= i < t1.len() implies #[trigger] t1[i].ok by {
            assert((t1 + t2)[i] == t1[i]);
        }
        assert forall|i: int| 0 <= i < t2.len() implies #[trigger] t2[i].ok by {
            assert((t1 + t2)[i + t1.len()] == t2[i]);
        }
    }
}

/// The run of a single step is exactly that step.
pub proof fn lemma_runs_single(step: Step, t: Seq<Exchange>)
    requires
        runs(seq![step], t),
    ensures
        does(step, t),
{
    reveal_with_fuel(runs, 2);
    let k = step_len(step, t);
    if all_ok(t.take(k)) {
        assert(seq![step].drop_first().len() == 0);
    }
    assert(t.take(k) =~= t);
}

/// A failed power-off ends a change made while powered down.
pub proof fn lemma_powered_down_stop(change: Step, t: Seq<Exchange>)
    requires
        runs(seq![power_step(false)], t),
        !all_ok(t),
    ensures
        runs_powered_down(change, t),
        t.take(off_len(t)) == t,
{
    lemma_runs_single(power_step(false), t);
    assert(t.take(off_len(t)) =~= t);
}

/// Power-off, the change and power-on, one after the other, are a change
/// made while powered down.
pub proof fn lemma_powered_down(change: Step, t0: Seq<Exchange>, t1: Seq<Exchange>, t2: Seq<Exchange>)
    requires
        runs(seq![power_step(false)], t0),
        all_ok(t0),
        does(change, t1),
        runs(seq![power_step(true)], t2),
    ensures
        runs_powered_down(change, t0 + t1 + t2),
        (t0 + t1 + t2).take(off_len(t0 + t1 + t2)) == t0,
        (t0 + t1 + t2).skip(change_end(change, t0 + t1 + t2)) == t2,
{
    let t = t0 + t1 + t2;
    lemma_runs_single(power_step(false), t0);
    lemma_first_kept(t0, t1 + t2);
    assert(t =~= t0 + (t1 + t2));
    assert(off_len(t) == t0.len());
    assert(t.skip(off_len(t)) =~= t1 + t2);
    lemma_first_kept(t1, t2);
    assert(change_end(change, t) == t0.len() + t1.len());
    assert(t.take(off_len(t)) =~= t0);
    assert(t.subrange(off_len(t), change_end(change, t)) =~= t1);
    assert(t.skip(change_end(change, t)) =~= t2);
}

/// A change made while powered down that succeeded keeps its length when
/// more exchanges follow it.
pub proof fn lemma_cycle_len(change: Step, t: Seq<Exchange>, rest: Seq<Exchange>)
    requires
        runs_powered_down(change, t),
        all_ok(t),
    ensures
        cycle_len(change, t + rest) == t.len(),
        cycle_len(change, t) == t.len(),
        (t + rest).take(t.len() as int) == t,
        (t + rest).skip(t.len() as int) == rest,
{
    let u = t + rest;
    let k0 = off_len(t);
    lemma_runs_single(power_step(false), t.take(k0));
    assert(all_ok(t.take(k0))) by {
        assert forall|i: int| 0 <= i < t.take(k0).len() implies #[trigger] t.take(k0)[i].ok by {
            assert(t.take(k0)[i] == t[i]);
        }
    }
    lemma_first_kept(t, rest);
    assert(u[0] == t[0]);
    assert(off_len(u) == k0);
    let k1 = change_end(change, t);
    assert(u.skip(k0) =~= t.skip(k0) + rest);
    assert(t.skip(k0)[0] == t[k0]);
    assert(u.skip(k0)[0] == t.skip(k0)[0]);
    assert(step_len(change, u.skip(k0)) == step_len(change, t.skip(k0)));
    assert(change_end(change, u) == k1);
    let on = t.skip(k1);
    lemma_runs_single(power_step(true), on);
    assert(u.skip(k1) =~= on + rest);
    lemma_first_kept(on, rest);
    assert(step_len(power_step(true), u.skip(k1)) == on.len());
}

/// The first transport error in `f`, where each entry is the error of one
/// exchange, or none for an exchange that succeeded.
pub open spec fn first_fault<E>(f: Seq<Option<E>>) -> Option<E>
    decreases f.len(),
{
    if f.len() == 0 {
        None
    } else if f[0] is Some {
        f[0]
    } else {
        first_fault(f.drop_first())
    }
}

/// `f` holds one entry per exchange of `t`: an error exactly where the
/// exchange failed.
pub open spec fn records_faults<E>(f: Seq<Option<E>>, t: Seq<Exchange>) -> bool {
    &&& f.len() == t.len()
    &&& forall|i: int| 0 <= i < t.len() ==> (#[trigger] f[i] is Some <==> !t[i].ok)
}

/// The first error of two records is that of the first one, if it has one.
pub proof fn lemma_first_fault_concat<E>(f1: Seq<Option<E>>, f2: Seq<Option<E>>)
    ensures
        first_fault(f1 + f2) == if first_fault(f1) is Some {
            first_fault(f1)
        } else {
            first_fault(f2)
        },
    decreases f1.len(),
{
    if f1.len() == 0 {
        assert(f1 + f2 =~= f2);
    } else {
        assert((f1 + f2)[0] == f1[0]);
        if f1[0] is None {
            assert((f1 + f2).drop_first() =~= f1.drop_first() + f2);
            lemma_first_fault_concat(f1.drop_first(), f2);
        }
    }
}

/// A record holds no error exactly when every exchange it goes with succeeded.
pub proof fn lemma_first_fault_none<E>(f: Seq<Option<E>>, t: Seq<Exchange>)
    requires
        records_faults(f, t),
    ensures
        first_fault(f) is None <==> all_ok(t),
    decreases f.len(),
{
    if f.len() > 0 {
        let f1 = f.drop_first();
        let t1 = t.drop_first();
        assert(records_faults(f1, t1)) by {
            assert forall|i: int| 0 <= i < t1.len() implies (#[trigger] f1[i] is Some <==> !t1[i].ok) by {
                assert(f1[i] == f[i + 1]);
                assert(t1[i] == t[i + 1]);
            }
        }
        lemma_first_fault_none(f1, t1);
        assert(f[0] is Some <==> !t[0].ok);
        if all_ok(t1) && t[0].ok {
            assert forall|i: int| 0 <= i < t.len() implies #[trigger] t[i].ok by {
                if i > 0 {
                    assert(t[i] == t1[i - 1]);
                }
            }
        }
        if all_ok(t) {
            assert(t[0].ok);
            assert forall|i: int| 0 <= i < t1.len() implies #[trigger] t1[i].ok by {
                assert(t1[i] == t[i + 1]);
            }
        }
    }
}

/// Records of two runs of exchanges, one after the other, are a record of
/// both.
pub proof fn lemma_records_concat<E>(
    f1: Seq<Option<E>>,
    t1: Seq<Exchange>,
    f2: Seq<Option<E>>,
    t2: Seq<Exchange>,
)
    requires
        records_faults(f1, t1),
        records_faults(f2, t2),
    ensures
        records_faults(f1 + f2, t1 + t2),
{
    assert forall|i: int| 0 <= i < (t1 + t2).len() implies (#[trigger] (f1 + f2)[i] is Some <==> !(t1
        + t2)[i].ok) by {
        if i >= t1.len() {
            assert((f1 + f2)[i] == f2[i - t1.len()]);
            assert((t1 + t2)[i] == t2[i - t1.len()]);
        } else {
            assert((f1 + f2)[i] == f1[i]);
            assert((t1 + t2)[i] == t1[i]);
        }
    }
}

} // verus!
