//! Allocation of 64-bit identifiers: 41 bits of time unit (seconds since a
//! fixed epoch), 10 bits of worker id and 12 bits of sequence.
use vstd::prelude::*;
use std::time::{Duration, SystemTimeError, UNIX_EPOCH};

verus! {

/// Seconds from the Unix epoch to the reference epoch of the time field.
pub const CUSTOM_EPOCH: u64 = 1672498800;

/// The largest time unit that fits in 41 bits.
pub const MAX_TIME_UNIT: u64 = 0x1ff_ffff_ffff;

/// The largest worker id that fits in 10 bits.
pub const MAX_WORKER_ID: u64 = 1023;

/// Identifiers one worker can issue in one time unit.
pub const SEQUENCE_LIMIT: u64 = 4096;

#[verifier::external_type_specification]
#[verifier::external_body]
pub struct ExSystemTimeError(SystemTimeError);

/// `Duration::as_secs`: whole seconds of the duration.
pub assume_specification[ Duration::as_secs ](d: &Duration) -> u64;

/// Relies on `SystemTime::elapsed` on the Unix epoch: the time now as a
/// duration since 1970, or an error when the clock reads an earlier time.
#[verifier::external_body]
fn time_since_unix_epoch() -> (r: Result<Duration, SystemTimeError>) {
    UNIX_EPOCH.elapsed()
}

/// The identifier that packs time unit `t`, worker `w` and sequence `s`.
pub open spec fn pack(t: nat, w: nat, s: nat) -> nat {
    t * 0x40_0000 + w * 0x1000 + s
}

pub open spec fn time_of(id: nat) -> nat {
    id / 0x40_0000
}

pub open spec fn worker_of(id: nat) -> nat {
    (id / 0x1000) % 0x400
}

pub open spec fn sequence_of(id: nat) -> nat {
    id % 0x1000
}

/// Why no identifier was issued.
#[derive(Debug, Clone, Copy, PartialEq, Eq, Structural)]
pub enum GenerateError {
    /// The clock could not be read, or reads a time outside the 41-bit time field.
    ClockError,
    /// The worker has issued all 4096 sequence values of the current time unit.
    CapacityExceeded,
}

/// What an allocator holds: its worker id, the last time unit it adopted and
/// the next sequence value of that time unit.
pub struct AllocatorState {
    pub worker: nat,
    pub time_unit: nat,
    pub sequence: nat,
}

pub open spec fn valid(st: AllocatorState) -> bool {
    &&& st.worker <= MAX_WORKER_ID
    &&& st.time_unit <= MAX_TIME_UNIT
    &&& st.sequence <= SEQUENCE_LIMIT
}

/// One request at time unit `unit`: a later time unit is adopted with the
/// sequence reset, an earlier or equal one keeps the state's time unit.
pub open spec fn step(st: AllocatorState, unit: nat) -> (AllocatorState, Result<u64, GenerateError>) {
    if unit > MAX_TIME_UNIT {
        (st, Err(GenerateError::ClockError))
    } else {
        let t = if unit > st.time_unit { unit } else { st.time_unit };
        let s = if unit > st.time_unit { 0 } else { st.sequence };
        if s >= SEQUENCE_LIMIT {
            (st, Err(GenerateError::CapacityExceeded))
        } else {
            (
                AllocatorState { worker: st.worker, time_unit: t, sequence: s + 1 },
                Ok(pack(t, st.worker, s) as u64),
            )
        }
    }
}

/// The least identifier that a state can still issue.
pub open spec fn floor(st: AllocatorState) -> nat {
    pack(st.time_unit, st.worker, st.sequence)
}

/// The state after requests at the time units `units`, in order, and the
/// identifiers that were issued, in order.
pub open spec fn run(st: AllocatorState, units: Seq<nat>) -> (AllocatorState, Seq<u64>)
    decreases units.len(),
{
    if units.len() == 0 {
        (st, Seq::empty())
    } else {
        let (mid, ids) = run(st, units.drop_last());
        let (next, r) = step(mid, units.last());
        match r {
            Ok(id) => (next, ids.push(id)),
            Err(_) => (next, ids),
        }
    }
}

/// The three fields come back out of a packed identifier unchanged.
pub proof fn lemma_pack_unpack(t: nat, w: nat, s: nat)
    requires
        t <= MAX_TIME_UNIT,
        w <= MAX_WORKER_ID,
        s < SEQUENCE_LIMIT,
    ensures
        pack(t, w, s) <= u64::MAX,
        time_of(pack(t, w, s)) == t,
        worker_of(pack(t, w, s)) == w,
        sequence_of(pack(t, w, s)) == s,
{
    let id = pack(t, w, s);
    assert(id / 0x1000 == t * 0x400 + w) by (nonlinear_arith)
        requires
            id == t * 0x40_0000 + w * 0x1000 + s,
            s < 0x1000,
    ;
    assert(id / 0x40_0000 == t) by (nonlinear_arith)
        requires
            id == t * 0x40_0000 + w * 0x1000 + s,
            s < 0x1000,
            w < 0x400,
    ;
    assert((t * 0x400 + w) % 0x400 == w) by (nonlinear_arith)
        requires
            w < 0x400,
    ;
    assert(id % 0x1000 == s) by (nonlinear_arith)
        requires
            id == t * 0x40_0000 + w * 0x1000 + s,
            s < 0x1000,
    ;
}

/// One request keeps the state valid and never lowers its floor; an issued
/// identifier lies at or above the old floor and below the new one, and
/// carries the state's worker id.
pub proof fn lemma_step_floor(st: AllocatorState, unit: nat)
    requires
        valid(st),
    ensures
        valid(step(st, unit).0),
        step(st, unit).0.worker == st.worker,
        floor(st) <= floor(step(st, unit).0),
        step(st, unit).1 is Ok ==> floor(st) <= step(st, unit).1->Ok_0 < floor(step(st, unit).0),
        step(st, unit).1 is Ok ==> worker_of(step(st, unit).1->Ok_0 as nat) == st.worker,
{
    let (next, r) = step(st, unit);
    if r is Ok {
        lemma_pack_unpack(next.time_unit, st.worker, (next.sequence - 1) as nat);
    }
}

/// Whatever the time units of a series of requests, including time units
/// that go backwards, every identifier issued is greater than all issued
/// before it: no identifier is issued twice.
pub proof fn lemma_ids_strictly_increase(st: AllocatorState, units: Seq<nat>)
    requires
        valid(st),
    ensures
        valid(run(st, units).0),
        run(st, units).0.worker == st.worker,
        floor(st) <= floor(run(st, units).0),
        forall|i: int| 0 <= i < run(st, units).1.len() ==> floor(st) <= #[trigger] run(st, units).1[i] < floor(run(st, units).0),
        forall|i: int, j: int| 0 <= i < j < run(st, units).1.len() ==> run(st, units).1[i] < run(st, units).1[j],
        forall|i: int| 0 <= i < run(st, units).1.len() ==> worker_of(#[trigger] run(st, units).1[i] as nat) == st.worker,
    decreases units.len(),
{
    if units.len() > 0 {
        let prefix = units.drop_last();
        lemma_ids_strictly_increase(st, prefix);
        let (mid, ids) = run(st, prefix);
        lemma_step_floor(mid, units.last());
    }
}

/// Two workers with different ids never issue the same identifier, whatever
/// the time units of their requests.
pub proof fn lemma_workers_disjoint(a: AllocatorState, ua: Seq<nat>, b: AllocatorState, ub: Seq<nat>)
    requires
        valid(a),
        valid(b),
        a.worker != b.worker,
    ensures
        forall|i: int, j: int|
            0 <= i < run(a, ua).1.len() && 0 <= j < run(b, ub).1.len() ==> #[trigger] run(a, ua).1[i]
                != #[trigger] run(b, ub).1[j],
{
    lemma_ids_strictly_increase(a, ua);
    lemma_ids_strictly_increase(b, ub);
}

/// Within one time unit `t`, starting from a state that has issued nothing
/// at `t`, the first `n <= 4096` requests at `t` issue sequence values
/// `0..n` in order, all with time unit `t` and the state's worker id; once
/// all 4096 are issued, a further request at `t` or earlier is refused.
pub proof fn lemma_fill_time_unit(st: AllocatorState, t: nat, n: nat, late: nat)
    requires
        valid(st),
        t <= MAX_TIME_UNIT,
        st.time_unit < t || (st.time_unit == t && st.sequence == 0),
        n <= SEQUENCE_LIMIT,
        late <= t,
    ensures
        run(st, Seq::new(n, |i: int| t)).1 == Seq::new(n, |i: int| pack(t, st.worker, i as nat) as u64),
        n > 0 ==> run(st, Seq::new(n, |i: int| t)).0 == (AllocatorState { worker: st.worker, time_unit: t, sequence: n }),
        n == SEQUENCE_LIMIT ==> step(run(st, Seq::new(n, |i: int| t)).0, late).1 == Err::<u64, GenerateError>(GenerateError::CapacityExceeded),
    decreases n,
{
    if n > 0 {
        lemma_fill_time_unit(st, t, (n - 1) as nat, late);
        let units = Seq::new(n, |i: int| t);
        assert(units.drop_last() =~= Seq::new((n - 1) as nat, |i: int| t));
        assert(run(st, units).1 =~= Seq::new(n, |i: int| pack(t, st.worker, i as nat) as u64));
    }
}

/// When the time unit advances, the sequence restarts at zero, also for an
/// allocator that had used up the previous time unit.
pub proof fn lemma_rollover(st: AllocatorState, unit: nat)
    requires
        valid(st),
        st.time_unit < unit <= MAX_TIME_UNIT,
    ensures
        step(st, unit) == (
        AllocatorState { worker: st.worker, time_unit: unit, sequence: 1 },
        Ok::<u64, GenerateError>(pack(unit, st.worker, 0) as u64),
        ),
{
}

/// A single worker's identifier allocator.
#[derive(Debug)]
pub struct Snowflake {
    machine_id: u64,
    ts: u64,
    seq: u64,
}

impl View for Snowflake {
    type V = AllocatorState;

    closed spec fn view(&self) -> AllocatorState {
        AllocatorState {
            worker: self.machine_id as nat,
            time_unit: self.ts as nat,
            sequence: self.seq as nat,
        }
    }
}

impl Snowflake {
    /// An allocator for worker `machine_id` that has observed no time yet.
    pub fn new(machine_id: u64) -> (r: Snowflake)
        requires
            machine_id <= MAX_WORKER_ID,
        ensures
            r@ == (AllocatorState { worker: machine_id as nat, time_unit: 0, sequence: 0 }),
            valid(r@),
    {
        Snowflake { machine_id, ts: 0, seq: 0 }
    }

    /// Packs the fields into one identifier; the worker id and the sequence
    /// are cut to their 10 and 12 bits.
    pub fn construct_id(ts: u64, machine_id: u64, seq: u64) -> (r: u64)
        requires
            ts <= MAX_TIME_UNIT,
        ensures
            r as nat == pack(ts as nat, (machine_id % 0x400) as nat, (seq % 0x1000) as nat),
    {
        let id: u64 = (ts << 22u64) | ((machine_id & 0x3ff) << 12u64) | (seq & 0xfff);
        assert(id == ts * 0x40_0000 + (machine_id % 0x400) * 0x1000 + seq % 0x1000) by (bit_vector)
            requires
                id == (ts << 22u64) | ((machine_id & 0x3ff) << 12u64) | (seq & 0xfff),
                ts <= 0x1ff_ffff_ffff,
        ;
        id
    }

    /// Splits an identifier into its time unit, worker id and sequence.
    pub fn unpack(id: u64) -> (r: (u64, u64, u64))
        ensures
            r.0 as nat == time_of(id as nat),
            r.1 as nat == worker_of(id as nat),
            r.2 as nat == sequence_of(id as nat),
    {
        let t: u64 = id >> 22u64;
        let w: u64 = (id >> 12u64) & 0x3ff;
        let s: u64 = id & 0xfff;
        assert(t == id / 0x40_0000 && w == (id / 0x1000) % 0x400 && s == id % 0x1000) by (bit_vector)
            requires
                t == id >> 22u64,
                w == (id >> 12u64) & 0x3ff,
                s == id & 0xfff,
        ;
        (t, w, s)
    }

    /// Issues the next identifier for a request made at time unit `time_unit`.
    pub fn generate_at(&mut self, time_unit: u64) -> (r: Result<u64, GenerateError>)
        requires
            valid(old(self)@),
        ensures
            (final(self)@, r) == step(old(self)@, time_unit as nat),
            valid(final(self)@),
    {
        if time_unit > MAX_TIME_UNIT {
            return Err(GenerateError::ClockError);
        }
        if time_unit > self.ts {
            self.ts = time_unit;
            self.seq = 0;
        }
        if self.seq >= SEQUENCE_LIMIT {
            Err(GenerateError::CapacityExceeded)
        } else {
            let cur = self.seq;
            self.seq = cur + 1;
            Ok(Snowflake::construct_id(self.ts, self.machine_id, cur))
        }
    }

    /// Issues the next identifier for a request made when the clock read
    /// `secs` seconds since the Unix epoch; a reading before the reference
    /// epoch is a clock error.
    pub fn generate_at_unix_secs(&mut self, secs: u64) -> (r: Result<u64, GenerateError>)
        requires
            valid(old(self)@),
        ensures
            valid(final(self)@),
            secs < CUSTOM_EPOCH ==> r == Err::<u64, GenerateError>(GenerateError::ClockError)
                && final(self)@ == old(self)@,
            secs >= CUSTOM_EPOCH ==> (final(self)@, r) == step(old(self)@, (secs - CUSTOM_EPOCH) as nat),
    {
        if secs < CUSTOM_EPOCH {
            Err(GenerateError::ClockError)
        } else {
            self.generate_at(secs - CUSTOM_EPOCH)
        }
    }

    /// Issues the next identifier for a request made now, by the system clock.
    /// An unreadable clock is a clock error that leaves the state unchanged;
    /// otherwise the outcome is that of `generate_at_unix_secs` on some reading.
    pub fn generate(&mut self) -> (r: Result<u64, GenerateError>)
        requires
            valid(old(self)@),
        ensures
            valid(final(self)@),
            (r == Err::<u64, GenerateError>(GenerateError::ClockError) && final(self)@ == old(self)@)
                || exists|secs: u64|
                secs >= CUSTOM_EPOCH && (final(self)@, r) == #[trigger] step(
                    old(self)@,
                    (secs - CUSTOM_EPOCH) as nat,
                ),
    {
        match time_since_unix_epoch() {
            Ok(d) => self.generate_at_unix_secs(d.as_secs()),
            Err(_) => Err(GenerateError::ClockError),
        }
    }
}

} // verus!
