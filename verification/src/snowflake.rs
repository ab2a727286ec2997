//! 64-bit, time-sortable unique identifiers.
//!
//! An identifier holds, from the most significant bit down: the milliseconds since
//! [`EPOCH`] (42 bits), the datacenter ID (5 bits), the machine ID (5 bits) and a
//! sequence number (12 bits) that counts identifiers within one millisecond.

use vstd::prelude::*;

use crate::clock::unix_millis;

verus! {

/// The custom epoch, in milliseconds since the Unix epoch (Nov 14 2023).
pub const EPOCH: u64 = 1_700_000_000_000;

/// Bits of the datacenter ID.
pub const DATACENTER_BITS: u64 = 5;

/// Bits of the machine ID.
pub const MACHINE_BITS: u64 = 5;

/// Bits of the sequence number.
pub const SEQUENCE_BITS: u64 = 12;

/// The largest datacenter ID: `2^DATACENTER_BITS - 1`.
pub const MAX_DATACENTER_ID: u64 = 31;

/// The largest machine ID: `2^MACHINE_BITS - 1`.
pub const MAX_MACHINE_ID: u64 = 31;

/// The largest sequence number: `2^SEQUENCE_BITS - 1`.
pub const MAX_SEQUENCE: u64 = 4095;

/// Where the machine ID starts: `SEQUENCE_BITS`.
pub const MACHINE_SHIFT: u64 = 12;

/// Where the datacenter ID starts: `SEQUENCE_BITS + MACHINE_BITS`.
pub const DATACENTER_SHIFT: u64 = 17;

/// Where the timestamp starts: `SEQUENCE_BITS + MACHINE_BITS + DATACENTER_BITS`.
pub const TIMESTAMP_SHIFT: u64 = 22;

/// The first millisecond whose identifiers no longer fit in 64 bits: `EPOCH + 2^42`.
pub const TIMESTAMP_LIMIT: u64 = 1_700_000_000_000 + 0x400_0000_0000;

/// The identifier built from a timestamp (milliseconds since the Unix epoch, at or
/// after `EPOCH`), a datacenter ID, a machine ID and a sequence number.
pub open spec fn snowflake_id(timestamp: u64, datacenter_id: u64, machine_id: u64, sequence: u64) -> u64 {
    (((timestamp - EPOCH) as u64) << 22u64) | (datacenter_id << 17u64) | (machine_id << 12u64) | sequence
}

/// The state of a generator.
pub struct GeneratorView {
    pub machine_id: u64,
    pub datacenter_id: u64,
    pub sequence: u64,
    pub last_timestamp: u64,
}

impl GeneratorView {
    /// Identifiers and the sequence number are in range.
    pub open spec fn wf(self) -> bool {
        &&& self.machine_id <= MAX_MACHINE_ID
        &&& self.datacenter_id <= MAX_DATACENTER_ID
        &&& self.sequence <= MAX_SEQUENCE
        &&& (self.last_timestamp == 0 || self.last_timestamp >= EPOCH)
    }

    /// The identifier of the last millisecond and sequence number handed out.
    pub open spec fn last_id(self) -> u64 {
        snowflake_id(self.last_timestamp, self.datacenter_id, self.machine_id, self.sequence)
    }

    /// The state after an identifier is taken at millisecond `now` (not before the last
    /// one): a later millisecond restarts the sequence at `0`; the same millisecond takes
    /// the next sequence number, wrapping to `0` after `MAX_SEQUENCE`.
    pub open spec fn step(self, now: u64) -> GeneratorView {
        GeneratorView {
            sequence: if now == self.last_timestamp {
                if self.sequence < MAX_SEQUENCE {
                    (self.sequence + 1) as u64
                } else {
                    0
                }
            } else {
                0
            },
            last_timestamp: now,
            ..self
        }
    }

    /// The earliest millisecond that the next identifier can use: the last one, or the
    /// one after it once its sequence numbers have run out, and no earlier than `EPOCH`.
    pub open spec fn floor(self) -> u64 {
        let last = if self.sequence == MAX_SEQUENCE && self.last_timestamp < u64::MAX {
            (self.last_timestamp + 1) as u64
        } else {
            self.last_timestamp
        };
        if last > EPOCH {
            last
        } else {
            EPOCH
        }
    }

    /// What one call of `next_id` does to the state: the same machine and datacenter; a
    /// later millisecond with sequence `0`, or the same millisecond with the next
    /// sequence number (only the last millisecond a 64-bit clock can read may repeat).
    pub open spec fn steps_to(self, next: GeneratorView) -> bool {
        &&& next.machine_id == self.machine_id
        &&& next.datacenter_id == self.datacenter_id
        &&& next.last_timestamp >= EPOCH
        &&& next.last_timestamp >= self.last_timestamp
        &&& next.last_timestamp > self.last_timestamp ==> next.sequence == 0
        &&& next.last_timestamp == self.last_timestamp && self.last_timestamp < u64::MAX ==> next.sequence
            == self.sequence + 1
    }
}

/// A generator of identifiers for one machine of one datacenter.
#[derive(Debug)]
pub struct SnowflakeGenerator {
    machine_id: u64,
    datacenter_id: u64,
    sequence: u64,
    last_timestamp: u64,
}

impl View for SnowflakeGenerator {
    type V = GeneratorView;

    closed spec fn view(&self) -> GeneratorView {
        GeneratorView {
            machine_id: self.machine_id,
            datacenter_id: self.datacenter_id,
            sequence: self.sequence,
            last_timestamp: self.last_timestamp,
        }
    }
}

/// Reads the clock in milliseconds until it shows at least `min`; returns `min` if the
/// clock never gets there within `u64::MAX` readings.
fn clock_at_least(min: u64) -> (t: u64)
    ensures
        t >= min,
{
    let mut tries: u64 = 0;
    while tries < u64::MAX
        decreases u64::MAX - tries,
    {
        let now = unix_millis();
        if now >= min {
            return now;
        }
        tries = tries + 1;
    }
    min
}

/// With every field in range, an identifier is the sum of its shifted fields.
pub proof fn lemma_id_value(timestamp: u64, datacenter_id: u64, machine_id: u64, sequence: u64)
    requires
        EPOCH <= timestamp < TIMESTAMP_LIMIT,
        datacenter_id <= MAX_DATACENTER_ID,
        machine_id <= MAX_MACHINE_ID,
        sequence <= MAX_SEQUENCE,
    ensures
        snowflake_id(timestamp, datacenter_id, machine_id, sequence) == (timestamp - EPOCH) * 0x40_0000
            + datacenter_id * 0x2_0000 + machine_id * 0x1000 + sequence,
{
    let a: u64 = (timestamp - EPOCH) as u64;
    assert(a < 0x400_0000_0000);
    assert((a << 22u64) | (datacenter_id << 17u64) | (machine_id << 12u64) | sequence == a * 0x40_0000
        + datacenter_id * 0x2_0000 + machine_id * 0x1000 + sequence) by (bit_vector)
        requires
            a < 0x400_0000_0000,
            datacenter_id <= 31,
            machine_id <= 31,
            sequence <= 4095,
    ;
}

/// An identifier carries its machine and datacenter IDs at their shifts.
pub proof fn lemma_id_fields(timestamp: u64, datacenter_id: u64, machine_id: u64, sequence: u64)
    requires
        timestamp >= EPOCH,
        datacenter_id <= MAX_DATACENTER_ID,
        machine_id <= MAX_MACHINE_ID,
        sequence <= MAX_SEQUENCE,
    ensures
        (snowflake_id(timestamp, datacenter_id, machine_id, sequence) >> MACHINE_SHIFT) & MAX_MACHINE_ID
            == machine_id,
        (snowflake_id(timestamp, datacenter_id, machine_id, sequence) >> DATACENTER_SHIFT)
            & MAX_DATACENTER_ID == datacenter_id,
        snowflake_id(timestamp, datacenter_id, machine_id, sequence) & MAX_SEQUENCE == sequence,
{
    let a: u64 = (timestamp - EPOCH) as u64;
    let id = (a << 22u64) | (datacenter_id << 17u64) | (machine_id << 12u64) | sequence;
    assert((id >> 12u64) & 31 == machine_id && (id >> 17u64) & 31 == datacenter_id && id & 4095 == sequence)
        by (bit_vector)
        requires
            id == (a << 22u64) | (datacenter_id << 17u64) | (machine_id << 12u64) | sequence,
            datacenter_id <= 31,
            machine_id <= 31,
            sequence <= 4095,
    ;
}

impl SnowflakeGenerator {
    /// Creates a generator for machine `machine_id` of datacenter `datacenter_id`.
    pub fn new(machine_id: u64, datacenter_id: u64) -> (g: Self)
        requires
            machine_id <= MAX_MACHINE_ID,
            datacenter_id <= MAX_DATACENTER_ID,
        ensures
            g@ == (GeneratorView { machine_id, datacenter_id, sequence: 0, last_timestamp: 0 }),
            g@.wf(),
    {
        SnowflakeGenerator { machine_id, datacenter_id, sequence: 0, last_timestamp: 0 }
    }

    /// Returns the identifier for a clock reading of `now` milliseconds since the Unix
    /// epoch: a later millisecond than the last one used starts over at sequence `0`;
    /// the same millisecond takes the next sequence number (wrapping to `0` once the
    /// sequence numbers of that millisecond have run out).
    pub fn next_id_at(&mut self, now: u64) -> (id: u64)
        requires
            old(self)@.wf(),
            now >= EPOCH,
            now >= old(self)@.last_timestamp,
        ensures
            final(self)@ == old(self)@.step(now),
            final(self)@.wf(),
            id == final(self)@.last_id(),
            id == snowflake_id(now, old(self)@.datacenter_id, old(self)@.machine_id, final(self)@.sequence),
    {
        if now == self.last_timestamp {
            let next = (self.sequence + 1) & MAX_SEQUENCE;
            proof {
                let s = self.sequence;
                assert(s <= 4095 ==> ((s + 1) as u64) & 4095 <= 4095 && (s < 4095 ==> ((s + 1) as u64) & 4095
                    == s + 1) && (s == 4095 ==> ((s + 1) as u64) & 4095 == 0)) by (bit_vector);
            }
            self.sequence = next;
        } else {
            self.sequence = 0;
        }
        self.last_timestamp = now;
        ((now - EPOCH) << 22u64) | (self.datacenter_id << 17u64) | (self.machine_id << 12u64) | self.sequence
    }

    /// Returns the next identifier, for the current millisecond of the clock: reads the
    /// clock until it shows at least the last millisecond used (and `EPOCH`), or a later
    /// one when the sequence numbers of the last millisecond have run out, and hands
    /// that reading to [`SnowflakeGenerator::next_id_at`].
    pub fn next_id(&mut self) -> (id: u64)
        requires
            old(self)@.wf(),
        ensures
            final(self)@.wf(),
            old(self)@.steps_to(final(self)@),
            final(self)@ == old(self)@.step(final(self)@.last_timestamp),
            final(self)@.last_timestamp >= old(self)@.floor(),
            id == final(self)@.last_id(),
    {
        let last = if self.sequence == MAX_SEQUENCE && self.last_timestamp < u64::MAX {
            self.last_timestamp + 1
        } else {
            self.last_timestamp
        };
        let floor = if last > EPOCH {
            last
        } else {
            EPOCH
        };
        let now = clock_at_least(floor);
        self.next_id_at(now)
    }
}

/// Successive identifiers of one generator increase, as long as the clock stays below
/// `TIMESTAMP_LIMIT` (after which the 42 timestamp bits wrap).
pub proof fn law_next_ids_increase(g0: GeneratorView, g1: GeneratorView)
    requires
        g0.wf(),
        g1.wf(),
        g0.last_timestamp >= EPOCH,
        g0.last_timestamp < u64::MAX,
        g0.steps_to(g1),
        g1.last_timestamp < TIMESTAMP_LIMIT,
    ensures
        g0.last_id() < g1.last_id(),
{
    lemma_id_value(g0.last_timestamp, g0.datacenter_id, g0.machine_id, g0.sequence);
    lemma_id_value(g1.last_timestamp, g1.datacenter_id, g1.machine_id, g1.sequence);
    if g1.last_timestamp > g0.last_timestamp {
        assert((g1.last_timestamp - EPOCH) * 0x40_0000 >= (g0.last_timestamp - EPOCH) * 0x40_0000 + 0x40_0000)
            by (nonlinear_arith)
            requires
                g1.last_timestamp > g0.last_timestamp,
        ;
    }
}

/// Every identifier of a generator carries its machine and datacenter IDs.
pub proof fn law_id_encodes_machine_and_datacenter(g: GeneratorView)
    requires
        g.wf(),
        g.last_timestamp >= EPOCH,
    ensures
        (g.last_id() >> MACHINE_SHIFT) & MAX_MACHINE_ID == g.machine_id,
        (g.last_id() >> DATACENTER_SHIFT) & MAX_DATACENTER_ID == g.datacenter_id,
{
    lemma_id_fields(g.last_timestamp, g.datacenter_id, g.machine_id, g.sequence);
}

/// A generator for a machine or datacenter other than 0 never hands out identifier 0.
pub proof fn law_ids_nonzero(g: GeneratorView)
    requires
        g.wf(),
        g.last_timestamp >= EPOCH,
        g.machine_id != 0 || g.datacenter_id != 0,
    ensures
        g.last_id() != 0,
{
    lemma_id_fields(g.last_timestamp, g.datacenter_id, g.machine_id, g.sequence);
    let id = g.last_id();
    if id == 0 {
        assert((0u64 >> 12u64) & 31 == 0 && (0u64 >> 17u64) & 31 == 0) by (bit_vector);
    }
}

} // verus!
