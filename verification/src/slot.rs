//! The slot data model: what a planned activity slot asks for, and the
//! concrete placement computed for it.
//!
//! Times are points in seconds from the start of the day and durations are
//! in seconds, so every quantity is a plain integer and every computation
//! is exact.
use vstd::prelude::*;

verus! {

/// A point in time, counted in seconds from the start of the day.
pub type TimePoint = u64;

/// A span of time in seconds.
pub type Seconds = u64;

/// Identity of a shared activity; a slot may point to one.
pub type ActId = u128;

/// Builds the time point for a wall-clock hour and minute.
pub fn t(h: u32, m: u32) -> (r: TimePoint)
    requires
        h < 24,
        m < 60,
    ensures
        r == h * 3600 + m * 60,
{
    (h as u64) * 3600 + (m as u64) * 60
}

/// Builds a duration from a number of minutes.
pub fn dur(mins: u64) -> (r: Seconds)
    requires
        mins * 60 <= u64::MAX,
    ensures
        r == mins * 60,
{
    mins * 60
}

/// The configuration for when a slot should be: an optional fixed start,
/// a requested length, and whether that length is rigid or elastic.
/// A fixed start does not by itself decide where the slot ends up; that
/// depends on the constraints of the whole day.
#[derive(Clone, Copy, Debug, PartialEq, Eq, Structural)]
pub struct TimeSlotConfig {
    pub start: Option<TimePoint>,
    pub length: Seconds,
    pub fixed_length: bool,
}

impl Default for TimeSlotConfig {
    /// One elastic hour with no fixed start.
    fn default() -> (r: Self)
        ensures
            r == (TimeSlotConfig { start: None, length: 3600, fixed_length: false }),
    {
        TimeSlotConfig { start: None, length: 3600, fixed_length: false }
    }
}

/// One requested activity slot: a display name, an optional reference to a
/// shared activity, and its timing configuration.
#[derive(Debug)]
pub struct SlotDto {
    pub name: String,
    pub act: Option<ActId>,
    pub config: TimeSlotConfig,
}

impl Clone for SlotDto {
    fn clone(&self) -> (r: Self)
        ensures
            r == *self,
    {
        SlotDto { name: self.name.clone(), act: self.act, config: self.config }
    }
}

/// What equality of two slot requests means: same name text, same
/// activity reference, same configuration.
pub open spec fn slot_dto_eq(a: &SlotDto, b: &SlotDto) -> bool {
    a.name@ == b.name@ && a.act == b.act && a.config == b.config
}

impl PartialEq for SlotDto {
    fn eq(&self, other: &Self) -> (r: bool) {
        self.name == other.name && self.act == other.act && self.config == other.config
    }
}

impl Eq for SlotDto {}

impl vstd::std_specs::cmp::PartialEqSpecImpl for SlotDto {
    open spec fn obeys_eq_spec() -> bool {
        true
    }

    open spec fn eq_spec(&self, other: &Self) -> bool {
        slot_dto_eq(self, other)
    }
}

impl Default for SlotDto {
    /// An unnamed slot with the default configuration.
    fn default() -> (r: Self)
        ensures
            r.name@ == "..."@,
            r.act.is_none(),
            r.config == (TimeSlotConfig { start: None, length: 3600, fixed_length: false }),
    {
        SlotDto {
            name: String::from_str("..."),
            act: None,
            config: Default::default(),
        }
    }
}

/// Why a block could not satisfy all of its fixed-length demands without
/// compressing or expanding them.
#[derive(Clone, Copy, Debug, PartialEq, Eq, Structural)]
pub enum ScheduleError {
    /// The block holds fixed-length slots only, so they are stretched or
    /// shrunk to fill the block exactly.
    NoElasticSlots,
    /// The fixed-length demand alone exceeds the block's span, so every
    /// slot is compressed.
    InsufficientFixedTime,
}

/// The calculated start and length of a slot after fitting it, together
/// with everything that was requested for it.
#[derive(Debug)]
pub struct SlotResult {
    pub start: TimePoint,
    pub length: Seconds,
    pub warning: Result<(), ScheduleError>,
    pub configured: SlotDto,
}

impl Clone for SlotResult {
    fn clone(&self) -> (r: Self)
        ensures
            r == *self,
    {
        SlotResult {
            start: self.start,
            length: self.length,
            warning: self.warning,
            configured: self.configured.clone(),
        }
    }
}

impl PartialEq for SlotResult {
    fn eq(&self, other: &Self) -> (r: bool) {
        let warning_eq: bool = match self.warning {
            Ok(()) => match other.warning {
                Ok(()) => true,
                Err(_) => false,
            },
            Err(a) => match other.warning {
                Ok(()) => false,
                Err(b) => a == b,
            },
        };
        proof {
            // spell out that each warning is its constructor applied to
            // its payload, so the equality below decomposes
            if self.warning is Ok {
                assert(self.warning == Ok::<(), ScheduleError>(self.warning->Ok_0));
            } else {
                assert(self.warning == Err::<(), ScheduleError>(self.warning->Err_0));
            }
            if other.warning is Ok {
                assert(other.warning == Ok::<(), ScheduleError>(other.warning->Ok_0));
            } else {
                assert(other.warning == Err::<(), ScheduleError>(other.warning->Err_0));
            }
        }
        self.start == other.start && self.length == other.length && warning_eq
            && self.configured == other.configured
    }
}

impl Eq for SlotResult {}

impl vstd::std_specs::cmp::PartialEqSpecImpl for SlotResult {
    open spec fn obeys_eq_spec() -> bool {
        true
    }

    open spec fn eq_spec(&self, other: &Self) -> bool {
        self.start == other.start && self.length == other.length
            && self.warning == other.warning
            && slot_dto_eq(&self.configured, &other.configured)
    }
}

} // verus!
