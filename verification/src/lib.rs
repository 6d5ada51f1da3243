//! A day-planning library: it turns an ordered list of activity slot
//! requests, each with a requested duration, an optional fixed start time
//! and a rigid-or-elastic flag, into a concrete non-overlapping timeline
//! that covers a fixed daily window.
pub mod cache;
pub mod clock;
pub mod cursor;
pub mod engine;
pub mod partition;
pub mod schedule;
pub mod slot;
pub mod slot_list;

pub use cache::SingletonCache;
pub use cursor::Action;
pub use cursor::Cursor;
pub use cursor::Field;
pub use cursor::Key;
pub use engine::calculate_slots;
pub use engine::schedule_inputs_ok;
pub use slot::ActId;
pub use slot::ScheduleError;
pub use slot::Seconds;
pub use slot::SlotDto;
pub use slot::SlotResult;
pub use slot::TimePoint;
pub use slot::TimeSlotConfig;
pub use slot::dur;
pub use slot::t;
pub use slot_list::SlotDtos;
pub use slot_list::fixed_starts_ordered;
