//! Time-of-day actuator control: daily time windows, schedules of them, and
//! the decision step of the loop that drives an output pin from a schedule.

pub mod configuration;
pub mod control;
pub mod schedule;
pub mod time;
