//! The unit of reconfiguration: an enabled flag and a schedule.
use crate::schedule::Schedule;
use crate::time::{total_ms, Interval, Moment};
use vstd::prelude::*;

verus! {

/// Whether window `w` runs from `from` to `to`, both given as hours, minutes and seconds.
pub open spec fn window_is(w: Interval, from: (int, int, int), to: (int, int, int)) -> bool {
    &&& w.from@ == total_ms(from.0, from.1, from.2, 0)
    &&& w.to@ == total_ms(to.0, to.1, to.2, 0)
}

/// Whether the output is to follow its schedule, and the schedule itself.
#[derive(Debug, Clone)]
pub struct Configuration {
    pub enabled: bool,
    pub schedule: Schedule,
}

impl Configuration {
    /// The configuration used where none was stored: disabled, output 17, and
    /// two short windows just after four in the afternoon.
    pub fn default() -> (r: Configuration)
        ensures
            !r.enabled,
            r.schedule.id == 17,
            r.schedule.events@.len() == 2,
            window_is(r.schedule.events@[0], (16, 0, 0), (16, 0, 5)),
            window_is(r.schedule.events@[1], (16, 1, 0), (16, 1, 10)),
    {
        let mut events: Vec<Interval> = Vec::new();
        events.push(Interval::new(Moment::new(16, 0, 0), Moment::new(16, 0, 5)));
        events.push(Interval::new(Moment::new(16, 1, 0), Moment::new(16, 1, 10)));
        Configuration { enabled: false, schedule: Schedule { id: 17, events } }
    }
}

} // verus!
