//! The decisions of the control loop: which output level to set, and when.
//!
//! The loop itself (reading the clock, receiving new configurations, writing
//! the pin, sleeping) runs outside; each of its steps is one call here.
use crate::configuration::Configuration;
use crate::time::Moment;
use vstd::prelude::*;

verus! {

/// A level to write to the output.
#[derive(Debug, Clone, Copy, PartialEq, Eq, Structural)]
pub enum Level {
    High,
    Low,
}

/// Whether `config` asks for the output to be on at the moment `v` milliseconds after midnight.
pub open spec fn wants_open(config: Configuration, v: int) -> bool {
    config.enabled && config.schedule.holds(v)
}

/// The level to write when the output goes from `was_open` to `open`; none where it stays.
pub open spec fn edge(was_open: bool, open: bool) -> Option<Level> {
    if open && !was_open {
        Some(Level::High)
    } else if !open && was_open {
        Some(Level::Low)
    } else {
        None
    }
}

/// The configuration in force and whether the output is on.
pub struct Controller {
    config: Configuration,
    open: bool,
}

impl Controller {
    /// The configuration in force.
    pub closed spec fn held(self) -> Configuration {
        self.config
    }

    /// Whether the output is on.
    pub closed spec fn is_on(self) -> bool {
        self.open
    }

    /// Starts with `config` in force and the output off.
    pub fn new(config: Configuration) -> (r: Controller)
        ensures
            r.held() == config,
            !r.is_on(),
    {
        Controller { config, open: false }
    }

    /// Whether the output is on.
    pub fn is_open(&self) -> (r: bool)
        ensures
            r == self.is_on(),
    {
        self.open
    }

    /// The configuration in force.
    pub fn configuration(&self) -> (r: &Configuration)
        ensures
            *r == self.held(),
    {
        &self.config
    }

    /// Puts `config` in force. An output that was on is switched off at once,
    /// whatever the new schedule says: the returned level is to be written.
    pub fn replace(&mut self, config: Configuration) -> (r: Option<Level>)
        ensures
            final(self).held() == config,
            !final(self).is_on(),
            r == edge(old(self).is_on(), false),
    {
        let was_open = self.open;
        self.config = config;
        self.open = false;
        if was_open {
            Some(Level::Low)
        } else {
            None
        }
    }

    /// One evaluation at the time of day `now`: the output is to be on exactly
    /// when the configuration is enabled and a window holds `now`. A level is
    /// returned, to be written, only where that changes the output.
    pub fn tick(&mut self, now: Moment) -> (r: Option<Level>)
        ensures
            final(self).held() == old(self).held(),
            final(self).is_on() == wants_open(old(self).held(), now@),
            r == edge(old(self).is_on(), final(self).is_on()),
            r is Some <==> final(self).is_on() != old(self).is_on(),
    {
        let want = self.config.enabled && self.config.schedule.in_interval(now);
        let was_open = self.open;
        self.open = want;
        if want && !was_open {
            Some(Level::High)
        } else if !want && was_open {
            Some(Level::Low)
        } else {
            None
        }
    }
}

/// Milliseconds to sleep from `elapsed` (a clock reading in milliseconds) to
/// the next multiple of `tickrate`; a full tick where `elapsed` lies on one.
pub fn until_next_tick(elapsed: u64, tickrate: u64) -> (r: u64)
    requires
        tickrate > 0,
    ensures
        r == tickrate - elapsed % tickrate,
        0 < r <= tickrate,
        (elapsed + r) % (tickrate as int) == 0,
{
    let r = tickrate - elapsed % tickrate;
    proof {
        let e = elapsed as int;
        let t = tickrate as int;
        assert(e == t * (e / t) + e % t) by (nonlinear_arith)
            requires t > 0;
        assert(t * (e / t) + t == t * (e / t + 1)) by (nonlinear_arith);
        vstd::arithmetic::div_mod::lemma_mod_multiples_basic(e / t + 1, t);
    }
    r
}

} // verus!
