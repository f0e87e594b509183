use sprinkler::configuration::Configuration;
use sprinkler::control::{until_next_tick, Controller, Level};
use sprinkler::schedule::Schedule;
use sprinkler::time::{Interval, Moment};

fn one_window(enabled: bool) -> Configuration {
    Configuration {
        enabled,
        schedule: Schedule {
            id: 17,
            events: vec![Interval::new(Moment::new(16, 0, 0), Moment::new(16, 0, 5))],
        },
    }
}

#[test]
fn output_follows_window_edges_only() {
    let mut c = Controller::new(one_window(true));
    let mut writes = Vec::new();
    for s in 0..10u64 {
        if let Some(level) = c.tick(Moment::new(15, 59, 50 + s)) {
            writes.push((s, level));
        }
    }
    assert!(writes.is_empty());
    assert!(!c.is_open());
    assert_eq!(c.tick(Moment::new(16, 0, 2)), Some(Level::High));
    assert!(c.is_open());
    assert_eq!(c.tick(Moment::new(16, 0, 3)), None);
    assert_eq!(c.tick(Moment::new(16, 0, 4)), None);
    assert_eq!(c.tick(Moment::new(16, 0, 5)), Some(Level::Low));
    assert_eq!(c.tick(Moment::new(16, 0, 6)), None);
    assert!(!c.is_open());
}

#[test]
fn window_start_opens_and_end_closes_once() {
    let mut c = Controller::new(one_window(true));
    let mut writes = Vec::new();
    for s in 2..=6u64 {
        if let Some(level) = c.tick(Moment::new(16, 0, s)) {
            writes.push((s, level));
        }
    }
    assert_eq!(writes, vec![(2, Level::High), (5, Level::Low)]);
}

#[test]
fn replacement_while_open_forces_close() {
    let mut c = Controller::new(one_window(true));
    assert_eq!(c.tick(Moment::new(16, 0, 2)), Some(Level::High));
    assert_eq!(c.replace(one_window(true)), Some(Level::Low));
    assert!(!c.is_open());
    assert_eq!(c.tick(Moment::new(16, 0, 3)), Some(Level::High));
}

#[test]
fn replacement_while_closed_writes_nothing() {
    let mut c = Controller::new(one_window(false));
    assert_eq!(c.replace(one_window(true)), None);
    assert!(c.configuration().enabled);
}

#[test]
fn disabled_keeps_output_off() {
    let mut c = Controller::new(one_window(false));
    assert_eq!(c.tick(Moment::new(16, 0, 2)), None);
    assert!(!c.is_open());
}

#[test]
fn tick_alignment() {
    assert_eq!(until_next_tick(1234, 1000), 766);
    assert_eq!(until_next_tick(2000, 1000), 1000);
    assert_eq!(until_next_tick(999, 1000), 1);
    assert_eq!(until_next_tick(7, 5), 3);
}
