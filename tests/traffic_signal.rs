use std::cell::RefCell;
use std::rc::Rc;

use embedded_hal::blocking::delay::DelayMs;
use embedded_hal::digital::v2::OutputPin;
use traffic_light::led::{Led, LedFault};
use traffic_light::traffic_signal::{Color, Light, SignalFault, TrafficSignal};

#[derive(Debug, Clone, Copy, PartialEq, Eq)]
enum Event {
    High(Color),
    Low(Color),
    Wait(u32),
}

type Log = Rc<RefCell<Vec<Event>>>;

struct MockPin {
    color: Color,
    log: Log,
    fail_high: bool,
    fail_low: bool,
}

impl OutputPin for MockPin {
    type Error = ();

    fn set_low(&mut self) -> Result<(), ()> {
        if self.fail_low {
            return Err(());
        }
        self.log.borrow_mut().push(Event::Low(self.color));
        Ok(())
    }

    fn set_high(&mut self) -> Result<(), ()> {
        if self.fail_high {
            return Err(());
        }
        self.log.borrow_mut().push(Event::High(self.color));
        Ok(())
    }
}

struct MockDelay {
    log: Log,
}

impl DelayMs<u32> for MockDelay {
    fn delay_ms(&mut self, ms: u32) {
        self.log.borrow_mut().push(Event::Wait(ms));
    }
}

fn pin(color: Color, log: &Log) -> MockPin {
    MockPin { color, log: log.clone(), fail_high: false, fail_low: false }
}

fn signal(log: &Log) -> TrafficSignal<MockPin, MockPin, MockPin> {
    TrafficSignal::new(
        Led::new(pin(Color::Green, log)),
        Led::new(pin(Color::Yellow, log)),
        Led::new(pin(Color::Red, log)),
    )
}

fn light(color: Color, sec: u32) -> Light {
    Light { color, sec }
}

fn off_all() -> Vec<Event> {
    vec![Event::Low(Color::Green), Event::Low(Color::Yellow), Event::Low(Color::Red)]
}

/// Replays the log and returns, at each wait, which colors were lit.
fn lit_at_waits(events: &[Event]) -> Vec<Vec<Color>> {
    let mut lit = [false; 3];
    let index = |c: Color| match c {
        Color::Green => 0,
        Color::Yellow => 1,
        Color::Red => 2,
    };
    let colors = [Color::Green, Color::Yellow, Color::Red];
    let mut out = Vec::new();
    for e in events {
        match *e {
            Event::High(c) => lit[index(c)] = true,
            Event::Low(c) => lit[index(c)] = false,
            Event::Wait(_) => out.push(colors.iter().copied().filter(|c| lit[index(*c)]).collect()),
        }
    }
    out
}

#[test]
fn sequencing_green_yellow_red() {
    let log: Log = Rc::new(RefCell::new(Vec::new()));
    let mut s = signal(&log);
    let mut delay = MockDelay { log: log.clone() };
    let pattern = [light(Color::Green, 5), light(Color::Yellow, 2), light(Color::Red, 3)];
    assert_eq!(s.run_cycle(&pattern, &mut delay), Ok(()));
    let mut expected = Vec::new();
    for (c, ms) in [(Color::Green, 5000), (Color::Yellow, 2000), (Color::Red, 3000)] {
        expected.extend(off_all());
        expected.push(Event::High(c));
        expected.push(Event::Wait(ms));
    }
    assert_eq!(*log.borrow(), expected);
}

#[test]
fn exactly_one_lit_during_each_hold() {
    let log: Log = Rc::new(RefCell::new(Vec::new()));
    let mut s = signal(&log);
    let mut delay = MockDelay { log: log.clone() };
    let pattern = [
        light(Color::Red, 0),
        light(Color::Red, 1),
        light(Color::Green, 0),
        light(Color::Yellow, 4),
        light(Color::Green, 7),
    ];
    assert_eq!(s.run_cycle(&pattern, &mut delay), Ok(()));
    let lit = lit_at_waits(&log.borrow());
    assert_eq!(lit.len(), pattern.len());
    for (l, on) in pattern.iter().zip(lit.iter()) {
        assert_eq!(*on, vec![l.color]);
    }
}

#[test]
fn each_color_lights_its_own_led() {
    for c in [Color::Green, Color::Yellow, Color::Red] {
        let log: Log = Rc::new(RefCell::new(Vec::new()));
        let mut s = signal(&log);
        let mut delay = MockDelay { log: log.clone() };
        assert_eq!(s.run_cycle(&[light(c, 1)], &mut delay), Ok(()));
        let highs: Vec<Event> =
            log.borrow().iter().copied().filter(|e| matches!(e, Event::High(_))).collect();
        assert_eq!(highs, vec![Event::High(c)]);
    }
}

#[test]
fn turn_off_on_dark_led_is_harmless() {
    let log: Log = Rc::new(RefCell::new(Vec::new()));
    let mut led = Led::new(pin(Color::Yellow, &log));
    assert_eq!(led.turn_off(), Ok(()));
    assert_eq!(led.turn_off(), Ok(()));
    assert_eq!(*log.borrow(), vec![Event::Low(Color::Yellow), Event::Low(Color::Yellow)]);
}

#[test]
fn led_on_then_off_drives_high_then_low() {
    let log: Log = Rc::new(RefCell::new(Vec::new()));
    let mut led = Led::new(pin(Color::Red, &log));
    assert_eq!(led.turn_on(), Ok(()));
    assert_eq!(led.turn_off(), Ok(()));
    assert_eq!(*log.borrow(), vec![Event::High(Color::Red), Event::Low(Color::Red)]);
}

#[test]
fn empty_pattern_does_nothing() {
    let log: Log = Rc::new(RefCell::new(Vec::new()));
    let mut s = signal(&log);
    let mut delay = MockDelay { log: log.clone() };
    assert_eq!(s.run_cycle(&[], &mut delay), Ok(()));
    assert!(log.borrow().is_empty());
}

#[test]
fn two_cycles_issue_the_same_sequence() {
    let log: Log = Rc::new(RefCell::new(Vec::new()));
    let mut s = signal(&log);
    let mut delay = MockDelay { log: log.clone() };
    let pattern = [light(Color::Yellow, 3), light(Color::Red, 1), light(Color::Green, 2)];
    assert_eq!(s.run_cycle(&pattern, &mut delay), Ok(()));
    let first = log.borrow().clone();
    assert_eq!(s.run_cycle(&pattern, &mut delay), Ok(()));
    let all = log.borrow().clone();
    assert_eq!(all.len(), 2 * first.len());
    assert_eq!(all[first.len()..].to_vec(), first);
    assert_eq!(lit_at_waits(&all[first.len()..]), lit_at_waits(&first));
}

#[test]
fn fault_on_drive_high_is_returned() {
    let log: Log = Rc::new(RefCell::new(Vec::new()));
    let mut green = pin(Color::Green, &log);
    green.fail_high = true;
    let mut s = TrafficSignal::new(
        Led::new(green),
        Led::new(pin(Color::Yellow, &log)),
        Led::new(pin(Color::Red, &log)),
    );
    let mut delay = MockDelay { log: log.clone() };
    let pattern = [light(Color::Red, 1), light(Color::Green, 5), light(Color::Yellow, 2)];
    assert_eq!(s.run_cycle(&pattern, &mut delay), Err(SignalFault { color: Color::Green }));
    let mut expected = off_all();
    expected.push(Event::High(Color::Red));
    expected.push(Event::Wait(1000));
    expected.extend(off_all());
    assert_eq!(*log.borrow(), expected);
}

#[test]
fn led_reports_fault_on_drive_high() {
    let log: Log = Rc::new(RefCell::new(Vec::new()));
    let mut p = pin(Color::Green, &log);
    p.fail_high = true;
    let mut led = Led::new(p);
    assert_eq!(led.turn_on(), Err(LedFault));
    assert_eq!(led.turn_off(), Ok(()));
}

#[test]
fn fault_on_drive_low_stops_before_lighting() {
    let log: Log = Rc::new(RefCell::new(Vec::new()));
    let mut yellow = pin(Color::Yellow, &log);
    yellow.fail_low = true;
    let mut s = TrafficSignal::new(
        Led::new(pin(Color::Green, &log)),
        Led::new(yellow),
        Led::new(pin(Color::Red, &log)),
    );
    let mut delay = MockDelay { log: log.clone() };
    assert_eq!(
        s.run_cycle(&[light(Color::Green, 5)], &mut delay),
        Err(SignalFault { color: Color::Yellow })
    );
    assert_eq!(*log.borrow(), vec![Event::Low(Color::Green)]);
}

#[test]
fn zero_duration_passes_through() {
    let log: Log = Rc::new(RefCell::new(Vec::new()));
    let mut s = signal(&log);
    let mut delay = MockDelay { log: log.clone() };
    assert_eq!(s.run_cycle(&[light(Color::Yellow, 0)], &mut delay), Ok(()));
    let mut expected = off_all();
    expected.push(Event::High(Color::Yellow));
    expected.push(Event::Wait(0));
    assert_eq!(*log.borrow(), expected);
}

#[test]
fn longest_hold_that_fits() {
    let log: Log = Rc::new(RefCell::new(Vec::new()));
    let mut s = signal(&log);
    let mut delay = MockDelay { log: log.clone() };
    assert_eq!(s.run_cycle(&[light(Color::Red, 4_294_967)], &mut delay), Ok(()));
    assert_eq!(log.borrow().last().copied(), Some(Event::Wait(4_294_967_000)));
}
