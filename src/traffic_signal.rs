//! The signal controller: three LEDs, one per color, stepped through a pattern.
use vstd::prelude::*;
use embedded_hal::blocking::delay::DelayMs;
use embedded_hal::digital::v2::OutputPin;
use crate::led::{Led, LineWrite, accepted_since, lemma_accepted_since_push, lemma_accepted_since_refl};
use crate::schedule::{
    Command, Lamps, run, holds_fit, hold_ms, all_off, entry_commands, cycle_commands,
    completed, stopped_at, lemma_cycle_prefix, lemma_cycle_len, lemma_completed_then,
    lemma_stopped_within, lemma_one_lit_per_entry,
};

verus! {

/// A signal color.
#[derive(Debug, Clone, Copy, PartialEq, Eq, Structural)]
pub enum Color {
    Green,
    Yellow,
    Red,
}

/// One pattern entry: the color to show and how long to hold it, in seconds.
#[derive(Debug, Clone, Copy, PartialEq, Eq, Structural)]
pub struct Light {
    pub color: Color,
    pub sec: u32,
}

/// The output line of the LED of `color` reported that it could not be driven.
#[derive(Debug, Clone, Copy, PartialEq, Eq, Structural)]
pub struct SignalFault {
    pub color: Color,
}

/// A traffic signal: one LED per color, each on a line of its own type.
pub struct TrafficSignal<GreenLedPin, YellowLedPin, RedLedPin> {
    green_led: Led<GreenLedPin>,
    yellow_led: Led<YellowLedPin>,
    red_led: Led<RedLedPin>,
    /// Every command issued so far, in order.
    issued: Ghost<Seq<Command>>,
}

/// The order in which `turn_off_all_leds` visits the LEDs.
pub open spec fn rank(c: Color) -> int {
    match c {
        Color::Green => 0,
        Color::Yellow => 1,
        Color::Red => 2,
    }
}

/// A command that drives a line low, accepted.
pub open spec fn low_ok() -> LineWrite {
    LineWrite { high: false, accepted: true }
}

impl<GreenLedPin, YellowLedPin, RedLedPin> TrafficSignal<GreenLedPin, YellowLedPin, RedLedPin> {
    /// Which LEDs are lit, by the last command that took effect on each.
    pub closed spec fn lamps(&self) -> Lamps {
        Lamps {
            green: self.green_led.is_on(),
            yellow: self.yellow_led.is_on(),
            red: self.red_led.is_on(),
        }
    }

    /// The commands issued so far to the line of the LED of `c`.
    pub closed spec fn writes(&self, c: Color) -> Seq<LineWrite> {
        match c {
            Color::Green => self.green_led.writes(),
            Color::Yellow => self.yellow_led.writes(),
            Color::Red => self.red_led.writes(),
        }
    }

    /// The commands issued so far, in order; a command whose line reported a
    /// fault is the last one.
    pub closed spec fn issued(&self) -> Seq<Command> {
        self.issued@
    }

    /// Takes ownership of the three LEDs, each bound to its color.
    pub fn new(
        green_led: Led<GreenLedPin>,
        yellow_led: Led<YellowLedPin>,
        red_led: Led<RedLedPin>,
    ) -> (r: Self)
        ensures
            r.lamps() == (Lamps {
                green: green_led.is_on(),
                yellow: yellow_led.is_on(),
                red: red_led.is_on(),
            }),
            r.issued() == Seq::<Command>::empty(),
            forall|c: Color| #[trigger] r.writes(c) == match c {
                Color::Green => green_led.writes(),
                Color::Yellow => yellow_led.writes(),
                Color::Red => red_led.writes(),
            },
    {
        TrafficSignal { green_led, yellow_led, red_led, issued: Ghost(Seq::empty()) }
    }
}

impl<GreenLedPin, YellowLedPin, RedLedPin> TrafficSignal<GreenLedPin, YellowLedPin, RedLedPin>
    where GreenLedPin: OutputPin, YellowLedPin: OutputPin, RedLedPin: OutputPin,
{
    /// Runs one cycle of `light_pattern`: for each entry in order, turns all
    /// three LEDs off, turns on the entry's LED, and blocks for the entry's
    /// duration in milliseconds. The first fault of a line stops the cycle and
    /// is returned.
    pub fn run_cycle<D: DelayMs<u32>>(
        &mut self,
        light_pattern: &[Light],
        delay: &mut D,
    ) -> (r: Result<(), SignalFault>)
        requires
            holds_fit(light_pattern@),
        ensures
            r is Ok ==> completed(
                old(self).lamps(),
                old(self).issued(),
                cycle_commands(light_pattern@),
                final(self).lamps(),
                final(self).issued(),
            ),
            r matches Err(f) ==> stopped_at(
                old(self).lamps(),
                old(self).issued(),
                cycle_commands(light_pattern@),
                final(self).lamps(),
                final(self).issued(),
                f.color,
            ),
            light_pattern@.len() == 0 ==> r is Ok && final(self).lamps() == old(self).lamps()
                && final(self).issued() == old(self).issued(),
            r is Ok ==> forall|c: Color|
                accepted_since(old(self).writes(c), #[trigger] final(self).writes(c)),
            r matches Err(f) ==> forall|c: Color|
                c != f.color ==> accepted_since(old(self).writes(c), #[trigger] final(self).writes(c)),
            r matches Err(f) ==> final(self).writes(f.color).len() > old(self).writes(f.color).len()
                && accepted_since(old(self).writes(f.color), final(self).writes(f.color).drop_last())
                && !final(self).writes(f.color).last().accepted,
            r is Ok && light_pattern@.len() > 0 ==> final(self).lamps().only(
                light_pattern@.last().color,
            ),
    {
        let ghost s0 = self.lamps();
        let ghost h0 = self.issued();
        let ghost p = light_pattern@;
        let ghost whole = cycle_commands(p);
        proof {
            assert(p.take(0) =~= Seq::<Light>::empty());
            assert(h0 + Seq::<Command>::empty() =~= h0);
            assert forall|c: Color| accepted_since(old(self).writes(c), #[trigger] self.writes(c)) by {
                lemma_accepted_since_refl(self.writes(c));
            }
        }
        let n: usize = light_pattern.len();
        let mut i: usize = 0;
        while i < n
            invariant
                n == p.len(),
                p == light_pattern@,
                s0 == old(self).lamps(),
                h0 == old(self).issued(),
                whole == cycle_commands(p),
                holds_fit(p),
                0 <= i <= n,
                completed(s0, h0, cycle_commands(p.take(i as int)), self.lamps(), self.issued()),
                forall|c: Color| accepted_since(old(self).writes(c), #[trigger] self.writes(c)),
            decreases n - i,
        {
            let l = light_pattern[i];
            let ghost done = cycle_commands(p.take(i as int));
            let ghost e = entry_commands(l);
            proof {
                lemma_cycle_prefix(p, i as int, 3);
                lemma_cycle_prefix(p, i as int, 4);
                lemma_cycle_len(p.take(i as int));
                lemma_cycle_len(p);
                assert(l == p[i as int]);
                assert(e.take(3) =~= all_off());
                assert(done + e.take(4) =~= (done + all_off()) + seq![Command::On(l.color)]);
            }
            let ghost s1 = self.lamps();
            let ghost h1 = self.issued();
            let ghost before1 = *self;
            match self.turn_off_all_leds() {
                Ok(()) => {
                    proof {
                        assert forall|c: Color| accepted_since(old(self).writes(c), #[trigger] self.writes(c)) by {
                            lemma_accepted_since_push(old(self).writes(c), before1.writes(c), low_ok());
                        }
                    }
                },
                Err(f) => {
                    proof {
                        assert forall|c: Color| c != f.color implies accepted_since(old(self).writes(c), #[trigger] self.writes(c)) by {
                            if rank(c) < rank(f.color) {
                                lemma_accepted_since_push(old(self).writes(c), before1.writes(c), low_ok());
                            }
                        }
                        assert(self.writes(f.color).drop_last() =~= before1.writes(f.color));
                        lemma_stopped_within(s0, h0, done, all_off(), whole, self.lamps(), self.issued(), f.color);
                    }
                    return Err(f);
                },
            }
            proof {
                lemma_completed_then(s0, h0, done, s1, h1, all_off(), self.lamps(), self.issued());
            }
            let ghost s2 = self.lamps();
            let ghost h2 = self.issued();
            let ghost before2 = *self;
            match self.turn_on(l.color) {
                Ok(()) => {
                    proof {
                        lemma_accepted_since_push(
                            old(self).writes(l.color),
                            before2.writes(l.color),
                            LineWrite { high: true, accepted: true },
                        );
                    }
                },
                Err(f) => {
                    proof {
                        assert(self.writes(f.color).drop_last() =~= before2.writes(f.color));
                        lemma_stopped_within(
                            s0,
                            h0,
                            done + all_off(),
                            seq![Command::On(l.color)],
                            whole,
                            self.lamps(),
                            self.issued(),
                            f.color,
                        );
                    }
                    return Err(f);
                },
            }
            proof {
                lemma_completed_then(
                    s0,
                    h0,
                    done + all_off(),
                    s2,
                    h2,
                    seq![Command::On(l.color)],
                    self.lamps(),
                    self.issued(),
                );
                assert(hold_ms(p[i as int]) <= u32::MAX);
            }
            let ms: u32 = l.sec * 1000;
            let ghost s3 = self.lamps();
            let ghost h3 = self.issued();
            let ghost before3 = *self;
            self.hold_for(delay, ms);
            proof {
                assert(forall|c: Color| #[trigger] self.writes(c) == before3.writes(c));
                let hold = seq![Command::Hold(ms)];
                assert(hold.drop_last() =~= Seq::<Command>::empty());
                reveal_with_fuel(run, 2);
                assert(self.issued() =~= h3 + hold);
                lemma_completed_then(
                    s0,
                    h0,
                    (done + all_off()) + seq![Command::On(l.color)],
                    s3,
                    h3,
                    hold,
                    self.lamps(),
                    self.issued(),
                );
                assert(((done + all_off()) + seq![Command::On(l.color)]) + hold =~= done + e);
            }
            i = i + 1;
        }
        proof {
            assert(p.take(n as int) =~= p);
            if n > 0 {
                lemma_cycle_len(p);
                lemma_one_lit_per_entry(s0, p, n - 1);
                assert(whole.take(5 * (n - 1) + 5) =~= whole);
            }
        }
        Ok(())
    }

    /// Relies on embedded_hal's `DelayMs::delay_ms`: one call blocks for `ms`
    /// milliseconds and touches none of the LEDs.
    #[verifier::external_body]
    fn hold_for<D: DelayMs<u32>>(&mut self, delay: &mut D, ms: u32)
        ensures
            final(self).issued() == old(self).issued().push(Command::Hold(ms)),
            final(self).green_led == old(self).green_led,
            final(self).yellow_led == old(self).yellow_led,
            final(self).red_led == old(self).red_led,
    {
        delay.delay_ms(ms)
    }

    /// Drives all three lines low, green first, stopping at the first fault.
    fn turn_off_all_leds(&mut self) -> (r: Result<(), SignalFault>)
        ensures
            r is Ok ==> forall|c: Color|
                #[trigger] final(self).writes(c) == old(self).writes(c).push(low_ok()),
            r matches Err(f) ==> final(self).writes(f.color) == old(self).writes(f.color).push(
                LineWrite { high: false, accepted: false },
            ),
            r matches Err(f) ==> forall|c: Color|
                rank(c) < rank(f.color) ==> #[trigger] final(self).writes(c) == old(self).writes(c).push(
                    low_ok(),
                ),
            r matches Err(f) ==> forall|c: Color|
                rank(c) > rank(f.color) ==> #[trigger] final(self).writes(c) == old(self).writes(c),
            r is Ok ==> completed(
                old(self).lamps(),
                old(self).issued(),
                all_off(),
                final(self).lamps(),
                final(self).issued(),
            ),
            r matches Err(f) ==> stopped_at(
                old(self).lamps(),
                old(self).issued(),
                all_off(),
                final(self).lamps(),
                final(self).issued(),
                f.color,
            ),
    {
        let ghost s0 = self.lamps();
        let ghost h0 = self.issued();
        let ghost cmds = all_off();
        proof {
            assert(cmds.take(0) =~= Seq::<Command>::empty());
            assert(cmds.take(1).drop_last() =~= cmds.take(0));
            assert(cmds.take(2).drop_last() =~= cmds.take(1));
            assert(cmds.drop_last() =~= cmds.take(2));
            assert(cmds.take(3) =~= cmds);
            reveal_with_fuel(run, 2);
        }
        self.issued = Ghost(self.issued@.push(Command::Off(Color::Green)));
        if self.green_led.turn_off().is_err() {
            assert(self.issued() =~= h0 + cmds.take(1));
            assert(stopped_at(s0, h0, cmds, self.lamps(), self.issued(), Color::Green)) by {
                assert(cmds[0] == Command::Off(Color::Green));
            }
            return Err(SignalFault { color: Color::Green });
        }
        assert(self.lamps() == run(s0, cmds.take(1))) by {
            reveal_with_fuel(run, 2);
        }
        self.issued = Ghost(self.issued@.push(Command::Off(Color::Yellow)));
        if self.yellow_led.turn_off().is_err() {
            assert(self.issued() =~= h0 + cmds.take(2));
            assert(stopped_at(s0, h0, cmds, self.lamps(), self.issued(), Color::Yellow)) by {
                assert(cmds[1] == Command::Off(Color::Yellow));
            }
            return Err(SignalFault { color: Color::Yellow });
        }
        assert(self.lamps() == run(s0, cmds.take(2))) by {
            assert(run(s0, cmds.take(1)) == run(s0, cmds.take(2).drop_last()));
        }
        self.issued = Ghost(self.issued@.push(Command::Off(Color::Red)));
        if self.red_led.turn_off().is_err() {
            assert(self.issued() =~= h0 + cmds.take(3));
            assert(stopped_at(s0, h0, cmds, self.lamps(), self.issued(), Color::Red)) by {
                assert(cmds[2] == Command::Off(Color::Red));
            }
            return Err(SignalFault { color: Color::Red });
        }
        assert(self.issued() =~= h0 + cmds);
        assert(self.lamps() == run(s0, cmds)) by {
            assert(run(s0, cmds.take(2)) == run(s0, cmds.drop_last()));
        }
        Ok(())
    }

    /// Lights the LED of `color`, and no other: each color has its own LED.
    fn turn_on(&mut self, color: Color) -> (r: Result<(), SignalFault>)
        ensures
            r is Ok ==> completed(
                old(self).lamps(),
                old(self).issued(),
                seq![Command::On(color)],
                final(self).lamps(),
                final(self).issued(),
            ),
            r is Ok ==> final(self).lamps().lit(color),
            r is Ok ==> forall|d: Color|
                d != color ==> #[trigger] final(self).lamps().lit(d) == old(self).lamps().lit(d),
            final(self).writes(color) == old(self).writes(color).push(
                LineWrite { high: true, accepted: r is Ok },
            ),
            forall|d: Color| d != color ==> #[trigger] final(self).writes(d) == old(self).writes(d),
            r matches Err(f) ==> f.color == color && stopped_at(
                old(self).lamps(),
                old(self).issued(),
                seq![Command::On(color)],
                final(self).lamps(),
                final(self).issued(),
                f.color,
            ),
    {
        let ghost s0 = self.lamps();
        let ghost h0 = self.issued();
        let ghost cmds = seq![Command::On(color)];
        proof {
            assert(cmds.take(0) =~= Seq::<Command>::empty());
            assert(cmds.take(1) =~= cmds);
            assert(cmds.drop_last() =~= Seq::<Command>::empty());
            reveal_with_fuel(run, 2);
        }
        self.issued = Ghost(self.issued@.push(Command::On(color)));
        let r = match color {
            Color::Green => self.green_led.turn_on(),
            Color::Yellow => self.yellow_led.turn_on(),
            Color::Red => self.red_led.turn_on(),
        };
        assert(self.issued() =~= h0 + cmds);
        if r.is_err() {
            assert(stopped_at(s0, h0, cmds, self.lamps(), self.issued(), color)) by {
                assert(cmds[0] == Command::On(color));
            }
            return Err(SignalFault { color });
        }
        Ok(())
    }
}

} // verus!
