//! The command sequence that a cycle issues, and the lamp states it leads to.
use vstd::prelude::*;
use crate::traffic_signal::{Color, Light};

verus! {

/// A command that the controller issues: darken or light one LED, or hold
/// the current state for a number of milliseconds.
pub enum Command {
    Off(Color),
    On(Color),
    Hold(u32),
}

/// Which of the three LEDs are lit.
pub struct Lamps {
    pub green: bool,
    pub yellow: bool,
    pub red: bool,
}

impl Lamps {
    pub open spec fn lit(self, c: Color) -> bool {
        match c {
            Color::Green => self.green,
            Color::Yellow => self.yellow,
            Color::Red => self.red,
        }
    }

    /// `self` with the LED of `c` set to `on`.
    pub open spec fn with(self, c: Color, on: bool) -> Lamps {
        match c {
            Color::Green => Lamps { green: on, ..self },
            Color::Yellow => Lamps { yellow: on, ..self },
            Color::Red => Lamps { red: on, ..self },
        }
    }

    /// The LED of `c` is lit and the other two are dark.
    pub open spec fn only(self, c: Color) -> bool {
        forall|d: Color| #[trigger] self.lit(d) <==> d == c
    }

    pub open spec fn dark() -> Lamps {
        Lamps { green: false, yellow: false, red: false }
    }
}

/// The lamp state after one command.
pub open spec fn apply(s: Lamps, c: Command) -> Lamps {
    match c {
        Command::Off(color) => s.with(color, false),
        Command::On(color) => s.with(color, true),
        Command::Hold(_) => s,
    }
}

/// The lamp state after a sequence of commands, from `s`.
pub open spec fn run(s: Lamps, cmds: Seq<Command>) -> Lamps
    decreases cmds.len(),
{
    if cmds.len() == 0 {
        s
    } else {
        apply(run(s, cmds.drop_last()), cmds.last())
    }
}

/// The command drives the LED of `color`.
pub open spec fn drives(c: Command, color: Color) -> bool {
    c == Command::Off(color) || c == Command::On(color)
}

/// The hold time of an entry, in milliseconds.
pub open spec fn hold_ms(l: Light) -> int {
    l.sec * 1000
}

/// Every hold time of the pattern fits in a `u32` of milliseconds.
pub open spec fn holds_fit(p: Seq<Light>) -> bool {
    forall|i: int| 0 <= i < p.len() ==> #[trigger] hold_ms(p[i]) <= u32::MAX
}

/// All three LEDs off, the entry's LED on, then a hold for its duration.
pub open spec fn entry_commands(l: Light) -> Seq<Command> {
    seq![
        Command::Off(Color::Green),
        Command::Off(Color::Yellow),
        Command::Off(Color::Red),
        Command::On(l.color),
        Command::Hold(hold_ms(l) as u32),
    ]
}

/// The commands of one cycle: those of each entry, in pattern order.
pub open spec fn cycle_commands(p: Seq<Light>) -> Seq<Command>
    decreases p.len(),
{
    if p.len() == 0 {
        Seq::empty()
    } else {
        cycle_commands(p.drop_last()) + entry_commands(p.last())
    }
}

pub proof fn lemma_run_append(s: Lamps, a: Seq<Command>, b: Seq<Command>)
    ensures
        run(s, a + b) == run(run(s, a), b),
    decreases b.len(),
{
    if b.len() == 0 {
        assert(a + b =~= a);
    } else {
        assert((a + b).drop_last() =~= a + b.drop_last());
        lemma_run_append(s, a, b.drop_last());
    }
}

pub proof fn lemma_cycle_append(p: Seq<Light>, q: Seq<Light>)
    ensures
        cycle_commands(p + q) == cycle_commands(p) + cycle_commands(q),
    decreases q.len(),
{
    if q.len() == 0 {
        assert(p + q =~= p);
        assert(cycle_commands(p) + cycle_commands(q) =~= cycle_commands(p));
    } else {
        assert((p + q).drop_last() =~= p + q.drop_last());
        lemma_cycle_append(p, q.drop_last());
        assert(cycle_commands(p + q) =~= cycle_commands(p) + cycle_commands(q));
    }
}

pub proof fn lemma_cycle_len(p: Seq<Light>)
    ensures
        cycle_commands(p).len() == 5 * p.len(),
    decreases p.len(),
{
    if p.len() > 0 {
        lemma_cycle_len(p.drop_last());
    }
}

/// The commands of a cycle split at entry `i`: those of the first `i`
/// entries, then the `j` first of entry `i`, make a prefix of the cycle's.
pub proof fn lemma_cycle_prefix(p: Seq<Light>, i: int, j: int)
    requires
        0 <= i < p.len(),
        0 <= j <= 5,
    ensures
        cycle_commands(p.take(i + 1)) == cycle_commands(p.take(i)) + entry_commands(p[i]),
        cycle_commands(p).take(5 * i + j) == cycle_commands(p.take(i)) + entry_commands(p[i]).take(j),
{
    let head = p.take(i);
    let tail = p.skip(i + 1);
    assert(p.take(i + 1).drop_last() =~= head);
    assert(p =~= p.take(i + 1) + tail);
    lemma_cycle_append(p.take(i + 1), tail);
    lemma_cycle_len(head);
    assert(cycle_commands(p).take(5 * i + j) =~= cycle_commands(head) + entry_commands(p[i]).take(j));
}

/// Starting from lamps `s0` and history `h0`, every command of `cmds` was
/// issued and took effect, leaving lamps `s` and history `h`.
pub open spec fn completed(s0: Lamps, h0: Seq<Command>, cmds: Seq<Command>, s: Lamps, h: Seq<Command>) -> bool {
    h == h0 + cmds && s == run(s0, cmds)
}

/// Starting from lamps `s0` and history `h0`, a prefix of `cmds` was issued,
/// and its last command, which drives the LED of `color`, was refused by that
/// LED's line: the commands before it took effect, it did not.
pub open spec fn stopped_at(
    s0: Lamps,
    h0: Seq<Command>,
    cmds: Seq<Command>,
    s: Lamps,
    h: Seq<Command>,
    color: Color,
) -> bool {
    exists|k: int|
        0 < k <= cmds.len() && h == h0 + cmds.take(k) && drives(#[trigger] cmds[k - 1], color)
            && s == run(s0, cmds.take(k - 1))
}

pub proof fn lemma_completed_then(
    s0: Lamps,
    h0: Seq<Command>,
    done: Seq<Command>,
    s1: Lamps,
    h1: Seq<Command>,
    step: Seq<Command>,
    s2: Lamps,
    h2: Seq<Command>,
)
    requires
        completed(s0, h0, done, s1, h1),
        completed(s1, h1, step, s2, h2),
    ensures
        completed(s0, h0, done + step, s2, h2),
{
    lemma_run_append(s0, done, step);
    assert(h2 =~= h0 + (done + step));
}

/// A run that stopped inside `step`, after `done` had completed, stopped
/// inside any sequence that `done + step` begins.
pub proof fn lemma_stopped_within(
    s0: Lamps,
    h0: Seq<Command>,
    done: Seq<Command>,
    step: Seq<Command>,
    whole: Seq<Command>,
    s: Lamps,
    h: Seq<Command>,
    color: Color,
)
    requires
        done.len() + step.len() <= whole.len(),
        whole.take((done.len() + step.len()) as int) == done + step,
        stopped_at(run(s0, done), h0 + done, step, s, h, color),
    ensures
        stopped_at(s0, h0, whole, s, h, color),
{
    let j = choose|j: int|
        0 < j <= step.len() && h == (h0 + done) + step.take(j) && drives(#[trigger] step[j - 1], color)
            && s == run(run(s0, done), step.take(j - 1));
    let k = done.len() + j;
    assert(whole.take(k) =~= (done + step).take(k));
    assert(whole.take(k) =~= done + step.take(j));
    assert(whole.take(k - 1) =~= done + step.take(j - 1));
    assert(whole[k - 1] == (done + step)[k - 1]);
    assert(whole[k - 1] == step[j - 1]);
    assert(h =~= h0 + whole.take(k));
    lemma_run_append(s0, done, step.take(j - 1));
}

/// The three commands that open every entry.
pub open spec fn all_off() -> Seq<Command> {
    seq![Command::Off(Color::Green), Command::Off(Color::Yellow), Command::Off(Color::Red)]
}

pub proof fn lemma_all_off_darkens(s: Lamps)
    ensures
        run(s, all_off()) == Lamps::dark(),
{
    let o = all_off();
    assert(o.drop_last() =~= seq![Command::Off(Color::Green), Command::Off(Color::Yellow)]);
    assert(o.drop_last().drop_last() =~= seq![Command::Off(Color::Green)]);
    assert(o.drop_last().drop_last().drop_last() =~= Seq::<Command>::empty());
    reveal_with_fuel(run, 4);
}

/// Turning a color on lights that color's LED and no other: the other two
/// keep their state, so from all-dark exactly that LED is lit.
pub proof fn lemma_on_lights_its_color(s: Lamps, c: Color)
    ensures
        apply(s, Command::On(c)).lit(c),
        forall|d: Color| d != c ==> #[trigger] apply(s, Command::On(c)).lit(d) == s.lit(d),
        s == Lamps::dark() ==> apply(s, Command::On(c)).only(c),
{
}

/// Once an entry's LED has been lit, it is the only one lit, and it stays so
/// through the entry's hold, up to the next entry's first command.
pub proof fn lemma_one_lit_per_entry(start: Lamps, p: Seq<Light>, i: int)
    requires
        0 <= i < p.len(),
    ensures
        run(start, cycle_commands(p).take(5 * i + 4)).only(p[i].color),
        run(start, cycle_commands(p).take(5 * i + 5)).only(p[i].color),
{
    lemma_cycle_prefix(p, i, 4);
    lemma_cycle_prefix(p, i, 5);
    let before = cycle_commands(p.take(i));
    let e = entry_commands(p[i]);
    lemma_run_append(start, before, e.take(4));
    lemma_run_append(start, before, e.take(5));
    let mid = run(start, before);
    assert(e.take(4).drop_last() =~= all_off());
    assert(e.take(5).drop_last() =~= e.take(4));
    lemma_all_off_darkens(mid);
}

/// A cycle over a non-empty pattern leads through the same lamp states
/// whatever state it started from: its first entry darkens all three LEDs.
pub proof fn lemma_cycle_repeatable(p: Seq<Light>, s1: Lamps, s2: Lamps, k: int)
    requires
        p.len() > 0,
        3 <= k <= cycle_commands(p).len(),
    ensures
        run(s1, cycle_commands(p).take(k)) == run(s2, cycle_commands(p).take(k)),
{
    let cmds = cycle_commands(p);
    lemma_cycle_prefix(p, 0, 3);
    assert(p.take(0) =~= Seq::<Light>::empty());
    let offs = cmds.take(3);
    assert(offs =~= all_off());
    lemma_all_off_darkens(s1);
    lemma_all_off_darkens(s2);
    assert(cmds.take(k) =~= offs + cmds.take(k).skip(3));
    lemma_run_append(s1, offs, cmds.take(k).skip(3));
    lemma_run_append(s2, offs, cmds.take(k).skip(3));
}

} // verus!
