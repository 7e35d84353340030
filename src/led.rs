//! An LED on one output line, with a name-level on/off interface.
use vstd::prelude::*;
use embedded_hal::digital::v2::OutputPin;

verus! {

/// The output line of an LED reported that it could not be driven.
#[derive(Debug, Clone, Copy, PartialEq, Eq)]
pub struct LedFault;

/// One command issued to an output line: the level asked for (`high`), and
/// whether the line accepted it.
pub struct LineWrite {
    pub high: bool,
    pub accepted: bool,
}

/// `later` extends `earlier`, and the line accepted every command after it.
pub open spec fn accepted_since(earlier: Seq<LineWrite>, later: Seq<LineWrite>) -> bool {
    &&& earlier.len() <= later.len()
    &&& later.take(earlier.len() as int) == earlier
    &&& forall|i: int| earlier.len() <= i < later.len() ==> (#[trigger] later[i]).accepted
}

pub proof fn lemma_accepted_since_push(earlier: Seq<LineWrite>, later: Seq<LineWrite>, w: LineWrite)
    requires
        accepted_since(earlier, later),
        w.accepted,
    ensures
        accepted_since(earlier, later.push(w)),
{
    assert(later.push(w).take(earlier.len() as int) =~= later.take(earlier.len() as int));
    assert forall|i: int| earlier.len() <= i < later.push(w).len() implies (#[trigger] later.push(w)[i]).accepted by {
        if i < later.len() {
            assert(later.push(w)[i] == later[i]);
        }
    }
}

pub proof fn lemma_accepted_since_refl(s: Seq<LineWrite>)
    ensures
        accepted_since(s, s),
{
    assert(s.take(s.len() as int) =~= s);
}

/// An LED wired to one output line `T`, which it owns.
pub struct Led<T> {
    pin: T,
    lit: bool,
    /// Every command issued to the line, in order.
    writes: Ghost<Seq<LineWrite>>,
}

/// Relies on embedded_hal's `OutputPin::set_high`: one call drives the line
/// high; `false` when the line reports a fault.
#[verifier::external_body]
fn drive_high<T: OutputPin>(led: &mut Led<T>) -> (r: bool)
    ensures
        final(led).writes() == old(led).writes().push(LineWrite { high: true, accepted: r }),
        final(led).is_on() == old(led).is_on(),
{
    led.pin.set_high().is_ok()
}

/// Relies on embedded_hal's `OutputPin::set_low`: one call drives the line
/// low; `false` when the line reports a fault.
#[verifier::external_body]
fn drive_low<T: OutputPin>(led: &mut Led<T>) -> (r: bool)
    ensures
        final(led).writes() == old(led).writes().push(LineWrite { high: false, accepted: r }),
        final(led).is_on() == old(led).is_on(),
{
    led.pin.set_low().is_ok()
}

impl<T> Led<T> {
    /// Whether the last command that the line accepted lit the LED; an LED
    /// that has received no command yet counts as off.
    pub closed spec fn is_on(&self) -> bool {
        self.lit
    }

    /// The commands issued to the line so far, in order.
    pub closed spec fn writes(&self) -> Seq<LineWrite> {
        self.writes@
    }

    /// Takes ownership of a line already configured as an output.
    pub fn new(pin: T) -> (r: Self)
        ensures
            !r.is_on(),
            r.writes() == Seq::<LineWrite>::empty(),
    {
        Led { pin, lit: false, writes: Ghost(Seq::empty()) }
    }

    /// Records the outcome of a command for level `high` that the line has
    /// just received: the LED takes that level if the line `accepted` it, and
    /// the fault is reported otherwise.
    fn settle(&mut self, high: bool, accepted: bool) -> (r: Result<(), LedFault>)
        ensures
            r is Ok <==> accepted,
            accepted ==> final(self).is_on() == high,
            !accepted ==> final(self).is_on() == old(self).is_on(),
            final(self).writes() == old(self).writes(),
    {
        if accepted {
            self.lit = high;
            Ok(())
        } else {
            Err(LedFault)
        }
    }

    /// Lights the LED: drives its line high, once. A fault of the line is
    /// handed back to the caller, and the LED's state is then left as it was.
    pub fn turn_on(&mut self) -> (r: Result<(), LedFault>)
        where T: OutputPin,
        ensures
            final(self).writes() == old(self).writes().push(LineWrite { high: true, accepted: r is Ok }),
            r is Ok ==> final(self).is_on(),
            r is Err ==> final(self).is_on() == old(self).is_on(),
    {
        let accepted = drive_high(self);
        self.settle(true, accepted)
    }

    /// Darkens the LED: drives its line low, once. A fault of the line is
    /// handed back to the caller, and the LED's state is then left as it was;
    /// either way an LED that was off stays off.
    pub fn turn_off(&mut self) -> (r: Result<(), LedFault>)
        where T: OutputPin,
        ensures
            final(self).writes() == old(self).writes().push(LineWrite { high: false, accepted: r is Ok }),
            r is Ok ==> !final(self).is_on(),
            r is Err ==> final(self).is_on() == old(self).is_on(),
            !old(self).is_on() ==> !final(self).is_on(),
    {
        let accepted = drive_low(self);
        self.settle(false, accepted)
    }
}

} // verus!
