//! Reading a frame from a line, blocking on each pause.
use vstd::prelude::*;

use crate::decoder::{
    initial_model, lemma_run_push, result_view, run, run_pauses, Decoder, Next, Run,
    START_PULSE_US,
};
use crate::error::DhtError;

verus! {

/// One access to the line, as a line's history records it.
pub ghost enum LineOp<E> {
    /// The line was driven high, with this outcome.
    Release(Result<(), E>),
    /// The line's level was read, with this outcome.
    Read(Result<bool, E>),
}

/// The history of a run of level readings.
pub open spec fn reads<E>(readings: Seq<Result<bool, E>>) -> Seq<LineOp<E>> {
    readings.map_values(|r: Result<bool, E>| LineOp::Read(r))
}

/// Suspends the caller for a while.
pub trait Delay {
    /// The pauses made so far, in microseconds, oldest first.
    ///
    /// An implementation that is verified defines it; the default, an empty
    /// history, serves implementations that Verus does not check.
    closed spec fn pauses(&self) -> Seq<u32> {
        Seq::empty()
    }

    /// Returns after at least `us` microseconds.
    fn delay_us(&mut self, us: u32)
        ensures
            final(self).pauses() == old(self).pauses().push(us),
    ;
}

/// A line that can be read and driven.
pub trait InputOutputPin {
    /// What a failed access to the line reports.
    type Error;

    /// The accesses to the line so far, oldest first.
    ///
    /// An implementation that is verified defines it; the default, an empty
    /// history, serves implementations that Verus does not check.
    closed spec fn history(&self) -> Seq<LineOp<Self::Error>> {
        Seq::empty()
    }

    /// Whether the line is high now.
    fn is_high(&mut self) -> (r: Result<bool, Self::Error>)
        ensures
            final(self).history() == old(self).history().push(LineOp::Read(r)),
    ;

    /// Drives the line high.
    fn set_high(&mut self) -> (r: Result<(), Self::Error>)
        ensures
            final(self).history() == old(self).history().push(LineOp::Release(r)),
    ;
}

/// Requests a reading from the sensor on `pin` and decodes its frame: the
/// four data bytes when the checksum matches them.
///
/// The line is driven high once (a failure there is ignored) and held for
/// `START_PULSE_US`; then each reading of the line goes to a `Decoder`,
/// with the pauses that it asks for in between. The result is what the
/// decoder makes of the readings the line gave, and nothing is read after
/// the reading that decided it.
pub fn read_raw<D: Delay, P: InputOutputPin>(delay: &mut D, pin: &mut P) -> (r: Result<
    [u8; 4],
    DhtError<P::Error>,
>)
    ensures
        exists|released: Result<(), P::Error>, readings: Seq<Result<bool, P::Error>>|
            {
                &&& final(pin).history() == old(pin).history() + seq![LineOp::Release(released)]
                    + reads(readings)
                &&& run(initial_model(), readings) == Run::Finished(
                    result_view(r),
                    readings.len(),
                )
                &&& final(delay).pauses() == old(delay).pauses() + seq![START_PULSE_US]
                    + run_pauses(initial_model(), readings)
            },
{
    let released = pin.set_high();
    delay.delay_us(START_PULSE_US);
    let ghost pin_start = pin.history();
    assert(pin_start =~= old(pin).history() + seq![LineOp::Release(released)]);
    let ghost delay_start = delay.pauses();
    let mut decoder = Decoder::new();
    let ghost mut readings: Seq<Result<bool, P::Error>> = Seq::empty();
    assert(reads(readings) =~= Seq::empty());
    assert(pin.history() =~= pin_start + reads(readings));
    assert(delay.pauses() =~= delay_start + run_pauses(initial_model(), readings));
    loop
        invariant
            decoder@.valid(),
            run(initial_model(), readings) == Run::<P::Error>::Pending(decoder@),
            pin_start == old(pin).history() + seq![LineOp::Release(released)],
            pin.history() == pin_start + reads(readings),
            delay_start == old(delay).pauses() + seq![START_PULSE_US],
            delay.pauses() == delay_start + run_pauses(initial_model(), readings),
        decreases decoder@.remaining(),
    {
        let reading = pin.is_high();
        proof {
            lemma_run_push(initial_model(), readings, reading);
            assert(reads(readings.push(reading)) =~= reads(readings).push(LineOp::Read(reading)));
            readings = readings.push(reading);
        }
        match decoder.feed(reading) {
            Next::Read => {
                assert(delay.pauses() =~= delay_start + run_pauses(initial_model(), readings));
            },
            Next::ReadAfter(us) => {
                delay.delay_us(us);
                assert(delay.pauses() =~= delay_start + run_pauses(initial_model(), readings));
            },
            Next::Done(result) => {
                assert(delay.pauses() =~= delay_start + run_pauses(initial_model(), readings));
                return result;
            },
        }
    }
}

} // verus!
