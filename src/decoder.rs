//! The protocol as a state machine: each line reading goes in, and what the
//! host does before the next reading comes out.
//!
//! A read goes `AckHigh -> AckLow -> (Rise -> Sample -> Fall) x 40`, then the
//! checksum is validated. Every wait is bounded by `TIMEOUT_POLLS` readings.
use vstd::prelude::*;

use crate::error::DhtError;

verus! {

/// Readings that one wait may take before it fails with `Timeout`.
pub const TIMEOUT_POLLS: u8 = 100;

/// Pause between two readings of one wait, in microseconds.
pub const POLL_INTERVAL_US: u32 = 1;

/// How long the host holds the released line before the sensor answers, in
/// microseconds.
pub const START_PULSE_US: u32 = 48;

/// Pause between the rising edge of a bit and the reading that samples it,
/// in microseconds.
pub const SAMPLE_DELAY_US: u32 = 35;

/// Where the decoder stands within a frame.
#[derive(Clone, Copy, Debug, PartialEq, Eq, Structural)]
pub enum Stage {
    /// Waiting for the sensor to raise the line (first half of its answer).
    AckHigh,
    /// Waiting for the sensor to pull the line low again.
    AckLow,
    /// Waiting for the rising edge that opens a bit.
    Rise,
    /// The next reading is the bit's value.
    Sample,
    /// Waiting for the line to fall at the end of a bit.
    Fall,
    /// The frame is decoded or has failed.
    Finished,
}

/// What the decoder knows partway through a frame.
pub ghost struct DecoderModel {
    pub stage: Stage,
    /// Readings of the current wait that did not show the awaited level.
    pub polls: nat,
    /// Bits of the current byte that are complete.
    pub bits: nat,
    /// Those bits, most significant first.
    pub acc: u8,
    /// The level sampled for the bit under way.
    pub sampled: bool,
    /// The bytes that are complete.
    pub bytes: Seq<u8>,
}

/// What one reading leads to.
pub ghost enum Step<E> {
    Continue(DecoderModel),
    Done(Result<Seq<u8>, DhtError<E>>),
}

/// What the host does next.
#[derive(Debug, PartialEq, Eq)]
pub enum Next<E> {
    /// Read the line at once.
    Read,
    /// Wait this many microseconds, then read the line.
    ReadAfter(u32),
    /// The read is over, with this result.
    Done(Result<[u8; 4], DhtError<E>>),
}

impl DecoderModel {
    pub open spec fn valid(self) -> bool {
        &&& self.stage != Stage::Finished
        &&& self.polls < TIMEOUT_POLLS
        &&& self.bits < 8
        &&& self.bytes.len() < 5
    }

    /// The most readings that the rest of the frame can take: each wait
    /// takes at most `TIMEOUT_POLLS`, each sample one.
    pub open spec fn remaining(self) -> int {
        let k = 8 * self.bytes.len() + self.bits;
        match self.stage {
            Stage::AckHigh => 8240 - self.polls,
            Stage::AckLow => 8140 - self.polls,
            Stage::Rise => 8040 - 201 * k - self.polls,
            Stage::Sample => 7940 - 201 * k,
            Stage::Fall => 7939 - 201 * k - self.polls,
            Stage::Finished => 0,
        }
    }

    /// The pause the host makes before the next reading.
    pub open spec fn pause(self) -> nat {
        if self.stage == Stage::Sample {
            SAMPLE_DELAY_US as nat
        } else if self.polls > 0 {
            POLL_INTERVAL_US as nat
        } else {
            0
        }
    }
}

/// The state before the first reading of a frame.
pub open spec fn initial_model() -> DecoderModel {
    DecoderModel {
        stage: Stage::AckHigh,
        polls: 0,
        bits: 0,
        acc: 0,
        sampled: false,
        bytes: Seq::empty(),
    }
}

/// `acc` with `bit` shifted in as its new least significant bit.
pub open spec fn shifted_in(acc: u8, bit: bool) -> u8 {
    ((acc << 1u8) | (if bit { 1u8 } else { 0u8 })) as u8
}

/// The sum of the bytes modulo 256.
pub open spec fn wrapping_sum_of(s: Seq<u8>) -> u8
    decreases s.len(),
{
    if s.len() == 0 {
        0
    } else {
        ((wrapping_sum_of(s.drop_last()) + s.last()) % 256) as u8
    }
}

/// The data bytes when the checksum matches them.
pub open spec fn validate<E>(data: Seq<u8>, checksum: u8) -> Result<Seq<u8>, DhtError<E>> {
    if wrapping_sum_of(data) == checksum {
        Ok(data)
    } else {
        Err(DhtError::ChecksumMismatch)
    }
}

/// A reading that did not show the awaited level.
pub open spec fn poll_missed<E>(m: DecoderModel) -> Step<E> {
    if m.polls + 1 >= TIMEOUT_POLLS {
        Step::Done(Err(DhtError::Timeout))
    } else {
        Step::Continue(DecoderModel { polls: m.polls + 1, ..m })
    }
}

/// The line fell at the end of a bit: the bit joins its byte.
pub open spec fn bit_complete<E>(m: DecoderModel) -> Step<E> {
    let acc = shifted_in(m.acc, m.sampled);
    if m.bits + 1 < 8 {
        Step::Continue(DecoderModel { stage: Stage::Rise, polls: 0, bits: m.bits + 1, acc, ..m })
    } else if m.bytes.len() + 1 < 5 {
        Step::Continue(
            DecoderModel {
                stage: Stage::Rise,
                polls: 0,
                bits: 0,
                acc: 0,
                bytes: m.bytes.push(acc),
                ..m
            },
        )
    } else {
        Step::Done(validate(m.bytes, acc))
    }
}

/// The effect of one reading of the line.
pub open spec fn step<E>(m: DecoderModel, reading: Result<bool, E>) -> Step<E> {
    match reading {
        Err(e) => Step::Done(Err(DhtError::PinError(e))),
        Ok(high) => match m.stage {
            Stage::AckHigh => if high {
                Step::Continue(DecoderModel { stage: Stage::AckLow, polls: 0, ..m })
            } else {
                poll_missed(m)
            },
            Stage::AckLow => if !high {
                Step::Continue(DecoderModel { stage: Stage::Rise, polls: 0, ..m })
            } else {
                poll_missed(m)
            },
            Stage::Rise => if high {
                Step::Continue(DecoderModel { stage: Stage::Sample, polls: 0, ..m })
            } else {
                poll_missed(m)
            },
            Stage::Sample => Step::Continue(
                DecoderModel { stage: Stage::Fall, polls: 0, sampled: high, ..m },
            ),
            Stage::Fall => if !high {
                bit_complete(m)
            } else {
                poll_missed(m)
            },
            Stage::Finished => Step::Continue(m),
        },
    }
}

pub open spec fn result_view<E>(r: Result<[u8; 4], DhtError<E>>) -> Result<Seq<u8>, DhtError<E>> {
    match r {
        Ok(data) => Ok(data@),
        Err(e) => Err(e),
    }
}

/// `next` tells the host what `s` asks of it.
pub open spec fn next_agrees<E>(next: Next<E>, s: Step<E>) -> bool {
    match s {
        Step::Continue(m) => if m.pause() == 0 {
            next == Next::<E>::Read
        } else {
            next == Next::<E>::ReadAfter(m.pause() as u32)
        },
        Step::Done(r) => next is Done && result_view(next->Done_0) == r,
    }
}

/// `new` and `next` are what the step `s` leads to.
pub open spec fn applied<E>(new: DecoderModel, next: Next<E>, s: Step<E>) -> bool {
    &&& next_agrees(next, s)
    &&& s is Continue ==> new == s->Continue_0
    &&& s is Done ==> new.stage == Stage::Finished
}

/// A frame decoder fed one line reading at a time.
///
/// Before the first reading the host drives the line high (a failure there
/// is ignored) and waits `START_PULSE_US`. It then reads the line, hands the
/// reading to `feed`, and does what the returned `Next` says, until `Done`.
pub struct Decoder {
    stage: Stage,
    polls: u8,
    bits: u8,
    acc: u8,
    sampled: bool,
    bytes: Vec<u8>,
}

impl View for Decoder {
    type V = DecoderModel;

    closed spec fn view(&self) -> DecoderModel {
        DecoderModel {
            stage: self.stage,
            polls: self.polls as nat,
            bits: self.bits as nat,
            acc: self.acc,
            sampled: self.sampled,
            bytes: self.bytes@,
        }
    }
}

impl Decoder {
    /// A decoder at the start of a frame.
    pub fn new() -> (d: Decoder)
        ensures
            d@ == initial_model(),
    {
        Decoder { stage: Stage::AckHigh, polls: 0, bits: 0, acc: 0, sampled: false, bytes: Vec::new() }
    }

    /// The stage the decoder stands at.
    pub fn stage(&self) -> (r: Stage)
        ensures
            r == self@.stage,
    {
        self.stage
    }

    /// Tells the host how to go on from a state that is not finished.
    fn resume<E>(&self) -> (next: Next<E>)
        requires
            self@.valid(),
        ensures
            next_agrees(next, Step::<E>::Continue(self@)),
    {
        if self.stage == Stage::Sample {
            Next::ReadAfter(SAMPLE_DELAY_US)
        } else if self.polls > 0 {
            Next::ReadAfter(POLL_INTERVAL_US)
        } else {
            Next::Read
        }
    }

    fn poll_missed<E>(&mut self) -> (next: Next<E>)
        requires
            old(self)@.valid(),
        ensures
            applied(final(self)@, next, poll_missed::<E>(old(self)@)),
    {
        if self.polls + 1 >= TIMEOUT_POLLS {
            self.stage = Stage::Finished;
            Next::Done(Err(DhtError::Timeout))
        } else {
            self.polls = self.polls + 1;
            self.resume()
        }
    }

    fn bit_complete<E>(&mut self) -> (next: Next<E>)
        requires
            old(self)@.valid(),
            old(self)@.stage == Stage::Fall,
        ensures
            applied(final(self)@, next, bit_complete::<E>(old(self)@)),
    {
        let acc = shift_in(self.acc, self.sampled);
        if self.bits + 1 < 8 {
            self.stage = Stage::Rise;
            self.polls = 0;
            self.bits = self.bits + 1;
            self.acc = acc;
            self.resume()
        } else if self.bytes.len() + 1 < 5 {
            self.bytes.push(acc);
            self.stage = Stage::Rise;
            self.polls = 0;
            self.bits = 0;
            self.acc = 0;
            self.resume()
        } else {
            self.stage = Stage::Finished;
            let data: [u8; 4] = [self.bytes[0], self.bytes[1], self.bytes[2], self.bytes[3]];
            assert(data@ == self.bytes@);
            if wrapping_sum(&data) == acc {
                Next::Done(Ok(data))
            } else {
                Next::Done(Err(DhtError::ChecksumMismatch))
            }
        }
    }

    /// Takes one reading of the line: its level, or the error that reading
    /// it gave.
    pub fn feed<E>(&mut self, reading: Result<bool, E>) -> (next: Next<E>)
        requires
            old(self)@.valid(),
        ensures
            applied(final(self)@, next, step(old(self)@, reading)),
            step(old(self)@, reading) is Continue ==> {
                &&& final(self)@.valid()
                &&& final(self)@.remaining() < old(self)@.remaining()
            },
    {
        match reading {
            Err(e) => {
                self.stage = Stage::Finished;
                Next::Done(Err(DhtError::PinError(e)))
            },
            Ok(high) => match self.stage {
                Stage::AckHigh => if high {
                    self.stage = Stage::AckLow;
                    self.polls = 0;
                    self.resume()
                } else {
                    self.poll_missed()
                },
                Stage::AckLow => if !high {
                    self.stage = Stage::Rise;
                    self.polls = 0;
                    self.resume()
                } else {
                    self.poll_missed()
                },
                Stage::Rise => if high {
                    self.stage = Stage::Sample;
                    self.polls = 0;
                    self.resume()
                } else {
                    self.poll_missed()
                },
                Stage::Sample => {
                    self.stage = Stage::Fall;
                    self.polls = 0;
                    self.sampled = high;
                    self.resume()
                },
                Stage::Fall => if !high {
                    self.bit_complete()
                } else {
                    self.poll_missed()
                },
                Stage::Finished => self.resume(),
            },
        }
    }
}

/// Where a run of readings leaves the decoder.
pub ghost enum Run<E> {
    /// Every reading was taken and the frame is still open.
    Pending(DecoderModel),
    /// The read ended with this result at this many readings; any readings
    /// after those are never taken.
    Finished(Result<Seq<u8>, DhtError<E>>, nat),
}

/// Feeds `readings` to a decoder in state `m`, in order, until it is done.
pub open spec fn run<E>(m: DecoderModel, readings: Seq<Result<bool, E>>) -> Run<E>
    decreases readings.len(),
{
    if readings.len() == 0 {
        Run::Pending(m)
    } else {
        match step(m, readings[0]) {
            Step::Done(r) => Run::Finished(r, 1),
            Step::Continue(m2) => match run(m2, readings.drop_first()) {
                Run::Pending(x) => Run::Pending(x),
                Run::Finished(r, n) => Run::Finished(r, n + 1),
            },
        }
    }
}

/// The pause that the host makes before a reading from state `m`, if any.
pub open spec fn pause_seq(m: DecoderModel) -> Seq<u32> {
    if m.pause() > 0 {
        seq![m.pause() as u32]
    } else {
        Seq::empty()
    }
}

/// The pauses that the host makes between the readings of a run, in order.
pub open spec fn run_pauses<E>(m: DecoderModel, readings: Seq<Result<bool, E>>) -> Seq<u32>
    decreases readings.len(),
{
    if readings.len() == 0 {
        Seq::empty()
    } else {
        match step(m, readings[0]) {
            Step::Done(_) => Seq::empty(),
            Step::Continue(m2) => pause_seq(m2) + run_pauses(m2, readings.drop_first()),
        }
    }
}

/// One more reading after a run that left the frame open.
pub proof fn lemma_run_push<E>(m: DecoderModel, readings: Seq<Result<bool, E>>, reading: Result<bool, E>)
    requires
        run(m, readings) is Pending,
    ensures
        run(m, readings.push(reading)) == match step(run(m, readings)->Pending_0, reading) {
            Step::Done(r) => Run::<E>::Finished(r, readings.len() + 1),
            Step::Continue(m2) => Run::Pending(m2),
        },
        run_pauses(m, readings.push(reading)) == run_pauses(m, readings) + match step(
            run(m, readings)->Pending_0,
            reading,
        ) {
            Step::Done(_) => Seq::<u32>::empty(),
            Step::Continue(m2) => pause_seq(m2),
        },
    decreases readings.len(),
{
    let pushed = readings.push(reading);
    assert(pushed[0] == if readings.len() == 0 { reading } else { readings[0] });
    if readings.len() == 0 {
        assert(pushed.drop_first().len() == 0);
        if let Step::Continue(m2) = step(m, reading) {
            assert(run(m2, pushed.drop_first()) == Run::<E>::Pending(m2));
            assert(run_pauses(m2, pushed.drop_first()) == Seq::<u32>::empty());
            assert(pause_seq(m2) + Seq::<u32>::empty() == pause_seq(m2));
        }
    } else {
        assert(pushed.drop_first() == readings.drop_first().push(reading));
        if let Step::Continue(m2) = step(m, readings[0]) {
            lemma_run_push(m2, readings.drop_first(), reading);
            let tail = match step(run(m2, readings.drop_first())->Pending_0, reading) {
                Step::Done(_) => Seq::<u32>::empty(),
                Step::Continue(m3) => pause_seq(m3),
            };
            assert(pause_seq(m2) + (run_pauses(m2, readings.drop_first()) + tail) == pause_seq(m2)
                + run_pauses(m2, readings.drop_first()) + tail);
        }
    }
}

/// Shifts `bit` into `acc` as its new least significant bit.
pub fn shift_in(acc: u8, bit: bool) -> (r: u8)
    ensures
        r == shifted_in(acc, bit),
{
    (acc << 1u8) | (if bit { 1u8 } else { 0u8 })
}

/// The sum of the four data bytes modulo 256.
pub fn wrapping_sum(data: &[u8; 4]) -> (r: u8)
    ensures
        r == wrapping_sum_of(data@),
{
    let mut sum: u8 = 0;
    let mut i: usize = 0;
    while i < 4
        invariant
            i <= 4,
            sum == wrapping_sum_of(data@.take(i as int)),
        decreases 4 - i,
    {
        assert(data@.take(i + 1).drop_last() == data@.take(i as int));
        sum = sum.wrapping_add(data[i]);
        i = i + 1;
    }
    assert(data@.take(4) == data@);
    sum
}

} // verus!
