use std::cell::Cell;
use std::rc::Rc;

use dht_sensor::decoder::{
    shift_in, wrapping_sum, Decoder, Next, Stage, POLL_INTERVAL_US, SAMPLE_DELAY_US,
    START_PULSE_US, TIMEOUT_POLLS,
};
use dht_sensor::{read_raw, Delay, DhtError, InputOutputPin};

#[derive(Debug, Clone, PartialEq)]
struct Fault(u32);

/// A line that answers with a fixed list of readings, then stays low.
struct ScriptedPin {
    readings: Vec<Result<bool, Fault>>,
    taken: usize,
    set_high_calls: usize,
    refuse_set_high: bool,
}

impl ScriptedPin {
    fn new(readings: Vec<Result<bool, Fault>>) -> ScriptedPin {
        ScriptedPin { readings, taken: 0, set_high_calls: 0, refuse_set_high: false }
    }
}

impl InputOutputPin for ScriptedPin {
    type Error = Fault;

    fn is_high(&mut self) -> Result<bool, Fault> {
        let r = self.readings.get(self.taken).cloned().unwrap_or(Ok(false));
        self.taken += 1;
        r
    }

    fn set_high(&mut self) -> Result<(), Fault> {
        self.set_high_calls += 1;
        if self.refuse_set_high {
            Err(Fault(99))
        } else {
            Ok(())
        }
    }
}

/// Records each pause it is asked for.
struct RecordingDelay {
    pauses: Vec<u32>,
}

impl Delay for RecordingDelay {
    fn delay_us(&mut self, us: u32) {
        self.pauses.push(us);
    }
}

fn clean_frame(data: [u8; 4], checksum: u8) -> Vec<Result<bool, Fault>> {
    let mut r = vec![Ok(true), Ok(false)];
    for byte in data.iter().chain(std::iter::once(&checksum)) {
        for i in 0..8 {
            let bit = (byte >> (7 - i)) & 1 == 1;
            r.push(Ok(true));
            r.push(Ok(bit));
            r.push(Ok(false));
        }
    }
    r
}

fn read_script(readings: Vec<Result<bool, Fault>>) -> (Result<[u8; 4], DhtError<Fault>>, ScriptedPin, RecordingDelay) {
    let mut pin = ScriptedPin::new(readings);
    let mut delay = RecordingDelay { pauses: Vec::new() };
    let r = read_raw(&mut delay, &mut pin);
    (r, pin, delay)
}

#[test]
fn valid_frame_reads_its_data() {
    let (r, pin, _) = read_script(clean_frame([0x32, 0x00, 0x1B, 0x00], 0x4D));
    assert_eq!(r, Ok([0x32, 0x00, 0x1B, 0x00]));
    assert_eq!(pin.taken, 122);
}

#[test]
fn wrong_checksum_is_rejected() {
    let (r, pin, _) = read_script(clean_frame([0x32, 0x00, 0x1B, 0x00], 0x00));
    assert_eq!(r, Err(DhtError::ChecksumMismatch));
    assert_eq!(pin.taken, 122);
}

#[test]
fn checksum_off_by_one_is_rejected() {
    let (r, _, _) = read_script(clean_frame([0x32, 0x00, 0x1B, 0x00], 0x4E));
    assert_eq!(r, Err(DhtError::ChecksumMismatch));
}

#[test]
fn checksum_wraps_modulo_256() {
    let (r, _, _) = read_script(clean_frame([0xFF, 0xFF, 0xFF, 0xFF], 0xFC));
    assert_eq!(r, Ok([0xFF, 0xFF, 0xFF, 0xFF]));
}

#[test]
fn all_zero_frame_reads() {
    let (r, _, _) = read_script(clean_frame([0, 0, 0, 0], 0));
    assert_eq!(r, Ok([0, 0, 0, 0]));
}

#[test]
fn silent_line_times_out_after_budget() {
    let (r, pin, delay) = read_script(vec![Ok(false); 300]);
    assert_eq!(r, Err(DhtError::Timeout));
    assert_eq!(pin.taken, TIMEOUT_POLLS as usize);
    assert_eq!(pin.taken, 100);
    // the start pulse, then one pause between each two readings
    assert_eq!(delay.pauses.len(), 100);
    assert_eq!(delay.pauses[0], START_PULSE_US);
    assert!(delay.pauses[1..].iter().all(|&p| p == POLL_INTERVAL_US));
}

#[test]
fn answer_on_last_poll_is_still_in_time() {
    let mut readings = vec![Ok(false); 99];
    readings.extend(clean_frame([1, 2, 3, 4], 10));
    let (r, pin, _) = read_script(readings);
    assert_eq!(r, Ok([1, 2, 3, 4]));
    assert_eq!(pin.taken, 99 + 122);
}

#[test]
fn line_stuck_high_after_answer_times_out() {
    let (r, pin, _) = read_script(vec![Ok(true); 300]);
    assert_eq!(r, Err(DhtError::Timeout));
    assert_eq!(pin.taken, 1 + 100);
}

#[test]
fn line_stuck_high_within_bit_times_out() {
    let mut readings = vec![Ok(true), Ok(false), Ok(true), Ok(true)];
    readings.extend(vec![Ok(true); 200]);
    let (r, pin, _) = read_script(readings);
    assert_eq!(r, Err(DhtError::Timeout));
    assert_eq!(pin.taken, 4 + 100);
}

#[test]
fn line_error_at_any_reading_propagates() {
    let clean = clean_frame([0x32, 0x00, 0x1B, 0x00], 0x4D);
    for k in 0..clean.len() {
        let mut readings = clean.clone();
        readings[k] = Err(Fault(k as u32));
        let (r, pin, _) = read_script(readings);
        assert_eq!(r, Err(DhtError::PinError(Fault(k as u32))));
        assert_eq!(pin.taken, k + 1);
    }
}

#[test]
fn failed_release_is_ignored() {
    let mut pin = ScriptedPin::new(clean_frame([9, 8, 7, 6], 30));
    pin.refuse_set_high = true;
    let mut delay = RecordingDelay { pauses: Vec::new() };
    let r = read_raw(&mut delay, &mut pin);
    assert_eq!(r, Ok([9, 8, 7, 6]));
    assert_eq!(pin.set_high_calls, 1);
}

#[test]
fn pauses_follow_the_protocol() {
    let (_, _, delay) = read_script(clean_frame([0x80, 0, 0, 0], 0x80));
    // start pulse, then one sample delay per bit and nothing else
    assert_eq!(delay.pauses[0], START_PULSE_US);
    assert_eq!(delay.pauses.len(), 1 + 40);
    assert!(delay.pauses[1..].iter().all(|&p| p == SAMPLE_DELAY_US));
}

#[test]
fn decoder_steps_through_one_bit() {
    let mut d = Decoder::new();
    assert_eq!(d.stage(), Stage::AckHigh);
    assert_eq!(d.feed::<Fault>(Ok(false)), Next::ReadAfter(1));
    assert_eq!(d.feed::<Fault>(Ok(true)), Next::Read);
    assert_eq!(d.stage(), Stage::AckLow);
    assert_eq!(d.feed::<Fault>(Ok(false)), Next::Read);
    assert_eq!(d.stage(), Stage::Rise);
    assert_eq!(d.feed::<Fault>(Ok(true)), Next::ReadAfter(35));
    assert_eq!(d.stage(), Stage::Sample);
    assert_eq!(d.feed::<Fault>(Ok(true)), Next::Read);
    assert_eq!(d.stage(), Stage::Fall);
    assert_eq!(d.feed::<Fault>(Ok(true)), Next::ReadAfter(1));
    assert_eq!(d.feed::<Fault>(Ok(false)), Next::Read);
    assert_eq!(d.stage(), Stage::Rise);
}

#[test]
fn decoder_reports_first_line_error() {
    let mut d = Decoder::new();
    assert_eq!(d.feed(Err(Fault(3))), Next::Done(Err(DhtError::PinError(Fault(3)))));
    assert_eq!(d.stage(), Stage::Finished);
}

#[test]
fn bits_compose_most_significant_first() {
    let bits = [true, false, true, false, true, false, true, false];
    let mut acc: u8 = 0;
    for b in bits {
        acc = shift_in(acc, b);
    }
    assert_eq!(acc, 0xAA);
}

#[test]
fn shift_in_drops_the_top_bit() {
    assert_eq!(shift_in(0x80, true), 0x01);
    assert_eq!(shift_in(0x55, false), 0xAA);
}

#[test]
fn byte_read_from_line_is_0xaa() {
    let (r, _, _) = read_script(clean_frame([0xAA, 0x00, 0x00, 0x00], 0xAA));
    assert_eq!(r, Ok([0xAA, 0x00, 0x00, 0x00]));
}

#[test]
fn wrapping_sum_of_data() {
    assert_eq!(wrapping_sum(&[0x32, 0x00, 0x1B, 0x00]), 0x4D);
    assert_eq!(wrapping_sum(&[0xFF, 0xFF, 0xFF, 0xFF]), 0xFC);
    assert_eq!(wrapping_sum(&[0, 0, 0, 0]), 0);
}

#[test]
fn pin_error_converts_with_its_cause() {
    let e: DhtError<Fault> = DhtError::from(Fault(7));
    assert_eq!(e, DhtError::PinError(Fault(7)));
}

/// A sensor that drives the line over time; time moves only when the host
/// pauses.
struct TimedLine {
    now: Rc<Cell<u64>>,
    highs: Vec<(u64, u64)>,
}

impl InputOutputPin for TimedLine {
    type Error = Fault;

    fn is_high(&mut self) -> Result<bool, Fault> {
        let t = self.now.get();
        Ok(self.highs.iter().any(|&(a, b)| a <= t && t < b))
    }

    fn set_high(&mut self) -> Result<(), Fault> {
        Ok(())
    }
}

struct Clock {
    now: Rc<Cell<u64>>,
}

impl Delay for Clock {
    fn delay_us(&mut self, us: u32) {
        self.now.set(self.now.get() + us as u64);
    }
}

/// The sensor's answer, then 40 bits whose high pulses last the given
/// widths, each after a 50 us low gap.
fn timed_read(widths: &[u64]) -> Result<[u8; 4], DhtError<Fault>> {
    let now = Rc::new(Cell::new(0u64));
    let mut highs = vec![(60, 140)];
    let mut t = 190;
    for &w in widths {
        highs.push((t, t + w));
        t += w + 50;
    }
    let mut pin = TimedLine { now: now.clone(), highs };
    let mut clock = Clock { now };
    read_raw(&mut clock, &mut pin)
}

fn widths_for(frame: [u8; 5], one: u64, zero: u64) -> Vec<u64> {
    let mut w = Vec::new();
    for byte in frame {
        for i in 0..8 {
            w.push(if (byte >> (7 - i)) & 1 == 1 { one } else { zero });
        }
    }
    w
}

#[test]
fn long_pulse_reads_one_and_short_pulse_reads_zero() {
    let widths = widths_for([0x32, 0x00, 0x1B, 0x00, 0x4D], 70, 26);
    assert_eq!(timed_read(&widths), Ok([0x32, 0x00, 0x1B, 0x00]));
}

#[test]
fn pulse_of_exactly_sample_delay_reads_zero() {
    assert_eq!(timed_read(&[35; 40]), Ok([0, 0, 0, 0]));
}

#[test]
fn pulse_just_past_sample_delay_reads_one() {
    assert_eq!(timed_read(&[36; 40]), Err(DhtError::ChecksumMismatch));
    let widths = widths_for([0xFF, 0xFF, 0xFF, 0xFF, 0xFC], 36, 35);
    assert_eq!(timed_read(&widths), Ok([0xFF, 0xFF, 0xFF, 0xFF]));
}
