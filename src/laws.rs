//! What a read yields on whole runs of line readings.
use vstd::prelude::*;

use crate::decoder::{
    bit_complete, initial_model, lemma_run_push, run, shifted_in, step, validate,
    wrapping_sum_of, pause_seq, run_pauses, DecoderModel, Run, Stage, Step, POLL_INTERVAL_US,
    SAMPLE_DELAY_US, TIMEOUT_POLLS,
};
use crate::error::DhtError;

verus! {

/// Bit `i` of `b`, counted from the most significant (`i` in `0..8`).
pub open spec fn bit_at(b: u8, i: int) -> bool {
    ((b >> ((7 - i) as u8)) & 1u8) == 1u8
}

/// The bits of `b`, most significant first.
pub open spec fn bits_of(b: u8) -> Seq<bool> {
    Seq::new(8, |i: int| bit_at(b, i))
}

/// `acc` with `bits` shifted in, first to last.
pub open spec fn compose(acc: u8, bits: Seq<bool>) -> u8
    decreases bits.len(),
{
    if bits.len() == 0 {
        acc
    } else {
        shifted_in(compose(acc, bits.drop_last()), bits.last())
    }
}

/// The value of the first `k` bits of `b`, most significant first.
pub open spec fn high_bits(b: u8, k: nat) -> u8 {
    if k == 0 {
        0
    } else {
        b >> ((8 - k) as u8)
    }
}

/// The readings of a clean bit: the line rises, holds `bit` at the sample
/// point, and falls.
pub open spec fn bit_readings<E>(bit: bool) -> Seq<Result<bool, E>> {
    seq![Ok(true), Ok(bit), Ok(false)]
}

pub open spec fn bits_readings<E>(bits: Seq<bool>) -> Seq<Result<bool, E>>
    decreases bits.len(),
{
    if bits.len() == 0 {
        Seq::empty()
    } else {
        bits_readings(bits.drop_last()) + bit_readings(bits.last())
    }
}

/// The readings of a clean byte, most significant bit first.
pub open spec fn byte_readings<E>(b: u8) -> Seq<Result<bool, E>> {
    bits_readings(bits_of(b))
}

pub open spec fn bytes_readings<E>(bytes: Seq<u8>) -> Seq<Result<bool, E>>
    decreases bytes.len(),
{
    if bytes.len() == 0 {
        Seq::empty()
    } else {
        bytes_readings(bytes.drop_last()) + byte_readings(bytes.last())
    }
}

/// The readings of a clean frame: the sensor's answer (high, then low),
/// the data bytes, then the checksum byte.
pub open spec fn frame_readings<E>(data: Seq<u8>, checksum: u8) -> Seq<Result<bool, E>> {
    seq![Ok(true), Ok(false)] + bytes_readings(data) + byte_readings(checksum)
}

/// The decoder stands at the rising edge of bit `bits` of a byte, having
/// read `acc` of it and the complete bytes `bytes`.
pub open spec fn at_bit(m: DecoderModel, bits: nat, acc: u8, bytes: Seq<u8>) -> bool {
    &&& m.stage == Stage::Rise
    &&& m.polls == 0
    &&& m.bits == bits
    &&& m.acc == acc
    &&& m.bytes == bytes
}

/// Running two pieces one after the other.
pub proof fn lemma_run_append<E>(m: DecoderModel, a: Seq<Result<bool, E>>, b: Seq<Result<bool, E>>)
    ensures
        run(m, a + b) == match run(m, a) {
            Run::Pending(x) => match run(x, b) {
                Run::Pending(y) => Run::<E>::Pending(y),
                Run::Finished(r, n) => Run::Finished(r, a.len() + n),
            },
            Run::Finished(r, n) => Run::Finished(r, n),
        },
        run(m, a) is Finished ==> run_pauses(m, a + b) == run_pauses(m, a),
    decreases a.len(),
{
    if a.len() == 0 {
        assert(a + b == b);
    } else {
        assert((a + b)[0] == a[0]);
        assert((a + b).drop_first() == a.drop_first() + b);
        if let Step::Continue(m2) = step(m, a[0]) {
            lemma_run_append(m2, a.drop_first(), b);
        }
    }
}

/// A read takes at most 8240 readings (`TIMEOUT_POLLS` for each of the 82
/// waits, one sample for each of the 40 bits), and pauses only between two
/// readings.
pub proof fn lemma_read_is_bounded<E>(m: DecoderModel, readings: Seq<Result<bool, E>>)
    requires
        m.valid(),
        run(m, readings) is Finished,
    ensures
        run(m, readings)->Finished_1 <= m.remaining(),
        m == initial_model() ==> run(m, readings)->Finished_1 <= 8240,
        run_pauses(m, readings).len() < run(m, readings)->Finished_1,
    decreases readings.len(),
{
    if let Step::Continue(m2) = step(m, readings[0]) {
        lemma_read_is_bounded(m2, readings.drop_first());
    }
}

/// A run never takes more readings than it is given.
pub proof fn lemma_run_finished_within<E>(m: DecoderModel, a: Seq<Result<bool, E>>)
    ensures
        run(m, a) is Finished ==> run(m, a)->Finished_1 <= a.len(),
    decreases a.len(),
{
    if a.len() > 0 {
        if let Step::Continue(m2) = step(m, a[0]) {
            lemma_run_finished_within(m2, a.drop_first());
        }
    }
}

proof fn lemma_shift_step(b: u8, k: u8)
    requires
        k < 8,
    ensures
        shifted_in(high_bits(b, k as nat), bit_at(b, k as int)) == high_bits(b, (k + 1) as nat),
{
    let bit = bit_at(b, k as int);
    if k == 0 {
        assert((((0u8 << 1u8) | (if (b >> 7u8) & 1u8 == 1u8 { 1u8 } else { 0u8 })) as u8) == b >> 7u8)
            by (bit_vector);
    } else {
        assert(1 <= k < 8 ==> ((((b >> ((8 - k) as u8)) << 1u8) | (if (b >> ((7 - k) as u8)) & 1u8
            == 1u8 { 1u8 } else { 0u8 })) as u8) == b >> ((8 - (k + 1)) as u8)) by (bit_vector);
    }
}

/// Eight bits read most significant first compose into the byte they came
/// from.
pub proof fn lemma_bits_compose(b: u8)
    ensures
        compose(0, bits_of(b)) == b,
{
    assert forall|k: nat| k <= 8 implies compose(0, #[trigger] bits_of(b).take(k as int))
        == high_bits(b, k) by {
        lemma_compose_prefix(b, k);
    }
    assert(bits_of(b).take(8) == bits_of(b));
    assert(b >> 0u8 == b) by (bit_vector);
}

proof fn lemma_compose_prefix(b: u8, k: nat)
    requires
        k <= 8,
    ensures
        compose(0, bits_of(b).take(k as int)) == high_bits(b, k),
    decreases k,
{
    if k > 0 {
        let t = bits_of(b).take(k as int);
        assert(t.drop_last() == bits_of(b).take(k - 1));
        lemma_compose_prefix(b, (k - 1) as nat);
        lemma_shift_step(b, (k - 1) as u8);
    }
}

/// A bit is the level read once, `SAMPLE_DELAY_US` after its rising edge
/// was seen: that level is shifted into the byte when the line then falls.
pub proof fn lemma_bit<E>(m: DecoderModel, bit: bool)
    requires
        m.valid(),
        m.stage == Stage::Rise,
        m.polls == 0,
    ensures
        step(m, Ok::<bool, E>(true)) is Continue,
        step(m, Ok::<bool, E>(true))->Continue_0.pause() == SAMPLE_DELAY_US,
        run(m, bit_readings::<E>(bit)) == match bit_complete::<E>(
            DecoderModel { stage: Stage::Fall, polls: 0, sampled: bit, ..m },
        ) {
            Step::Continue(m2) => Run::<E>::Pending(m2),
            Step::Done(r) => Run::Finished(r, 3),
        },
{
    let rs = bit_readings::<E>(bit);
    let m1 = DecoderModel { stage: Stage::Sample, polls: 0, ..m };
    let m2 = DecoderModel { stage: Stage::Fall, polls: 0, sampled: bit, ..m };
    assert(rs.drop_first() == seq![Ok::<bool, E>(bit), Ok(false)]);
    assert(rs.drop_first().drop_first() == seq![Ok::<bool, E>(false)]);
    assert(rs.drop_first().drop_first().drop_first().len() == 0);
    if let Step::Continue(m3) = bit_complete::<E>(m2) {
        assert(run(m3, rs.drop_first().drop_first().drop_first()) == Run::<E>::Pending(m3));
    }
    assert(run(m2, rs.drop_first().drop_first()) == match bit_complete::<E>(m2) {
        Step::Continue(m3) => Run::<E>::Pending(m3),
        Step::Done(r) => Run::Finished(r, 1),
    });
    assert(step(m1, rs.drop_first()[0]) == Step::<E>::Continue(m2));
    assert(run(m1, rs.drop_first()) == match bit_complete::<E>(m2) {
        Step::Continue(m3) => Run::<E>::Pending(m3),
        Step::Done(r) => Run::Finished(r, 2),
    });
    assert(step(m, rs[0]) == Step::<E>::Continue(m1));
}

proof fn lemma_bits_readings_len<E>(bits: Seq<bool>)
    ensures
        bits_readings::<E>(bits).len() == 3 * bits.len(),
    decreases bits.len(),
{
    if bits.len() > 0 {
        lemma_bits_readings_len::<E>(bits.drop_last());
    }
}

proof fn lemma_bytes_readings_len<E>(bytes: Seq<u8>)
    ensures
        bytes_readings::<E>(bytes).len() == 24 * bytes.len(),
    decreases bytes.len(),
{
    if bytes.len() > 0 {
        lemma_bytes_readings_len::<E>(bytes.drop_last());
        lemma_bits_readings_len::<E>(bits_of(bytes.last()));
    }
}

/// The first `k` bits of a clean byte, read from the start of the byte.
proof fn lemma_byte_prefix<E>(m: DecoderModel, b: u8, k: nat)
    requires
        m.valid(),
        at_bit(m, 0, 0, m.bytes),
        k <= 7,
    ensures
        run(m, bits_readings::<E>(bits_of(b).take(k as int))) is Pending,
        run(m, bits_readings::<E>(bits_of(b).take(k as int)))->Pending_0.valid(),
        at_bit(
            run(m, bits_readings::<E>(bits_of(b).take(k as int)))->Pending_0,
            k,
            high_bits(b, k),
            m.bytes,
        ),
    decreases k,
{
    let t = bits_of(b).take(k as int);
    if k == 0 {
        assert(t.len() == 0);
        assert(bits_readings::<E>(t).len() == 0);
    } else {
        let head = bits_of(b).take(k - 1);
        assert(t.drop_last() == head);
        assert(t.last() == bit_at(b, k - 1));
        lemma_byte_prefix::<E>(m, b, (k - 1) as nat);
        let x = run(m, bits_readings::<E>(head))->Pending_0;
        lemma_bit::<E>(x, bit_at(b, k - 1));
        lemma_run_append(m, bits_readings::<E>(head), bit_readings::<E>(bit_at(b, k - 1)));
        lemma_shift_step(b, (k - 1) as u8);
    }
}

/// One clean byte, read from its first rising edge.
proof fn lemma_byte<E>(m: DecoderModel, b: u8)
    requires
        m.valid(),
        at_bit(m, 0, 0, m.bytes),
    ensures
        m.bytes.len() < 4 ==> {
            &&& run(m, byte_readings::<E>(b)) is Pending
            &&& run(m, byte_readings::<E>(b))->Pending_0.valid()
            &&& at_bit(run(m, byte_readings::<E>(b))->Pending_0, 0, 0, m.bytes.push(b))
        },
        m.bytes.len() == 4 ==> run(m, byte_readings::<E>(b)) == Run::<E>::Finished(
            validate(m.bytes, b),
            24,
        ),
{
    let head = bits_of(b).take(7);
    assert(bits_of(b).drop_last() == head);
    lemma_byte_prefix::<E>(m, b, 7);
    let x = run(m, bits_readings::<E>(head))->Pending_0;
    lemma_bit::<E>(x, bit_at(b, 7));
    lemma_run_append(m, bits_readings::<E>(head), bit_readings::<E>(bit_at(b, 7)));
    lemma_shift_step(b, 7);
    assert(b >> 0u8 == b) by (bit_vector);
    lemma_bits_readings_len::<E>(head);
}

/// Clean bytes read one after another from the start of a byte.
proof fn lemma_bytes<E>(m: DecoderModel, bytes: Seq<u8>)
    requires
        m.valid(),
        at_bit(m, 0, 0, m.bytes),
        m.bytes.len() + bytes.len() <= 4,
    ensures
        run(m, bytes_readings::<E>(bytes)) is Pending,
        run(m, bytes_readings::<E>(bytes))->Pending_0.valid(),
        at_bit(run(m, bytes_readings::<E>(bytes))->Pending_0, 0, 0, m.bytes + bytes),
    decreases bytes.len(),
{
    if bytes.len() == 0 {
        assert(m.bytes + bytes == m.bytes);
    } else {
        let head = bytes.drop_last();
        lemma_bytes::<E>(m, head);
        let x = run(m, bytes_readings::<E>(head))->Pending_0;
        lemma_byte::<E>(x, bytes.last());
        lemma_run_append(m, bytes_readings::<E>(head), byte_readings::<E>(bytes.last()));
        assert(m.bytes + head + seq![bytes.last()] == m.bytes + bytes);
        assert((m.bytes + head).push(bytes.last()) == m.bytes + bytes);
    }
}

/// A clean frame is read whole, and the read ends on its last reading with
/// the data when the checksum matches and `ChecksumMismatch` when it does
/// not.
pub proof fn lemma_frame_decodes<E>(data: Seq<u8>, checksum: u8)
    requires
        data.len() == 4,
    ensures
        frame_readings::<E>(data, checksum).len() == 122,
        run(initial_model(), frame_readings::<E>(data, checksum)) == Run::<E>::Finished(
            validate(data, checksum),
            122,
        ),
{
    let start = seq![Ok::<bool, E>(true), Ok(false)];
    let m0 = initial_model();
    let m1 = DecoderModel { stage: Stage::AckLow, ..m0 };
    let m2 = DecoderModel { stage: Stage::Rise, ..m0 };
    assert(start.drop_first() == seq![Ok::<bool, E>(false)]);
    assert(start.drop_first().drop_first().len() == 0);
    assert(run(m2, start.drop_first().drop_first()) == Run::<E>::Pending(m2));
    assert(run(m1, start.drop_first()) == Run::<E>::Pending(m2));
    assert(run(m0, start) == Run::<E>::Pending(m2));
    lemma_bytes::<E>(m2, data);
    lemma_run_append(m0, start, bytes_readings::<E>(data));
    let x = run(m2, bytes_readings::<E>(data))->Pending_0;
    assert(Seq::<u8>::empty() + data == data);
    lemma_byte::<E>(x, checksum);
    lemma_run_append(m0, start + bytes_readings::<E>(data), byte_readings::<E>(checksum));
    lemma_bytes_readings_len::<E>(data);
    lemma_bits_readings_len::<E>(bits_of(checksum));
}

/// A clean frame whose checksum is the wrapping sum of its data bytes reads
/// as exactly those bytes.
pub proof fn lemma_valid_frame_reads_data<E>(data: Seq<u8>, checksum: u8)
    requires
        data.len() == 4,
        checksum == wrapping_sum_of(data),
    ensures
        run(initial_model(), frame_readings::<E>(data, checksum)) == Run::<E>::Finished(
            Ok(data),
            frame_readings::<E>(data, checksum).len(),
        ),
{
    lemma_frame_decodes::<E>(data, checksum);
}

/// A clean frame whose checksum is not the wrapping sum of its data bytes
/// fails with `ChecksumMismatch`, and no data comes out.
pub proof fn lemma_corrupt_frame_fails<E>(data: Seq<u8>, checksum: u8)
    requires
        data.len() == 4,
        checksum != wrapping_sum_of(data),
    ensures
        run(initial_model(), frame_readings::<E>(data, checksum)) == Run::<E>::Finished(
            Err(DhtError::ChecksumMismatch),
            frame_readings::<E>(data, checksum).len(),
        ),
{
    lemma_frame_decodes::<E>(data, checksum);
}

proof fn lemma_silent_prefix<E>(readings: Seq<Result<bool, E>>, k: nat)
    requires
        k < TIMEOUT_POLLS,
        k <= readings.len(),
        forall|i: int| 0 <= i < k ==> readings[i] == Ok::<bool, E>(false),
    ensures
        run(initial_model(), readings.take(k as int)) == Run::<E>::Pending(
            DecoderModel { polls: k, ..initial_model() },
        ),
        run_pauses(initial_model(), readings.take(k as int)) == Seq::new(
            k,
            |i: int| POLL_INTERVAL_US,
        ),
    decreases k,
{
    if k == 0 {
        assert(readings.take(0).len() == 0);
        assert(run_pauses(initial_model(), readings.take(0)) =~= Seq::new(0, |i: int| POLL_INTERVAL_US));
    } else {
        lemma_silent_prefix(readings, (k - 1) as nat);
        lemma_run_push(initial_model(), readings.take(k - 1), readings[k - 1]);
        assert(readings.take(k - 1).push(readings[k - 1]) == readings.take(k as int));
        assert(pause_seq(DecoderModel { polls: k, ..initial_model() }) == seq![POLL_INTERVAL_US]);
        assert(Seq::new((k - 1) as nat, |i: int| POLL_INTERVAL_US) + seq![POLL_INTERVAL_US] =~= Seq::new(
            k,
            |i: int| POLL_INTERVAL_US,
        ));
    }
}

/// A line that stays low through the sensor's answer fails the read with
/// `Timeout` at exactly the `TIMEOUT_POLLS`-th reading: no sooner, and no
/// reading is taken after it. The host pauses `POLL_INTERVAL_US` between
/// each two of those readings, and at no other time.
pub proof fn lemma_silent_line_times_out<E>(readings: Seq<Result<bool, E>>)
    requires
        readings.len() >= TIMEOUT_POLLS,
        forall|i: int| 0 <= i < TIMEOUT_POLLS ==> readings[i] == Ok::<bool, E>(false),
    ensures
        run(initial_model(), readings) == Run::<E>::Finished(
            Err(DhtError::Timeout),
            TIMEOUT_POLLS as nat,
        ),
        run_pauses(initial_model(), readings) == Seq::new(
            (TIMEOUT_POLLS - 1) as nat,
            |i: int| POLL_INTERVAL_US,
        ),
{
    let n = TIMEOUT_POLLS as int;
    lemma_silent_prefix(readings, (n - 1) as nat);
    lemma_run_push(initial_model(), readings.take(n - 1), readings[n - 1]);
    assert(readings.take(n - 1).push(readings[n - 1]) == readings.take(n));
    lemma_run_append(initial_model(), readings.take(n), readings.skip(n));
    assert(readings.take(n) + readings.skip(n) == readings);
    assert(run_pauses(initial_model(), readings.take(n - 1)) + Seq::<u32>::empty() == run_pauses(
        initial_model(),
        readings.take(n - 1),
    ));
}

/// A failed reading anywhere in a frame ends the read with that very error
/// at that reading; nothing after it is read.
pub proof fn lemma_line_error_propagates<E>(data: Seq<u8>, checksum: u8, k: int, e: E)
    requires
        data.len() == 4,
        0 <= k < frame_readings::<E>(data, checksum).len(),
    ensures
        run(initial_model(), frame_readings::<E>(data, checksum).update(k, Err(e)))
            == Run::<E>::Finished(Err(DhtError::PinError(e)), (k + 1) as nat),
{
    let clean = frame_readings::<E>(data, checksum);
    let faulty = clean.update(k, Err(e));
    let m0 = initial_model();
    lemma_frame_decodes::<E>(data, checksum);
    lemma_run_append(m0, clean.take(k), clean.skip(k));
    assert(clean.take(k) + clean.skip(k) == clean);
    lemma_run_finished_within(m0, clean.take(k));
    assert(run(m0, clean.take(k)) is Pending);
    assert(faulty.take(k) == clean.take(k));
    lemma_run_push(m0, faulty.take(k), Err(e));
    assert(faulty.take(k).push(Err(e)) == faulty.take(k + 1));
    lemma_run_append(m0, faulty.take(k + 1), faulty.skip(k + 1));
    assert(faulty.take(k + 1) + faulty.skip(k + 1) == faulty);
}

} // verus!
