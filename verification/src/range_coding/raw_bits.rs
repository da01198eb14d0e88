//! Raw bits from the encoder to the decoder.
//!
//! The raw bits of a frame are one number: the bytes of the frame read from
//! its back, the last byte lowest. The encoder puts each value above those it
//! wrote before; the decoder takes each value from the bottom of what it has
//! not read yet.
use crate::range_coding::arith::{
    lemma_bits_above, lemma_bits_below, lemma_bits_rejoin, lemma_low_bits_of_low_bits,
    lemma_low_bits_shifted, lemma_low_bits_split, lemma_pow2_at_most, lemma_shift_twice,
};
use crate::range_coding::range_decoder::DecoderState;
use crate::range_coding::range_encoder::EncoderState;
use crate::range_coding::{MAX_RAW_BITS, SYMBOL_BITS, WINDOW_SIZE};
use vstd::arithmetic::div_mod::{lemma_basic_div, lemma_small_mod};
use vstd::arithmetic::power2::{lemma2_to64, lemma_pow2_adds, pow2};
use vstd::prelude::*;

verus! {

/// Each write is a value and a number of bits, at most `MAX_RAW_BITS`, that
/// hold the value.
pub open spec fn spec_raw_writes_fit(writes: Seq<(nat, nat)>) -> bool {
    forall|i: int|
        0 <= i < writes.len() ==> (#[trigger] writes[i]).1 <= MAX_RAW_BITS && writes[i].0 < pow2(
            writes[i].1,
        )
}

/// The number of bits of each write.
pub open spec fn spec_raw_sizes(writes: Seq<(nat, nat)>) -> Seq<nat> {
    Seq::new(writes.len(), |i: int| writes[i].1)
}

impl EncoderState {
    /// The state after each of `writes` was handed to `encode_bits`, in
    /// order.
    pub open spec fn after_raw_writes(self, writes: Seq<(nat, nat)>) -> EncoderState
        decreases writes.len(),
    {
        if writes.len() == 0 {
            self
        } else {
            self.after_raw_writes(writes.drop_last()).after_encode_bits(
                writes.last().0,
                writes.last().1,
            )
        }
    }

    /// No raw bits were written yet.
    pub open spec fn no_raw_bits(self) -> bool {
        &&& self.end_bytes.len() == 0
        &&& self.end_window == 0
        &&& self.num_end_bits == 0
    }
}

impl DecoderState {
    /// The state after `decode_bits` was called with each of `sizes`, in
    /// order.
    pub open spec fn after_raw_reads(self, sizes: Seq<nat>) -> DecoderState
        decreases sizes.len(),
    {
        if sizes.len() == 0 {
            self
        } else {
            self.after_raw_reads(sizes.drop_last()).after_decode_bits(sizes.last())
        }
    }

    /// No raw bits were read yet.
    pub open spec fn no_raw_bits(self) -> bool {
        &&& self.end_offset == 0
        &&& self.end_window == 0
        &&& self.num_end_bits == 0
    }
}

/// The number that the last `count` bytes of `frame` are, the last byte
/// lowest.
spec fn back_value(frame: Seq<u8>, count: nat) -> nat
    decreases count,
{
    if count == 0 || count > frame.len() {
        0
    } else {
        back_value(frame, (count - 1) as nat) + (frame[frame.len() - count] as nat) * pow2(
            (8 * (count - 1)) as nat,
        )
    }
}

/// The number that `bytes` are, the first byte lowest.
spec fn le_value(bytes: Seq<u8>) -> nat
    decreases bytes.len(),
{
    if bytes.len() == 0 {
        0
    } else {
        le_value(bytes.drop_last()) + (bytes.last() as nat) * pow2((8 * (bytes.len() - 1)) as nat)
    }
}

/// The number of the raw bits that an encoder holds, written or not.
spec fn written_value(e: EncoderState) -> nat {
    le_value(e.end_bytes) + e.end_window * pow2(8 * e.end_bytes.len())
}

/// The number of raw bits that an encoder holds.
spec fn written_bits(e: EncoderState) -> nat {
    8 * e.end_bytes.len() + e.num_end_bits
}

/// The sum of the sizes.
spec fn total_bits(sizes: Seq<nat>) -> nat
    decreases sizes.len(),
{
    if sizes.len() == 0 {
        0
    } else {
        total_bits(sizes.drop_last()) + sizes.last()
    }
}

/// The window of a decoder that has handed out `consumed` raw bits holds the
/// bits of the frame that follow them.
spec fn reads_follow(d: DecoderState, consumed: nat) -> bool {
    let all = back_value(d.frame, d.frame.len());
    &&& d.end_offset <= d.frame.len()
    &&& d.end_window == (all / pow2(consumed)) % pow2(d.num_end_bits)
    &&& d.end_offset < d.frame.len() ==> consumed + d.num_end_bits == 8 * d.end_offset
    &&& d.end_offset == d.frame.len() ==> consumed + d.num_end_bits >= 8 * d.frame.len()
}

proof fn lemma_back_value_bound(frame: Seq<u8>, count: nat)
    requires
        count <= frame.len(),
    ensures
        back_value(frame, count) < pow2(8 * count),
    decreases count,
{
    lemma2_to64();
    if count > 0 {
        let below = (8 * (count - 1)) as nat;
        lemma_back_value_bound(frame, (count - 1) as nat);
        lemma_pow2_adds(below, 8);
        let byte = frame[frame.len() - count];
        assert(back_value(frame, (count - 1) as nat) + byte * pow2(below) < pow2(below) * 256)
            by (nonlinear_arith)
            requires
                back_value(frame, (count - 1) as nat) < pow2(below),
                byte <= 255,
        ;
    }
}

/// Byte `j` from the back of the frame is bits `8j..8j + 8` of the number
/// of the last `count` bytes.
proof fn lemma_back_value_byte(frame: Seq<u8>, count: nat, j: nat)
    requires
        j < count <= frame.len(),
    ensures
        (back_value(frame, count) / pow2(8 * j)) % 256 == frame[frame.len() - 1 - j],
    decreases count,
{
    lemma2_to64();
    let below = (8 * (count - 1)) as nat;
    let rest = back_value(frame, (count - 1) as nat);
    let byte = frame[frame.len() - count] as nat;
    lemma_back_value_bound(frame, (count - 1) as nat);
    if j == count - 1 {
        lemma_bits_above(rest, byte, below);
    } else {
        lemma_back_value_byte(frame, (count - 1) as nat, j);
        lemma_bits_below(rest, byte, below, 8 * j, 8);
    }
}

/// The number of the whole frame is the number of its last `count` bytes
/// with something above bit `8 * count`.
proof fn lemma_back_value_extends(frame: Seq<u8>, count: nat, more: nat) -> (above: nat)
    requires
        count <= more <= frame.len(),
    ensures
        back_value(frame, more) == back_value(frame, count) + above * pow2(8 * count),
    decreases more - count,
{
    if more == count {
        assert(0 * pow2(8 * count) == 0) by (nonlinear_arith);
        0
    } else {
        let inner = lemma_back_value_extends(frame, count, (more - 1) as nat);
        let byte = frame[frame.len() - more] as nat;
        let gap = (8 * (more - 1) - 8 * count) as nat;
        lemma_pow2_adds(8 * count, gap);
        let above = inner + byte * pow2(gap);
        assert(above * pow2(8 * count) == inner * pow2(8 * count) + byte * (pow2(8 * count)
            * pow2(gap))) by (nonlinear_arith)
            requires
                above == inner + byte * pow2(gap),
        ;
        above
    }
}

/// The last bytes of a frame are a number of their own.
proof fn lemma_back_value_of_suffix(front: Seq<u8>, back: Seq<u8>, count: nat)
    requires
        count <= back.len(),
    ensures
        back_value(front + back, count) == back_value(back, count),
    decreases count,
{
    if count > 0 {
        lemma_back_value_of_suffix(front, back, (count - 1) as nat);
    }
}

/// Bytes in the order in which they were written, read from the back of
/// their reversal, are the number that they are.
proof fn lemma_back_value_of_reversed(bytes: Seq<u8>, count: nat)
    requires
        count <= bytes.len(),
    ensures
        back_value(bytes.reverse(), count) == le_value(bytes.take(count as int)),
    decreases count,
{
    if count > 0 {
        lemma_back_value_of_reversed(bytes, (count - 1) as nat);
        assert(bytes.take(count as int).drop_last() =~= bytes.take(count - 1));
    }
}

/// The byte that a decoder reads next from the back is the eight bits of
/// the frame's number that follow those in its window.
proof fn lemma_back_byte_follows(d: DecoderState, consumed: nat)
    requires
        reads_follow(d, consumed),
    ensures
        d.back_byte() == (back_value(d.frame, d.frame.len()) / pow2(consumed + d.num_end_bits))
            % 256,
{
    let all = back_value(d.frame, d.frame.len());
    lemma2_to64();
    if d.end_offset < d.frame.len() {
        lemma_back_value_byte(d.frame, d.frame.len(), d.end_offset);
    } else {
        lemma_back_value_bound(d.frame, d.frame.len());
        lemma_pow2_at_most(8 * d.frame.len(), consumed + d.num_end_bits);
        lemma_basic_div(all as int, pow2(consumed + d.num_end_bits) as int);
    }
}

proof fn lemma_refill_step_follows(d: DecoderState, consumed: nat)
    requires
        reads_follow(d, consumed),
    ensures
        reads_follow(d.refill_step(), consumed),
{
    let all = back_value(d.frame, d.frame.len());
    let a = d.num_end_bits;
    lemma2_to64();
    lemma_back_byte_follows(d, consumed);
    lemma_shift_twice(all, consumed, a);
    lemma_low_bits_split(all / pow2(consumed), a, 8);
    assert(d.back_byte() * pow2(a) == pow2(a) * d.back_byte()) by (nonlinear_arith);
}

proof fn lemma_refill_follows(d: DecoderState, consumed: nat)
    requires
        reads_follow(d, consumed),
        d.num_end_bits <= WINDOW_SIZE - SYMBOL_BITS,
    ensures
        reads_follow(d.refill(), consumed),
        d.refill().num_end_bits > WINDOW_SIZE - SYMBOL_BITS,
    decreases WINDOW_SIZE - d.num_end_bits,
{
    lemma_refill_step_follows(d, consumed);
    if d.refill_step().num_end_bits <= WINDOW_SIZE - SYMBOL_BITS {
        lemma_refill_follows(d.refill_step(), consumed);
    }
}

/// `decode_bits` hands out the bits of the frame's number that follow those
/// handed out before.
proof fn lemma_decode_bits_follows(d: DecoderState, consumed: nat, bits: nat)
    requires
        reads_follow(d, consumed),
        bits <= MAX_RAW_BITS,
    ensures
        d.raw_bits(bits) == (back_value(d.frame, d.frame.len()) / pow2(consumed)) % pow2(bits),
        reads_follow(d.after_decode_bits(bits), consumed + bits),
        d.after_decode_bits(bits).frame == d.frame,
{
    let all = back_value(d.frame, d.frame.len());
    if d.num_end_bits < bits {
        lemma_refill_follows(d, consumed);
    }
    let filled = d.with_bits(bits);
    let a = filled.num_end_bits;
    assert(filled.frame == d.frame) by {
        lemma_refill_keeps_frame(d);
    }
    lemma_low_bits_of_low_bits(all / pow2(consumed), a, bits);
    lemma_low_bits_shifted(all / pow2(consumed), a, bits);
    lemma_shift_twice(all, consumed, bits);
}

proof fn lemma_refill_keeps_frame(d: DecoderState)
    ensures
        d.refill().frame == d.frame,
    decreases WINDOW_SIZE - d.num_end_bits,
{
    if d.refill_step().num_end_bits <= WINDOW_SIZE - SYMBOL_BITS {
        lemma_refill_keeps_frame(d.refill_step());
    }
}

/// After a run of reads the window follows the bits that were read.
proof fn lemma_raw_reads_follow(d: DecoderState, sizes: Seq<nat>)
    requires
        d.no_raw_bits(),
        forall|i: int| 0 <= i < sizes.len() ==> sizes[i] <= MAX_RAW_BITS,
    ensures
        reads_follow(d.after_raw_reads(sizes), total_bits(sizes)),
        d.after_raw_reads(sizes).frame == d.frame,
    decreases sizes.len(),
{
    lemma2_to64();
    if sizes.len() > 0 {
        lemma_raw_reads_follow(d, sizes.drop_last());
        lemma_decode_bits_follows(
            d.after_raw_reads(sizes.drop_last()),
            total_bits(sizes.drop_last()),
            sizes.last(),
        );
    }
}

/// Writing the whole bytes of the window changes neither the number of the
/// raw bits nor their count, and leaves less than a byte in the window.
proof fn lemma_drained_value(e: EncoderState)
    requires
        e.end_window < pow2(e.num_end_bits),
    ensures
        written_value(e.drained()) == written_value(e),
        written_bits(e.drained()) == written_bits(e),
        e.drained().num_end_bits < 8,
        e.drained().end_window < pow2(e.drained().num_end_bits),
    decreases e.num_end_bits,
{
    lemma2_to64();
    if e.num_end_bits >= 8 {
        let next = EncoderState {
            end_bytes: e.end_bytes.push((e.end_window % 256) as u8),
            end_window: e.end_window / 256,
            num_end_bits: (e.num_end_bits - 8) as nat,
            ..e
        };
        let below = 8 * e.end_bytes.len();
        assert(next.end_bytes.drop_last() =~= e.end_bytes);
        lemma_pow2_adds((e.num_end_bits - 8) as nat, 8);
        lemma_pow2_adds(below, 8);
        lemma_bits_rejoin(e.end_window, 8);
        assert(e.end_window / 256 < pow2((e.num_end_bits - 8) as nat)) by (nonlinear_arith)
            requires
                e.end_window < pow2((e.num_end_bits - 8) as nat) * 256,
        ;
        assert((e.end_window % 256) * pow2(below) + (e.end_window / 256) * (pow2(below) * 256)
            == e.end_window * pow2(below)) by (nonlinear_arith)
            requires
                e.end_window == e.end_window % 256 + 256 * (e.end_window / 256),
        ;
        lemma_drained_value(next);
    }
}

/// `encode_bits` puts the value above the raw bits that the encoder holds.
proof fn lemma_encode_bits_value(e: EncoderState, value: nat, bits: nat)
    requires
        e.end_window < pow2(e.num_end_bits),
        value < pow2(bits),
    ensures
        written_value(e.after_encode_bits(value, bits)) == written_value(e) + value * pow2(
            written_bits(e),
        ),
        written_bits(e.after_encode_bits(value, bits)) == written_bits(e) + bits,
        e.after_encode_bits(value, bits).end_window < pow2(
            e.after_encode_bits(value, bits).num_end_bits,
        ),
{
    lemma_drained_value(e);
    lemma_small_mod(value, pow2(bits));
    let made = if e.num_end_bits + bits > WINDOW_SIZE {
        e.drained()
    } else {
        e
    };
    let below = 8 * made.end_bytes.len();
    lemma_pow2_adds(made.num_end_bits, bits);
    lemma_pow2_adds(made.num_end_bits, below);
    assert(made.end_window + value * pow2(made.num_end_bits) < pow2(made.num_end_bits) * pow2(
        bits,
    )) by (nonlinear_arith)
        requires
            made.end_window < pow2(made.num_end_bits),
            value < pow2(bits),
    ;
    assert((made.end_window + value * pow2(made.num_end_bits)) * pow2(below) == made.end_window
        * pow2(below) + value * (pow2(made.num_end_bits) * pow2(below))) by (nonlinear_arith);
}

/// The number that the values of `writes` make, each above those before it.
spec fn writes_value(writes: Seq<(nat, nat)>) -> nat
    decreases writes.len(),
{
    if writes.len() == 0 {
        0
    } else {
        writes_value(writes.drop_last()) + writes.last().0 * pow2(
            total_bits(spec_raw_sizes(writes.drop_last())),
        )
    }
}

/// The first `i + 1` writes take the bits of the first `i` and those of
/// write `i`, and no more bits than all of them.
proof fn lemma_total_bits_take(writes: Seq<(nat, nat)>, i: int)
    requires
        0 <= i < writes.len(),
    ensures
        total_bits(spec_raw_sizes(writes.take(i + 1))) == total_bits(
            spec_raw_sizes(writes.take(i)),
        ) + writes[i].1,
        total_bits(spec_raw_sizes(writes.take(i + 1))) <= total_bits(spec_raw_sizes(writes)),
    decreases writes.len() - i,
{
    assert(spec_raw_sizes(writes.take(i + 1)).drop_last() =~= spec_raw_sizes(writes.take(i)));
    if i + 1 == writes.len() {
        assert(writes.take(i + 1) =~= writes);
    } else {
        lemma_total_bits_take(writes, i + 1);
    }
}

/// The values of the writes make a number of as many bits as they take, and
/// write `i` is the bits of that number at its place.
proof fn lemma_writes_value_bits(writes: Seq<(nat, nat)>, i: int)
    requires
        spec_raw_writes_fit(writes),
        0 <= i < writes.len(),
    ensures
        writes_value(writes) < pow2(total_bits(spec_raw_sizes(writes))),
        (writes_value(writes) / pow2(total_bits(spec_raw_sizes(writes.take(i))))) % pow2(
            writes[i].1,
        ) == writes[i].0,
    decreases writes.len(),
{
    let before = writes.drop_last();
    let below = total_bits(spec_raw_sizes(before));
    let (value, bits) = writes.last();
    lemma2_to64();
    assert(spec_raw_sizes(writes).drop_last() =~= spec_raw_sizes(before));
    assert(before =~= writes.take(writes.len() - 1));
    if before.len() > 0 {
        lemma_writes_value_bits(before, 0);
    }
    assert(writes_value(before) < pow2(below));
    lemma_pow2_adds(below, bits);
    assert(writes_value(before) + value * pow2(below) < pow2(below) * pow2(bits))
        by (nonlinear_arith)
        requires
            writes_value(before) < pow2(below),
            value < pow2(bits),
    ;
    if i == writes.len() - 1 {
        lemma_bits_above(writes_value(before), value, below);
        lemma_small_mod(value, pow2(bits));
    } else {
        lemma_writes_value_bits(before, i);
        assert(before.take(i) =~= writes.take(i));
        lemma_total_bits_take(before, i);
        lemma_bits_below(
            writes_value(before),
            value,
            below,
            total_bits(spec_raw_sizes(writes.take(i))),
            writes[i].1,
        );
    }
}

/// An encoder that held no raw bits holds the number that the writes make.
proof fn lemma_raw_writes_value(e: EncoderState, writes: Seq<(nat, nat)>)
    requires
        e.no_raw_bits(),
        spec_raw_writes_fit(writes),
    ensures
        written_value(e.after_raw_writes(writes)) == writes_value(writes),
        written_bits(e.after_raw_writes(writes)) == total_bits(spec_raw_sizes(writes)),
        e.after_raw_writes(writes).end_window < pow2(e.after_raw_writes(writes).num_end_bits),
    decreases writes.len(),
{
    lemma2_to64();
    if writes.len() > 0 {
        let before = writes.drop_last();
        assert(spec_raw_sizes(writes).drop_last() =~= spec_raw_sizes(before));
        lemma_raw_writes_value(e, before);
        lemma_encode_bits_value(e.after_raw_writes(before), writes.last().0, writes.last().1);
    } else {
        assert(0 * pow2(8 * e.end_bytes.len()) == 0) by (nonlinear_arith);
    }
}

/// The number of the bytes at the back of a frame is the number of the raw
/// bits that the encoder held, and the bytes hold all of these bits.
proof fn lemma_back_holds_written_value(e: EncoderState, front: Seq<u8>)
    requires
        e.end_window < pow2(e.num_end_bits),
    ensures
        back_value(front + e.back(), e.back().len()) == written_value(e),
        written_bits(e) <= 8 * e.back().len(),
{
    lemma2_to64();
    lemma_drained_value(e);
    let made = e.drained();
    lemma_pow2_at_most(made.num_end_bits, 8);
    let bytes = if made.num_end_bits > 0 {
        made.end_bytes.push(made.end_window as u8)
    } else {
        made.end_bytes
    };
    assert(e.back() =~= bytes.reverse());
    lemma_back_value_of_suffix(front, e.back(), e.back().len());
    lemma_back_value_of_reversed(bytes, bytes.len());
    assert(bytes.take(bytes.len() as int) =~= bytes);
    if made.num_end_bits > 0 {
        assert(bytes.drop_last() =~= made.end_bytes);
    } else {
        assert(made.end_window * pow2(8 * made.end_bytes.len()) == 0) by (nonlinear_arith)
            requires
                made.end_window == 0,
        ;
    }
}

/// Raw bits that were written are read back. A frame ends with the raw
/// bits of an encoder that held none before `writes`; whatever stands before
/// them in the frame, a decoder that has read no raw bits yet and reads them
/// in the sizes in which they were written finds each value that was
/// written.
pub proof fn lemma_raw_bits_round_trip(
    encoder: EncoderState,
    writes: Seq<(nat, nat)>,
    front: Seq<u8>,
    decoder: DecoderState,
    i: int,
)
    requires
        encoder.no_raw_bits(),
        spec_raw_writes_fit(writes),
        decoder.no_raw_bits(),
        decoder.frame == front + encoder.after_raw_writes(writes).back(),
        0 <= i < writes.len(),
    ensures
        decoder.after_raw_reads(spec_raw_sizes(writes.take(i))).raw_bits(writes[i].1)
            == writes[i].0,
{
    let written = encoder.after_raw_writes(writes);
    let back = written.back();
    let sizes = spec_raw_sizes(writes.take(i));
    let consumed = total_bits(sizes);
    let all = back_value(decoder.frame, decoder.frame.len());
    lemma_raw_writes_value(encoder, writes);
    lemma_back_holds_written_value(written, front);
    let above = lemma_back_value_extends(decoder.frame, back.len(), decoder.frame.len());
    lemma_raw_reads_follow(decoder, sizes);
    lemma_decode_bits_follows(decoder.after_raw_reads(sizes), consumed, writes[i].1);
    lemma_writes_value_bits(writes, i);
    lemma_total_bits_take(writes, i);
    lemma_bits_below(writes_value(writes), above, 8 * back.len(), consumed, writes[i].1);
}

} // verus!
