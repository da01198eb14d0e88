//! From the encoder to the decoder.
//!
//! The decoder takes the top seven bits of the first byte, and then each
//! further byte whole, with the low bit of the byte before it set into its
//! lowest place. With each symbol that it takes off, it narrows a range as
//! the encoder does, and it finds a symbol exactly where the number that it
//! has taken in lies in the part of that symbol.
//!
//! The two ends agree on the parts of the symbols that start above place 0.
//! They agree on the number where a frame is read as it is written: where
//! what the decoder takes in are the bits of the frame in their order, the
//! low bit of each byte followed by the top seven bits of the next. On such a
//! frame the decoder finds the symbols that were encoded.
use crate::range_coding::code_range::{
    lemma_be_value_bound, lemma_be_value_concat, lemma_finer_twice,
    lemma_front_lies_in_code_range, lemma_holds_in_outer, lemma_holds_with_more, spec_be_value,
    spec_symbols_fit, CodeRange,
};
use crate::range_coding::range_decoder::{
    lemma_position_brackets, lemma_renormalize_wf, lemma_update_wf, DecoderState,
};
use crate::range_coding::range_decoder::lemma_uint_split_bounds;
use crate::range_coding::range_encoder::{lemma_narrowed_within, EncoderState};
use crate::range_coding::raw_bits::{lemma_raw_bits_round_trip, spec_raw_sizes};
use crate::range_coding::{CODE_BOTTOM, CODE_TOP};
use vstd::arithmetic::div_mod::{lemma_fundamental_div_mod, lemma_fundamental_div_mod_converse};
use vstd::arithmetic::power2::{lemma2_to64, lemma_pow2_adds, lemma_pow2_pos, pow2};
use vstd::prelude::*;

verus! {

/// Byte `i` of a frame as a decoder reads it from the front: 0 past the end.
pub open spec fn spec_frame_byte(frame: Seq<u8>, i: int) -> nat {
    if 0 <= i < frame.len() {
        frame[i] as nat
    } else {
        0
    }
}

/// What the decoder takes in for byte `i` of a frame: the byte, with the low
/// bit of the byte before it set into its lowest place.
pub open spec fn spec_merged_byte(frame: Seq<u8>, i: int) -> nat {
    let byte = spec_frame_byte(frame, i);
    if spec_frame_byte(frame, i - 1) % 2 == 1 && byte % 2 == 0 {
        byte + 1
    } else {
        byte
    }
}

/// The eight bits of a frame that end one bit before the end of byte `i`:
/// the low bit of the byte before it, and the top seven bits of byte `i`.
pub open spec fn spec_straight_byte(frame: Seq<u8>, i: int) -> nat {
    (spec_frame_byte(frame, i - 1) % 2) * 128 + spec_frame_byte(frame, i) / 2
}

/// The decoder reads the frame as it is written: what it takes in for each
/// byte are the bits of the frame at that place.
pub open spec fn spec_reads_straight(frame: Seq<u8>) -> bool {
    forall|i: int|
        1 <= i <= frame.len() ==> #[trigger] spec_merged_byte(frame, i) == spec_straight_byte(
            frame,
            i,
        )
}

/// Each symbol starts above place 0.
pub open spec fn spec_symbols_start_above_zero(symbols: Seq<(nat, nat, nat)>) -> bool {
    forall|i: int| 0 <= i < symbols.len() ==> (#[trigger] symbols[i]).0 > 0
}

impl DecoderState {
    /// The state after `decode` and `update` were called for each of
    /// `symbols`, in order.
    pub open spec fn after_symbols(self, symbols: Seq<(nat, nat, nat)>) -> DecoderState
        decreases symbols.len(),
    {
        if symbols.len() == 0 {
            self
        } else {
            self.after_symbols(symbols.drop_last()).after_decode(symbols.last().2).after_update(
                symbols.last().0,
                symbols.last().1,
                symbols.last().2,
            )
        }
    }
}

/// The number that the decoder has taken in after the first byte and
/// `count` more: seven bits and `count` times eight.
pub open spec fn spec_merged_value(frame: Seq<u8>, count: nat) -> nat
    decreases count,
{
    if count == 0 {
        spec_frame_byte(frame, 0) / 2
    } else {
        spec_merged_value(frame, (count - 1) as nat) * 256 + spec_merged_byte(frame, count as int)
    }
}

impl CodeRange {
    /// The part of the range in which the decoder finds the symbol that
    /// covers the places `low..high` of a scale of `total` steps. For a
    /// symbol that starts above place 0 it is the part that the encoder gives
    /// to it; for one that starts at place 0 it is all of the range below the
    /// steps of the places from `high` on.
    pub open spec fn read_part(self, low: nat, high: nat, total: nat) -> CodeRange {
        if low > 0 {
            self.narrowed(low, high, total)
        } else {
            CodeRange { size: (self.size - (self.size / total) * (total - high)) as nat, ..self }
        }
    }

    /// The range that the decoder keeps after it has taken off each of
    /// `symbols`, in order.
    pub open spec fn read(symbols: Seq<(nat, nat, nat)>) -> CodeRange
        decreases symbols.len(),
    {
        if symbols.len() == 0 {
            Self::whole()
        } else {
            let part = Self::read(symbols.drop_last()).read_part(
                symbols.last().0,
                symbols.last().1,
                symbols.last().2,
            );
            part.finer(part.scale_steps())
        }
    }
}

/// The part of the range in which the decoder finds symbol `i` of `symbols`,
/// after it has taken off the symbols before it.
pub open spec fn spec_symbol_part(symbols: Seq<(nat, nat, nat)>, i: int) -> CodeRange {
    CodeRange::read(symbols.take(i)).read_part(symbols[i].0, symbols[i].1, symbols[i].2)
}

/// What the decoder takes in lies in the part of each symbol: when the
/// range is narrowed to the part of a symbol, in numbers of `7 + 8 * count`
/// bits, the number that the decoder has taken in from the first byte and
/// `count` more is one of that part.
pub open spec fn spec_taken_in_lies_in_parts(
    frame: Seq<u8>,
    symbols: Seq<(nat, nat, nat)>,
) -> bool {
    forall|i: int|
        0 <= i < symbols.len() ==> (#[trigger] spec_symbol_part(symbols, i)).low
            <= spec_merged_value(frame, ((spec_symbol_part(symbols, i).bits - 7) / 8) as nat)
            < spec_symbol_part(symbols, i).low + spec_symbol_part(symbols, i).size
}

/// The number that the first `count` bytes of a frame are, with zeros past
/// its end.
spec fn padded_value(frame: Seq<u8>, count: nat) -> nat
    decreases count,
{
    if count == 0 {
        0
    } else {
        padded_value(frame, (count - 1) as nat) * 256 + spec_frame_byte(frame, count - 1)
    }
}

/// The decoder keeps the range `r` after it has taken in `count` bytes after
/// the first: its registers hold the size of `r` and how far the number that
/// it has taken in lies below the top of `r`.
spec fn reads(d: DecoderState, r: CodeRange, count: nat) -> bool {
    &&& d.rng == r.size
    &&& d.val + spec_merged_value(d.frame, count) + 1 == r.low + r.size
    &&& r.bits == 7 + 8 * count
    &&& d.offset == if count + 1 <= d.frame.len() {
        count + 1
    } else {
        d.frame.len()
    }
    &&& d.leftover_bit == (spec_frame_byte(d.frame, count as int) % 2 == 1)
}

/// On a frame that is read as it is written, the decoder has taken in the
/// first bits of the frame.
proof fn lemma_merged_is_straight(frame: Seq<u8>, count: nat)
    requires
        spec_reads_straight(frame),
    ensures
        spec_merged_value(frame, count) == padded_value(frame, count + 1) / 2,
        padded_value(frame, count + 1) % 2 == spec_frame_byte(frame, count as int) % 2,
    decreases count,
{
    let whole = padded_value(frame, count + 1);
    let before = padded_value(frame, count);
    assert(whole == before * 256 + spec_frame_byte(frame, count as int));
    if count > 0 {
        lemma_merged_is_straight(frame, (count - 1) as nat);
        assert(spec_merged_byte(frame, count as int) == spec_straight_byte(frame, count as int));
        assert(spec_merged_value(frame, count) == (before / 2) * 256 + spec_straight_byte(
            frame,
            count as int,
        ));
    } else {
        assert(before == 0);
    }
}

/// Zeros after a frame do not change what is read.
proof fn lemma_padded_value_of_longer(frame: Seq<u8>, zeros: nat, count: nat)
    ensures
        padded_value(frame + Seq::new(zeros, |i: int| 0u8), count) == padded_value(frame, count),
    decreases count,
{
    if count > 0 {
        lemma_padded_value_of_longer(frame, zeros, (count - 1) as nat);
    }
}

/// The first bytes of a frame that is long enough are a number of their
/// own.
proof fn lemma_padded_value_is_be_value(frame: Seq<u8>, count: nat)
    requires
        count <= frame.len(),
    ensures
        padded_value(frame, count) == spec_be_value(frame.take(count as int)),
    decreases count,
{
    if count > 0 {
        lemma_padded_value_is_be_value(frame, (count - 1) as nat);
        assert(frame.take(count as int).drop_last() =~= frame.take(count - 1));
    }
}

/// Where every number that starts with a frame lies in a range of numbers
/// of `7 + 8 * count` bits, the first so many bits of the frame are a number
/// of the range.
proof fn lemma_straight_value_in_range(r: CodeRange, frame: Seq<u8>, count: nat)
    requires
        r.holds(frame),
        r.bits == 7 + 8 * count,
    ensures
        r.low <= padded_value(frame, count + 1) / 2 < r.low + r.size,
{
    lemma2_to64();
    let zeros = Seq::new(count + 1, |i: int| 0u8);
    let long = frame + zeros;
    let head = long.take(count as int + 1);
    let rest = long.skip(count as int + 1);
    lemma_holds_with_more(r, frame, zeros);
    lemma_padded_value_of_longer(frame, count + 1, count + 1);
    lemma_padded_value_is_be_value(long, count + 1);
    assert(long =~= head + rest);
    lemma_be_value_concat(head, rest);
    lemma_be_value_bound(rest);
    let top = spec_be_value(head);
    let below = spec_be_value(rest);
    let unit = pow2(8 * rest.len());
    lemma_pow2_pos(8 * rest.len());
    lemma_pow2_pos(r.bits);
    lemma_pow2_adds(r.bits, 1);
    lemma_pow2_adds(r.bits + 1, 8 * rest.len());
    assert(8 * long.len() == r.bits + 1 + 8 * rest.len());
    assert(pow2(8 * long.len()) == pow2(r.bits) * 2 * unit);
    assert(2 * r.low <= top && top < 2 * (r.low + r.size)) by (nonlinear_arith)
        requires
            r.low * (pow2(r.bits) * 2 * unit) <= (top * unit + below) * pow2(r.bits),
            (top * unit + below + 1) * pow2(r.bits) <= (r.low + r.size) * (pow2(r.bits) * 2
                * unit),
            below < unit,
            pow2(r.bits) > 0,
            unit > 0,
    ;
}

/// A range made finer is a part of the range.
proof fn lemma_finer_within(r: CodeRange, bytes: nat)
    ensures
        r.finer(bytes).within(r),
{
    assert(r.low * pow2(8 * bytes) + r.size * pow2(8 * bytes) == (r.low + r.size) * pow2(
        8 * bytes,
    )) by (nonlinear_arith);
}

/// Normalizing keeps the range that the decoder keeps, in finer numbers.
proof fn lemma_renormalize_reads(d: DecoderState, r: CodeRange, count: nat)
    requires
        reads(d, r, count),
        d.val < d.rng,
    ensures
        reads(d.renormalize(), r.finer(r.scale_steps()), count + r.scale_steps()),
    decreases d.renormalize_steps(),
{
    lemma2_to64();
    if 0 < d.rng <= CODE_BOTTOM {
        let next = d.renormalize_step();
        let finer = r.finer(1);
        let sym = spec_merged_byte(d.frame, count as int + 1);
        assert(d.front_byte() == spec_frame_byte(d.frame, count as int + 1));
        assert(next.val == d.val * 256 + (255 - sym)) by {
            vstd::arithmetic::div_mod::lemma_small_mod(
                (d.val * 256 + (255 - sym)) as nat,
                CODE_TOP as nat,
            );
        }
        assert(spec_merged_value(d.frame, count + 1) == spec_merged_value(d.frame, count) * 256
            + sym);
        assert(pow2(8 * 1) == 256);
        assert(finer.low == r.low * 256 && finer.size == r.size * 256);
        assert(reads(next, finer, count + 1));
        lemma_renormalize_reads(next, finer, count + 1);
        lemma_finer_twice(r, 1, finer.scale_steps());
    } else {
        lemma_finer_twice(r, 0, 0);
    }
}

/// A decoder that was just made keeps the whole range.
proof fn lemma_start_reads(frame: Seq<u8>)
    ensures
        reads(DecoderState::start(frame), CodeRange::whole(), 3),
        DecoderState::start(frame).wf(),
        DecoderState::start(frame).frame == frame,
{
    lemma2_to64();
    let first: nat = if frame.len() > 0 {
        frame[0] as nat
    } else {
        0
    };
    let initial = DecoderState {
        frame,
        offset: if frame.len() > 0 {
            1
        } else {
            0
        },
        end_offset: 0,
        val: (127 - first / 2) as nat,
        rng: 128,
        ext: 0,
        leftover_bit: first % 2 == 1,
        end_window: 0,
        num_end_bits: 0,
        num_bits_total: 9,
    };
    let seven = CodeRange { low: 0, size: 128, bits: 7 };
    assert(reads(initial, seven, 0));
    lemma_renormalize_reads(initial, seven, 0);
    lemma_renormalize_wf(initial);
    assert(seven.scale_steps() == 3);
    assert(pow2(8 * 3) == 0x100_0000);
    assert(seven.finer(3) == CodeRange::whole());
}

/// Where the number that the decoder has taken in lies in the part of a
/// symbol, `decode` finds a place of that symbol, and `update` narrows the
/// range that the decoder keeps to that part.
proof fn lemma_symbol_reads(
    d: DecoderState,
    r: CodeRange,
    count: nat,
    low: nat,
    high: nat,
    total: nat,
)
    requires
        reads(d, r, count),
        d.wf(),
        EncoderState::takes(low, high, total),
        total <= u16::MAX,
        r.read_part(low, high, total).low <= spec_merged_value(d.frame, count) < r.read_part(
            low,
            high,
            total,
        ).low + r.read_part(low, high, total).size,
    ensures
        low <= d.position(total) < high,
        reads(
            d.after_decode(total).after_update(low, high, total),
            r.read_part(low, high, total).finer(r.read_part(low, high, total).scale_steps()),
            count + r.read_part(low, high, total).scale_steps(),
        ),
        d.after_decode(total).after_update(low, high, total).wf(),
        d.after_decode(total).after_update(low, high, total).frame == d.frame,
{
    let step = d.rng / total;
    let part = r.read_part(low, high, total);
    let s = d.val / step;
    assert(step >= 1 && step * total <= d.rng) by (nonlinear_arith)
        requires
            step == d.rng / total,
            1 <= total <= d.rng,
    ;
    assert(step * (total - low) <= step * total && step * (total - low) - step * (total - high)
        == step * (high - low) && step * (total - high) <= step * (total - low))
        by (nonlinear_arith)
        requires
            step >= 1,
            0 <= low < high <= total,
    ;
    assert(step * (total - high) <= d.val);
    assert(low > 0 ==> d.val < step * (total - low));
    assert(total - high <= s && (low > 0 ==> s < total - low)) by (nonlinear_arith)
        requires
            s == d.val / step,
            step >= 1,
            step * (total - high) <= d.val,
            low > 0 ==> d.val < step * (total - low),
    ;
    lemma_position_brackets(d, low, high, total);
    let decoded = d.after_decode(total);
    lemma_update_wf(decoded, low, high, total);
    let narrowed = DecoderState {
        val: (decoded.val - step * (total - high)) as nat,
        rng: if low > 0 {
            (step * (high - low)) as nat
        } else {
            (decoded.rng - step * (total - high)) as nat
        },
        ..decoded
    };
    assert(reads(narrowed, part, count));
    lemma_renormalize_reads(narrowed, part, count);
    lemma_renormalize_wf(narrowed);
}

/// Where what the decoder takes in lies in the part of each symbol, the
/// decoder keeps after each symbol the range of the symbols that it has
/// taken off. Returns the number of bytes that the decoder has taken in
/// after the first.
proof fn lemma_symbols_read(frame: Seq<u8>, symbols: Seq<(nat, nat, nat)>, i: int) -> (count: nat)
    requires
        spec_symbols_fit(symbols),
        spec_taken_in_lies_in_parts(frame, symbols),
        0 <= i <= symbols.len(),
    ensures
        ({
            let d = DecoderState::start(frame).after_symbols(symbols.take(i));
            &&& reads(d, CodeRange::read(symbols.take(i)), count)
            &&& d.wf()
            &&& d.frame == frame
        }),
    decreases i,
{
    if i == 0 {
        lemma_start_reads(frame);
        assert(symbols.take(0) =~= Seq::<(nat, nat, nat)>::empty());
        3
    } else {
        let before = lemma_symbols_read(frame, symbols, i - 1);
        let d = DecoderState::start(frame).after_symbols(symbols.take(i - 1));
        let r = CodeRange::read(symbols.take(i - 1));
        let (low, high, total) = symbols[i - 1];
        assert(symbols.take(i).drop_last() =~= symbols.take(i - 1));
        assert(symbols.take(i).last() == symbols[i - 1]);
        assert(spec_symbol_part(symbols, i - 1) == r.read_part(low, high, total));
        lemma_symbol_reads(d, r, before, low, high, total);
        before + r.read_part(low, high, total).scale_steps()
    }
}

/// The decoder finds each symbol where what it takes in lies in the part of
/// that symbol: for each of them, after the decoder has taken off the
/// symbols before it, `decode` gives a place of the symbol.
pub proof fn lemma_symbols_found_in_parts(frame: Seq<u8>, symbols: Seq<(nat, nat, nat)>, i: int)
    requires
        spec_symbols_fit(symbols),
        spec_taken_in_lies_in_parts(frame, symbols),
        0 <= i < symbols.len(),
    ensures
        ({
            let d = DecoderState::start(frame).after_symbols(symbols.take(i));
            symbols[i].0 <= d.position(symbols[i].2) < symbols[i].1
        }),
{
    let count = lemma_symbols_read(frame, symbols, i);
    assert(spec_symbol_part(symbols, i) == CodeRange::read(symbols.take(i)).read_part(
        symbols[i].0,
        symbols[i].1,
        symbols[i].2,
    ));
    lemma_symbol_reads(
        DecoderState::start(frame).after_symbols(symbols.take(i)),
        CodeRange::read(symbols.take(i)),
        count,
        symbols[i].0,
        symbols[i].1,
        symbols[i].2,
    );
}

/// The decoder finds each symbol: after it has taken off the symbols before
/// it, `decode` gives a place of the symbol.
pub open spec fn spec_symbols_found(frame: Seq<u8>, symbols: Seq<(nat, nat, nat)>) -> bool {
    forall|i: int|
        0 <= i < symbols.len() ==> (#[trigger] symbols[i]).0 <= DecoderState::start(
            frame,
        ).after_symbols(symbols.take(i)).position(symbols[i].2) < symbols[i].1
}

/// Where `decode` finds a place of a symbol, the number that the decoder has
/// taken in lies in the part of that symbol.
proof fn lemma_found_in_part(
    d: DecoderState,
    r: CodeRange,
    count: nat,
    low: nat,
    high: nat,
    total: nat,
)
    requires
        reads(d, r, count),
        d.wf(),
        EncoderState::takes(low, high, total),
        total <= u16::MAX,
        low <= d.position(total) < high,
    ensures
        r.read_part(low, high, total).low <= spec_merged_value(d.frame, count) < r.read_part(
            low,
            high,
            total,
        ).low + r.read_part(low, high, total).size,
{
    let step = d.rng / total;
    let s = d.val / step;
    assert(step >= 1 && step * total <= d.rng) by (nonlinear_arith)
        requires
            step == d.rng / total,
            1 <= total <= d.rng,
    ;
    assert(step * s <= d.val < step * (s + 1)) by (nonlinear_arith)
        requires
            s == d.val / step,
            step >= 1,
    ;
    assert(step * (total - high) <= step * s && (low > 0 ==> step * (s + 1) <= step * (total
        - low)) && step * (total - low) <= step * total && step * (total - low) - step * (total
        - high) == step * (high - low) && step * (total - high) <= step * total)
        by (nonlinear_arith)
        requires
            step >= 1,
            total - high <= s,
            low > 0 ==> s + 1 <= total - low,
            0 <= low < high <= total,
    ;
}

/// Where the decoder finds each symbol, it keeps after each symbol the
/// range of the symbols that it has taken off. Returns the number of bytes
/// that the decoder has taken in after the first.
proof fn lemma_found_symbols_read(frame: Seq<u8>, symbols: Seq<(nat, nat, nat)>, i: int) -> (count:
    nat)
    requires
        spec_symbols_fit(symbols),
        spec_symbols_found(frame, symbols),
        0 <= i <= symbols.len(),
    ensures
        ({
            let d = DecoderState::start(frame).after_symbols(symbols.take(i));
            &&& reads(d, CodeRange::read(symbols.take(i)), count)
            &&& d.wf()
            &&& d.frame == frame
        }),
    decreases i,
{
    if i == 0 {
        lemma_start_reads(frame);
        assert(symbols.take(0) =~= Seq::<(nat, nat, nat)>::empty());
        3
    } else {
        let before = lemma_found_symbols_read(frame, symbols, i - 1);
        let d = DecoderState::start(frame).after_symbols(symbols.take(i - 1));
        let r = CodeRange::read(symbols.take(i - 1));
        let (low, high, total) = symbols[i - 1];
        assert(symbols.take(i).drop_last() =~= symbols.take(i - 1));
        assert(symbols.take(i).last() == symbols[i - 1]);
        lemma_found_in_part(d, r, before, low, high, total);
        lemma_symbol_reads(d, r, before, low, high, total);
        before + r.read_part(low, high, total).scale_steps()
    }
}

/// The decoder finds each symbol exactly where what it takes in lies in the
/// part of each symbol, in any frame.
pub proof fn lemma_symbols_found_iff_in_parts(frame: Seq<u8>, symbols: Seq<(nat, nat, nat)>)
    requires
        spec_symbols_fit(symbols),
    ensures
        spec_symbols_found(frame, symbols) <==> spec_taken_in_lies_in_parts(frame, symbols),
{
    if spec_taken_in_lies_in_parts(frame, symbols) {
        assert forall|i: int| 0 <= i < symbols.len() implies (#[trigger] symbols[i]).0
            <= DecoderState::start(frame).after_symbols(symbols.take(i)).position(symbols[i].2)
            < symbols[i].1 by {
            lemma_symbols_found_in_parts(frame, symbols, i);
        }
    }
    if spec_symbols_found(frame, symbols) {
        assert forall|i: int| 0 <= i < symbols.len() implies (#[trigger] spec_symbol_part(
            symbols,
            i,
        )).low <= spec_merged_value(frame, ((spec_symbol_part(symbols, i).bits - 7) / 8) as nat)
            < spec_symbol_part(symbols, i).low + spec_symbol_part(symbols, i).size by {
            let count = lemma_found_symbols_read(frame, symbols, i);
            lemma_found_in_part(
                DecoderState::start(frame).after_symbols(symbols.take(i)),
                CodeRange::read(symbols.take(i)),
                count,
                symbols[i].0,
                symbols[i].1,
                symbols[i].2,
            );
        }
    }
}

/// The range after any run of symbols is one of numbers of seven bits and
/// whole bytes.
proof fn lemma_code_range_bits(symbols: Seq<(nat, nat, nat)>) -> (count: nat)
    ensures
        CodeRange::read(symbols).bits == 7 + 8 * count,
    decreases symbols.len(),
{
    if symbols.len() == 0 {
        3
    } else {
        let before = lemma_code_range_bits(symbols.drop_last());
        let part = CodeRange::read(symbols.drop_last()).read_part(
            symbols.last().0,
            symbols.last().1,
            symbols.last().2,
        );
        before + part.scale_steps()
    }
}

/// Where each symbol starts above place 0, the decoder keeps the range that
/// the encoder narrows to.
pub proof fn lemma_read_is_narrowed(symbols: Seq<(nat, nat, nat)>)
    requires
        spec_symbols_start_above_zero(symbols),
    ensures
        CodeRange::read(symbols) == CodeRange::of(symbols),
    decreases symbols.len(),
{
    if symbols.len() > 0 {
        lemma_read_is_narrowed(symbols.drop_last());
    }
}

/// In a frame that starts with the bytes that the encoder gave for
/// `symbols`, each of which starts above place 0, and that the decoder reads
/// as it is written, what the decoder takes in lies in the part of each
/// symbol.
pub proof fn lemma_straight_frame_lies_in_parts(symbols: Seq<(nat, nat, nat)>, more: Seq<u8>)
    requires
        spec_symbols_fit(symbols),
        spec_symbols_start_above_zero(symbols),
        spec_reads_straight(EncoderState::start().after_symbols(symbols).front() + more),
    ensures
        spec_taken_in_lies_in_parts(
            EncoderState::start().after_symbols(symbols).front() + more,
            symbols,
        ),
{
    let front = EncoderState::start().after_symbols(symbols).front();
    let frame = front + more;
    assert forall|i: int| 0 <= i < symbols.len() implies (#[trigger] spec_symbol_part(
        symbols,
        i,
    )).low <= spec_merged_value(frame, ((spec_symbol_part(symbols, i).bits - 7) / 8) as nat)
        < spec_symbol_part(symbols, i).low + spec_symbol_part(symbols, i).size by {
        let part = spec_symbol_part(symbols, i);
        let count = lemma_code_range_bits(symbols.take(i));
        lemma_read_is_narrowed(symbols.take(i));
        assert(symbols.take(i + 1).drop_last() =~= symbols.take(i));
        assert(symbols.take(i + 1).last() == symbols[i]);
        lemma_front_lies_in_code_range(symbols, i + 1);
        lemma_finer_within(part, part.scale_steps());
        lemma_holds_in_outer(CodeRange::of(symbols.take(i + 1)), part, front);
        lemma_holds_with_more(part, front, more);
        lemma_straight_value_in_range(part, frame, count);
        lemma_merged_is_straight(frame, count);
    }
}

/// Symbols are read back exactly where what the decoder takes in lies in
/// their parts. `symbols` were encoded, and the frame is what the encoder
/// gives for them. The decoder finds each of them in that frame if and only
/// if the number that it takes in lies, for each symbol, in the part in which
/// the decoder finds that symbol.
pub proof fn lemma_symbols_round_trip(symbols: Seq<(nat, nat, nat)>)
    requires
        spec_symbols_fit(symbols),
    ensures
        ({
            let frame = EncoderState::start().after_symbols(symbols).frame();
            spec_symbols_found(frame, symbols) <==> spec_taken_in_lies_in_parts(frame, symbols)
        }),
{
    lemma_symbols_found_iff_in_parts(
        EncoderState::start().after_symbols(symbols).frame(),
        symbols,
    );
}

/// Symbols are read back from a frame that is read as it is written.
/// `symbols` were encoded, each of them one that starts above place 0, and
/// the frame starts with the bytes that the encoder gave for them. Where the
/// decoder reads that frame as it is written, it finds for each symbol,
/// after it has taken off the symbols before it, a place of that symbol.
pub proof fn lemma_symbols_round_trip_straight(
    symbols: Seq<(nat, nat, nat)>,
    more: Seq<u8>,
    i: int,
)
    requires
        spec_symbols_fit(symbols),
        spec_symbols_start_above_zero(symbols),
        spec_reads_straight(EncoderState::start().after_symbols(symbols).front() + more),
        0 <= i < symbols.len(),
    ensures
        ({
            let frame = EncoderState::start().after_symbols(symbols).front() + more;
            let d = DecoderState::start(frame).after_symbols(symbols.take(i));
            symbols[i].0 <= d.position(symbols[i].2) < symbols[i].1
        }),
{
    let frame = EncoderState::start().after_symbols(symbols).front() + more;
    lemma_straight_frame_lies_in_parts(symbols, more);
    lemma_symbols_found_in_parts(frame, symbols, i);
}

/// Normalizing leaves the frame and the raw bits of a decoder as they are.
proof fn lemma_renormalize_keeps_raw_bits(d: DecoderState)
    ensures
        d.renormalize().frame == d.frame,
        d.renormalize().end_offset == d.end_offset,
        d.renormalize().end_window == d.end_window,
        d.renormalize().num_end_bits == d.num_end_bits,
    decreases d.renormalize_steps(),
{
    if 0 < d.rng <= CODE_BOTTOM {
        lemma_renormalize_keeps_raw_bits(d.renormalize_step());
    }
}

/// The closing bytes depend on the bytes that the encoder has put out or
/// holds back, and on nothing else that it holds.
proof fn lemma_closing_bytes_read_coder(a: EncoderState, b: EncoderState, end: nat, bits: nat)
    requires
        a.out == b.out,
        a.rem == b.rem,
        a.ext == b.ext,
    ensures
        a.after_closing_bytes(end, bits).out == b.after_closing_bytes(end, bits).out,
        a.after_closing_bytes(end, bits).rem == b.after_closing_bytes(end, bits).rem,
        a.after_closing_bytes(end, bits).ext == b.after_closing_bytes(end, bits).ext,
    decreases bits,
{
    if bits > 0 {
        lemma_closing_bytes_read_coder(
            a.after_carry_out(end / (CODE_BOTTOM as nat)),
            b.after_carry_out(end / (CODE_BOTTOM as nat)),
            (end * 256) % (CODE_TOP as nat),
            if bits > 8 {
                (bits - 8) as nat
            } else {
                0
            },
        );
    }
}

/// Raw bits do not change the bytes at the front of the frame.
proof fn lemma_front_reads_coder(a: EncoderState, b: EncoderState)
    requires
        a.out == b.out,
        a.val == b.val,
        a.rng == b.rng,
        a.rem == b.rem,
        a.ext == b.ext,
    ensures
        a.front() == b.front(),
{
    let (bits, end) = a.closing();
    lemma_closing_bytes_read_coder(a, b, end, bits);
}

/// The symbol that `encode_u32` encodes for the top bits of a value under
/// `total`.
pub open spec fn spec_integer_symbol(value: nat, total: nat) -> (nat, nat, nat) {
    let (shift, scale) = DecoderState::uint_split(total);
    (value / pow2(shift), value / pow2(shift) + 1, scale)
}

/// An integer is read back exactly where what the decoder takes in lies in
/// the part of its symbol. `value` fits under `total`; the frame is what the
/// encoder gives for it. `decode_u32` reads `value` from that frame if and
/// only if the number that the decoder takes in lies in the part in which
/// the decoder finds the symbol of `value`. The raw bits of `value` are read
/// back in any case.
pub proof fn lemma_integer_round_trip(value: nat, total: nat)
    requires
        2 <= total <= u32::MAX,
        EncoderState::fits(value, total),
    ensures
        ({
            let frame = EncoderState::start().after_encode_u32(value, total).frame();
            (DecoderState::start(frame).uint_value(total) == value)
                <==> spec_taken_in_lies_in_parts(frame, seq![spec_integer_symbol(value, total)])
        }),
{
    lemma2_to64();
    lemma_uint_split_bounds(total);
    let (shift, scale) = DecoderState::uint_split(total);
    let symbol = spec_integer_symbol(value, total);
    let symbols = seq![symbol];
    let prefix = symbol.0;
    let start = EncoderState::start();
    let coded = start.after_encode(prefix, prefix + 1, scale);
    let encoded = start.after_encode_u32(value, total);
    let frame = encoded.frame();
    let d = DecoderState::start(frame);
    let t = d.position(scale);
    lemma_pow2_pos(shift);
    lemma_fundamental_div_mod(value as int, pow2(shift) as int);

    // What `decode_u32` reads is the place that `decode` finds, and the raw
    // bits of the value.
    assert(d.uint_value(total) == t * pow2(shift) + value % pow2(shift)) by {
        if shift > 0 {
            let low = value % pow2(shift);
            let writes = seq![(low, shift)];
            let read = d.after_uint_prefix(total);
            lemma_start_reads(frame);
            lemma_renormalize_keeps_raw_bits(
                DecoderState {
                    val: (d.after_decode(scale).val - d.after_decode(scale).ext * (scale - (t
                        + 1))) as nat,
                    rng: if t > 0 {
                        (d.after_decode(scale).ext * ((t + 1) - t)) as nat
                    } else {
                        (d.after_decode(scale).rng - d.after_decode(scale).ext * (scale - (t
                            + 1))) as nat
                    },
                    ..d.after_decode(scale)
                },
            );
            lemma_start_keeps_raw_bits(frame);
            lemma_narrowed_within(start, prefix, prefix + 1, scale);
            let (val, rng) = start.narrowed(prefix, prefix + 1, scale);
            crate::range_coding::range_encoder::lemma_renormalize_wf(
                EncoderState { val, rng, ..start },
            );
            assert(writes.drop_last() =~= Seq::<(nat, nat)>::empty());
            assert(writes.take(0) =~= Seq::<(nat, nat)>::empty());
            assert(spec_raw_sizes(writes.take(0)) =~= Seq::<nat>::empty());
            assert(coded.after_raw_writes(Seq::<(nat, nat)>::empty()) == coded);
            assert(writes.last() == (low, shift));
            assert(coded.after_raw_writes(writes) == coded.after_raw_writes(
                writes.drop_last(),
            ).after_encode_bits(low, shift));
            assert(coded.after_raw_writes(writes) == encoded);
            lemma_raw_bits_round_trip(coded, writes, encoded.front(), read, 0);
        } else {
            assert(t * pow2(0) == t) by (nonlinear_arith)
                requires
                    pow2(0) == 1,
            ;
        }
    }
    assert(symbols.take(0) =~= Seq::<(nat, nat, nat)>::empty());
    assert(spec_symbols_found(frame, symbols) <==> t == prefix) by {
        if t == prefix {
            assert forall|i: int| 0 <= i < symbols.len() implies (#[trigger] symbols[i]).0
                <= DecoderState::start(frame).after_symbols(symbols.take(i)).position(
                symbols[i].2,
            ) < symbols[i].1 by {
                assert(i == 0);
            }
        }
        if spec_symbols_found(frame, symbols) {
            assert(symbols[0].0 <= DecoderState::start(frame).after_symbols(
                symbols.take(0),
            ).position(symbols[0].2) < symbols[0].1);
        }
    }
    lemma_symbols_found_iff_in_parts(frame, symbols);
    if d.uint_value(total) == value {
        lemma_fundamental_div_mod_converse(
            value as int,
            pow2(shift) as int,
            t as int,
            (value % pow2(shift)) as int,
        );
    } else {
        assert(prefix * pow2(shift) == pow2(shift) * prefix) by (nonlinear_arith);
    }
}

/// A decoder that was just made has read no raw bits.
proof fn lemma_start_keeps_raw_bits(frame: Seq<u8>)
    ensures
        DecoderState::start(frame).end_offset == 0,
        DecoderState::start(frame).end_window == 0,
        DecoderState::start(frame).num_end_bits == 0,
{
    let first: nat = if frame.len() > 0 {
        frame[0] as nat
    } else {
        0
    };
    lemma_renormalize_keeps_raw_bits(
        DecoderState {
            frame,
            offset: if frame.len() > 0 {
                1
            } else {
                0
            },
            end_offset: 0,
            val: (127 - first / 2) as nat,
            rng: 128,
            ext: 0,
            leftover_bit: first % 2 == 1,
            end_window: 0,
            num_end_bits: 0,
            num_bits_total: 9,
        },
    );
}

/// An integer is read back from a frame that is read as it is written.
/// `value` fits under `total`, and its range-coded part is not 0. Where the
/// decoder reads the frame that the encoder gives for `value` as it is
/// written, `decode_u32` reads `value`.
pub proof fn lemma_integer_round_trip_straight(value: nat, total: nat)
    requires
        2 <= total <= u32::MAX,
        EncoderState::fits(value, total),
        spec_integer_symbol(value, total).0 > 0,
        spec_reads_straight(EncoderState::start().after_encode_u32(value, total).frame()),
    ensures
        DecoderState::start(
            EncoderState::start().after_encode_u32(value, total).frame(),
        ).uint_value(total) == value,
{
    lemma_uint_split_bounds(total);
    let (shift, scale) = DecoderState::uint_split(total);
    let symbol = spec_integer_symbol(value, total);
    let symbols = seq![symbol];
    let coded = EncoderState::start().after_encode(symbol.0, symbol.1, symbol.2);
    let encoded = EncoderState::start().after_encode_u32(value, total);
    assert(symbols.drop_last() =~= Seq::<(nat, nat, nat)>::empty());
    assert(EncoderState::start().after_symbols(Seq::<(nat, nat, nat)>::empty())
        == EncoderState::start());
    assert(symbols.last() == symbol);
    assert(EncoderState::start().after_symbols(symbols) == EncoderState::start().after_symbols(
        symbols.drop_last(),
    ).after_encode(symbol.0, symbol.1, symbol.2));
    assert(EncoderState::start().after_symbols(symbols) == coded);
    if shift > 0 {
        lemma_encode_bits_keeps_coder(coded, value % pow2(shift), shift);
    }
    lemma_front_reads_coder(encoded, coded);
    lemma_straight_frame_lies_in_parts(symbols, encoded.back());
    lemma_integer_round_trip(value, total);
}

/// Raw bits leave the range coder's side of an encoder as it is.
proof fn lemma_encode_bits_keeps_coder(e: EncoderState, value: nat, bits: nat)
    ensures
        e.after_encode_bits(value, bits).out == e.out,
        e.after_encode_bits(value, bits).val == e.val,
        e.after_encode_bits(value, bits).rng == e.rng,
        e.after_encode_bits(value, bits).rem == e.rem,
        e.after_encode_bits(value, bits).ext == e.ext,
{
    lemma_drained_keeps_coder(e);
}

proof fn lemma_drained_keeps_coder(e: EncoderState)
    ensures
        e.drained().out == e.out,
        e.drained().val == e.val,
        e.drained().rng == e.rng,
        e.drained().rem == e.rem,
        e.drained().ext == e.ext,
    decreases e.num_end_bits,
{
    if e.num_end_bits >= 8 {
        lemma_drained_keeps_coder(
            EncoderState {
                end_bytes: e.end_bytes.push((e.end_window % 256) as u8),
                end_window: e.end_window / 256,
                num_end_bits: (e.num_end_bits - 8) as nat,
                ..e
            },
        );
    }
}

} // verus!
