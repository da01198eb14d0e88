//! The decoding side of the range coder.
//!
//! A frame is read from both ends: range-coded symbols from the front, raw
//! bits from the back. The two cursors do not know of each other.
use crate::range_coding::arith::lemma_pow2_at_most;
use crate::range_coding::{
    spec_ilog, CODE_BOTTOM, CODE_TOP, MAX_RAW_BITS, SYMBOL_BITS, UINT_BITS, WINDOW_SIZE,
};
use crate::Error;
use vstd::arithmetic::power2::{
    lemma2_to64, lemma_pow2_adds, lemma_pow2_pos, lemma_pow2_unfold, pow2,
};
use vstd::bits::{lemma_u32_low_bits_mask_is_mod, lemma_u32_shl_is_mul, lemma_u32_shr_is_div};
use vstd::prelude::*;

verus! {

/// What a range decoder holds, as numbers.
pub ghost struct DecoderState {
    /// The bytes of the frame.
    pub frame: Seq<u8>,
    /// The number of bytes read from the front.
    pub offset: nat,
    /// The number of bytes read from the back.
    pub end_offset: nat,
    /// The top of the current range, less the coded value, less one.
    pub val: nat,
    /// The size of the current range.
    pub rng: nat,
    /// The size of one step of the scale of the last `decode`.
    pub ext: nat,
    /// The lowest bit of the byte read last from the front.
    pub leftover_bit: bool,
    /// The raw bits read from the back and not handed out yet, lowest first.
    pub end_window: nat,
    /// The number of bits in `end_window`.
    pub num_end_bits: nat,
    /// The number of bits taken in so far.
    pub num_bits_total: int,
}

impl DecoderState {
    /// The range is normalized and the value lies in it, the cursors are in
    /// the frame, and the window holds as many bits as it says.
    pub open spec fn wf(self) -> bool {
        &&& self.offset <= self.frame.len()
        &&& self.end_offset <= self.frame.len()
        &&& CODE_BOTTOM < self.rng <= CODE_TOP
        &&& self.val < self.rng
        &&& self.num_end_bits <= WINDOW_SIZE
        &&& self.end_window < pow2(self.num_end_bits)
        &&& self.num_bits_total >= 0
    }

    /// The next byte from the front: 0 past the end of the frame.
    pub open spec fn front_byte(self) -> nat {
        if self.offset < self.frame.len() {
            self.frame[self.offset as int] as nat
        } else {
            0
        }
    }

    /// The next byte from the back: 0 past the start of the frame.
    pub open spec fn back_byte(self) -> nat {
        if self.end_offset < self.frame.len() {
            self.frame[self.frame.len() - 1 - self.end_offset] as nat
        } else {
            0
        }
    }

    /// The state after one byte was read from the front.
    pub open spec fn skip_front(self) -> DecoderState {
        DecoderState {
            offset: if self.offset < self.frame.len() {
                self.offset + 1
            } else {
                self.offset
            },
            ..self
        }
    }

    /// One step of normalizing: the range grows by eight bits, and the next
    /// byte from the front, with the bit left over from the byte before it
    /// set in its lowest place, is taken off the value.
    pub open spec fn renormalize_step(self) -> DecoderState {
        let byte = self.front_byte();
        let sym = if self.leftover_bit && byte % 2 == 0 {
            byte + 1
        } else {
            byte
        };
        DecoderState {
            rng: self.rng * 256,
            val: ((self.val * 256 + (255 - sym)) % (CODE_TOP as int)) as nat,
            leftover_bit: byte % 2 == 1,
            num_bits_total: self.num_bits_total + SYMBOL_BITS,
            ..self.skip_front()
        }
    }

    /// The number of steps that normalizing takes.
    pub open spec fn renormalize_steps(self) -> nat {
        if self.rng == 0 || self.rng > CODE_BOTTOM {
            0
        } else if self.rng * 256 > CODE_BOTTOM {
            1
        } else if self.rng * 65536 > CODE_BOTTOM {
            2
        } else {
            3
        }
    }

    /// The state after normalizing: steps are taken until the range is more
    /// than `CODE_BOTTOM`.
    pub open spec fn renormalize(self) -> DecoderState
        decreases self.renormalize_steps(),
    {
        if 0 < self.rng <= CODE_BOTTOM {
            self.renormalize_step().renormalize()
        } else {
            self
        }
    }

    /// The state of a decoder that was just made for `frame`: it has taken
    /// the top seven bits of the first byte into a range of 128 and has
    /// normalized.
    pub open spec fn start(frame: Seq<u8>) -> DecoderState {
        let first: nat = if frame.len() > 0 {
            frame[0] as nat
        } else {
            0
        };
        (DecoderState {
            frame,
            offset: if frame.len() > 0 {
                1
            } else {
                0
            },
            end_offset: 0,
            val: (127 - first / 2) as nat,
            rng: 128,
            ext: 0,
            leftover_bit: first % 2 == 1,
            end_window: 0,
            num_end_bits: 0,
            num_bits_total: 9,
        }).renormalize()
    }

    /// The place on a scale of `total` steps at which the coded value lies.
    pub open spec fn position(self, total: nat) -> nat {
        let step = self.rng / total;
        let s = self.val / step;
        if s + 1 < total {
            (total - (s + 1)) as nat
        } else {
            0
        }
    }

    /// The state after `decode(total)`: the size of one step is kept.
    pub open spec fn after_decode(self, total: nat) -> DecoderState {
        DecoderState { ext: self.rng / total, ..self }
    }

    /// The symbol that covers the places `low..high` of a scale of `total`
    /// steps can be taken off: the kept step fits the scale into the range,
    /// and the coded value lies at one of the symbol's places.
    pub open spec fn brackets(self, low: nat, high: nat, total: nat) -> bool {
        &&& low < high <= total
        &&& self.ext >= 1
        &&& self.ext * total <= self.rng
        &&& self.ext * (total - high) <= self.val
        &&& low > 0 ==> self.val < self.ext * (total - low)
    }

    /// The state after `update(low, high, total)`: the range is narrowed to
    /// the symbol's part of it, and normalized.
    pub open spec fn after_update(self, low: nat, high: nat, total: nat) -> DecoderState {
        let s = self.ext * (total - high);
        (DecoderState {
            val: (self.val - s) as nat,
            rng: if low > 0 {
                (self.ext * (high - low)) as nat
            } else {
                (self.rng - s) as nat
            },
            ..self
        }).renormalize()
    }

    /// One step of filling the window: the next byte from the back goes
    /// above the bits that the window holds.
    pub open spec fn refill_step(self) -> DecoderState {
        DecoderState {
            end_window: self.end_window + self.back_byte() * pow2(self.num_end_bits),
            num_end_bits: self.num_end_bits + 8,
            end_offset: if self.end_offset < self.frame.len() {
                self.end_offset + 1
            } else {
                self.end_offset
            },
            ..self
        }
    }

    /// The state after the window was filled: at least one byte is read, and
    /// then bytes are read while there is room for a whole one.
    pub open spec fn refill(self) -> DecoderState
        decreases WINDOW_SIZE - self.num_end_bits,
    {
        let next = self.refill_step();
        if next.num_end_bits <= WINDOW_SIZE - SYMBOL_BITS {
            next.refill()
        } else {
            next
        }
    }

    /// The state in which the window holds at least `bits` bits.
    pub open spec fn with_bits(self, bits: nat) -> DecoderState {
        if self.num_end_bits < bits {
            self.refill()
        } else {
            self
        }
    }

    /// The value of the next `bits` raw bits.
    pub open spec fn raw_bits(self, bits: nat) -> nat {
        self.with_bits(bits).end_window % pow2(bits)
    }

    /// The state after `decode_bits(bits)`.
    pub open spec fn after_decode_bits(self, bits: nat) -> DecoderState {
        let filled = self.with_bits(bits);
        DecoderState {
            end_window: filled.end_window / pow2(bits),
            num_end_bits: (filled.num_end_bits - bits) as nat,
            num_bits_total: self.num_bits_total + bits,
            ..filled
        }
    }
    /// There is room to count `bits` more bits.
    pub open spec fn has_room(self, bits: int) -> bool {
        self.num_bits_total + bits <= i32::MAX
    }

    /// The shift and the scale under which an integer below `total` is
    /// coded. With `ft = total - 1`: where `ft` takes more than eight bits,
    /// the bits above the lowest `shift` are range coded on a scale of
    /// `((ft - 1) >> shift) + 1` steps, and the lowest `shift` bits are raw;
    /// otherwise the shift is 0 and the scale is `total`.
    pub open spec fn uint_split(total: nat) -> (nat, nat) {
        let ft = (total - 1) as nat;
        let ftb = spec_ilog(ft);
        if ftb > UINT_BITS {
            let shift = (ftb - UINT_BITS) as nat;
            (shift, ((ft - 1) as nat) / pow2(shift) + 1)
        } else {
            (0, total)
        }
    }

    /// The state after the range-coded part of an integer below `total` was
    /// read.
    pub open spec fn after_uint_prefix(self, total: nat) -> DecoderState {
        let (shift, scale) = Self::uint_split(total);
        let t = self.position(scale);
        self.after_decode(scale).after_update(t, t + 1, scale)
    }

    /// The integer below `total` that is read next, before it is held
    /// against `total`.
    pub open spec fn uint_value(self, total: nat) -> nat {
        let (shift, scale) = Self::uint_split(total);
        let t = self.position(scale);
        if shift > 0 {
            t * pow2(shift) + self.after_uint_prefix(total).raw_bits(shift)
        } else {
            t
        }
    }

    /// The state after an integer below `total` was read.
    pub open spec fn after_decode_u32(self, total: nat) -> DecoderState {
        let (shift, scale) = Self::uint_split(total);
        if shift > 0 {
            self.after_uint_prefix(total).after_decode_bits(shift)
        } else {
            self.after_uint_prefix(total)
        }
    }
}

/// Normalizing a range that is not empty and a value in it gives a
/// well-formed state.
pub proof fn lemma_renormalize_wf(state: DecoderState)
    requires
        0 < state.rng <= CODE_TOP,
        state.val < state.rng,
        state.offset <= state.frame.len(),
        state.end_offset <= state.frame.len(),
        state.num_end_bits <= WINDOW_SIZE,
        state.end_window < pow2(state.num_end_bits),
        state.num_bits_total >= 0,
    ensures
        state.renormalize().wf(),
        state.renormalize().frame == state.frame,
        state.renormalize().ext == state.ext,
        state.renormalize().end_offset == state.end_offset,
        state.renormalize().end_window == state.end_window,
        state.renormalize().num_end_bits == state.num_end_bits,
        state.renormalize().num_bits_total == state.num_bits_total + 8
            * state.renormalize_steps(),
    decreases state.renormalize_steps(),
{
    if state.rng <= CODE_BOTTOM {
        lemma_renormalize_wf(state.renormalize_step());
    }
}

/// After `decode(total)`, every symbol whose places hold the place that was
/// returned can be taken off, and that place is on the scale.
pub proof fn lemma_position_brackets(state: DecoderState, low: nat, high: nat, total: nat)
    requires
        state.wf(),
        1 <= total <= state.rng,
        low <= state.position(total) < high <= total,
    ensures
        state.position(total) < total,
        state.after_decode(total).brackets(low, high, total),
        state.after_decode(total).wf(),
{
    let step = state.rng / total;
    let s = state.val / step;
    let pos = state.position(total);
    assert(step >= 1 && step * total <= state.rng) by (nonlinear_arith)
        requires
            step == state.rng / total,
            1 <= total <= state.rng,
    ;
    assert(step * s <= state.val < step * (s + 1)) by (nonlinear_arith)
        requires
            s == state.val / step,
            step >= 1,
    ;
    assert(step * (total - high) <= step * s) by (nonlinear_arith)
        requires
            total - high <= s,
            step >= 1,
    ;
    if low > 0 {
        assert(step * (s + 1) <= step * (total - low)) by (nonlinear_arith)
            requires
                s + 1 <= total - low,
                step >= 1,
        ;
    }
}

/// Taking off a symbol that brackets the coded value gives a well-formed
/// state.
pub proof fn lemma_update_wf(state: DecoderState, low: nat, high: nat, total: nat)
    requires
        state.wf(),
        state.brackets(low, high, total),
    ensures
        state.after_update(low, high, total).wf(),
        state.ext * (total - high) <= state.val,
        0 < state.ext * (high - low) <= state.rng,
        state.ext * (total - high) < state.rng,
        low > 0 ==> state.val - state.ext * (total - high) < state.ext * (high - low),
        state.after_update(low, high, total).num_bits_total <= state.num_bits_total + 24,
{
    let ext = state.ext;
    let s = ext * (total - high);
    assert(0 < ext * (high - low) <= ext * total) by (nonlinear_arith)
        requires
            ext >= 1,
            low < high <= total,
    ;
    assert(ext * (total - low) - ext * (total - high) == ext * (high - low))
        by (nonlinear_arith);
    let narrowed = DecoderState {
        val: (state.val - s) as nat,
        rng: if low > 0 {
            (ext * (high - low)) as nat
        } else {
            (state.rng - s) as nat
        },
        ..state
    };
    lemma_renormalize_wf(narrowed);
}

/// The scale of the range-coded part of an integer has at least 2 and at
/// most 256 steps, and its raw part at most 24 bits.
pub proof fn lemma_uint_split_bounds(total: nat)
    requires
        2 <= total <= u32::MAX,
    ensures
        DecoderState::uint_split(total).0 <= 24,
        2 <= DecoderState::uint_split(total).1 <= 256,
        DecoderState::uint_split(total).0 == 0 ==> DecoderState::uint_split(total).1 == total,
        DecoderState::uint_split(total).0 == 0 <==> spec_ilog((total - 1) as nat) <= 8,
        DecoderState::uint_split(total).0 > 0 ==> DecoderState::uint_split(total).0 + 8
            == spec_ilog((total - 1) as nat),
{
    let ft = (total - 1) as nat;
    let ftb = spec_ilog(ft);
    lemma_ilog_bounds(ft);
    lemma2_to64();
    if ftb > 8 {
        let shift = (ftb - 8) as nat;
        lemma_ilog_at_most(ft, 32);
        lemma_pow2_adds(shift, 8);
        lemma_pow2_adds(shift, 7);
        lemma_pow2_pos(shift);
        assert(((ft - 1) as nat) / pow2(shift) < 256) by (nonlinear_arith)
            requires
                ft < pow2(shift) * 256,
                ft >= 1,
                pow2(shift) > 0,
        ;
        assert(((ft - 1) as nat) / pow2(shift) >= 1) by (nonlinear_arith)
            requires
                ft >= pow2(shift) * 128,
                pow2(shift) > 0,
        ;
    } else {
        lemma_pow2_at_most(ftb, 8);
    }
}

/// A number takes as many bits as the power of two just above it says.
pub proof fn lemma_ilog_bounds(v: nat)
    ensures
        v < pow2(spec_ilog(v)),
        v > 0 ==> spec_ilog(v) >= 1 && pow2((spec_ilog(v) - 1) as nat) <= v,
    decreases v,
{
    lemma2_to64();
    if v > 0 {
        lemma_ilog_bounds(v / 2);
        lemma_pow2_unfold(spec_ilog(v));
        if v / 2 > 0 {
            lemma_pow2_unfold((spec_ilog(v) - 1) as nat);
        }
    }
}

/// A number below `2^bits` takes at most `bits` bits, and `spec_ilog` is the
/// only number of bits between whose powers of two a number lies.
pub proof fn lemma_ilog_at_most(v: nat, bits: nat)
    requires
        v < pow2(bits),
    ensures
        spec_ilog(v) <= bits,
    decreases v,
{
    if v > 0 {
        if bits == 0 {
            lemma2_to64();
        } else {
            lemma_pow2_unfold(bits);
            lemma_ilog_at_most(v / 2, (bits - 1) as nat);
        }
    }
}

/// The bit count that the five tests of `ilog` give: each test asks whether
/// the upper half of what is left holds a set bit, and if so moves on in
/// that half.
pub open spec fn spec_ilog_search(v: u32) -> u32 {
    let r0: u32 = if v != 0 {
        1
    } else {
        0
    };
    let m1: u32 = if v & 0xFFFF0000 != 0 {
        16
    } else {
        0
    };
    let v1: u32 = v >> m1;
    let m2: u32 = if v1 & 0xFF00 != 0 {
        8
    } else {
        0
    };
    let v2: u32 = v1 >> m2;
    let m3: u32 = if v2 & 0xF0 != 0 {
        4
    } else {
        0
    };
    let v3: u32 = v2 >> m3;
    let m4: u32 = if v3 & 0xC != 0 {
        2
    } else {
        0
    };
    let v4: u32 = v3 >> m4;
    let m5: u32 = if v4 & 0x2 != 0 {
        1
    } else {
        0
    };
    ((r0 | m1 | m2 | m3 | m4) + m5) as u32
}

proof fn lemma_ilog_search_top_bit(v: u32)
    by (bit_vector)
    ensures
        v == 0 ==> spec_ilog_search(v) == 0,
        v != 0 ==> 1 <= spec_ilog_search(v) <= 32 && v >> ((spec_ilog_search(v) - 1) as u32) == 1,
{
}

/// The five tests find the number of bits that it takes to write `v`.
pub proof fn lemma_ilog_search(v: u32)
    ensures
        spec_ilog_search(v) == spec_ilog(v as nat),
        spec_ilog_search(v) <= 32,
{
    lemma_ilog_search_top_bit(v);
    if v != 0 {
        let top: u32 = (spec_ilog_search(v) - 1) as u32;
        lemma_u32_shr_is_div(v, top);
        lemma_pow2_pos(top as nat);
        lemma_pow2_unfold((top + 1) as nat);
        assert(pow2(top as nat) <= v < 2 * pow2(top as nat)) by (nonlinear_arith)
            requires
                v as nat / pow2(top as nat) == 1,
                pow2(top as nat) > 0,
        ;
        lemma_ilog_at_most(v as nat, (top + 1) as nat);
        lemma_ilog_bounds(v as nat);
        if spec_ilog(v as nat) <= top {
            lemma_pow2_at_most(spec_ilog(v as nat), top as nat);
        }
    }
}

/// The window of raw bits and the count of bits taken in.
pub struct BitDecoder {
    // Bits that will be read from at the end
    end_window: u32,
    // Number of valid bits in end_window.
    num_end_bits: u32,
    // The total number of whole bits read/written
    // This does not include partial bits currently in the range coder.
    num_bits_total: i32,
}

impl View for BitDecoder {
    /// The window, the number of bits in it, and the number of bits taken
    /// in.
    type V = (nat, nat, int);

    closed spec fn view(&self) -> (nat, nat, int) {
        (self.end_window as nat, self.num_end_bits as nat, self.num_bits_total as int)
    }
}

impl Default for BitDecoder {
    /// An empty window. The bits taken in are counted from 9: the bits of
    /// the first byte and one more.
    fn default() -> (bits: Self)
        ensures
            bits@ == (0nat, 0nat, 9int),
    {
        Self { end_window: 0, num_end_bits: 0, num_bits_total: 9 }
    }
}

/// Reads the symbols and the raw bits of one frame.
pub struct RangeDecoder<'a> {
    frame_data: &'a [u8],
    // The number of bytes read from the front of the frame.
    offset: usize,
    // The number of bytes read from the back of the frame.
    end_offset: usize,
    // The difference between the high end of the current range
    // and the actual coded value, minus one
    val: u32,
    // The number of values in the current range
    rng: u32,
    // The saved normalization factor from decode()
    ext: u32,
    bit_decoder: BitDecoder,
    // The leftover bit on the first input byte. The least significant bit.
    leftover_bit: bool,
}

impl<'a> View for RangeDecoder<'a> {
    type V = DecoderState;

    closed spec fn view(&self) -> DecoderState {
        DecoderState {
            frame: self.frame_data@,
            offset: self.offset as nat,
            end_offset: self.end_offset as nat,
            val: self.val as nat,
            rng: self.rng as nat,
            ext: self.ext as nat,
            leftover_bit: self.leftover_bit,
            end_window: self.bit_decoder.end_window as nat,
            num_end_bits: self.bit_decoder.num_end_bits as nat,
            num_bits_total: self.bit_decoder.num_bits_total as int,
        }
    }
}

impl<'a> RangeDecoder<'a> {
    /// Starts to read a frame.
    pub fn new(frame_data: &'a [u8]) -> (decoder: Self)
        ensures
            decoder@ == DecoderState::start(frame_data@),
            decoder@.wf(),
            decoder@.num_bits_total == 33,
    {
        let mut offset: usize = 0;
        let first_input_byte: u8 = if frame_data.len() > 0 {
            offset = 1;
            frame_data[0]
        } else {
            0
        };

        assert(first_input_byte >> 1 == first_input_byte / 2 && (first_input_byte & 1 == 1) == (
        first_input_byte % 2 == 1)) by (bit_vector);
        let rng: u32 = 128;
        let val: u32 = rng - 1 - (first_input_byte >> 1) as u32;
        let ext: u32 = 0;
        let bit_decoder = BitDecoder::default();

        let mut myself = Self {
            frame_data,
            offset,
            end_offset: 0,
            rng,
            val,
            ext,
            bit_decoder,
            leftover_bit: first_input_byte & 1 == 1,
        };
        proof {
            lemma2_to64();
            lemma_renormalize_wf(myself@);
        }

        myself.renormalize();

        myself
    }

    /// The top of the current range, less the coded value, less one.
    pub fn val(&self) -> (val: u32)
        ensures
            val == self@.val,
    {
        self.val
    }

    /// The size of the current range.
    pub fn rng(&self) -> (rng: u32)
        ensures
            rng == self@.rng,
    {
        self.rng
    }

    /// The number of bits taken in so far.
    pub fn num_bits_total(&self) -> (bits: i32)
        ensures
            bits == self@.num_bits_total,
    {
        self.bit_decoder.num_bits_total
    }

    /// Narrows the range to the symbol that covers the places `low..high` of
    /// the scale of the last `decode`, and normalizes.
    pub fn update(&mut self, frequency_low: u32, frequency_high: u32, frequency_total: u32)
        requires
            old(self)@.wf(),
            old(self)@.brackets(
                frequency_low as nat,
                frequency_high as nat,
                frequency_total as nat,
            ),
            old(self)@.has_room(24),
        ensures
            final(self)@ == old(self)@.after_update(
                frequency_low as nat,
                frequency_high as nat,
                frequency_total as nat,
            ),
            final(self)@.wf(),
            final(self)@.num_bits_total <= old(self)@.num_bits_total + 24,
    {
        proof {
            lemma_update_wf(
                self@,
                frequency_low as nat,
                frequency_high as nat,
                frequency_total as nat,
            );
        }
        let s: u32 = self.ext * (frequency_total - frequency_high);
        self.val -= s;
        self.rng = if frequency_low > 0 {
            self.ext * (frequency_high - frequency_low)
        } else {
            self.rng - s
        };

        self.renormalize();
    }

    /// Reads an integer below `frequency_total`. A value that the frame
    /// codes and that is not below `frequency_total` is read as
    /// `frequency_total - 1`.
    pub fn decode_u32(&mut self, frequency_total: u32) -> (value: u32)
        requires
            old(self)@.wf(),
            frequency_total > 1,
            old(self)@.has_room(48),
        ensures
            value == if old(self)@.uint_value(frequency_total as nat) < frequency_total {
                old(self)@.uint_value(frequency_total as nat)
            } else {
                (frequency_total - 1) as nat
            },
            value < frequency_total,
            final(self)@ == old(self)@.after_decode_u32(frequency_total as nat),
            final(self)@.wf(),
            final(self)@.num_bits_total <= old(self)@.num_bits_total + 48,
    {
        let t: u32 = self.decode_uint(frequency_total);
        if t <= frequency_total - 1 {
            t
        } else {
            frequency_total - 1
        }
    }

    /// Reads an integer below `frequency_total`. Fails with `Decode` where
    /// the frame codes a value that is not below `frequency_total`.
    pub fn decode_u32_strict(&mut self, frequency_total: u32) -> (value: Result<u32, Error>)
        requires
            old(self)@.wf(),
            frequency_total > 1,
            old(self)@.has_room(48),
        ensures
            value == if old(self)@.uint_value(frequency_total as nat) < frequency_total {
                Ok::<u32, Error>(old(self)@.uint_value(frequency_total as nat) as u32)
            } else {
                Err::<u32, Error>(Error::Decode)
            },
            final(self)@ == old(self)@.after_decode_u32(frequency_total as nat),
            final(self)@.wf(),
            final(self)@.num_bits_total <= old(self)@.num_bits_total + 48,
    {
        let t: u32 = self.decode_uint(frequency_total);
        if t <= frequency_total - 1 {
            Ok(t)
        } else {
            Err(Error::Decode)
        }
    }

    /// Reads the integer below `frequency_total` as the frame codes it.
    fn decode_uint(&mut self, frequency_total: u32) -> (value: u32)
        requires
            old(self)@.wf(),
            frequency_total > 1,
            old(self)@.has_room(48),
        ensures
            value == old(self)@.uint_value(frequency_total as nat),
            final(self)@ == old(self)@.after_decode_u32(frequency_total as nat),
            final(self)@.wf(),
            final(self)@.num_bits_total <= old(self)@.num_bits_total + 48,
    {
        let ft: u32 = frequency_total - 1;

        // The number of bits that it takes to write the largest value.
        let frequency_total_bits: u32 = Self::ilog(ft);
        proof {
            lemma_uint_split_bounds(frequency_total as nat);
            lemma2_to64();
        }

        if frequency_total_bits > UINT_BITS {
            let shift: u32 = frequency_total_bits - UINT_BITS;
            // The top 8 bits of t are decoded using temp:
            proof {
                lemma_u32_shr_is_div((ft - 1) as u32, shift);
            }
            let temp: u32 = ((ft - 1) >> shift) + 1;
            let t: u32 = self.decode(temp);
            proof {
                lemma_position_brackets(old(self)@, t as nat, (t + 1) as nat, temp as nat);
                lemma_update_wf(self@, t as nat, (t + 1) as nat, temp as nat);
            }

            self.update(t, t + 1, temp);

            // The remaining bits are decoded as raw bits.
            let raw: u32 = self.decode_bits(shift);
            proof {
                lemma_pow2_at_most(shift as nat, 24);
                lemma_pow2_pos(shift as nat);
                assert(t * pow2(shift as nat) <= 255 * pow2(24)) by (nonlinear_arith)
                    requires
                        t <= 255,
                        pow2(shift as nat) <= pow2(24),
                ;
                lemma_u32_shl_is_mul(t, shift);
                lemma_u32_shl_is_mul(1, shift);
            }
            let high: u32 = t << shift;
            let one: u32 = 1u32 << shift;
            assert(high | raw == high + raw) by (bit_vector)
                requires
                    high == t << shift,
                    raw < one,
                    one == 1u32 << shift,
                    shift <= 24,
                    t <= 255,
            ;
            high | raw
        } else {
            let t: u32 = self.decode(frequency_total);
            proof {
                lemma_position_brackets(
                    old(self)@,
                    t as nat,
                    (t + 1) as nat,
                    frequency_total as nat,
                );
            }
            self.update(t, t + 1, frequency_total);
            t
        }
    }

    /// Finds the place on a scale of `frequency_total` steps at which the
    /// coded value lies, and keeps the size of one step for `update`.
    pub fn decode(&mut self, frequency_total: u32) -> (position: u32)
        requires
            old(self)@.wf(),
            1 <= frequency_total <= old(self)@.rng,
        ensures
            position == old(self)@.position(frequency_total as nat),
            position < frequency_total,
            final(self)@ == old(self)@.after_decode(frequency_total as nat),
            final(self)@.wf(),
    {
        self.ext = self.rng / frequency_total;
        assert(self.ext >= 1) by (nonlinear_arith)
            requires
                self.ext == self.rng / frequency_total,
                1 <= frequency_total <= self.rng,
        ;
        let s: u32 = self.val / self.ext;

        if s + 1 < frequency_total {
            frequency_total - (s + 1)
        } else {
            0
        }
    }

    /// Reads `bits` raw bits from the back of the frame.
    pub fn decode_bits(&mut self, bits: u32) -> (value: u32)
        requires
            old(self)@.wf(),
            bits <= MAX_RAW_BITS,
            old(self)@.has_room(bits as int),
        ensures
            value == old(self)@.raw_bits(bits as nat),
            value < pow2(bits as nat),
            final(self)@ == old(self)@.after_decode_bits(bits as nat),
            final(self)@.wf(),
    {
        if self.bit_decoder.num_end_bits < bits {
            self.refill();
        }
        let window: u32 = self.bit_decoder.end_window;
        let available: u32 = self.bit_decoder.num_end_bits;
        proof {
            lemma2_to64();
            lemma_pow2_at_most(bits as nat, 25);
            lemma_pow2_pos(bits as nat);
            lemma_u32_shl_is_mul(1, bits);
            lemma_u32_low_bits_mask_is_mod(window, bits as nat);
            lemma_u32_shr_is_div(window, bits);
            lemma_pow2_adds(bits as nat, (available - bits) as nat);
            lemma_pow2_pos((available - bits) as nat);
            assert(window as nat / pow2(bits as nat) < pow2((available - bits) as nat))
                by (nonlinear_arith)
                requires
                    window < pow2(bits as nat) * pow2((available - bits) as nat),
                    pow2(bits as nat) > 0,
            ;
            assert(window as nat % pow2(bits as nat) < pow2(bits as nat)) by (nonlinear_arith)
                requires
                    pow2(bits as nat) > 0,
            ;
        }

        let ret: u32 = window & ((1u32 << bits) - 1);

        self.bit_decoder.end_window = window >> bits;
        self.bit_decoder.num_end_bits = available - bits;
        self.bit_decoder.num_bits_total += bits as i32;

        ret
    }

    /// Fills the window of raw bits from the back of the frame.
    fn refill(&mut self)
        requires
            old(self)@.wf(),
            old(self)@.num_end_bits <= WINDOW_SIZE - SYMBOL_BITS,
        ensures
            final(self)@ == old(self)@.refill(),
            final(self)@.wf(),
            final(self)@.num_end_bits > WINDOW_SIZE - SYMBOL_BITS,
            final(self)@.num_bits_total == old(self)@.num_bits_total,
    {
        loop
            invariant_except_break
                self@.num_end_bits <= WINDOW_SIZE - SYMBOL_BITS,
                self@.refill() == old(self)@.refill(),
            invariant
                self@.wf(),
                self@.num_bits_total == old(self)@.num_bits_total,
            ensures
                self@ == old(self)@.refill(),
                self@.wf(),
                self@.num_end_bits > WINDOW_SIZE - SYMBOL_BITS,
            decreases WINDOW_SIZE - self@.num_end_bits,
        {
            let window: u32 = self.bit_decoder.end_window;
            let available: u32 = self.bit_decoder.num_end_bits;
            let byte: u32 = self.read_byte_from_end() as u32;
            proof {
                lemma2_to64();
                lemma_pow2_at_most(available as nat, 24);
                lemma_pow2_pos(available as nat);
                lemma_pow2_adds(available as nat, 8);
                assert(byte * pow2(available as nat) <= 255 * pow2(24)) by (nonlinear_arith)
                    requires
                        byte <= 255,
                        pow2(available as nat) <= pow2(24),
                ;
                assert(window + byte * pow2(available as nat) < pow2(available as nat) * 256)
                    by (nonlinear_arith)
                    requires
                        byte <= 255,
                        window < pow2(available as nat),
                ;
                lemma_u32_shl_is_mul(byte, available);
                lemma_u32_shl_is_mul(1, available);
            }
            let shifted: u32 = byte << available;
            let one: u32 = 1u32 << available;
            assert(window | shifted == window + shifted) by (bit_vector)
                requires
                    shifted == byte << available,
                    window < one,
                    one == 1u32 << available,
                    available <= 24,
                    byte <= 255,
            ;
            self.bit_decoder.end_window = window | shifted;
            self.bit_decoder.num_end_bits = available + SYMBOL_BITS;

            if self.bit_decoder.num_end_bits > WINDOW_SIZE - SYMBOL_BITS {
                break;
            }
        }
    }

    /// Reads the next byte from the front: 0 past the end of the frame.
    fn read_byte(&mut self) -> (byte: u8)
        requires
            old(self)@.offset <= old(self)@.frame.len(),
        ensures
            byte == old(self)@.front_byte(),
            final(self)@ == old(self)@.skip_front(),
    {
        if self.offset < self.frame_data.len() {
            let next: u8 = self.frame_data[self.offset];
            self.offset += 1;
            next
        } else {
            0
        }
    }

    /// Reads the next byte from the back: 0 past the start of the frame.
    fn read_byte_from_end(&mut self) -> (byte: u8)
        requires
            old(self)@.end_offset <= old(self)@.frame.len(),
        ensures
            byte == old(self)@.back_byte(),
            final(self)@ == (DecoderState {
                end_offset: if old(self)@.end_offset < old(self)@.frame.len() {
                    old(self)@.end_offset + 1
                } else {
                    old(self)@.end_offset
                },
                ..old(self)@
            }),
    {
        let len: usize = self.frame_data.len();
        if self.end_offset < len {
            let next: u8 = self.frame_data[len - 1 - self.end_offset];
            self.end_offset += 1;
            next
        } else {
            0
        }
    }

    /// Moves bytes from the front of the frame into the value until the
    /// range is more than `CODE_BOTTOM`.
    fn renormalize(&mut self)
        requires
            0 < old(self)@.rng <= CODE_TOP,
            old(self)@.val < old(self)@.rng,
            old(self)@.offset <= old(self)@.frame.len(),
            old(self)@.num_bits_total >= 0,
            old(self)@.has_room(8 * old(self)@.renormalize_steps() as int),
        ensures
            final(self)@ == old(self)@.renormalize(),
    {
        while self.rng <= CODE_BOTTOM
            invariant
                0 < self@.rng <= CODE_TOP,
                self@.val < self@.rng,
                self@.offset <= self@.frame.len(),
                self@.num_bits_total >= 0,
                self@.has_room(8 * self@.renormalize_steps() as int),
                self@.renormalize() == old(self)@.renormalize(),
            decreases self@.renormalize_steps(),
        {
            let rng: u32 = self.rng;
            let val: u32 = self.val;
            self.bit_decoder.num_bits_total += SYMBOL_BITS as i32;
            self.rng <<= SYMBOL_BITS;
            let next_byte: u8 = self.read_byte();

            let sym: u8 = next_byte | if self.leftover_bit {
                1
            } else {
                0
            };
            self.leftover_bit = next_byte & 1 == 1;

            assert(rng << 8 == rng * 256 && val << 8 == val * 256 && (next_byte | 1) == (
            if next_byte % 2 == 0 {
                next_byte + 1
            } else {
                next_byte as int
            }) && (next_byte | 0) == next_byte && (next_byte & 1 == 1) == (next_byte % 2 == 1)
                && (((val << 8) + (255u32 - sym as u32)) as u32) & 0x7FFFFFFF == ((val << 8) + (
            255u32 - sym as u32)) % 0x80000000) by (bit_vector)
                requires
                    rng <= 0x0080_0000,
                    val < rng,
            ;
            self.val = ((self.val << SYMBOL_BITS) + (255u32 - sym as u32)) & 0x7FFFFFFF;
        }
    }

    /// The number of bits that it takes to write `v`.
    pub fn ilog(v: u32) -> (bits: u32)
        ensures
            bits == spec_ilog(v as nat),
            bits <= 32,
    {
        proof {
            lemma_ilog_search(v);
        }
        let r0: u32 = if v != 0 {
            1
        } else {
            0
        };
        let m1: u32 = if v & 0xFFFF0000 != 0 {
            16
        } else {
            0
        };
        let v1: u32 = v >> m1;
        let m2: u32 = if v1 & 0xFF00 != 0 {
            8
        } else {
            0
        };
        let v2: u32 = v1 >> m2;
        let m3: u32 = if v2 & 0xF0 != 0 {
            4
        } else {
            0
        };
        let v3: u32 = v2 >> m3;
        let m4: u32 = if v3 & 0xC != 0 {
            2
        } else {
            0
        };
        let v4: u32 = v3 >> m4;
        let mut ret: u32 = r0 | m1 | m2 | m3 | m4;
        assert(ret <= 31) by (bit_vector)
            requires
                ret == r0 | m1 | m2 | m3 | m4,
                r0 <= 1,
                m1 <= 16,
                m2 <= 8,
                m3 <= 4,
                m4 <= 2,
        ;
        ret += if v4 & 0x2 != 0 {
            1
        } else {
            0
        };

        ret
    }
}

} // verus!
