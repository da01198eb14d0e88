//! The encoding side of the range coder.
//!
//! Range-coded bytes are written to the front of a frame, raw bits to its
//! back. A byte that a later carry may still change is held back, together
//! with the run of `0xFF` bytes after it, until the carry is known.
use crate::range_coding::arith::lemma_pow2_at_most;
use crate::range_coding::range_decoder::{
    lemma_ilog_at_most, lemma_ilog_bounds, lemma_uint_split_bounds, DecoderState, RangeDecoder,
};
use crate::range_coding::{
    spec_ilog, CODE_BITS, CODE_BOTTOM, CODE_SHIFT, CODE_TOP, MAX_RAW_BITS, SYMBOL_BITS, SYMBOL_MAX,
    UINT_BITS, WINDOW_SIZE,
};
use crate::Error;
use vstd::arithmetic::div_mod::lemma_small_mod;
use vstd::arithmetic::power2::{lemma2_to64, lemma_pow2_adds, lemma_pow2_pos, pow2};
use vstd::bits::{
    lemma_u32_low_bits_mask_is_mod, lemma_u32_shl_is_mul, lemma_u32_shr_is_div,
};
use vstd::prelude::*;

verus! {

/// What a range encoder holds, as numbers.
pub ghost struct EncoderState {
    /// The bytes written to the front of the frame.
    pub out: Seq<u8>,
    /// The low end of the current range.
    pub val: nat,
    /// The size of the current range.
    pub rng: nat,
    /// The byte that is held back.
    pub rem: Option<u8>,
    /// The number of `0xFF` bytes that are held back after `rem`.
    pub ext: nat,
    /// The bytes written to the back of the frame, the last one first in the
    /// frame.
    pub end_bytes: Seq<u8>,
    /// The raw bits that are not written yet, lowest first.
    pub end_window: nat,
    /// The number of bits in `end_window`.
    pub num_end_bits: nat,
}

impl EncoderState {
    /// The state of a new encoder.
    pub open spec fn start() -> EncoderState {
        EncoderState {
            out: Seq::empty(),
            val: 0,
            rng: CODE_TOP as nat,
            rem: None,
            ext: 0,
            end_bytes: Seq::empty(),
            end_window: 0,
            num_end_bits: 0,
        }
    }

    /// The range is normalized and ends within the register, no byte is
    /// held back only before the first byte was put out, and the window holds
    /// as many bits as it says.
    pub open spec fn wf(self) -> bool {
        &&& CODE_BOTTOM < self.rng <= CODE_TOP
        &&& self.val + self.rng <= 2 * CODE_TOP
        &&& self.rem is None ==> self.out.len() == 0
        &&& self.num_end_bits <= WINDOW_SIZE
        &&& self.end_window < pow2(self.num_end_bits)
    }

    /// There is room to hold back `bytes` more bytes.
    pub open spec fn has_room(self, bytes: int) -> bool {
        self.ext + bytes <= u32::MAX
    }

    /// The state after `carry_out(c)`, where `c` is a byte with a carry bit
    /// above it. A `c` of `0xFF` is held back. Any other `c` settles what was
    /// held back: the byte that was held back and the run of `0xFF` after it
    /// are written with the carry added in, and the byte of `c` is held back
    /// in their place.
    pub open spec fn after_carry_out(self, c: nat) -> EncoderState {
        if c != SYMBOL_MAX {
            let carry = c / 256;
            let settled = match self.rem {
                Some(rem) => self.out.push(((rem + carry) % 256) as u8),
                None => self.out,
            };
            EncoderState {
                out: settled + Seq::new(self.ext, |i: int| ((255 + carry) % 256) as u8),
                rem: Some((c % 256) as u8),
                ext: 0,
                ..self
            }
        } else {
            EncoderState { ext: self.ext + 1, ..self }
        }
    }

    /// One step of normalizing: the top eight bits of the low end, with the
    /// carry bit above them, are put out, and the range grows by eight bits.
    pub open spec fn renormalize_step(self) -> EncoderState {
        let moved = self.after_carry_out(self.val / (CODE_BOTTOM as nat));
        EncoderState {
            val: (self.val * 256) % (CODE_TOP as nat),
            rng: self.rng * 256,
            ..moved
        }
    }

    /// The number of steps that normalizing takes.
    pub open spec fn renormalize_steps(self) -> nat {
        if self.rng == 0 || self.rng > CODE_BOTTOM {
            0
        } else if self.rng * 256 > CODE_BOTTOM {
            1
        } else if self.rng * 65536 > CODE_BOTTOM {
            2
        } else {
            3
        }
    }

    /// The state after normalizing: steps are taken until the range is more
    /// than `CODE_BOTTOM`.
    pub open spec fn renormalize(self) -> EncoderState
        decreases self.renormalize_steps(),
    {
        if 0 < self.rng <= CODE_BOTTOM {
            self.renormalize_step().renormalize()
        } else {
            self
        }
    }

    /// The range that `encode(low, high, total)` narrows to, before it is
    /// normalized: its low end and its size. The range is cut into `total`
    /// steps. A symbol that starts above place 0 gets the steps of its
    /// places, counted down from the top of the range; one that starts at
    /// place 0 keeps the low end and gets as many steps as lie above it.
    pub open spec fn narrowed(self, low: nat, high: nat, total: nat) -> (nat, nat) {
        let r = self.rng / total;
        if low > 0 {
            ((self.val + self.rng - r * (total - low)) as nat, (r * (high - low)) as nat)
        } else {
            (self.val, (r * (total - high)) as nat)
        }
    }

    /// The state after `encode(low, high, total)`.
    pub open spec fn after_encode(self, low: nat, high: nat, total: nat) -> EncoderState {
        let (val, rng) = self.narrowed(low, high, total);
        (EncoderState { val, rng, ..self }).renormalize()
    }

    /// A symbol that `encode` takes: its places lie on the scale, and it is
    /// not the whole scale from place 0 on.
    pub open spec fn takes(low: nat, high: nat, total: nat) -> bool {
        &&& low < high <= total
        &&& low == 0 ==> high < total
    }

    /// The state after the whole bytes of the window were written to the
    /// back of the frame.
    pub open spec fn drained(self) -> EncoderState
        decreases self.num_end_bits,
    {
        if self.num_end_bits >= SYMBOL_BITS {
            (EncoderState {
                end_bytes: self.end_bytes.push((self.end_window % 256) as u8),
                end_window: self.end_window / 256,
                num_end_bits: (self.num_end_bits - 8) as nat,
                ..self
            }).drained()
        } else {
            self
        }
    }

    /// The state after `encode_bits(value, bits)`: the lowest `bits` bits of
    /// the value go above those that the window holds, after whole bytes
    /// were written where the window had no room.
    pub open spec fn after_encode_bits(self, value: nat, bits: nat) -> EncoderState {
        let made = if self.num_end_bits + bits > WINDOW_SIZE {
            self.drained()
        } else {
            self
        };
        EncoderState {
            end_window: made.end_window + (value % pow2(bits)) * pow2(made.num_end_bits),
            num_end_bits: made.num_end_bits + bits,
            ..made
        }
    }

    /// `encode_u32` can write `value` under `total`: it is below `total`,
    /// and its range-coded part is on the scale of that part.
    pub open spec fn fits(value: nat, total: nat) -> bool {
        let (shift, scale) = DecoderState::uint_split(total);
        value < total && value / pow2(shift) < scale
    }

    /// The state after `encode_u32(value, total)` for a value that fits.
    pub open spec fn after_encode_u32(self, value: nat, total: nat) -> EncoderState {
        let (shift, scale) = DecoderState::uint_split(total);
        let prefix = value / pow2(shift);
        let coded = self.after_encode(prefix, prefix + 1, scale);
        if shift > 0 {
            coded.after_encode_bits(value % pow2(shift), shift)
        } else {
            coded
        }
    }

    /// The number of bits of the low end that `flush` puts out, and the
    /// value whose top bits they are. The value is the low end rounded up to
    /// a multiple of `2^(31 - bits)`, and `bits` is the smallest number,
    /// among that of the leading zeros of the range's size and one more, for
    /// which every value with those top bits lies in the range.
    pub open spec fn closing(self) -> (nat, nat) {
        let few = (CODE_BITS - spec_ilog(self.rng)) as nat;
        let coarse = pow2((31 - few) as nat);
        let end = ((self.val + coarse - 1) / (coarse as int)) * coarse;
        if end + coarse - 1 >= self.val + self.rng {
            let fine = pow2((30 - few) as nat);
            (few + 1, (((self.val + fine - 1) / (fine as int)) * fine) as nat)
        } else {
            (few, end as nat)
        }
    }

    /// The state after the top `bits` bits of `end` were put out, a byte at
    /// a time.
    pub open spec fn after_closing_bytes(self, end: nat, bits: nat) -> EncoderState
        decreases bits,
    {
        if bits > 0 {
            self.after_carry_out(end / (CODE_BOTTOM as nat)).after_closing_bytes(
                (end * 256) % (CODE_TOP as nat),
                if bits > 8 {
                    (bits - 8) as nat
                } else {
                    0
                },
            )
        } else {
            self
        }
    }

    /// The bytes at the front of the frame that `flush` gives: the closing
    /// bits are put out, and then a last `carry_out(0)` settles what is
    /// still held back.
    pub open spec fn front(self) -> Seq<u8> {
        let (bits, end) = self.closing();
        let closed = self.after_closing_bytes(end, bits);
        if closed.rem is Some || closed.ext > 0 {
            closed.after_carry_out(0).out
        } else {
            closed.out
        }
    }

    /// The bytes at the back of the frame that `flush` gives: the raw bits
    /// that fill no whole byte, if there are any, in a byte of their own, and
    /// then the whole bytes, the one written last first.
    pub open spec fn back(self) -> Seq<u8> {
        let made = self.drained();
        let whole = made.end_bytes.reverse();
        if made.num_end_bits > 0 {
            seq![made.end_window as u8] + whole
        } else {
            whole
        }
    }

    /// The frame that `flush` gives.
    pub open spec fn frame(self) -> Seq<u8> {
        self.front() + self.back()
    }
}

/// Normalizing a range that is not empty and that ends within the register
/// gives a well-formed state, in at most three steps.
pub proof fn lemma_renormalize_wf(state: EncoderState)
    requires
        0 < state.rng <= CODE_TOP,
        state.val + state.rng <= 2 * CODE_TOP,
        state.rem is None ==> state.out.len() == 0,
        state.num_end_bits <= WINDOW_SIZE,
        state.end_window < pow2(state.num_end_bits),
    ensures
        state.renormalize().wf(),
        state.renormalize().ext <= state.ext + state.renormalize_steps(),
        state.renormalize().end_bytes == state.end_bytes,
        state.renormalize().end_window == state.end_window,
        state.renormalize().num_end_bits == state.num_end_bits,
    decreases state.renormalize_steps(),
{
    if state.rng <= CODE_BOTTOM {
        lemma_renormalize_wf(state.renormalize_step());
    }
}

/// A symbol that `encode` takes narrows a well-formed range to a range that
/// is not empty and lies within it.
pub proof fn lemma_narrowed_within(state: EncoderState, low: nat, high: nat, total: nat)
    requires
        state.wf(),
        EncoderState::takes(low, high, total),
        total <= u16::MAX,
    ensures
        state.rng / total >= 1,
        (state.rng / total) * total <= state.rng,
        (state.rng / total) * (total - low) <= state.rng,
        (state.rng / total) * (total - high) <= state.rng,
        0 < (state.rng / total) * (high - low) <= state.rng,
        state.val <= state.narrowed(low, high, total).0,
        state.narrowed(low, high, total).1 > 0,
        state.narrowed(low, high, total).0 + state.narrowed(low, high, total).1 <= state.val
            + state.rng,
{
    let r = state.rng / total;
    assert(r >= 1 && r * total <= state.rng) by (nonlinear_arith)
        requires
            r == state.rng / total,
            1 <= total <= state.rng,
    ;
    assert(r * (total - low) <= r * total && r * (total - high) <= r * total && 0 < r * (high
        - low) <= r * total && r * (total - low) - r * (total - high) == r * (high - low) && (low
        == 0 ==> r * (total - high) > 0)) by (nonlinear_arith)
        requires
            r >= 1,
            low < high <= total,
            low == 0 ==> high < total,
    ;
}

/// The bytes at the back of the frame depend on the raw bits alone.
pub proof fn lemma_back_reads_raw_bits(a: EncoderState, b: EncoderState)
    requires
        a.end_bytes == b.end_bytes,
        a.end_window == b.end_window,
        a.num_end_bits == b.num_end_bits,
    ensures
        a.drained().end_bytes == b.drained().end_bytes,
        a.drained().end_window == b.drained().end_window,
        a.drained().num_end_bits == b.drained().num_end_bits,
        a.back() == b.back(),
    decreases a.num_end_bits,
{
    if a.num_end_bits >= SYMBOL_BITS {
        lemma_back_reads_raw_bits(
            EncoderState {
                end_bytes: a.end_bytes.push((a.end_window % 256) as u8),
                end_window: a.end_window / 256,
                num_end_bits: (a.num_end_bits - 8) as nat,
                ..a
            },
            EncoderState {
                end_bytes: b.end_bytes.push((b.end_window % 256) as u8),
                end_window: b.end_window / 256,
                num_end_bits: (b.num_end_bits - 8) as nat,
                ..b
            },
        );
    }
}

/// Writes the symbols and the raw bits of one frame.
pub struct RangeEncoder {
    // The low end of the current range
    val: u32,
    // The size of the current range
    rng: u32,
    // A buffered output byte
    rem: Option<u8>,
    // A count of additional carry-propagating output bytes
    ext: u32,
    // The bytes written to the front of the frame
    out: Vec<u8>,
    // The bytes written to the back of the frame, in the order written
    end_bytes: Vec<u8>,
    // Raw bits that are not written yet
    end_window: u32,
    // Number of valid bits in end_window
    num_end_bits: u32,
}

impl View for RangeEncoder {
    type V = EncoderState;

    closed spec fn view(&self) -> EncoderState {
        EncoderState {
            out: self.out@,
            val: self.val as nat,
            rng: self.rng as nat,
            rem: self.rem,
            ext: self.ext as nat,
            end_bytes: self.end_bytes@,
            end_window: self.end_window as nat,
            num_end_bits: self.num_end_bits as nat,
        }
    }
}

impl RangeEncoder {
    /// Starts a frame.
    pub fn new() -> (encoder: Self)
        ensures
            encoder@ == EncoderState::start(),
            encoder@.wf(),
    {
        proof {
            lemma2_to64();
        }
        Self {
            val: 0,
            rng: CODE_TOP,
            rem: None,
            ext: 0,
            out: Vec::new(),
            end_bytes: Vec::new(),
            end_window: 0,
            num_end_bits: 0,
        }
    }

    /// The low end of the current range.
    pub fn val(&self) -> (val: u32)
        ensures
            val == self@.val,
    {
        self.val
    }

    /// The size of the current range.
    pub fn rng(&self) -> (rng: u32)
        ensures
            rng == self@.rng,
    {
        self.rng
    }

    /// Narrows the range to the symbol that covers the places `low..high` of
    /// a scale of `total` steps, and normalizes.
    pub fn encode(&mut self, frequency_low: u16, frequency_high: u16, frequency_total: u16)
        requires
            old(self)@.wf(),
            EncoderState::takes(
                frequency_low as nat,
                frequency_high as nat,
                frequency_total as nat,
            ),
            old(self)@.has_room(3),
        ensures
            final(self)@ == old(self)@.after_encode(
                frequency_low as nat,
                frequency_high as nat,
                frequency_total as nat,
            ),
            final(self)@.wf(),
            final(self)@.ext <= old(self)@.ext + 3,
    {
        proof {
            lemma_narrowed_within(
                self@,
                frequency_low as nat,
                frequency_high as nat,
                frequency_total as nat,
            );
        }
        let r: u32 = self.rng / frequency_total as u32;

        if frequency_low > 0 {
            self.val += self.rng - (r * (frequency_total - frequency_low) as u32);
            self.rng = r * (frequency_high - frequency_low) as u32;
        } else {
            self.rng = r * (frequency_total - frequency_high) as u32;
        }
        proof {
            lemma_renormalize_wf(self@);
        }

        self.renormalize();
    }

    /// Puts out bytes of the low end until the range is more than
    /// `CODE_BOTTOM`.
    fn renormalize(&mut self)
        requires
            old(self)@.rng > 0,
            old(self)@.has_room(old(self)@.renormalize_steps() as int),
        ensures
            final(self)@ == old(self)@.renormalize(),
    {
        while self.rng <= CODE_BOTTOM
            invariant
                self@.rng > 0,
                self@.has_room(self@.renormalize_steps() as int),
                self@.renormalize() == old(self)@.renormalize(),
            decreases self@.renormalize_steps(),
        {
            let val: u32 = self.val;
            let rng: u32 = self.rng;
            assert(val >> 23 == val / 0x0080_0000 && val >> 23 <= 511 && (val << 8) & 0x7FFF_FFFF
                == (val * 256) % 0x8000_0000 && rng << 8 == rng * 256) by (bit_vector)
                requires
                    rng <= 0x0080_0000,
            ;
            self.carry_out(val >> CODE_SHIFT);
            self.val = (val << SYMBOL_BITS) & (CODE_TOP - 1);
            self.rng = rng << SYMBOL_BITS;
        }
    }

    /// Takes in a byte with a carry bit above it. `c` is a 9-bit value (8
    /// data bits and 1 carry bit).
    fn carry_out(&mut self, c: u32)
        requires
            c <= 511,
            old(self)@.has_room(1),
        ensures
            final(self)@ == old(self)@.after_carry_out(c as nat),
    {
        if c != SYMBOL_MAX {
            let carry: u32 = c >> SYMBOL_BITS;
            assert(c >> 8 == c / 256 && c & 255 == c % 256) by (bit_vector);

            if let Some(rem) = self.rem {
                let sum: u32 = rem as u32 + carry;
                assert(sum & 255 == sum % 256) by (bit_vector);
                self.write_byte((sum & SYMBOL_MAX) as u8);
            }
            let ghost settled = self.out@;

            if self.ext > 0 {
                let filler: u32 = SYMBOL_MAX + carry;
                assert(filler & 255 == filler % 256) by (bit_vector);
                let sym: u8 = (filler & SYMBOL_MAX) as u8;
                let ghost run = self.ext as nat;

                loop
                    invariant_except_break
                        self.ext > 0,
                    invariant
                        self.ext <= run,
                        self.out@ == settled + Seq::new((run - self.ext) as nat, |i: int| sym),
                        self@ == (EncoderState {
                            out: self.out@,
                            ext: self.ext as nat,
                            ..old(self)@
                        }),
                    ensures
                        self.ext == 0,
                    decreases self.ext,
                {
                    self.write_byte(sym);
                    self.ext -= 1;
                    assert(self.out@ =~= settled + Seq::new(
                        (run - self.ext) as nat,
                        |i: int| sym,
                    ));
                    if self.ext == 0 {
                        break;
                    }
                }
            }

            self.rem = Some((c & SYMBOL_MAX) as u8);
        } else {
            self.ext += 1;
        }
    }

    /// Appends a byte to the front part of the frame.
    fn write_byte(&mut self, byte: u8)
        ensures
            final(self)@ == (EncoderState { out: old(self)@.out.push(byte), ..old(self)@ }),
    {
        self.out.push(byte);
    }

    /// Writes the whole bytes of the window of raw bits.
    fn drain(&mut self)
        requires
            old(self)@.wf(),
        ensures
            final(self)@ == old(self)@.drained(),
            final(self)@.wf(),
            final(self)@.num_end_bits < SYMBOL_BITS,
            final(self)@.ext == old(self)@.ext,
            final(self)@.out == old(self)@.out,
    {
        while self.num_end_bits >= SYMBOL_BITS
            invariant
                self@.wf(),
                self@.ext == old(self)@.ext,
                self@.out == old(self)@.out,
                self@.drained() == old(self)@.drained(),
            decreases self@.num_end_bits,
        {
            let window: u32 = self.end_window;
            let used: u32 = self.num_end_bits;
            assert(window & 0xFF == window % 256 && window >> 8 == window / 256) by (bit_vector);
            proof {
                lemma2_to64();
                lemma_pow2_adds((used - 8) as nat, 8);
            }
            self.end_bytes.push((window & SYMBOL_MAX) as u8);
            self.end_window = window >> SYMBOL_BITS;
            self.num_end_bits = used - SYMBOL_BITS;
        }
    }

    /// Writes the lowest `bits` bits of `value` as raw bits.
    pub fn encode_bits(&mut self, value: u32, bits: u32)
        requires
            old(self)@.wf(),
            bits <= MAX_RAW_BITS,
        ensures
            final(self)@ == old(self)@.after_encode_bits(value as nat, bits as nat),
            final(self)@.wf(),
            final(self)@.ext == old(self)@.ext,
    {
        proof {
            lemma2_to64();
            lemma_pow2_at_most(bits as nat, 25);
            lemma_pow2_pos(bits as nat);
            lemma_u32_shl_is_mul(1, bits);
            lemma_u32_low_bits_mask_is_mod(value, bits as nat);
            assert(value as nat % pow2(bits as nat) < pow2(bits as nat)) by (nonlinear_arith)
                requires
                    pow2(bits as nat) > 0,
            ;
        }
        let mask: u32 = (1u32 << bits) - 1;
        let low: u32 = value & mask;
        if bits == 0 {
            assert(low * pow2(self@.num_end_bits) == 0) by (nonlinear_arith)
                requires
                    low == 0,
            ;
            return ;
        }
        if self.num_end_bits + bits > WINDOW_SIZE {
            self.drain();
        }
        let window: u32 = self.end_window;
        let used: u32 = self.num_end_bits;
        proof {
            lemma_pow2_adds(used as nat, bits as nat);
            lemma_pow2_at_most((used + bits) as nat, 32);
            lemma_pow2_pos(used as nat);
            assert(low * pow2(used as nat) + window < pow2(used as nat) * pow2(bits as nat))
                by (nonlinear_arith)
                requires
                    low < pow2(bits as nat),
                    window < pow2(used as nat),
            ;
            lemma_u32_shl_is_mul(low, used);
            lemma_u32_shl_is_mul(1, used);
        }
        let shifted: u32 = low << used;
        let one: u32 = 1u32 << used;
        assert(window | shifted == window + shifted) by (bit_vector)
            requires
                shifted == low << used,
                window < one,
                one == 1u32 << used,
                used < 32,
                shifted as int == low as int * one as int,
        ;
        self.end_window = window | shifted;
        self.num_end_bits = used + bits;
    }

    /// Writes an integer below `total`. Fails with `Encode`, and writes
    /// nothing, where the value does not fit.
    pub fn encode_u32(&mut self, value: u32, frequency_total: u32) -> (r: Result<(), Error>)
        requires
            old(self)@.wf(),
            frequency_total > 1,
            old(self)@.has_room(3),
        ensures
            EncoderState::fits(value as nat, frequency_total as nat) ==> r is Ok && final(self)@
                == old(self)@.after_encode_u32(value as nat, frequency_total as nat),
            !EncoderState::fits(value as nat, frequency_total as nat) ==> r == Err::<(), Error>(
                Error::Encode,
            ) && final(self)@ == old(self)@,
            final(self)@.wf(),
            final(self)@.ext <= old(self)@.ext + 3,
    {
        let ft: u32 = frequency_total - 1;
        let frequency_total_bits: u32 = RangeDecoder::ilog(ft);
        proof {
            lemma_uint_split_bounds(frequency_total as nat);
            lemma2_to64();
        }

        if frequency_total_bits > UINT_BITS {
            let shift: u32 = frequency_total_bits - UINT_BITS;
            proof {
                lemma_u32_shr_is_div((ft - 1) as u32, shift);
                lemma_u32_shr_is_div(value, shift);
                lemma_u32_shl_is_mul(1, shift);
                lemma_pow2_at_most(shift as nat, 24);
                lemma_pow2_pos(shift as nat);
                lemma_u32_low_bits_mask_is_mod(value, shift as nat);
                assert(value as nat % pow2(shift as nat) < pow2(shift as nat))
                    by (nonlinear_arith)
                    requires
                        pow2(shift as nat) > 0,
                ;
            }
            let temp: u32 = ((ft - 1) >> shift) + 1;
            let prefix: u32 = value >> shift;
            if value > ft || prefix >= temp {
                return Err(Error::Encode);
            }
            self.encode(prefix as u16, (prefix + 1) as u16, temp as u16);
            let mask: u32 = (1u32 << shift) - 1;
            let raw: u32 = value & mask;
            proof {
                lemma_small_mod(raw as nat, pow2(shift as nat));
            }
            self.encode_bits(raw, shift);
        } else {
            if value > ft {
                return Err(Error::Encode);
            }
            assert(value as nat / pow2(0) == value);
            self.encode(value as u16, (value + 1) as u16, frequency_total as u16);
        }
        Ok(())
    }
    /// Ends the frame and hands it out: first the closing bits of the low
    /// end and what was held back, then the raw bits.
    pub fn flush(self) -> (frame: Vec<u8>)
        requires
            self@.wf(),
            self@.has_room(3),
        ensures
            frame@ == self@.frame(),
    {
        let mut this = self;
        let (bits, end) = this.closing_bits();

        let mut left: u32 = bits;
        let mut top: u32 = end;
        while left > 0
            invariant
                left <= 9,
                this@.has_room(1 + (left + 7) / 8),
                this@.after_closing_bytes(top as nat, left as nat) == self@.after_closing_bytes(
                    end as nat,
                    bits as nat,
                ),
                this@.end_bytes == self@.end_bytes,
                this@.end_window == self@.end_window,
                this@.num_end_bits == self@.num_end_bits,
                this@.wf(),
            decreases left,
        {
            assert(top >> 23 == top / 0x0080_0000 && top >> 23 <= 511 && (top << 8) & 0x7FFF_FFFF
                == (top * 256) % 0x8000_0000) by (bit_vector);
            this.carry_out(top >> CODE_SHIFT);
            top = (top << SYMBOL_BITS) & (CODE_TOP - 1);
            left = if left > SYMBOL_BITS {
                left - SYMBOL_BITS
            } else {
                0
            };
        }

        // Settle the byte that is still held back.
        if this.rem.is_some() || this.ext > 0 {
            this.carry_out(0);
        }

        proof {
            lemma_back_reads_raw_bits(this@, self@);
        }
        this.drain();
        let mut frame: Vec<u8> = this.out;
        if this.num_end_bits > 0 {
            proof {
                lemma2_to64();
                lemma_pow2_at_most(this.num_end_bits as nat, 8);
            }
            frame.push(this.end_window as u8);
        }
        let ghost head = frame@;
        let ghost whole = this.end_bytes@;
        let mut i: usize = this.end_bytes.len();
        while i > 0
            invariant
                i <= whole.len(),
                whole == this.end_bytes@,
                frame@ == head + whole.reverse().take(whole.len() - i),
            decreases i,
        {
            i -= 1;
            frame.push(this.end_bytes[i]);
        }
        frame
    }

    /// The number of closing bits and the value whose top bits they are.
    fn closing_bits(&self) -> (r: (u32, u32))
        requires
            self@.wf(),
        ensures
            (r.0 as nat, r.1 as nat) == self@.closing(),
            r.0 <= 9,
    {
        let bits_of_range: u32 = RangeDecoder::ilog(self.rng);
        proof {
            lemma2_to64();
            lemma_ilog_bounds(self.rng as nat);
            lemma_ilog_at_most(self.rng as nat, 32);
            if bits_of_range < 24 {
                lemma_pow2_at_most(bits_of_range as nat, 23);
            }
        }
        let few: u32 = CODE_BITS - bits_of_range;
        proof {
            lemma_u32_shl_is_mul(1, (31 - few) as u32);
            lemma_u32_shl_is_mul(1, (30 - few) as u32);
            lemma_pow2_at_most((31 - few) as nat, 31);
            lemma_pow2_at_most((30 - few) as nat, 31);
            lemma_pow2_pos((31 - few) as nat);
            lemma_pow2_pos((30 - few) as nat);
            lemma_pow2_adds((30 - few) as nat, 1);
        }
        let coarse: u64 = (1u32 << (31 - few)) as u64;
        let val: u64 = self.val as u64;
        let limit: u64 = val + self.rng as u64;
        assert(((val + coarse - 1) / coarse as int) * coarse <= val + coarse - 1)
            by (nonlinear_arith)
            requires
                coarse > 0,
        ;
        let end: u64 = ((val + coarse - 1) / coarse) * coarse;
        if end + coarse - 1 >= limit {
            let fine: u64 = (1u32 << (30 - few)) as u64;
            assert(((val + fine - 1) / fine as int) * fine <= val + fine - 1) by (nonlinear_arith)
                requires
                    fine > 0,
            ;
            (few + 1, (((val + fine - 1) / fine) * fine) as u32)
        } else {
            (few, end as u32)
        }
    }
}

} // verus!
