//! The numbers that a frame may stand for.
//!
//! The range-coded bytes of a frame are the start of a number, written
//! highest byte first. Each symbol narrows the range of numbers that the
//! frame may stand for; the encoder keeps the low end and the size of that
//! range in its registers and in the bytes that it has put out or holds
//! back.
use crate::range_coding::arith::lemma_pow2_at_most;
use crate::range_coding::range_decoder::{lemma_ilog_at_most, lemma_ilog_bounds};
use crate::range_coding::range_encoder::{lemma_narrowed_within, EncoderState};
use crate::range_coding::{spec_ilog, CODE_BOTTOM, CODE_TOP};
use vstd::arithmetic::div_mod::lemma_fundamental_div_mod;
use vstd::arithmetic::power2::{lemma2_to64, lemma_pow2_adds, lemma_pow2_pos, pow2};
use vstd::prelude::*;

verus! {

/// The number that `bytes` are, the first byte highest.
pub open spec fn spec_be_value(bytes: Seq<u8>) -> nat
    decreases bytes.len(),
{
    if bytes.len() == 0 {
        0
    } else {
        spec_be_value(bytes.drop_last()) * 256 + bytes.last() as nat
    }
}

/// Each symbol is one that `encode` takes, on a scale that fits its
/// arguments.
pub open spec fn spec_symbols_fit(symbols: Seq<(nat, nat, nat)>) -> bool {
    forall|i: int|
        0 <= i < symbols.len() ==> EncoderState::takes(
            (#[trigger] symbols[i]).0,
            symbols[i].1,
            symbols[i].2,
        ) && symbols[i].2 <= u16::MAX
}

impl EncoderState {
    /// The state after each of `symbols` was handed to `encode`, in order.
    pub open spec fn after_symbols(self, symbols: Seq<(nat, nat, nat)>) -> EncoderState
        decreases symbols.len(),
    {
        if symbols.len() == 0 {
            self
        } else {
            self.after_symbols(symbols.drop_last()).after_encode(
                symbols.last().0,
                symbols.last().1,
                symbols.last().2,
            )
        }
    }
}

/// A range of numbers of `bits` bits: those from `low` on, `size` of them.
pub ghost struct CodeRange {
    pub low: nat,
    pub size: nat,
    pub bits: nat,
}

impl CodeRange {
    /// The range before any symbol: every number of 31 bits.
    pub open spec fn whole() -> CodeRange {
        CodeRange { low: 0, size: CODE_TOP as nat, bits: 31 }
    }

    /// The part of the range that the encoder gives to the symbol that
    /// covers the places `low..high` of a scale of `total` steps.
    pub open spec fn narrowed(self, low: nat, high: nat, total: nat) -> CodeRange {
        let r = self.size / total;
        if low > 0 {
            CodeRange {
                low: (self.low + self.size - r * (total - low)) as nat,
                size: (r * (high - low)) as nat,
                ..self
            }
        } else {
            CodeRange { size: (r * (total - high)) as nat, ..self }
        }
    }

    /// The number of bytes by which a range of this size is made finer.
    pub open spec fn scale_steps(self) -> nat {
        if self.size == 0 || self.size > CODE_BOTTOM {
            0
        } else if self.size * 256 > CODE_BOTTOM {
            1
        } else if self.size * 65536 > CODE_BOTTOM {
            2
        } else {
            3
        }
    }

    /// The same range in numbers of `8 * bytes` more bits.
    pub open spec fn finer(self, bytes: nat) -> CodeRange {
        CodeRange {
            low: self.low * pow2(8 * bytes),
            size: self.size * pow2(8 * bytes),
            bits: self.bits + 8 * bytes,
        }
    }

    /// The range after a symbol: the symbol's part of it, in numbers fine
    /// enough for its size to be more than `CODE_BOTTOM`.
    pub open spec fn after_symbol(self, low: nat, high: nat, total: nat) -> CodeRange {
        let part = self.narrowed(low, high, total);
        part.finer(part.scale_steps())
    }

    /// The range after each of `symbols`, in order.
    pub open spec fn of(symbols: Seq<(nat, nat, nat)>) -> CodeRange
        decreases symbols.len(),
    {
        if symbols.len() == 0 {
            Self::whole()
        } else {
            Self::of(symbols.drop_last()).after_symbol(
                symbols.last().0,
                symbols.last().1,
                symbols.last().2,
            )
        }
    }

    /// This range is a part of `outer`, in numbers that are at least as
    /// fine.
    pub open spec fn within(self, outer: CodeRange) -> bool {
        &&& outer.bits <= self.bits
        &&& outer.low * pow2((self.bits - outer.bits) as nat) <= self.low
        &&& self.low + self.size <= (outer.low + outer.size) * pow2(
            (self.bits - outer.bits) as nat,
        )
    }

    /// Every number that starts with `bytes` lies in the range, however it
    /// goes on: as fractions, the numbers from `bytes` to the next value of
    /// `bytes` lie between the low end and the top of the range.
    pub open spec fn holds(self, bytes: Seq<u8>) -> bool {
        &&& self.low * pow2(8 * bytes.len()) <= spec_be_value(bytes) * pow2(self.bits)
        &&& (spec_be_value(bytes) + 1) * pow2(self.bits) <= (self.low + self.size) * pow2(
            8 * bytes.len(),
        )
    }
}

/// Bytes are a number below the power of two of their bits.
pub proof fn lemma_be_value_bound(bytes: Seq<u8>)
    ensures
        spec_be_value(bytes) < pow2(8 * bytes.len()),
    decreases bytes.len(),
{
    lemma2_to64();
    if bytes.len() > 0 {
        lemma_be_value_bound(bytes.drop_last());
        lemma_pow2_adds((8 * (bytes.len() - 1)) as nat, 8);
    }
}

/// Bytes after bytes: the first ones move up by the bits of the second.
pub proof fn lemma_be_value_concat(first: Seq<u8>, second: Seq<u8>)
    ensures
        spec_be_value(first + second) == spec_be_value(first) * pow2(8 * second.len())
            + spec_be_value(second),
    decreases second.len(),
{
    lemma2_to64();
    if second.len() == 0 {
        assert(first + second =~= first);
        assert(spec_be_value(first) * pow2(0) == spec_be_value(first)) by (nonlinear_arith)
            requires
                pow2(0) == 1,
        ;
    } else {
        let below = pow2((8 * (second.len() - 1)) as nat);
        assert((first + second).drop_last() =~= first + second.drop_last());
        assert((first + second).last() == second.last());
        lemma_be_value_concat(first, second.drop_last());
        lemma_pow2_adds((8 * (second.len() - 1)) as nat, 8);
        assert((spec_be_value(first) * below + spec_be_value(second.drop_last())) * 256
            == spec_be_value(first) * (below * 256) + spec_be_value(second.drop_last()) * 256)
            by (nonlinear_arith);
    }
}

/// A run of one byte: of `0xFF` it is the largest number of its bits, of 0
/// it is 0.
pub proof fn lemma_be_value_run(count: nat, byte: u8)
    ensures
        byte == 255 ==> spec_be_value(Seq::new(count, |i: int| byte)) == pow2(8 * count) - 1,
        byte == 0 ==> spec_be_value(Seq::new(count, |i: int| byte)) == 0,
    decreases count,
{
    lemma2_to64();
    if count > 0 {
        assert(Seq::new(count, |i: int| byte).drop_last() =~= Seq::new(
            (count - 1) as nat,
            |i: int| byte,
        ));
        lemma_be_value_run((count - 1) as nat, byte);
        lemma_pow2_adds((8 * (count - 1)) as nat, 8);
    }
}

/// The number of bytes that an encoder holds back.
spec fn held_width(e: EncoderState) -> nat {
    (if e.rem is Some {
        1nat
    } else {
        0nat
    }) + e.ext
}

/// The number that the bytes that an encoder holds back are.
spec fn held_value(e: EncoderState) -> nat {
    (match e.rem {
        Some(rem) => (rem as nat + 1) * pow2(8 * e.ext),
        None => pow2(8 * e.ext),
    } - 1) as nat
}

/// The number that the bytes that an encoder has put out or holds back are.
spec fn put_value(e: EncoderState) -> nat {
    spec_be_value(e.out) * pow2(8 * held_width(e)) + held_value(e)
}

/// The number of bytes that an encoder has put out or holds back.
spec fn put_count(e: EncoderState) -> nat {
    e.out.len() + held_width(e)
}

/// `carry_out(c)` adds the byte of `c` to the bytes that the encoder has
/// put out or holds back, and its carry bit to the number that these are.
proof fn lemma_carry_out_value(e: EncoderState, c: nat)
    requires
        c <= 511,
        c >= 256 ==> held_value(e) + 1 < pow2(8 * held_width(e)),
    ensures
        put_value(e.after_carry_out(c)) == put_value(e) * 256 + c,
        put_count(e.after_carry_out(c)) == put_count(e) + 1,
        c != 255 ==> held_width(e.after_carry_out(c)) == 1 && held_value(e.after_carry_out(c))
            == c % 256,
        c == 255 ==> held_width(e.after_carry_out(c)) == held_width(e) + 1 && held_value(
            e.after_carry_out(c),
        ) == held_value(e) * 256 + 255,
{
    lemma2_to64();
    let after = e.after_carry_out(c);
    let run_bits = pow2(8 * e.ext);
    let out = spec_be_value(e.out);
    lemma_pow2_pos(8 * e.ext);
    lemma_pow2_adds(8 * e.ext, 8);
    if c != 255 {
        let carry = c / 256;
        let filler = ((255 + carry) % 256) as u8;
        let run = Seq::new(e.ext, |i: int| filler);
        let settled = match e.rem {
            Some(rem) => e.out.push(((rem + carry) % 256) as u8),
            None => e.out,
        };
        assert(after.out =~= settled + run);
        lemma_be_value_concat(settled, run);
        lemma_be_value_run(e.ext, filler);
        let run_value: nat = if carry == 0 {
            (run_bits - 1) as nat
        } else {
            0
        };
        assert(spec_be_value(run) == run_value);
        match e.rem {
            Some(rem) => {
                let rem = rem as nat;
                assert(settled.drop_last() =~= e.out);
                assert(held_value(e) == (rem + 1) * run_bits - 1) by (nonlinear_arith)
                    requires
                        held_value(e) == (((rem + 1) * run_bits) - 1) as nat,
                        run_bits > 0,
                ;
                if carry == 1 {
                    assert(rem < 255) by (nonlinear_arith)
                        requires
                            (rem + 1) * run_bits < run_bits * 256,
                            run_bits > 0,
                    ;
                }
                assert(spec_be_value(settled) == out * 256 + rem + carry);
                assert((out * 256 + rem + carry) * run_bits + run_value == out * (run_bits * 256)
                    + (rem + 1) * run_bits - 1 + carry) by (nonlinear_arith)
                    requires
                        carry == 0 ==> run_value == run_bits - 1,
                        carry == 1 ==> run_value == 0,
                        carry <= 1,
                ;
            },
            None => {
                assert(carry == 0);
            },
        }
        assert(spec_be_value(after.out) == put_value(e) + carry);
        assert(held_width(after) == 1);
        assert(held_value(after) == c % 256) by {
            assert(((c % 256) as u8) as nat == c % 256);
            assert((c % 256 + 1) * pow2(0) == c % 256 + 1) by (nonlinear_arith)
                requires
                    pow2(0) == 1,
            ;
        }
        assert(put_value(after) == spec_be_value(after.out) * 256 + c % 256);
    } else {
        let width_bits = pow2(8 * held_width(e));
        lemma_pow2_adds(8 * held_width(e), 8);
        lemma_pow2_pos(8 * held_width(e));
        assert(e.after_carry_out(c).ext == e.ext + 1);
        assert(pow2(8 * (e.ext + 1)) == run_bits * 256);
        assert(pow2(8 * (held_width(e) + 1)) == width_bits * 256);
        assert(out * (width_bits * 256) == out * width_bits * 256) by (nonlinear_arith);
        match e.rem {
            Some(rem) => {
                let rem = rem as nat;
                assert((rem + 1) * (run_bits * 256) == (rem + 1) * run_bits * 256)
                    by (nonlinear_arith);
                assert((rem + 1) * run_bits >= 1) by (nonlinear_arith)
                    requires
                        run_bits > 0,
                ;
            },
            None => {},
        }
        assert(held_value(after) == held_value(e) * 256 + 255);
        assert(held_width(after) == held_width(e) + 1);
        assert(put_value(after) == out * (width_bits * 256) + held_value(after));
    }
}

/// Moving the top byte of a value `v` out of the register keeps the number
/// that the bytes and the register make, eight bits finer, and keeps the
/// room that a later carry needs. `g` is the size of a range from `v` on
/// that cannot carry twice.
proof fn lemma_move_byte(e: EncoderState, v: nat, g: nat)
    requires
        v + g <= 2 * CODE_TOP,
        g > 0,
        held_value(e) * CODE_TOP + v + g <= pow2(8 * held_width(e)) * CODE_TOP,
        v / (CODE_BOTTOM as nat) != 255 && v < CODE_TOP ==> v + g <= CODE_TOP,
    ensures
        ({
            let after = e.after_carry_out(v / (CODE_BOTTOM as nat));
            let moved = (v * 256) % (CODE_TOP as nat);
            &&& put_value(after) * CODE_TOP + moved == 256 * (put_value(e) * CODE_TOP + v)
            &&& put_count(after) == put_count(e) + 1
            &&& held_value(after) * CODE_TOP + moved + 256 * g <= pow2(8 * held_width(after))
                * CODE_TOP
            &&& moved < CODE_TOP
            &&& moved == 256 * (v % (CODE_BOTTOM as nat))
        }),
{
    lemma2_to64();
    let c = v / (CODE_BOTTOM as nat);
    let width_bits = pow2(8 * held_width(e));
    lemma_pow2_pos(8 * held_width(e));
    lemma_pow2_adds(8 * held_width(e), 8);
    if c >= 256 {
        assert(held_value(e) + 1 < width_bits) by (nonlinear_arith)
            requires
                held_value(e) * 0x8000_0000 + v + g <= width_bits * 0x8000_0000,
                v >= 0x8000_0000,
                g > 0,
        ;
    }
    lemma_carry_out_value(e, c);
    let after = e.after_carry_out(c);
    if c == 255 {
        assert(width_bits * 256 * 0x8000_0000 == 256 * (width_bits * 0x8000_0000))
            by (nonlinear_arith);
    }
}

/// The encoder keeps the range `r`: its registers hold the size of `r` and
/// the lowest 31 bits of its low end, and the bytes that it has put out or
/// holds back are the bits of the low end above these. A carry out of the
/// register goes into the bytes that are held back and no further, and no
/// byte is carried into twice.
spec fn follows(e: EncoderState, r: CodeRange) -> bool {
    &&& e.rng == r.size
    &&& put_value(e) * CODE_TOP + e.val == r.low
    &&& r.bits == 31 + 8 * put_count(e)
    &&& held_value(e) * CODE_TOP + e.val + e.rng <= pow2(8 * held_width(e)) * CODE_TOP
    &&& e.val + e.rng <= 2 * CODE_TOP
    &&& e.val >= CODE_TOP ==> e.rng < CODE_TOP
}

/// Making a range finer in two steps is making it finer in one.
pub proof fn lemma_finer_twice(r: CodeRange, first: nat, second: nat)
    ensures
        r.finer(first).finer(second) == r.finer(first + second),
        r.finer(0) == r,
{
    lemma2_to64();
    lemma_pow2_adds(8 * first, 8 * second);
    assert(r.low * pow2(8 * first) * pow2(8 * second) == r.low * (pow2(8 * first) * pow2(
        8 * second,
    ))) by (nonlinear_arith);
    assert(r.size * pow2(8 * first) * pow2(8 * second) == r.size * (pow2(8 * first) * pow2(
        8 * second,
    ))) by (nonlinear_arith);
    assert(r.low * pow2(0) == r.low && r.size * pow2(0) == r.size) by (nonlinear_arith)
        requires
            pow2(0) == 1,
    ;
}

/// Normalizing keeps the range, in finer numbers.
proof fn lemma_renormalize_follows(e: EncoderState, r: CodeRange)
    requires
        follows(e, r),
    ensures
        follows(e.renormalize(), r.finer(r.scale_steps())),
    decreases e.renormalize_steps(),
{
    lemma2_to64();
    lemma_finer_twice(r, 0, 0);
    if 0 < e.rng <= CODE_BOTTOM {
        lemma_move_byte(e, e.val, e.rng);
        let next = e.renormalize_step();
        let finer = r.finer(1);
        assert(put_value(next) == put_value(e.after_carry_out(e.val / (CODE_BOTTOM as nat))));
        assert(held_value(next) == held_value(e.after_carry_out(e.val / (CODE_BOTTOM as nat))));
        assert(held_width(next) == held_width(e.after_carry_out(e.val / (CODE_BOTTOM as nat))));
        assert(put_count(next) == put_count(e.after_carry_out(e.val / (CODE_BOTTOM as nat))));
        assert(next.rng == finer.size);
        let after = e.after_carry_out(e.val / (CODE_BOTTOM as nat));
        let moved = (e.val * 256) % (CODE_TOP as nat);
        assert(next.val == moved);
        assert(put_value(after) * CODE_TOP + moved == 256 * (put_value(e) * CODE_TOP + e.val));
        assert(pow2(8 * 1) == 256);
        assert(finer.low == r.low * 256);
        assert(put_value(next) * CODE_TOP + next.val == finer.low);
        assert(finer.bits == 31 + 8 * put_count(next));
        assert(held_value(next) * CODE_TOP + next.val + next.rng <= pow2(8 * held_width(next))
            * CODE_TOP);
        assert(next.val + next.rng <= 2 * CODE_TOP);
        assert(follows(next, finer));
        lemma_renormalize_follows(next, finer);
        lemma_finer_twice(r, 1, finer.scale_steps());
    }
}

/// `encode` narrows the range that the encoder keeps to the part of the
/// symbol.
proof fn lemma_encode_follows(e: EncoderState, r: CodeRange, low: nat, high: nat, total: nat)
    requires
        follows(e, r),
        e.wf(),
        EncoderState::takes(low, high, total),
        total <= u16::MAX,
    ensures
        follows(e.after_encode(low, high, total), r.after_symbol(low, high, total)),
        e.after_encode(low, high, total).wf(),
        r.after_symbol(low, high, total).within(r),
{
    lemma_narrowed_within(e, low, high, total);
    let (val, rng) = e.narrowed(low, high, total);
    let part_state = EncoderState { val, rng, ..e };
    let part = r.narrowed(low, high, total);
    let step = e.rng / total;
    if low > 0 {
        assert(step * (high - low) < e.rng) by (nonlinear_arith)
            requires
                step >= 1,
                step * total <= e.rng,
                0 < low < high <= total,
        ;
    }
    assert(put_value(part_state) == put_value(e));
    assert(held_value(part_state) == held_value(e));
    assert(held_width(part_state) == held_width(e));
    assert(put_count(part_state) == put_count(e));
    assert(follows(part_state, part));
    lemma_renormalize_follows(part_state, part);
    crate::range_coding::range_encoder::lemma_renormalize_wf(part_state);
    let steps = part.scale_steps();
    lemma_pow2_pos(8 * steps);
    assert(r.low * pow2(8 * steps) <= part.low * pow2(8 * steps) && (part.low + part.size) * pow2(
        8 * steps,
    ) <= (r.low + r.size) * pow2(8 * steps) && part.low * pow2(8 * steps) + part.size * pow2(
        8 * steps,
    ) == (part.low + part.size) * pow2(8 * steps)) by (nonlinear_arith)
        requires
            r.low <= part.low,
            part.low + part.size <= r.low + r.size,
    ;
}

/// After any run of symbols the encoder keeps the range of these symbols.
proof fn lemma_symbols_follow(symbols: Seq<(nat, nat, nat)>)
    requires
        spec_symbols_fit(symbols),
    ensures
        follows(EncoderState::start().after_symbols(symbols), CodeRange::of(symbols)),
        EncoderState::start().after_symbols(symbols).wf(),
    decreases symbols.len(),
{
    lemma2_to64();
    if symbols.len() > 0 {
        lemma_symbols_follow(symbols.drop_last());
        lemma_encode_follows(
            EncoderState::start().after_symbols(symbols.drop_last()),
            CodeRange::of(symbols.drop_last()),
            symbols.last().0,
            symbols.last().1,
            symbols.last().2,
        );
    } else {
        let e = EncoderState::start();
        assert(spec_be_value(e.out) == 0);
        assert(held_width(e) == 0);
        assert(held_value(e) == 0);
        assert(put_value(e) == 0) by (nonlinear_arith)
            requires
                put_value(e) == 0 * pow2(8 * held_width(e)) + 0,
        ;
        assert(pow2(8 * held_width(e)) * CODE_TOP == CODE_TOP) by (nonlinear_arith)
            requires
                pow2(8 * held_width(e)) == 1,
        ;
    }
}

/// Rounding up to a multiple of `unit` gives a multiple that is less than
/// `unit` above.
proof fn lemma_round_up(v: nat, unit: nat)
    requires
        unit > 0,
    ensures
        v <= ((v + unit - 1) / (unit as int)) * unit < v + unit,
        (((v + unit - 1) / (unit as int)) * unit) % (unit as int) == 0,
{
    let x = (v + unit - 1) as int;
    let q = x / (unit as int);
    lemma_fundamental_div_mod(x, unit as int);
    assert(0 <= x % (unit as int) < unit);
    assert(q * unit == unit * q) by (nonlinear_arith);
    vstd::arithmetic::div_mod::lemma_mod_multiples_basic(q, unit as int);
}

/// The closing value lies in the range, and so does every value that has
/// its closing bits: it is a multiple of `2^(31 - bits)`, and the multiple
/// after it is not past the top of the range.
proof fn lemma_closing_in_range(e: EncoderState)
    requires
        e.wf(),
        e.val >= CODE_TOP ==> e.rng < CODE_TOP,
    ensures
        ({
            let (bits, end) = e.closing();
            &&& bits <= 9
            &&& e.val <= end
            &&& end + pow2((31 - bits) as nat) <= e.val + e.rng
            &&& end % pow2((31 - bits) as nat) == 0
            &&& bits == 0 ==> end == 0
        }),
{
    lemma2_to64();
    let width = spec_ilog(e.rng);
    lemma_ilog_bounds(e.rng);
    lemma_ilog_at_most(e.rng, 32);
    if width < 24 {
        lemma_pow2_at_most(width, 23);
    }
    let few = (32 - width) as nat;
    let coarse = pow2((31 - few) as nat);
    let fine = pow2((30 - few) as nat);
    lemma_pow2_pos((31 - few) as nat);
    lemma_pow2_pos((30 - few) as nat);
    lemma_pow2_adds((30 - few) as nat, 1);
    lemma_round_up(e.val, coarse);
    lemma_round_up(e.val, fine);
    assert(coarse <= e.rng);
    assert(coarse == 2 * fine);
    let rounded = (((e.val + coarse - 1) / (coarse as int)) * coarse) as nat;
    let (bits, end) = e.closing();
    if rounded + coarse - 1 >= e.val + e.rng {
        assert(bits == few + 1);
        assert(end == ((e.val + fine - 1) / (fine as int)) * fine);
        assert(pow2((31 - bits) as nat) == fine);
        assert(bits <= 9);
        assert(e.val <= end);
        assert(end + fine <= e.val + e.rng);
        assert(end % fine == 0);
    } else {
        assert(bits == few);
        assert(end == rounded);
        assert(pow2((31 - bits) as nat) == coarse);
        assert(bits <= 9);
        assert(e.val <= end);
        assert(end + coarse <= e.val + e.rng);
        assert(end % coarse == 0);
        if bits == 0 {
            assert(coarse == 0x8000_0000);
            assert(e.rng == 0x8000_0000);
            assert(end < 0x8000_0000);
            vstd::arithmetic::div_mod::lemma_small_mod(end, 0x8000_0000);
            assert(end == 0);
        }
    }
}

/// The closing bytes carry the closing value over into the bytes that the
/// encoder has put out or holds back, and leave nothing of it behind.
proof fn lemma_closing_bytes_value(e: EncoderState, end: nat, bits: nat)
    requires
        bits <= 9,
        end % pow2((31 - bits) as nat) == 0,
        end + pow2((31 - bits) as nat) <= 2 * CODE_TOP,
        held_value(e) * CODE_TOP + end + pow2((31 - bits) as nat) <= pow2(8 * held_width(e))
            * CODE_TOP,
        bits == 0 ==> end == 0,
    ensures
        ({
            let closed = e.after_closing_bytes(end, bits);
            let bytes = (bits + 7) / 8;
            &&& put_value(closed) * CODE_TOP == pow2(8 * bytes) * (put_value(e) * CODE_TOP + end)
            &&& put_count(closed) == put_count(e) + bytes
            &&& bits <= 8 * bytes
        }),
{
    lemma2_to64();
    let unit = pow2((31 - bits) as nat);
    if bits == 0 {
        assert(e.after_closing_bytes(end, bits) == e);
        assert(pow2(0) * (put_value(e) * CODE_TOP + end) == put_value(e) * CODE_TOP)
            by (nonlinear_arith)
            requires
                pow2(0) == 1,
                end == 0,
        ;
    } else {
        let first = e.after_carry_out(end / (CODE_BOTTOM as nat));
        let moved = (end * 256) % (CODE_TOP as nat);
        let count = end / unit;
        lemma_pow2_pos((31 - bits) as nat);
        lemma_pow2_adds((31 - bits) as nat, bits);
        lemma_fundamental_div_mod(end as int, unit as int);
        assert(end < CODE_TOP ==> end + unit <= CODE_TOP) by (nonlinear_arith)
            requires
                end == unit * count,
                CODE_TOP == unit * pow2(bits),
                unit > 0,
        ;
        lemma_move_byte(e, end, unit);
        if bits <= 8 {
            lemma_pow2_adds(23, (8 - bits) as nat);
            assert(end == (pow2((8 - bits) as nat) * count) * 0x0080_0000) by (nonlinear_arith)
                requires
                    end == unit * count,
                    unit == 0x0080_0000 * pow2((8 - bits) as nat),
            ;
            vstd::arithmetic::div_mod::lemma_mod_multiples_basic(
                (pow2((8 - bits) as nat) * count) as int,
                0x0080_0000,
            );
            assert(end % 0x0080_0000 == 0);
            assert(moved == 0);
            assert(e.after_closing_bytes(end, bits) == first.after_closing_bytes(moved, 0));
            assert(first.after_closing_bytes(moved, 0) == first);
            assert((bits + 7) / 8 == 1);
            assert(pow2(8 * 1) == 256);
            assert(put_value(first) * CODE_TOP == 256 * (put_value(e) * CODE_TOP + end));
            assert(put_count(first) == put_count(e) + 1);
        } else {
            assert(unit == 0x0040_0000);
            assert(end == 0x0040_0000 * count);
            assert(end * 256 == 0x4000_0000 * count);
            assert(moved == 0 || moved == 0x4000_0000) by {
                if count % 2 == 0 {
                    assert(end * 256 == 0x8000_0000 * (count / 2));
                    vstd::arithmetic::div_mod::lemma_mod_multiples_basic(
                        (count / 2) as int,
                        0x8000_0000,
                    );
                } else {
                    assert(end * 256 == 0x8000_0000 * (count / 2) + 0x4000_0000);
                    vstd::arithmetic::div_mod::lemma_mod_multiples_vanish(
                        (count / 2) as int,
                        0x4000_0000,
                        0x8000_0000,
                    );
                }
            }
            let second = first.after_carry_out(moved / (CODE_BOTTOM as nat));
            let last = (moved * 256) % (CODE_TOP as nat);
            lemma_move_byte(first, moved, 256 * unit);
            assert(last == 0);
            assert(e.after_closing_bytes(end, bits) == first.after_closing_bytes(moved, 1));
            assert(first.after_closing_bytes(moved, 1) == second.after_closing_bytes(last, 0));
            assert(second.after_closing_bytes(last, 0) == second);
            assert((bits + 7) / 8 == 2);
            assert(pow2(8 * 2) == 65536);
            assert(put_value(first) * CODE_TOP + moved == 256 * (put_value(e) * CODE_TOP + end));
            assert(put_value(second) * CODE_TOP == 256 * (put_value(first) * CODE_TOP + moved));
            assert(put_value(second) * CODE_TOP == 65536 * (put_value(e) * CODE_TOP + end));
            assert(put_count(second) == put_count(e) + 2);
        }
    }
}

/// The bytes at the front of the frame are the bytes that the encoder has
/// put out or holds back once the closing bytes are in.
proof fn lemma_settled_value(closed: EncoderState)
    ensures
        ({
            let front = if closed.rem is Some || closed.ext > 0 {
                closed.after_carry_out(0).out
            } else {
                closed.out
            };
            &&& spec_be_value(front) == put_value(closed)
            &&& front.len() == put_count(closed)
        }),
{
    lemma2_to64();
    if closed.rem is Some || closed.ext > 0 {
        lemma_carry_out_value(closed, 0);
        let after = closed.after_carry_out(0);
        assert(put_value(after) == spec_be_value(after.out) * pow2(8) + 0);
    } else {
        assert(held_width(closed) == 0);
        assert(held_value(closed) == 0);
        assert(spec_be_value(closed.out) * pow2(0) == spec_be_value(closed.out))
            by (nonlinear_arith)
            requires
                pow2(0) == 1,
        ;
    }
}

/// Every number that starts with the bytes at the front of the frame lies
/// in the range that the encoder keeps.
proof fn lemma_front_holds(e: EncoderState, r: CodeRange)
    requires
        follows(e, r),
        e.wf(),
    ensures
        r.holds(e.front()),
{
    lemma2_to64();
    let (bits, end) = e.closing();
    let unit = pow2((31 - bits) as nat);
    let bytes = (bits + 7) / 8;
    lemma_closing_in_range(e);
    lemma_closing_bytes_value(e, end, bits);
    let closed = e.after_closing_bytes(end, bits);
    lemma_settled_value(closed);
    let front = e.front();
    let value = spec_be_value(front);
    let count = put_count(e);
    let chosen = put_value(e) * CODE_TOP + end;
    let scale = pow2(8 * bytes);
    let fine = pow2(8 * count);
    lemma_pow2_pos(8 * count);
    lemma_pow2_pos(8 * bytes);
    lemma_pow2_adds(8 * count, 8 * bytes);
    lemma_pow2_adds(31, 8 * count);
    assert(front.len() == count + bytes);
    assert(value * CODE_TOP == scale * chosen);
    assert(r.low <= chosen);
    assert(chosen + unit <= r.low + r.size);
    lemma_pow2_adds(8 * bytes, (31 - bits) as nat);
    lemma_pow2_at_most(31, (8 * bytes + 31 - bits) as nat);
    assert(CODE_TOP <= scale * unit);
    assert(pow2(r.bits) == 0x8000_0000 * fine);
    assert(pow2(8 * front.len()) == fine * scale);
    assert(r.low * (fine * scale) <= value * (0x8000_0000 * fine)) by (nonlinear_arith)
        requires
            value * 0x8000_0000 == scale * chosen,
            r.low <= chosen,
            fine > 0,
            scale > 0,
    ;
    assert((value + 1) * (0x8000_0000 * fine) <= (r.low + r.size) * (fine * scale))
        by (nonlinear_arith)
        requires
            value * 0x8000_0000 == scale * chosen,
            chosen + unit <= r.low + r.size,
            0x8000_0000 <= scale * unit,
            fine > 0,
            scale > 0,
    ;
}

/// A part of a part of a range is a part of that range.
pub proof fn lemma_within_within(inner: CodeRange, middle: CodeRange, outer: CodeRange)
    requires
        inner.within(middle),
        middle.within(outer),
    ensures
        inner.within(outer),
{
    let near = pow2((inner.bits - middle.bits) as nat);
    let far = pow2((middle.bits - outer.bits) as nat);
    lemma_pow2_adds((middle.bits - outer.bits) as nat, (inner.bits - middle.bits) as nat);
    lemma_pow2_pos((inner.bits - middle.bits) as nat);
    assert(outer.low * (far * near) <= inner.low && inner.low + inner.size <= (outer.low
        + outer.size) * (far * near)) by (nonlinear_arith)
        requires
            outer.low * far <= middle.low,
            middle.low * near <= inner.low,
            inner.low + inner.size <= (middle.low + middle.size) * near,
            middle.low + middle.size <= (outer.low + outer.size) * far,
            near > 0,
    ;
}

/// Bytes of which every continuation lies in a part of a range stand, with
/// every continuation, for numbers of that range.
pub proof fn lemma_holds_in_outer(inner: CodeRange, outer: CodeRange, bytes: Seq<u8>)
    requires
        inner.within(outer),
        inner.holds(bytes),
    ensures
        outer.holds(bytes),
{
    let finer = pow2((inner.bits - outer.bits) as nat);
    let length = pow2(8 * bytes.len());
    let value = spec_be_value(bytes);
    lemma_pow2_adds(outer.bits, (inner.bits - outer.bits) as nat);
    lemma_pow2_pos((inner.bits - outer.bits) as nat);
    lemma_pow2_pos(8 * bytes.len());
    assert(outer.low * length <= value * pow2(outer.bits) && (value + 1) * pow2(outer.bits) <= (
    outer.low + outer.size) * length) by (nonlinear_arith)
        requires
            outer.low * finer <= inner.low,
            inner.low + inner.size <= (outer.low + outer.size) * finer,
            inner.low * length <= value * (pow2(outer.bits) * finer),
            (value + 1) * (pow2(outer.bits) * finer) <= (inner.low + inner.size) * length,
            finer > 0,
            length > 0,
    ;
}

/// Bytes of which every continuation lies in a range still have that with
/// more bytes after them.
pub proof fn lemma_holds_with_more(r: CodeRange, bytes: Seq<u8>, more: Seq<u8>)
    requires
        r.holds(bytes),
    ensures
        r.holds(bytes + more),
{
    let value = spec_be_value(bytes);
    let rest = spec_be_value(more);
    let length = pow2(8 * bytes.len());
    let extra = pow2(8 * more.len());
    lemma_be_value_concat(bytes, more);
    lemma_be_value_bound(more);
    lemma_pow2_adds(8 * bytes.len(), 8 * more.len());
    lemma_pow2_pos(r.bits);
    assert(r.low * (length * extra) <= (value * extra + rest) * pow2(r.bits) && (value * extra
        + rest + 1) * pow2(r.bits) <= (r.low + r.size) * (length * extra)) by (nonlinear_arith)
        requires
            r.low * length <= value * pow2(r.bits),
            (value + 1) * pow2(r.bits) <= (r.low + r.size) * length,
            rest < extra,
            pow2(r.bits) > 0,
    ;
}

/// Each symbol narrows the range: the range of a run of symbols is a part
/// of the range of each run that it starts with.
pub proof fn lemma_code_range_nests(symbols: Seq<(nat, nat, nat)>, count: int)
    requires
        spec_symbols_fit(symbols),
        0 <= count <= symbols.len(),
    ensures
        CodeRange::of(symbols).within(CodeRange::of(symbols.take(count))),
    decreases symbols.len(),
{
    lemma2_to64();
    let r = CodeRange::of(symbols);
    if count == symbols.len() {
        assert(symbols.take(count) =~= symbols);
        assert(r.low * pow2(0) == r.low && (r.low + r.size) * pow2(0) == r.low + r.size)
            by (nonlinear_arith)
            requires
                pow2(0) == 1,
        ;
    } else {
        let before = symbols.drop_last();
        assert(before.take(count) =~= symbols.take(count));
        lemma_symbols_follow(before);
        lemma_encode_follows(
            EncoderState::start().after_symbols(before),
            CodeRange::of(before),
            symbols.last().0,
            symbols.last().1,
            symbols.last().2,
        );
        lemma_code_range_nests(before, count);
        lemma_within_within(r, CodeRange::of(before), CodeRange::of(before.take(count)));
    }
}

/// The bytes at the front of a frame stand for a number in the range of the
/// symbols that were encoded. Whatever follows these bytes, the number that
/// starts with them lies in the range that the encoder had narrowed to after
/// each of the symbols.
pub proof fn lemma_front_lies_in_code_range(symbols: Seq<(nat, nat, nat)>, count: int)
    requires
        spec_symbols_fit(symbols),
        0 <= count <= symbols.len(),
    ensures
        CodeRange::of(symbols.take(count)).holds(
            EncoderState::start().after_symbols(symbols).front(),
        ),
{
    lemma_symbols_follow(symbols);
    lemma_front_holds(EncoderState::start().after_symbols(symbols), CodeRange::of(symbols));
    lemma_code_range_nests(symbols, count);
    lemma_holds_in_outer(
        CodeRange::of(symbols),
        CodeRange::of(symbols.take(count)),
        EncoderState::start().after_symbols(symbols).front(),
    );
}

} // verus!
