use opus_bitstream::range_coding::{RangeDecoder, RangeEncoder};

type Symbol = (u16, u16, u16);

/// A range of numbers of `bits` bits: `size` numbers from `low` on.
#[derive(Clone, Copy, Debug)]
struct Range {
    low: u128,
    size: u128,
    bits: u32,
}

fn whole() -> Range {
    Range { low: 0, size: 1 << 31, bits: 31 }
}

/// The part of the range that the encoder gives to a symbol.
fn narrowed(r: Range, (low, high, total): Symbol) -> Range {
    let (low, high, total) = (low as u128, high as u128, total as u128);
    let step = r.size / total;
    if low > 0 {
        Range { low: r.low + r.size - step * (total - low), size: step * (high - low), bits: r.bits }
    } else {
        Range { low: r.low, size: step * (total - high), bits: r.bits }
    }
}

/// The same range in numbers fine enough for its size to be more than 2^23.
fn scaled(mut r: Range) -> Range {
    while r.size <= 1 << 23 {
        r = Range { low: r.low << 8, size: r.size << 8, bits: r.bits + 8 };
    }
    r
}

fn range_of(symbols: &[Symbol]) -> Range {
    symbols.iter().fold(whole(), |r, s| scaled(narrowed(r, *s)))
}

/// The part of the range in which the decoder finds a symbol.
fn read_part(r: Range, (low, high, total): Symbol) -> Range {
    if low > 0 {
        narrowed(r, (low, high, total))
    } else {
        let step = r.size / total as u128;
        Range { low: r.low, size: r.size - step * (total - high) as u128, bits: r.bits }
    }
}

/// The range that the decoder keeps after it has taken off the symbols.
fn read_range(symbols: &[Symbol]) -> Range {
    symbols.iter().fold(whole(), |r, s| scaled(read_part(r, *s)))
}

fn byte(frame: &[u8], i: usize) -> u128 {
    frame.get(i).copied().unwrap_or(0) as u128
}

/// The number that the decoder has taken in after the first byte and
/// `count` more.
fn merged_value(frame: &[u8], count: usize) -> u128 {
    let mut value = byte(frame, 0) >> 1;
    for i in 1..=count {
        value = value * 256 + (byte(frame, i) | (byte(frame, i - 1) & 1));
    }
    value
}

/// What the decoder takes in lies in the part of each symbol.
fn taken_in_lies_in_parts(frame: &[u8], symbols: &[Symbol]) -> bool {
    (0..symbols.len()).all(|i| {
        let part = read_part(read_range(&symbols[..i]), symbols[i]);
        let seen = merged_value(frame, ((part.bits - 7) / 8) as usize);
        part.low <= seen && seen < part.low + part.size
    })
}

/// The decoder finds a place of each symbol.
fn symbols_found(frame: &[u8], symbols: &[Symbol]) -> bool {
    let mut decoder = RangeDecoder::new(frame);
    for (low, high, total) in symbols {
        let place = decoder.decode(*total as u32);
        if place < *low as u32 || place >= *high as u32 {
            return false;
        }
        decoder.update(*low as u32, *high as u32, *total as u32);
    }
    true
}

/// Every number that starts with `bytes` lies in the range.
fn holds(r: Range, bytes: &[u8]) -> bool {
    let value = bytes.iter().fold(0u128, |v, b| v * 256 + *b as u128);
    let length = 8 * bytes.len() as u32;
    if length >= r.bits {
        let shift = length - r.bits;
        (r.low << shift) <= value && value + 1 <= ((r.low + r.size) << shift)
    } else {
        let shift = r.bits - length;
        r.low <= (value << shift) && ((value + 1) << shift) <= r.low + r.size
    }
}

fn encoded(symbols: &[Symbol]) -> Vec<u8> {
    let mut encoder = RangeEncoder::new();
    for (low, high, total) in symbols {
        encoder.encode(*low, *high, *total);
    }
    encoder.flush()
}

struct Numbers(u64);

impl Numbers {
    fn below(&mut self, bound: u32) -> u32 {
        self.0 = self.0.wrapping_mul(6364136223846793005).wrapping_add(1442695040888963407);
        ((self.0 >> 33) % bound as u64) as u32
    }

    fn symbol(&mut self, lowest: u16) -> Symbol {
        let totals = [2u16, 3, 4, 5, 16, 255, 256, 257, 1000, 65535];
        let total = totals[self.below(totals.len() as u32) as usize];
        loop {
            let low = lowest + self.below((total - lowest) as u32) as u16;
            let high = low + 1 + self.below((total - low) as u32) as u16;
            if low > 0 || high < total {
                return (low, high, total);
            }
        }
    }

    fn symbols(&mut self, lowest: u16) -> Vec<Symbol> {
        let count = 1 + self.below(4);
        (0..count).map(|_| self.symbol(lowest)).collect()
    }
}

#[test]
fn frame_lies_in_the_range_of_each_run_of_symbols() {
    let mut numbers = Numbers(1);
    for _ in 0..5000 {
        let symbols = numbers.symbols(0);
        let frame = encoded(&symbols);
        for count in 0..=symbols.len() {
            assert!(holds(range_of(&symbols[..count]), &frame), "{symbols:?} {frame:?}");
        }
    }
}

#[test]
fn frame_lies_in_the_range_with_any_bytes_after_it() {
    let mut numbers = Numbers(2);
    for _ in 0..2000 {
        let symbols = numbers.symbols(0);
        let mut frame = encoded(&symbols);
        let range = range_of(&symbols);
        frame.push(numbers.below(256) as u8);
        assert!(holds(range, &frame));
        frame.push(255);
        assert!(holds(range, &frame));
    }
}

#[test]
fn range_of_symbols_by_hand() {
    // 2^31 / 10 = 214748364: the part of places 3..5 starts 7 steps below
    // the top and has 2 steps.
    let part = narrowed(whole(), (3, 5, 10));
    assert_eq!((part.low, part.size, part.bits), (644245100, 429496728, 31));
    assert_eq!(scaled(part).bits, 31);
    // A part of 2^23 numbers is made finer by one byte.
    let part = range_of(&[(1, 2, 256)]);
    assert_eq!((part.low, part.size, part.bits), (1 << 31, 1 << 31, 39));
}

#[test]
fn decoder_keeps_the_range_of_the_encoder_for_symbols_above_place_zero() {
    let mut numbers = Numbers(7);
    for _ in 0..2000 {
        let symbols = numbers.symbols(1);
        let (read, narrowed) = (read_range(&symbols), range_of(&symbols));
        assert_eq!((read.low, read.size, read.bits), (narrowed.low, narrowed.size, narrowed.bits));
    }
    // From place 0 on, the encoder keeps the steps above the symbol, and the
    // decoder what is below them.
    let (read, narrowed) = (read_range(&[(0, 1, 4)]), range_of(&[(0, 1, 4)]));
    assert_eq!((narrowed.low, narrowed.size), (0, 3 << 29));
    assert_eq!((read.low, read.size), (0, 1 << 29));
}

#[test]
fn symbols_are_found_exactly_where_what_is_taken_in_lies_in_their_parts() {
    let mut numbers = Numbers(3);
    let (mut found, mut lost) = (0, 0);
    for _ in 0..5000 {
        let symbols = numbers.symbols(0);
        let frame = encoded(&symbols);
        let in_parts = taken_in_lies_in_parts(&frame, &symbols);
        assert_eq!(symbols_found(&frame, &symbols), in_parts, "{symbols:?} {frame:?}");
        if in_parts {
            found += 1;
        } else {
            lost += 1;
        }
    }
    assert!(found > 500 && lost > 500);
}

#[test]
fn symbols_are_found_in_any_frame_where_the_frame_lies_in_their_parts() {
    let mut numbers = Numbers(4);
    let mut found = 0;
    for _ in 0..5000 {
        let symbols = numbers.symbols(0);
        let length = numbers.below(6);
        let frame: Vec<u8> = (0..length).map(|_| numbers.below(256) as u8).collect();
        let in_parts = taken_in_lies_in_parts(&frame, &symbols);
        assert_eq!(symbols_found(&frame, &symbols), in_parts, "{symbols:?} {frame:?}");
        found += in_parts as u32;
    }
    assert!(found > 0);
}

/// The decoder reads the frame as it is written.
fn reads_straight(frame: &[u8]) -> bool {
    (1..=frame.len()).all(|i| {
        let merged = byte(frame, i) | (byte(frame, i - 1) & 1);
        let straight = ((byte(frame, i - 1) & 1) << 7) | (byte(frame, i) >> 1);
        merged == straight
    })
}

#[test]
fn frames_that_are_read_as_they_are_written() {
    assert!(reads_straight(&[]));
    assert!(reads_straight(&[0x80]));
    assert!(reads_straight(&[0x12, 0]));
    assert!(reads_straight(&[0x13, 0xFF, 0xFE, 0]));
    assert!(!reads_straight(&[0x13]));
    assert!(!reads_straight(&[0x12, 0x01]));
    assert!(!reads_straight(&[0x12, 0x80]));
}

#[test]
fn symbols_are_read_back_from_a_frame_that_is_read_as_it_is_written() {
    let mut numbers = Numbers(5);
    let mut straight = 0;
    for _ in 0..5000 {
        let symbols = numbers.symbols(1);
        let frame = encoded(&symbols);
        if reads_straight(&frame) {
            assert!(symbols_found(&frame, &symbols), "{symbols:?} {frame:?}");
            straight += 1;
        }
    }
    assert!(straight > 100);
}

/// The shift and the scale under which an integer below `total` is coded.
fn uint_split(total: u32) -> (u32, u32) {
    let ft = total - 1;
    let bits = 32 - ft.leading_zeros();
    if bits > 8 {
        (bits - 8, ((ft - 1) >> (bits - 8)) + 1)
    } else {
        (0, total)
    }
}

#[test]
fn integers_are_read_back_exactly_where_what_is_taken_in_lies_in_the_part() {
    let mut numbers = Numbers(6);
    let totals = [2u32, 3, 64, 65, 255, 256, 257, 514, 1000, 65536, 100000, 1 << 24, u32::MAX];
    let (mut found, mut lost) = (0, 0);
    for _ in 0..5000 {
        let total = totals[numbers.below(totals.len() as u32) as usize];
        let value = numbers.below(total);
        let (shift, scale) = uint_split(total);
        let top = value >> shift;
        if top >= scale {
            continue;
        }
        let mut encoder = RangeEncoder::new();
        assert_eq!(encoder.encode_u32(value, total), Ok(()));
        let frame = encoder.flush();
        let symbol = (top as u16, top as u16 + 1, scale as u16);
        let in_part = taken_in_lies_in_parts(&frame, &[symbol]);
        let read = RangeDecoder::new(&frame).decode_u32_strict(total);
        assert_eq!(read == Ok(value), in_part, "{value} {total} {frame:?}");
        if in_part {
            found += 1;
        } else {
            lost += 1;
        }
    }
    assert!(found > 500 && lost > 500);
}

#[test]
fn raw_bits_of_an_integer_are_read_back_in_any_case() {
    // 99999 under 100000: the top eight bits are range coded, nine are raw.
    // The decoder finds another place for the top bits, and the same raw bits.
    let value = 99999u32;
    let mut encoder = RangeEncoder::new();
    assert_eq!(encoder.encode_u32(value, 100000), Ok(()));
    let frame = encoder.flush();
    let read = RangeDecoder::new(&frame).decode_u32(100000);
    assert_eq!(read, 99487);
    assert_eq!(read & 0x1FF, value & 0x1FF);
}
