use opus_bitstream::range_coding::{RangeDecoder, RangeEncoder};
use opus_bitstream::Error;

fn encoded(symbols: &[(u16, u16, u16)]) -> Vec<u8> {
    let mut encoder = RangeEncoder::new();
    for (low, high, total) in symbols {
        encoder.encode(*low, *high, *total);
    }
    encoder.flush()
}

/// The place that the decoder finds for each symbol of a frame, where it
/// takes off the symbol that was encoded.
fn decoded(frame: &[u8], symbols: &[(u16, u16, u16)]) -> Vec<u32> {
    let mut decoder = RangeDecoder::new(frame);
    let mut places = Vec::new();
    for (low, high, total) in symbols {
        let place = decoder.decode(*total as u32);
        places.push(place);
        assert!((*low as u32) <= place && place < *high as u32);
        decoder.update(*low as u32, *high as u32, *total as u32);
    }
    places
}

fn encoded_u32(value: u32, total: u32) -> Vec<u8> {
    let mut encoder = RangeEncoder::new();
    assert_eq!(encoder.encode_u32(value, total), Ok(()));
    encoder.flush()
}

#[test]
fn new_encoder_holds_the_whole_range() {
    let encoder = RangeEncoder::new();
    assert_eq!((encoder.val(), encoder.rng()), (0, 1 << 31));
    assert_eq!(encoder.flush(), Vec::<u8>::new());
}

#[test]
fn encode_narrows_from_the_top() {
    // r = 2^31 / 10 = 214748364; val = 2^31 - 7 r; rng = 2 r.
    let mut encoder = RangeEncoder::new();
    encoder.encode(3, 5, 10);
    assert_eq!((encoder.val(), encoder.rng()), (644245100, 429496728));
    encoder.encode(100, 200, 1000);
    assert_eq!((encoder.val(), encoder.rng()), (687195428, 42949600));
}

#[test]
fn encode_from_place_zero_keeps_the_low_end() {
    // rng = r * (total - high) = 214748364 * 5.
    let mut encoder = RangeEncoder::new();
    encoder.encode(0, 5, 10);
    assert_eq!((encoder.val(), encoder.rng()), (0, 1073741820));
    let mut encoder = RangeEncoder::new();
    encoder.encode(0, 1, 65535);
    assert_eq!((encoder.val(), encoder.rng()), (0, 2147418112));
}

#[test]
fn encode_renormalizes_a_small_range() {
    // val = rng = 2^23: the byte 1 is moved out, and the range is whole again.
    let mut encoder = RangeEncoder::new();
    encoder.encode(1, 2, 256);
    assert_eq!((encoder.val(), encoder.rng()), (0, 1 << 31));
    assert_eq!(encoder.flush(), vec![1]);
}

#[test]
fn bytes_of_255_are_held_back_and_come_out_in_order() {
    assert_eq!(encoded(&[(255, 256, 256)]), vec![255]);
    assert_eq!(encoded(&[(255, 256, 256), (255, 256, 256)]), vec![255, 255]);
    assert_eq!(encoded(&[(255, 256, 256), (255, 256, 256), (1, 2, 256)]), vec![255, 255, 1]);
    assert_eq!(encoded(&[(1, 2, 256), (255, 256, 256), (255, 256, 256)]), vec![1, 255, 255]);
}

#[test]
fn carry_goes_into_the_byte_that_is_held_back() {
    // The low end passes 2^31 with 228 held back: 229 comes out.
    let mut encoder = RangeEncoder::new();
    encoder.encode(58607, 58842, 65535);
    assert_eq!((encoder.val(), encoder.rng()), (2013265920, 1971322880));
    assert_eq!(encoder.flush(), vec![229, 0]);
}

#[test]
fn carry_runs_through_bytes_of_255() {
    // 172 is held back with one byte of 255 after it when the carry comes:
    // they come out as 173 and 0.
    let symbols = [(154, 174, 255), (59930, 60113, 65535), (158, 164, 257), (88, 163, 256)];
    let mut encoder = RangeEncoder::new();
    for (low, high, total) in symbols {
        encoder.encode(low, high, total);
    }
    assert_eq!((encoder.val(), encoder.rng()), (2193645568, 210816000));
    assert_eq!(encoder.flush(), vec![173, 0, 8]);
}

#[test]
fn flush_puts_out_as_few_bits_as_tell_the_range() {
    assert_eq!(encoded(&[(1, 2, 2)]), vec![0x80]);
    assert_eq!(encoded(&[(0, 1, 2)]), vec![0]);
    assert_eq!(encoded(&[(5, 9, 16)]), vec![96]);
    assert_eq!(encoded(&[(1, 2, 3)]), vec![96]);
    assert_eq!(encoded(&[(100, 200, 1000)]), vec![32]);
    assert_eq!(encoded(&[(3, 5, 10), (100, 200, 1000), (65534, 65535, 65535)]), vec![87, 10, 62]);
}

#[test]
fn flushed_value_lies_in_the_range() {
    // The bytes of a frame, read as a number of 31 bits, are at least the
    // low end of the range and less than its top.
    let mut encoder = RangeEncoder::new();
    encoder.encode(3, 5, 10);
    encoder.encode(7, 8, 9);
    let (low, size) = (encoder.val() as u64, encoder.rng() as u64);
    let frame = encoder.flush();
    let mut value: u64 = 0;
    for i in 0..4 {
        value = value * 256 + *frame.get(i).unwrap_or(&0) as u64;
    }
    let value = value >> 1;
    assert!(low <= value && value < low + size);
}

#[test]
fn symbols_that_take_few_bits_are_read_back() {
    let cases: [&[(u16, u16, u16)]; 8] = [
        &[(1, 2, 2)],
        &[(1, 2, 2), (1, 2, 2)],
        &[(1, 2, 4), (2, 3, 4)],
        &[(3, 4, 4), (1, 2, 2), (2, 4, 4)],
        &[(5, 9, 16)],
        &[(1, 3, 4), (2, 3, 4), (1, 2, 2)],
        &[(2, 3, 4), (1, 2, 4), (3, 4, 4)],
        &[(1, 2, 2); 7],
    ];
    let places: [&[u32]; 8] =
        [&[1], &[1, 1], &[1, 2], &[3, 1, 2], &[6], &[2, 2, 1], &[2, 1, 3], &[1; 7]];
    for (symbols, expected) in cases.iter().zip(places) {
        let frame = encoded(symbols);
        assert_eq!(frame.len(), 1);
        assert_eq!(decoded(&frame, symbols), expected.to_vec());
    }
}

#[test]
fn an_odd_byte_is_not_read_back() {
    // The frame is the single byte 1. The decoder sets its low bit into the
    // zero byte that it reads after it, and finds place 0.
    let frame = encoded(&[(1, 2, 256)]);
    assert_eq!(frame, vec![1]);
    assert_eq!(RangeDecoder::new(&frame).decode(256), 0);
}

#[test]
fn a_symbol_from_place_zero_is_not_read_back_where_the_frame_lies_above_its_steps() {
    // The encoder keeps the three steps above place 0, the decoder looks for
    // place 0 in the one step below them.
    let frame = encoded(&[(0, 1, 4), (1, 2, 2)]);
    assert_eq!(frame, vec![128]);
    assert_eq!(RangeDecoder::new(&frame).decode(4), 2);
    // Where the frame lies low enough, the symbol is found.
    let frame = encoded(&[(0, 1, 2), (1, 2, 2)]);
    assert_eq!(frame, vec![64]);
    assert_eq!(decoded(&frame, &[(0, 1, 2), (1, 2, 2)]), vec![0, 1]);
}

#[test]
fn encode_bits_fills_the_back_of_the_frame() {
    let mut encoder = RangeEncoder::new();
    encoder.encode_bits(0xA, 4);
    encoder.encode_bits(0x789, 12);
    encoder.encode_bits(0x123456, 25);
    // 41 bits: five whole bytes, the first written last in the frame, and
    // one bit in a byte of its own before them.
    assert_eq!(encoder.flush(), vec![0, 0x12, 0x34, 0x56, 0x78, 0x9A]);
}

#[test]
fn encode_bits_partial_byte() {
    let mut encoder = RangeEncoder::new();
    encoder.encode_bits(1, 1);
    assert_eq!(encoder.flush(), vec![1]);
    let mut encoder = RangeEncoder::new();
    encoder.encode_bits(0xFF, 8);
    assert_eq!(encoder.flush(), vec![255]);
    let mut encoder = RangeEncoder::new();
    encoder.encode_bits(0x1FF, 9);
    assert_eq!(encoder.flush(), vec![1, 255]);
    let mut encoder = RangeEncoder::new();
    encoder.encode_bits(0, 0);
    assert_eq!(encoder.flush(), Vec::<u8>::new());
}

#[test]
fn encode_bits_writes_the_lowest_bits_only() {
    let mut encoder = RangeEncoder::new();
    encoder.encode_bits(0xFFFF_FFF5, 4);
    encoder.encode_bits(0, 4);
    assert_eq!(encoder.flush(), vec![0x05]);
}

#[test]
fn encode_bits_follow_the_range_coded_bytes() {
    let mut encoder = RangeEncoder::new();
    encoder.encode(1, 2, 2);
    encoder.encode_bits(0x1FF, 9);
    assert_eq!(encoder.flush(), vec![0x80, 1, 255]);
}

#[test]
fn raw_bits_are_read_back() {
    let writes: [(u32, u32); 9] = [
        (5, 3),
        (0x1FF_FFFF, 25),
        (0x2AB, 10),
        (1, 1),
        (0, 0),
        (0x1555555, 25),
        (0, 7),
        (0xABCDE, 20),
        (0x7F, 7),
    ];
    let mut encoder = RangeEncoder::new();
    for (value, bits) in writes {
        encoder.encode_bits(value, bits);
    }
    let frame = encoder.flush();
    assert_eq!(frame.len(), 13);
    let mut decoder = RangeDecoder::new(&frame);
    for (value, bits) in writes {
        assert_eq!(decoder.decode_bits(bits), value);
    }
}

#[test]
fn raw_bits_fill_many_bytes() {
    let mut encoder = RangeEncoder::new();
    for _ in 0..5 {
        encoder.encode_bits(0x1555555, 25);
    }
    let frame = encoder.flush();
    assert_eq!(
        frame,
        vec![21, 85, 85, 90, 170, 170, 173, 85, 85, 86, 170, 170, 171, 85, 85, 85]
    );
    let mut decoder = RangeDecoder::new(&frame);
    for _ in 0..5 {
        assert_eq!(decoder.decode_bits(25), 0x1555555);
    }
}

#[test]
fn encode_u32_small_total() {
    assert_eq!(encoded_u32(0, 2), vec![0]);
    assert_eq!(encoded_u32(1, 2), vec![128]);
    assert_eq!(encoded_u32(2, 3), vec![192]);
    assert_eq!(encoded_u32(63, 64), vec![252]);
}

#[test]
fn encode_u32_large_total_adds_raw_bits() {
    // ft = 256 takes nine bits: one is raw.
    assert_eq!(encoded_u32(5, 257), vec![4, 1]);
    assert_eq!(encoded_u32(255, 257), vec![254, 1]);
    assert_eq!(encoded_u32(70000, 100000), vec![178, 0, 1, 112]);
    assert_eq!(encoded_u32(12345678, 1 << 24), vec![188, 97, 78]);
    assert_eq!(encoded_u32(u32::MAX - 1, u32::MAX), vec![255, 255, 255, 254]);
    assert_eq!(encoded_u32(5, u32::MAX), vec![0, 0, 0, 5]);
}

#[test]
fn encode_u32_refuses_a_value_that_is_not_below_total() {
    let mut encoder = RangeEncoder::new();
    assert_eq!(encoder.encode_u32(2, 2), Err(Error::Encode));
    assert_eq!(encoder.encode_u32(3, 2), Err(Error::Encode));
    assert_eq!(encoder.encode_u32(100000, 100000), Err(Error::Encode));
    assert_eq!(encoder.encode_u32(u32::MAX, u32::MAX), Err(Error::Encode));
    // Nothing was written.
    assert_eq!((encoder.val(), encoder.rng()), (0, 1 << 31));
    assert_eq!(encoder.flush(), Vec::<u8>::new());
}

#[test]
fn encode_u32_refuses_a_value_whose_top_bits_are_off_the_scale() {
    // ft = 256: the scale has (255 >> 1) + 1 = 128 steps, and 256 >> 1 is 128.
    let mut encoder = RangeEncoder::new();
    assert_eq!(encoder.encode_u32(256, 257), Err(Error::Encode));
    assert_eq!(encoder.encode_u32(255, 257), Ok(()));
}

#[test]
fn integers_are_read_back() {
    let cases: [(u32, u32); 12] = [
        (0, 2),
        (1, 2),
        (0, 3),
        (1, 3),
        (2, 3),
        (17, 64),
        (63, 64),
        (5, 257),
        (255, 257),
        (70000, 100000),
        (0, 1 << 24),
        (12345678, 1 << 24),
    ];
    for (value, total) in cases {
        let frame = encoded_u32(value, total);
        assert_eq!(RangeDecoder::new(&frame).decode_u32(total), value);
        assert_eq!(RangeDecoder::new(&frame).decode_u32_strict(total), Ok(value));
    }
}

#[test]
fn integers_below_64_are_read_back() {
    for total in 2..=64u32 {
        for value in 0..total {
            let frame = encoded_u32(value, total);
            assert_eq!(frame.len(), 1);
            assert_eq!(RangeDecoder::new(&frame).decode_u32(total), value);
        }
    }
}
