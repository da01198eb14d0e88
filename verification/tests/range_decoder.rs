use opus_bitstream::range_coding::RangeDecoder;
use opus_bitstream::Error;

const FRAME: [u8; 6] = [0xF0, 0x12, 0x34, 0x56, 0x78, 0x9A];

#[test]
fn ilog_is_bit_length() {
    assert_eq!(RangeDecoder::ilog(0), 0);
    assert_eq!(RangeDecoder::ilog(1), 1);
    assert_eq!(RangeDecoder::ilog(2), 2);
    assert_eq!(RangeDecoder::ilog(3), 2);
    assert_eq!(RangeDecoder::ilog(4), 3);
    assert_eq!(RangeDecoder::ilog(255), 8);
    assert_eq!(RangeDecoder::ilog(256), 9);
    assert_eq!(RangeDecoder::ilog(0xFFFF), 16);
    assert_eq!(RangeDecoder::ilog(0x10000), 17);
    assert_eq!(RangeDecoder::ilog(0x7FFF_FFFF), 31);
    assert_eq!(RangeDecoder::ilog(0x8000_0000), 32);
    assert_eq!(RangeDecoder::ilog(u32::MAX), 32);
}

#[test]
fn ilog_of_every_single_bit_and_its_neighbours() {
    for bit in 0..32u32 {
        let v = 1u32 << bit;
        assert_eq!(RangeDecoder::ilog(v), bit + 1);
        assert_eq!(RangeDecoder::ilog(v | (v >> 1)), bit + 1);
        assert_eq!(RangeDecoder::ilog(v - 1), bit);
    }
}

#[test]
fn new_reads_four_bytes() {
    let decoder = RangeDecoder::new(&FRAME);
    // 127 - (0xF0 >> 1) = 7, then three bytes are taken in, each inverted.
    let expected = ((7 * 256 + (255 - 0x12)) * 256 + (255 - 0x34)) * 256 + (255 - 0x56);
    assert_eq!(expected, 133024681);
    assert_eq!(decoder.val(), 133024681);
    assert_eq!(decoder.rng(), 1 << 31);
    assert_eq!(decoder.num_bits_total(), 33);
}

#[test]
fn new_on_empty_frame_reads_zeros() {
    let decoder = RangeDecoder::new(&[]);
    assert_eq!(decoder.val(), (1 << 31) - 1);
    assert_eq!(decoder.rng(), 1 << 31);
    assert_eq!(decoder.num_bits_total(), 33);
}

#[test]
fn new_sets_the_leftover_bit_into_the_next_byte() {
    let even = RangeDecoder::new(&[0x12, 0x00]);
    assert_eq!(even.val(), 1996488703);
    // The low bit of the first byte is set in the lowest place of the second.
    let odd = RangeDecoder::new(&[0x13, 0x00]);
    assert_eq!(odd.val(), 1996488703 - (1 << 16));
    // A bit that is set already stays as it is, and is handed on to the
    // byte after it.
    let both = RangeDecoder::new(&[0x13, 0x01]);
    assert_eq!(both.val(), 1996488703 - (1 << 16) - (1 << 8));
    assert_eq!(RangeDecoder::new(&[0x12, 0x01]).val(), both.val());
}

#[test]
fn decode_gives_the_place_of_the_value() {
    let mut decoder = RangeDecoder::new(&FRAME);
    // ext = 2^31 / 256 = 2^23; s = 133024681 / 2^23 = 15; 256 - 16 = 240.
    assert_eq!(decoder.decode(256), 240);
    assert_eq!(decoder.val(), 133024681);
    assert_eq!(decoder.rng(), 1 << 31);
    // Asking again under another scale changes nothing but the step.
    assert_eq!(decoder.decode(2), 1);
    assert_eq!(decoder.decode(1), 0);
}

#[test]
fn decode_is_zero_where_the_value_is_past_the_scale() {
    // An empty frame gives the largest value: s = (2^31 - 1) / (2^31 / 3) = 2.
    let mut decoder = RangeDecoder::new(&[]);
    assert_eq!(decoder.decode(3), 0);
    // Under a scale that does not divide the range, s can reach the scale.
    let mut decoder = RangeDecoder::new(&[]);
    assert_eq!(decoder.decode(0x7FFF_FFFF), 0);
}

#[test]
fn update_narrows_and_renormalizes() {
    let mut decoder = RangeDecoder::new(&FRAME);
    let p = decoder.decode(256);
    decoder.update(p, p + 1, 256);
    assert_eq!((p, decoder.val(), decoder.rng()), (240, 1842063751, 1 << 31));
    assert_eq!(decoder.num_bits_total(), 41);

    let p = decoder.decode(1000);
    assert_eq!(p, 142);
    decoder.update(100, 200, 1000);
    assert_eq!((decoder.val(), decoder.rng()), (124077351, 214748300));
    assert_eq!(decoder.num_bits_total(), 41);

    // A symbol that starts at place 0 keeps the rest of the range.
    let p = decoder.decode(65535);
    assert_eq!(p, 27660);
    decoder.update(0, p + 1, 65535);
    assert_eq!((decoder.val(), decoder.rng()), (2127, 90673076));

    let p = decoder.decode(2);
    decoder.update(p, p + 1, 2);
    assert_eq!((p, decoder.val(), decoder.rng()), (1, 2127, 45336538));
}

#[test]
fn range_stays_normalized_and_holds_the_value() {
    let mut decoder = RangeDecoder::new(&[0x9C, 0x3B, 0x00, 0xFF, 0x42, 0x17, 0x80, 0x01]);
    let totals = [2u32, 3, 7, 256, 1000, 65535, 1 << 16, 1 << 20, 5, 255];
    for round in 0..200 {
        let total = totals[round % totals.len()];
        let p = decoder.decode(total);
        assert!(p < total);
        decoder.update(p, p + 1, total);
        assert!(decoder.rng() > 1 << 23);
        assert!(decoder.rng() <= 1 << 31);
        assert!(decoder.val() < decoder.rng());
    }
}

#[test]
fn bytes_past_the_end_of_the_frame_are_zero() {
    let mut decoder = RangeDecoder::new(&[0x12]);
    assert_eq!(decoder.val(), 1996488703);
    let p = decoder.decode(256);
    decoder.update(p, p + 1, 256);
    assert_eq!((p, decoder.val(), decoder.num_bits_total()), (18, (1 << 31) - 1, 41));
    for round in 0..5 {
        let p = decoder.decode(256);
        decoder.update(p, p + 1, 256);
        assert_eq!((p, decoder.val(), decoder.rng()), (0, (1 << 31) - 1, 1 << 31));
        assert_eq!(decoder.num_bits_total(), 49 + 8 * round);
    }
}

#[test]
fn decode_bits_reads_from_the_back() {
    let mut decoder = RangeDecoder::new(&FRAME);
    // The last byte is 0x9A: its low four bits first.
    assert_eq!(decoder.decode_bits(4), 0xA);
    // Then 0x9 from the same byte below 0x78 from the byte before it.
    assert_eq!(decoder.decode_bits(12), 0x789);
    assert_eq!(decoder.decode_bits(25), 0x123456);
    assert_eq!(decoder.decode_bits(0), 0);
    assert_eq!(decoder.num_bits_total(), 33 + 4 + 12 + 25);
}

#[test]
fn decode_bits_does_not_move_the_front_cursor() {
    let mut decoder = RangeDecoder::new(&FRAME);
    assert_eq!(decoder.decode_bits(25), 0x0056789A);
    let p = decoder.decode(256);
    decoder.update(p, p + 1, 256);
    // The same as without the raw bits: the fifth byte is read from the front.
    assert_eq!((p, decoder.val(), decoder.rng()), (240, 1842063751, 1 << 31));
}

#[test]
fn decode_bits_past_the_start_of_the_frame_are_zero() {
    let mut decoder = RangeDecoder::new(&[0xAB, 0xCD]);
    assert_eq!(decoder.decode_bits(8), 0xCD);
    assert_eq!(decoder.decode_bits(8), 0xAB);
    assert_eq!(decoder.decode_bits(8), 0);
    assert_eq!(decoder.decode_bits(25), 0);
    assert_eq!(decoder.num_bits_total(), 33 + 49);

    let mut decoder = RangeDecoder::new(&[0xAB, 0xCD]);
    assert_eq!(decoder.decode_bits(25), 0xABCD);
    assert_eq!(decoder.decode_bits(25), 0);
}

#[test]
fn decode_bits_of_uneven_sizes() {
    let mut decoder = RangeDecoder::new(&[1, 2, 3, 4, 5, 6, 7, 8]);
    assert_eq!(decoder.decode_bits(1), 0);
    assert_eq!(decoder.decode_bits(7), 4);
    assert_eq!(decoder.decode_bits(16), 0x0607);
    assert_eq!(decoder.decode_bits(9), 5);
    assert_eq!(decoder.decode_bits(25), 0x810182);
}

#[test]
fn decode_u32_small_total_uses_the_range_coder_alone() {
    let mut decoder = RangeDecoder::new(&FRAME);
    assert_eq!(decoder.decode_u32(3), 2);
    assert_eq!(decoder.num_bits_total(), 33);
    let symbols: Vec<u32> =
        [0u8, 0x3F, 0x54, 0x55, 0x56, 0xA9, 0xAA, 0xAB, 0xFF].iter().map(|b| RangeDecoder::new(&[*b]).decode_u32(3)).collect();
    assert_eq!(symbols, vec![0, 0, 0, 0, 1, 1, 1, 1, 2]);
}

#[test]
fn decode_u32_large_total_adds_raw_bits() {
    // ft = 99999 takes 17 bits: 8 are range coded on a scale of
    // (99998 >> 9) + 1 = 196 steps, 9 are raw.
    let mut decoder = RangeDecoder::new(&FRAME);
    let mut by_hand = RangeDecoder::new(&FRAME);
    let t = by_hand.decode(196);
    by_hand.update(t, t + 1, 196);
    let raw = by_hand.decode_bits(9);
    assert_eq!((t << 9) | raw, 93850);
    assert_eq!(decoder.decode_u32(100000), 93850);
    assert_eq!(decoder.num_bits_total(), 42);
    assert_eq!((decoder.val(), decoder.rng()), (by_hand.val(), by_hand.rng()));
}

#[test]
fn decode_u32_of_full_width() {
    let frame = [0x80, 0x40, 0x20, 0x10, 1, 2, 3, 0x55];
    let mut decoder = RangeDecoder::new(&frame);
    assert_eq!(decoder.decode_u32(u32::MAX), 2147615573);
    assert_eq!(decoder.num_bits_total(), 65);
    assert_eq!(RangeDecoder::new(&[0; 8]).decode_u32(u32::MAX), 0);
}

#[test]
fn decode_u32_clamps_a_value_that_is_not_below_total() {
    // ft = 513: the scale has (512 >> 2) + 1 = 129 steps, so that the top
    // step with raw bits of 2 or 3 stands for 514 or 515.
    assert_eq!(RangeDecoder::new(&[255; 8]).decode_u32(514), 513);
    assert_eq!(RangeDecoder::new(&[255, 255, 255, 255, 0, 0, 0, 1]).decode_u32(514), 513);
    assert_eq!(RangeDecoder::new(&[0, 0, 0, 0, 0, 0, 0, 3]).decode_u32(514), 3);
    assert_eq!(RangeDecoder::new(&[255; 8]).decode_u32(u32::MAX), u32::MAX - 1);
}

#[test]
fn decode_u32_strict_refuses_a_value_that_is_not_below_total() {
    assert_eq!(RangeDecoder::new(&[255; 8]).decode_u32_strict(514), Err(Error::Decode));
    assert_eq!(RangeDecoder::new(&[255; 8]).decode_u32_strict(u32::MAX), Err(Error::Decode));
    // The largest value itself is accepted.
    assert_eq!(
        RangeDecoder::new(&[255, 255, 255, 255, 0, 0, 0, 1]).decode_u32_strict(514),
        Ok(513)
    );
    assert_eq!(RangeDecoder::new(&[0, 0, 0, 0, 0, 0, 0, 3]).decode_u32_strict(514), Ok(3));
    assert_eq!(RangeDecoder::new(&FRAME).decode_u32_strict(100000), Ok(93850));
    assert_eq!(RangeDecoder::new(&FRAME).decode_u32_strict(3), Ok(2));
}

#[test]
fn decode_u32_strict_moves_the_decoder_as_decode_u32_does() {
    let mut strict = RangeDecoder::new(&[255; 8]);
    let mut clamped = RangeDecoder::new(&[255; 8]);
    assert!(strict.decode_u32_strict(514).is_err());
    clamped.decode_u32(514);
    assert_eq!((strict.val(), strict.rng()), (clamped.val(), clamped.rng()));
    assert_eq!(strict.num_bits_total(), clamped.num_bits_total());
    assert_eq!(strict.decode_bits(8), clamped.decode_bits(8));
}
