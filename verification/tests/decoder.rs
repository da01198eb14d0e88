use opus_bitstream::range_coding::RangeDecoder;
use opus_bitstream::{Channels, Decoder, Encoder, Error};

fn symbols(data: &[u8]) -> Result<Vec<u32>, Error> {
    Decoder::new(48_000, Channels::Mono).decode_leading_symbols(data)
}

#[test]
fn empty_packet_is_refused() {
    assert_eq!(symbols(&[]), Err(Error::InvalidPacketSize));
}

#[test]
fn packet_of_one_byte_holds_no_frame() {
    for toc in [0xF0u8, 0xF1, 0xF2, 0xF3, 0x00, 0xFF] {
        assert_eq!(symbols(&[toc]), Ok(vec![]));
    }
}

#[test]
fn single_frame_packet() {
    assert_eq!(symbols(&[0xF0, 0x12, 0x34]), Ok(vec![0]));
    assert_eq!(symbols(&[0xF0, 0xFF]), Ok(vec![2]));
    assert_eq!(symbols(&[0xF0, 0xF0, 0x12, 0x34, 0x56, 0x78, 0x9A]), Ok(vec![2]));
}

#[test]
fn leading_symbol_is_what_a_range_decoder_reads_first() {
    let frame = [0x9C, 0x3B, 0x00, 0xFF];
    let expected = RangeDecoder::new(&frame).decode_u32(3);
    assert_eq!(symbols(&[0xF0, 0x9C, 0x3B, 0x00, 0xFF]), Ok(vec![expected]));
}

#[test]
fn two_equal_frames_packet() {
    assert_eq!(symbols(&[0xF1, 0xFF, 0x01, 0x00, 0x02]), Ok(vec![2, 0]));
}

#[test]
fn two_equal_frames_packet_of_odd_length_is_refused() {
    assert_eq!(symbols(&[0xF1, 1, 2, 3]), Err(Error::InvalidPacketSize));
}

#[test]
fn two_different_frames_packet() {
    assert_eq!(symbols(&[0xF2, 1, 0xAA, 0xFF, 0xFF]), Ok(vec![1, 2]));
    assert_eq!(symbols(&[0xF2, 0, 0xAA]), Err(Error::InvalidPacketSize));
}

#[test]
fn arbitrary_frames_packet() {
    assert_eq!(symbols(&[0xF3, 3, 0xAA, 0x55, 0xFF]), Ok(vec![1, 0, 2]));
    assert_eq!(symbols(&[0xF3, 0b0100_0010, 1, 0xFF, 0x55]), Ok(vec![2, 0]));
}

#[test]
fn arbitrary_frames_packet_with_count_zero_is_refused() {
    assert_eq!(symbols(&[0xF3, 0]), Err(Error::InvalidFrameCount));
    assert_eq!(symbols(&[0xF3, 0, 1, 2]), Err(Error::InvalidFrameCount));
    assert_eq!(symbols(&[0x03, 0x40, 1, 2]), Err(Error::InvalidFrameCount));
}

#[test]
fn arbitrary_frames_packet_with_cut_padding_is_refused() {
    assert_eq!(symbols(&[0xF3, 32]), Err(Error::InvalidOpusPadding));
    assert_eq!(symbols(&[0xF3, 32, 255]), Err(Error::InvalidOpusPadding));
}

#[test]
fn decoder_can_be_used_for_many_packets() {
    let mut decoder = Decoder::new(16_000, Channels::Stereo);
    assert_eq!(decoder.decode_leading_symbols(&[0xF0, 0xFF]), Ok(vec![2]));
    assert_eq!(decoder.decode_leading_symbols(&[]), Err(Error::InvalidPacketSize));
    assert_eq!(decoder.decode_leading_symbols(&[0xF0, 0xFF]), Ok(vec![2]));
}

#[test]
fn encoder_is_made_for_a_rate_and_channels() {
    let _encoder = Encoder::new(48_000, 64_000, Channels::Stereo);
}
