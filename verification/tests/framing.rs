use opus_bitstream::framing::{parse_size, FrameIterator, MAX_FRAME_COUNT_PER_PACKET};
use opus_bitstream::{Error, FramesPerPacket, TableOfContentsHeader};

fn toc(mode: FramesPerPacket) -> TableOfContentsHeader {
    let code: u8 = match mode {
        FramesPerPacket::One => 0,
        FramesPerPacket::TwoEquallyCompressed => 1,
        FramesPerPacket::TwoDifferentlyCompressed => 2,
        FramesPerPacket::Arbitrary => 3,
    };
    TableOfContentsHeader::try_from(0xF0 | code).unwrap()
}

/// The frames of `packet`, each as the index of its first byte in `packet`
/// and its bytes.
fn frames(mode: FramesPerPacket, packet: &[u8]) -> Result<Vec<(usize, Vec<u8>)>, Error> {
    let toc = toc(mode);
    let mut iter = FrameIterator::new(&toc, packet)?;
    let mut found = Vec::new();
    while let Some(frame) = iter.next() {
        let data = frame?.compressed_data;
        let start = data.as_ptr() as usize - packet.as_ptr() as usize;
        found.push((start, data.to_vec()));
    }
    assert!(iter.next().is_none());
    Ok(found)
}

fn sizes(mode: FramesPerPacket, packet: &[u8]) -> Result<Vec<usize>, Error> {
    Ok(frames(mode, packet)?.into_iter().map(|(_, data)| data.len()).collect())
}

/// Checks that the frames follow each other without a gap, and returns the
/// bytes before the first frame and after the last one.
fn check_cover(mode: FramesPerPacket, packet: &[u8]) -> (usize, usize) {
    let found = frames(mode, packet).unwrap();
    assert!(!found.is_empty() && found.len() <= MAX_FRAME_COUNT_PER_PACKET);
    let prefix = found[0].0;
    let mut at = prefix;
    for (start, data) in &found {
        assert_eq!(*start, at);
        assert_eq!(&packet[at..at + data.len()], &data[..]);
        at += data.len();
    }
    assert!(at <= packet.len());
    (prefix, packet.len() - at)
}

#[test]
fn parse_size_one_byte() {
    assert_eq!(parse_size(&[1]), Some((1, 1)));
    assert_eq!(parse_size(&[100, 7]), Some((100, 1)));
    assert_eq!(parse_size(&[251]), Some((251, 1)));
}

#[test]
fn parse_size_two_bytes() {
    assert_eq!(parse_size(&[252, 0]), Some((252, 2)));
    assert_eq!(parse_size(&[253, 1, 9]), Some((257, 2)));
    assert_eq!(parse_size(&[255, 255]), Some((1275, 2)));
}

#[test]
fn parse_size_refuses_zero_and_short_prefix() {
    assert_eq!(parse_size(&[0]), None);
    assert_eq!(parse_size(&[0, 5]), None);
    assert_eq!(parse_size(&[252]), None);
    assert_eq!(parse_size(&[255]), None);
    assert_eq!(parse_size(&[]), None);
}

#[test]
fn one_frame_spans_packet() {
    assert_eq!(frames(FramesPerPacket::One, &[1, 2, 3]), Ok(vec![(0, vec![1, 2, 3])]));
    assert_eq!(frames(FramesPerPacket::One, &[]), Ok(vec![(0, vec![])]));
}

#[test]
fn two_equal_frames_halve_packet() {
    assert_eq!(
        frames(FramesPerPacket::TwoEquallyCompressed, &[1, 2, 3, 4]),
        Ok(vec![(0, vec![1, 2]), (2, vec![3, 4])])
    );
    assert_eq!(sizes(FramesPerPacket::TwoEquallyCompressed, &[]), Ok(vec![0, 0]));
}

#[test]
fn two_equal_frames_refuse_odd_length() {
    assert_eq!(sizes(FramesPerPacket::TwoEquallyCompressed, &[1, 2, 3]), Err(Error::InvalidPacketSize));
    assert_eq!(sizes(FramesPerPacket::TwoEquallyCompressed, &[1]), Err(Error::InvalidPacketSize));
}

#[test]
fn two_different_frames_use_prefix() {
    assert_eq!(
        frames(FramesPerPacket::TwoDifferentlyCompressed, &[2, 10, 11, 12, 13, 14]),
        Ok(vec![(1, vec![10, 11]), (3, vec![12, 13, 14])])
    );
    // The first frame may take everything: the second is then empty.
    assert_eq!(
        frames(FramesPerPacket::TwoDifferentlyCompressed, &[2, 10, 11]),
        Ok(vec![(1, vec![10, 11]), (3, vec![])])
    );
}

#[test]
fn two_different_frames_long_prefix() {
    let mut packet = vec![252u8, 1];
    packet.extend(std::iter::repeat(7u8).take(300));
    assert_eq!(sizes(FramesPerPacket::TwoDifferentlyCompressed, &packet), Ok(vec![256, 44]));
    assert_eq!(check_cover(FramesPerPacket::TwoDifferentlyCompressed, &packet), (2, 0));
}

#[test]
fn two_different_frames_refuse_bad_prefix() {
    let mode = FramesPerPacket::TwoDifferentlyCompressed;
    assert_eq!(sizes(mode, &[]), Err(Error::InvalidPacketSize));
    assert_eq!(sizes(mode, &[0, 1, 2]), Err(Error::InvalidPacketSize));
    assert_eq!(sizes(mode, &[252]), Err(Error::InvalidPacketSize));
    assert_eq!(sizes(mode, &[3, 1, 2]), Err(Error::InvalidPacketSize));
    assert_eq!(sizes(mode, &[4, 1, 2, 3]), Err(Error::InvalidPacketSize));
    assert_eq!(sizes(mode, &[252, 0, 1, 2, 3]), Err(Error::InvalidPacketSize));
}

#[test]
fn arbitrary_frame_count_zero() {
    let mode = FramesPerPacket::Arbitrary;
    assert_eq!(sizes(mode, &[0]), Err(Error::InvalidFrameCount));
    assert_eq!(sizes(mode, &[0, 1, 2, 3]), Err(Error::InvalidFrameCount));
    assert_eq!(sizes(mode, &[0b0100_0000, 1, 2, 3]), Err(Error::InvalidFrameCount));
}

#[test]
fn arbitrary_frame_count_above_limit() {
    let mode = FramesPerPacket::Arbitrary;
    let mut packet = vec![49u8, 0];
    packet.extend(std::iter::repeat(0u8).take(98));
    assert_eq!(sizes(mode, &packet), Err(Error::InvalidFrameCount));
    packet[0] = 63;
    assert_eq!(sizes(mode, &packet), Err(Error::InvalidFrameCount));
    packet[0] = 0b0100_0000 | 50;
    assert_eq!(sizes(mode, &packet), Err(Error::InvalidFrameCount));
}

#[test]
fn arbitrary_needs_count_byte() {
    assert_eq!(sizes(FramesPerPacket::Arbitrary, &[]), Err(Error::InvalidPacketSize));
}

#[test]
fn arbitrary_constant_bit_rate() {
    let mode = FramesPerPacket::Arbitrary;
    assert_eq!(
        frames(mode, &[3, 1, 2, 3, 4, 5, 6]),
        Ok(vec![(1, vec![1, 2]), (3, vec![3, 4]), (5, vec![5, 6])])
    );
    assert_eq!(sizes(mode, &[1, 9, 9, 9]), Ok(vec![3]));
    assert_eq!(sizes(mode, &[4]), Ok(vec![0, 0, 0, 0]));
    assert_eq!(sizes(mode, &[31]), Ok(vec![0; 31]));
}

#[test]
fn arbitrary_constant_bit_rate_refuses_uneven_split() {
    let mode = FramesPerPacket::Arbitrary;
    assert_eq!(sizes(mode, &[3, 1, 2, 3, 4, 5]), Err(Error::InvalidPacketSize));
    assert_eq!(sizes(mode, &[2, 1]), Err(Error::InvalidPacketSize));
}

#[test]
fn arbitrary_variable_bit_rate() {
    let mode = FramesPerPacket::Arbitrary;
    // Three frames: sizes 1 and 2 from the prefixes, the last takes the rest.
    let packet = [0b0100_0000 | 3, 1, 2, 10, 20, 21, 30, 31, 32];
    assert_eq!(
        frames(mode, &packet),
        Ok(vec![(3, vec![10]), (4, vec![20, 21]), (6, vec![30, 31, 32])])
    );
    assert_eq!(check_cover(mode, &packet), (3, 0));
    // One frame has no prefix.
    assert_eq!(frames(mode, &[0b0100_0001, 5, 6]), Ok(vec![(1, vec![5, 6])]));
    // The last frame may be empty.
    assert_eq!(sizes(mode, &[0b0100_0010, 2, 5, 6]), Ok(vec![2, 0]));
}

#[test]
fn arbitrary_variable_bit_rate_long_prefix() {
    let mode = FramesPerPacket::Arbitrary;
    let mut packet = vec![0b0100_0000 | 2, 255, 2];
    packet.extend(std::iter::repeat(1u8).take(270));
    assert_eq!(sizes(mode, &packet), Ok(vec![263, 7]));
    assert_eq!(check_cover(mode, &packet), (3, 0));
}

#[test]
fn arbitrary_variable_bit_rate_refuses_bad_sizes() {
    let mode = FramesPerPacket::Arbitrary;
    // A prefix of zero.
    assert_eq!(sizes(mode, &[0b0100_0010, 0, 1, 2]), Err(Error::InvalidPacketSize));
    // No prefix at all.
    assert_eq!(sizes(mode, &[0b0100_0010]), Err(Error::InvalidPacketSize));
    // A prefix cut short.
    assert_eq!(sizes(mode, &[0b0100_0010, 252]), Err(Error::InvalidPacketSize));
    // More announced than there is.
    assert_eq!(sizes(mode, &[0b0100_0010, 3, 1, 2]), Err(Error::InvalidPacketSize));
    // The first frame leaves no room for the second one's prefix.
    assert_eq!(sizes(mode, &[0b0100_0011, 2, 1, 9]), Err(Error::InvalidPacketSize));
    // Together the frames announce more than there is.
    assert_eq!(sizes(mode, &[0b0100_0011, 2, 2, 9, 9, 9]), Err(Error::InvalidPacketSize));
}

#[test]
fn arbitrary_padding_is_cut_off() {
    let mode = FramesPerPacket::Arbitrary;
    // 32 frames with the padding flag; two bytes of padding.
    let mut packet = vec![32u8, 2];
    packet.extend((0..64).map(|i| i as u8));
    packet.extend([0xEE, 0xEE]);
    let found = frames(mode, &packet).unwrap();
    assert_eq!(found.len(), 32);
    for (i, (start, data)) in found.iter().enumerate() {
        assert_eq!(*start, 2 + 2 * i);
        assert_eq!(data, &vec![2 * i as u8, 2 * i as u8 + 1]);
    }
    assert_eq!(check_cover(mode, &packet), (2, 2));
}

#[test]
fn arbitrary_padding_length_of_zero() {
    let mode = FramesPerPacket::Arbitrary;
    let mut packet = vec![32u8, 0];
    packet.extend(std::iter::repeat(5u8).take(32));
    assert_eq!(sizes(mode, &packet), Ok(vec![1; 32]));
    assert_eq!(check_cover(mode, &packet), (2, 0));
}

#[test]
fn arbitrary_padding_length_continues_after_255() {
    let mode = FramesPerPacket::Arbitrary;
    // 255 stands for 254 and goes on; 3 ends: 257 bytes of padding.
    let mut packet = vec![32u8, 255, 3];
    packet.extend(std::iter::repeat(1u8).take(32));
    packet.extend(std::iter::repeat(0u8).take(257));
    assert_eq!(sizes(mode, &packet), Ok(vec![1; 32]));
    assert_eq!(check_cover(mode, &packet), (3, 257));
    // 255, 255, 0: 508 bytes.
    let mut packet = vec![32u8, 255, 255, 0];
    packet.extend(std::iter::repeat(1u8).take(64));
    packet.extend(std::iter::repeat(0u8).take(508));
    assert_eq!(sizes(mode, &packet), Ok(vec![2; 32]));
    assert_eq!(check_cover(mode, &packet), (4, 508));
}

#[test]
fn arbitrary_padding_length_cut_short() {
    let mode = FramesPerPacket::Arbitrary;
    assert_eq!(sizes(mode, &[32]), Err(Error::InvalidOpusPadding));
    assert_eq!(sizes(mode, &[32, 255]), Err(Error::InvalidOpusPadding));
    assert_eq!(sizes(mode, &[32, 255, 255, 255]), Err(Error::InvalidOpusPadding));
}

#[test]
fn arbitrary_padding_refuses_padding_that_fills_packet() {
    let mode = FramesPerPacket::Arbitrary;
    // Nothing is left after the length byte.
    assert_eq!(sizes(mode, &[32, 0]), Err(Error::InvalidPacketSize));
    // The padding is all that is left.
    assert_eq!(sizes(mode, &[32, 3, 0, 0, 0]), Err(Error::InvalidPacketSize));
    // The padding is more than is left.
    assert_eq!(sizes(mode, &[32, 200, 0, 0, 0]), Err(Error::InvalidPacketSize));
    assert_eq!(sizes(mode, &[32, 255, 0, 1, 2, 3]), Err(Error::InvalidPacketSize));
}

#[test]
fn arbitrary_padding_with_variable_bit_rate() {
    let mode = FramesPerPacket::Arbitrary;
    // Bits 5 and 6 set, 33 frames: 32 prefixes of 1, and a last frame.
    let mut packet = vec![0b0110_0001u8, 4];
    packet.extend(std::iter::repeat(1u8).take(32));
    packet.extend((0..32).map(|i| 100 + i as u8));
    packet.extend([7, 8, 9]);
    packet.extend([0, 0, 0, 0]);
    let found = frames(mode, &packet).unwrap();
    assert_eq!(found.len(), 33);
    assert_eq!(found[0], (34, vec![100]));
    assert_eq!(found[31], (65, vec![131]));
    assert_eq!(found[32], (66, vec![7, 8, 9]));
    assert_eq!(check_cover(mode, &packet), (34, 4));
}

#[test]
fn frames_cover_packet_in_every_mode() {
    // Packets made from a small generator, so that the layouts vary.
    let mut seed: u32 = 12345;
    let mut next = move |bound: u32| {
        seed = seed.wrapping_mul(1664525).wrapping_add(1013904223);
        (seed >> 16) % bound
    };
    let mut covered = 0;
    for _ in 0..3000 {
        let mode = match next(4) {
            0 => FramesPerPacket::One,
            1 => FramesPerPacket::TwoEquallyCompressed,
            2 => FramesPerPacket::TwoDifferentlyCompressed,
            _ => FramesPerPacket::Arbitrary,
        };
        let len = next(40) as usize;
        let packet: Vec<u8> = (0..len).map(|_| if next(3) == 0 { next(256) } else { next(6) } as u8).collect();
        if frames(mode, &packet).is_ok() {
            let (prefix, padding) = check_cover(mode, &packet);
            let total: usize = sizes(mode, &packet).unwrap().iter().sum();
            assert_eq!(prefix + total + padding, packet.len());
            covered += 1;
        }
    }
    assert!(covered > 500);
}
