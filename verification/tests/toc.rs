use opus_bitstream::{
    Bandwidth, Channels, CodecConfig, CodecMode, Error, FrameSizeMs, FramesPerPacket,
    TableOfContentsHeader,
};

fn header(byte: u8) -> TableOfContentsHeader {
    TableOfContentsHeader::try_from(byte).unwrap()
}

fn config(byte: u8) -> (CodecMode, Bandwidth, FrameSizeMs) {
    let c = CodecConfig::try_from(byte).unwrap();
    (c.mode, c.bandwidth, c.frame_size)
}

#[test]
fn test_decode_table_of_contents() {
    // The first byte of a full-band, mono, single-frame CELT packet of 10 ms.
    let opus_bytes: [u8; 1] = [0xF0];

    let toc = TableOfContentsHeader::try_from(opus_bytes[0]).unwrap();

    assert_eq!(
        toc,
        TableOfContentsHeader {
            codec_config: CodecConfig {
                bandwidth: Bandwidth::Full,
                frame_size: FrameSizeMs::Ten,
                mode: CodecMode::CELTOnly,
            },
            channels: Channels::Mono,
            frames_per_packet: FramesPerPacket::One,
        }
    );
}

#[test]
fn toc_byte_b8_is_index_23() {
    assert_eq!(
        header(0xB8),
        TableOfContentsHeader {
            codec_config: CodecConfig {
                bandwidth: Bandwidth::Wide,
                frame_size: FrameSizeMs::Twenty,
                mode: CodecMode::CELTOnly,
            },
            channels: Channels::Mono,
            frames_per_packet: FramesPerPacket::One,
        }
    );
}

#[test]
fn toc_round_trip_every_byte() {
    for byte in 0..=255u8 {
        let toc = header(byte);
        assert_eq!(toc.codec_config.index(), Some(byte >> 3));
        assert_eq!(toc.channels.bit(), (byte >> 2) & 1);
        assert_eq!(toc.frames_per_packet.code(), byte & 3);
        assert_eq!(toc.to_byte(), Ok(byte));
    }
}

#[test]
fn toc_framing_codes() {
    assert_eq!(FramesPerPacket::try_from(0b1111_1100).unwrap(), FramesPerPacket::One);
    assert_eq!(FramesPerPacket::try_from(0b0000_0001).unwrap(), FramesPerPacket::TwoEquallyCompressed);
    assert_eq!(FramesPerPacket::try_from(0b0000_0010).unwrap(), FramesPerPacket::TwoDifferentlyCompressed);
    assert_eq!(FramesPerPacket::try_from(0b0000_0011).unwrap(), FramesPerPacket::Arbitrary);
}

#[test]
fn toc_channel_bit() {
    assert_eq!(header(0b0000_0000).channels, Channels::Mono);
    assert_eq!(header(0b0000_0100).channels, Channels::Stereo);
    assert_eq!(header(0b1111_1011).channels, Channels::Mono);
    assert_eq!(header(0b1111_1111).channels, Channels::Stereo);
}

#[test]
fn toc_silk_rows() {
    let sizes = [FrameSizeMs::Ten, FrameSizeMs::Twenty, FrameSizeMs::Forty, FrameSizeMs::Sixty];
    let bandwidths = [Bandwidth::Narrow, Bandwidth::Medium, Bandwidth::Wide];
    for (group, bandwidth) in bandwidths.into_iter().enumerate() {
        for (place, size) in sizes.into_iter().enumerate() {
            let index = (group * 4 + place) as u8;
            assert_eq!(config(index << 3), (CodecMode::SILKOnly, bandwidth, size));
        }
    }
}

#[test]
fn toc_hybrid_rows() {
    assert_eq!(config(12 << 3), (CodecMode::Hybrid, Bandwidth::SuperWide, FrameSizeMs::Ten));
    assert_eq!(config(13 << 3), (CodecMode::Hybrid, Bandwidth::SuperWide, FrameSizeMs::Twenty));
    assert_eq!(config(14 << 3), (CodecMode::Hybrid, Bandwidth::Full, FrameSizeMs::Ten));
    assert_eq!(config(15 << 3), (CodecMode::Hybrid, Bandwidth::Full, FrameSizeMs::Twenty));
}

#[test]
fn toc_celt_rows() {
    let sizes =
        [FrameSizeMs::TwoPointFive, FrameSizeMs::Five, FrameSizeMs::Ten, FrameSizeMs::Twenty];
    let bandwidths = [Bandwidth::Narrow, Bandwidth::Wide, Bandwidth::SuperWide, Bandwidth::Full];
    for (group, bandwidth) in bandwidths.into_iter().enumerate() {
        for (place, size) in sizes.into_iter().enumerate() {
            let index = (16 + group * 4 + place) as u8;
            assert_eq!(config(index << 3), (CodecMode::CELTOnly, bandwidth, size));
        }
    }
}

#[test]
fn toc_config_ignores_low_bits() {
    for low in 0..8u8 {
        assert_eq!(config((30 << 3) | low), config(30 << 3));
    }
}

#[test]
fn toc_to_byte_packs_fields() {
    let toc = TableOfContentsHeader {
        codec_config: CodecConfig {
            mode: CodecMode::Hybrid,
            bandwidth: Bandwidth::Full,
            frame_size: FrameSizeMs::Twenty,
        },
        channels: Channels::Stereo,
        frames_per_packet: FramesPerPacket::TwoDifferentlyCompressed,
    };
    assert_eq!(toc.to_byte(), Ok((15 << 3) | 4 | 2));
}

#[test]
fn toc_to_byte_refuses_config_outside_table() {
    let pairs = [
        (CodecMode::SILKOnly, Bandwidth::Full, FrameSizeMs::Ten),
        (CodecMode::SILKOnly, Bandwidth::Narrow, FrameSizeMs::Five),
        (CodecMode::Hybrid, Bandwidth::Narrow, FrameSizeMs::Ten),
        (CodecMode::Hybrid, Bandwidth::Full, FrameSizeMs::Forty),
        (CodecMode::CELTOnly, Bandwidth::Medium, FrameSizeMs::Ten),
        (CodecMode::CELTOnly, Bandwidth::Full, FrameSizeMs::Sixty),
    ];
    for (mode, bandwidth, frame_size) in pairs {
        let codec_config = CodecConfig { mode, bandwidth, frame_size };
        assert_eq!(codec_config.index(), None);
        let toc = TableOfContentsHeader {
            codec_config,
            channels: Channels::Mono,
            frames_per_packet: FramesPerPacket::One,
        };
        assert_eq!(toc.to_byte(), Err(Error::InvalidCodecConfig));
    }
}
