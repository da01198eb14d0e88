//! The table-of-contents byte: five bits of codec configuration, one channel
//! bit and two bits of framing code.
use crate::{
    Bandwidth, Channels, CodecConfig, CodecMode, Error, FrameSizeMs, FramesPerPacket,
    TableOfContentsHeader,
};
use vstd::prelude::*;
use vstd::std_specs::convert::TryFromSpecImpl;

verus! {

/// The framing mode that a two-bit code stands for.
pub open spec fn spec_frames_per_packet(code: int) -> FramesPerPacket {
    if code == 0 {
        FramesPerPacket::One
    } else if code == 1 {
        FramesPerPacket::TwoEquallyCompressed
    } else if code == 2 {
        FramesPerPacket::TwoDifferentlyCompressed
    } else {
        FramesPerPacket::Arbitrary
    }
}

/// The coding mode of a configuration index in `0..32`.
pub open spec fn spec_codec_mode(index: int) -> CodecMode {
    if index < 12 {
        CodecMode::SILKOnly
    } else if index < 16 {
        CodecMode::Hybrid
    } else {
        CodecMode::CELTOnly
    }
}

/// The audio bandwidth of a configuration index in `0..32`.
pub open spec fn spec_bandwidth(index: int) -> Bandwidth {
    if index < 4 {
        Bandwidth::Narrow
    } else if index < 8 {
        Bandwidth::Medium
    } else if index < 12 {
        Bandwidth::Wide
    } else if index < 14 {
        Bandwidth::SuperWide
    } else if index < 16 {
        Bandwidth::Full
    } else if index < 20 {
        Bandwidth::Narrow
    } else if index < 24 {
        Bandwidth::Wide
    } else if index < 28 {
        Bandwidth::SuperWide
    } else {
        Bandwidth::Full
    }
}

/// The frame duration of a configuration index in `0..32`: each group of
/// indices walks through its own list of durations.
pub open spec fn spec_frame_size(index: int) -> FrameSizeMs {
    if index < 12 {
        if index % 4 == 0 {
            FrameSizeMs::Ten
        } else if index % 4 == 1 {
            FrameSizeMs::Twenty
        } else if index % 4 == 2 {
            FrameSizeMs::Forty
        } else {
            FrameSizeMs::Sixty
        }
    } else if index < 16 {
        if index % 2 == 0 {
            FrameSizeMs::Ten
        } else {
            FrameSizeMs::Twenty
        }
    } else {
        if index % 4 == 0 {
            FrameSizeMs::TwoPointFive
        } else if index % 4 == 1 {
            FrameSizeMs::Five
        } else if index % 4 == 2 {
            FrameSizeMs::Ten
        } else {
            FrameSizeMs::Twenty
        }
    }
}

/// The configuration that an index in `0..32` stands for.
pub open spec fn spec_codec_config(index: int) -> CodecConfig {
    CodecConfig {
        mode: spec_codec_mode(index),
        bandwidth: spec_bandwidth(index),
        frame_size: spec_frame_size(index),
    }
}

/// The channel count that the channel bit stands for.
pub open spec fn spec_channels(bit: int) -> Channels {
    if bit == 1 {
        Channels::Stereo
    } else {
        Channels::Mono
    }
}

/// The header that a first byte stands for: the index is its top five bits,
/// the channel bit is bit 2, the framing code its low two bits.
pub open spec fn spec_header(byte: u8) -> TableOfContentsHeader {
    TableOfContentsHeader {
        codec_config: spec_codec_config(byte as int / 8),
        channels: spec_channels((byte as int / 4) % 2),
        frames_per_packet: spec_frames_per_packet(byte as int % 4),
    }
}

impl FramesPerPacket {
    /// The two-bit code of this framing mode.
    pub open spec fn spec_code(self) -> int {
        match self {
            FramesPerPacket::One => 0,
            FramesPerPacket::TwoEquallyCompressed => 1,
            FramesPerPacket::TwoDifferentlyCompressed => 2,
            FramesPerPacket::Arbitrary => 3,
        }
    }

    /// The two-bit code of this framing mode.
    pub fn code(&self) -> (code: u8)
        ensures
            code == self.spec_code(),
    {
        match self {
            FramesPerPacket::One => 0,
            FramesPerPacket::TwoEquallyCompressed => 1,
            FramesPerPacket::TwoDifferentlyCompressed => 2,
            FramesPerPacket::Arbitrary => 3,
        }
    }
}

impl Channels {
    /// The channel bit: 0 for mono, 1 for stereo.
    pub open spec fn spec_bit(self) -> int {
        match self {
            Channels::Mono => 0,
            Channels::Stereo => 1,
        }
    }

    /// The channel bit: 0 for mono, 1 for stereo.
    pub fn bit(&self) -> (bit: u8)
        ensures
            bit == self.spec_bit(),
    {
        match self {
            Channels::Mono => 0,
            Channels::Stereo => 1,
        }
    }
}

impl CodecConfig {
    /// The first index of the group that a mode and a bandwidth share, if the
    /// table holds that pair.
    pub open spec fn spec_group_base(self) -> Option<int> {
        match (self.mode, self.bandwidth) {
            (CodecMode::SILKOnly, Bandwidth::Narrow) => Some(0),
            (CodecMode::SILKOnly, Bandwidth::Medium) => Some(4),
            (CodecMode::SILKOnly, Bandwidth::Wide) => Some(8),
            (CodecMode::Hybrid, Bandwidth::SuperWide) => Some(12),
            (CodecMode::Hybrid, Bandwidth::Full) => Some(14),
            (CodecMode::CELTOnly, Bandwidth::Narrow) => Some(16),
            (CodecMode::CELTOnly, Bandwidth::Wide) => Some(20),
            (CodecMode::CELTOnly, Bandwidth::SuperWide) => Some(24),
            (CodecMode::CELTOnly, Bandwidth::Full) => Some(28),
            _ => None,
        }
    }

    /// The place of the frame duration in the list of its mode, if the mode
    /// has that duration.
    pub open spec fn spec_group_offset(self) -> Option<int> {
        match (self.mode, self.frame_size) {
            (CodecMode::SILKOnly, FrameSizeMs::Ten) => Some(0),
            (CodecMode::SILKOnly, FrameSizeMs::Twenty) => Some(1),
            (CodecMode::SILKOnly, FrameSizeMs::Forty) => Some(2),
            (CodecMode::SILKOnly, FrameSizeMs::Sixty) => Some(3),
            (CodecMode::Hybrid, FrameSizeMs::Ten) => Some(0),
            (CodecMode::Hybrid, FrameSizeMs::Twenty) => Some(1),
            (CodecMode::CELTOnly, FrameSizeMs::TwoPointFive) => Some(0),
            (CodecMode::CELTOnly, FrameSizeMs::Five) => Some(1),
            (CodecMode::CELTOnly, FrameSizeMs::Ten) => Some(2),
            (CodecMode::CELTOnly, FrameSizeMs::Twenty) => Some(3),
            _ => None,
        }
    }

    /// The five-bit index of this configuration, if the table holds it.
    pub open spec fn spec_index(self) -> Option<int> {
        match (self.spec_group_base(), self.spec_group_offset()) {
            (Some(base), Some(offset)) => Some(base + offset),
            _ => None,
        }
    }

    /// The five-bit index of this configuration; `None` for a combination
    /// that the table does not hold.
    pub fn index(&self) -> (index: Option<u8>)
        ensures
            index.is_some() == self.spec_index().is_some(),
            index.is_some() ==> index.unwrap() == self.spec_index().unwrap(),
            index.is_some() ==> index.unwrap() < 32 && spec_codec_config(index.unwrap() as int)
                == *self,
    {
        let base: u8 = match (self.mode, self.bandwidth) {
            (CodecMode::SILKOnly, Bandwidth::Narrow) => 0,
            (CodecMode::SILKOnly, Bandwidth::Medium) => 4,
            (CodecMode::SILKOnly, Bandwidth::Wide) => 8,
            (CodecMode::Hybrid, Bandwidth::SuperWide) => 12,
            (CodecMode::Hybrid, Bandwidth::Full) => 14,
            (CodecMode::CELTOnly, Bandwidth::Narrow) => 16,
            (CodecMode::CELTOnly, Bandwidth::Wide) => 20,
            (CodecMode::CELTOnly, Bandwidth::SuperWide) => 24,
            (CodecMode::CELTOnly, Bandwidth::Full) => 28,
            _ => { return None; },
        };
        let offset: u8 = match (self.mode, self.frame_size) {
            (CodecMode::SILKOnly, FrameSizeMs::Ten) => 0,
            (CodecMode::SILKOnly, FrameSizeMs::Twenty) => 1,
            (CodecMode::SILKOnly, FrameSizeMs::Forty) => 2,
            (CodecMode::SILKOnly, FrameSizeMs::Sixty) => 3,
            (CodecMode::Hybrid, FrameSizeMs::Ten) => 0,
            (CodecMode::Hybrid, FrameSizeMs::Twenty) => 1,
            (CodecMode::CELTOnly, FrameSizeMs::TwoPointFive) => 0,
            (CodecMode::CELTOnly, FrameSizeMs::Five) => 1,
            (CodecMode::CELTOnly, FrameSizeMs::Ten) => 2,
            (CodecMode::CELTOnly, FrameSizeMs::Twenty) => 3,
            _ => { return None; },
        };
        Some(base + offset)
    }
}

impl TableOfContentsHeader {
    /// The first byte that stands for this header, if its configuration is
    /// one of the table.
    pub open spec fn spec_byte(self) -> Option<int> {
        match self.codec_config.spec_index() {
            Some(index) => Some(
                index * 8 + self.channels.spec_bit() * 4 + self.frames_per_packet.spec_code(),
            ),
            None => None,
        }
    }

    /// Writes the header as a packet's first byte. Fails with
    /// `InvalidCodecConfig` where no index stands for the configuration.
    pub fn to_byte(&self) -> (byte: Result<u8, Error>)
        ensures
            match self.spec_byte() {
                Some(b) => byte == Ok::<u8, Error>(b as u8) && 0 <= b < 256 && spec_header(b as u8)
                    == *self,
                None => byte == Err::<u8, Error>(Error::InvalidCodecConfig),
            },
    {
        match self.codec_config.index() {
            Some(index) => Ok(index * 8 + self.channels.bit() * 4 + self.frames_per_packet.code()),
            None => Err(Error::InvalidCodecConfig),
        }
    }
}

impl TryFrom<u8> for FramesPerPacket {
    type Error = Error;

    /// Reads the framing mode off the low two bits. Every byte has one.
    fn try_from(byte: u8) -> (mode: Result<Self, Error>) {
        let code: u8 = byte & 0b00000011;
        assert(code == byte % 4) by (bit_vector)
            requires
                code == byte & 0b00000011,
        ;
        match code {
            0 => Ok(FramesPerPacket::One),
            1 => Ok(FramesPerPacket::TwoEquallyCompressed),
            2 => Ok(FramesPerPacket::TwoDifferentlyCompressed),
            3 => Ok(FramesPerPacket::Arbitrary),
            _ => Err(Error::InvalidFramesPerPacket),
        }
    }
}

impl TryFromSpecImpl<u8> for FramesPerPacket {
    open spec fn obeys_try_from_spec() -> bool {
        true
    }

    open spec fn try_from_spec(byte: u8) -> Result<Self, Error> {
        Ok(spec_frames_per_packet(byte as int % 4))
    }
}

impl TryFrom<u8> for CodecConfig {
    type Error = Error;

    /// Reads the codec configuration off the top five bits. Every byte has
    /// one.
    fn try_from(byte: u8) -> (config: Result<Self, Error>) {
        let config_val: u8 = (byte & 0b11111000) >> 3;
        assert(config_val == byte / 8) by (bit_vector)
            requires
                config_val == (byte & 0b11111000) >> 3,
        ;

        let (mode, bandwidth, frame_size) = match config_val {
            0 => (CodecMode::SILKOnly, Bandwidth::Narrow, FrameSizeMs::Ten),
            1 => (CodecMode::SILKOnly, Bandwidth::Narrow, FrameSizeMs::Twenty),
            2 => (CodecMode::SILKOnly, Bandwidth::Narrow, FrameSizeMs::Forty),
            3 => (CodecMode::SILKOnly, Bandwidth::Narrow, FrameSizeMs::Sixty),
            4 => (CodecMode::SILKOnly, Bandwidth::Medium, FrameSizeMs::Ten),
            5 => (CodecMode::SILKOnly, Bandwidth::Medium, FrameSizeMs::Twenty),
            6 => (CodecMode::SILKOnly, Bandwidth::Medium, FrameSizeMs::Forty),
            7 => (CodecMode::SILKOnly, Bandwidth::Medium, FrameSizeMs::Sixty),
            8 => (CodecMode::SILKOnly, Bandwidth::Wide, FrameSizeMs::Ten),
            9 => (CodecMode::SILKOnly, Bandwidth::Wide, FrameSizeMs::Twenty),
            10 => (CodecMode::SILKOnly, Bandwidth::Wide, FrameSizeMs::Forty),
            11 => (CodecMode::SILKOnly, Bandwidth::Wide, FrameSizeMs::Sixty),
            12 => (CodecMode::Hybrid, Bandwidth::SuperWide, FrameSizeMs::Ten),
            13 => (CodecMode::Hybrid, Bandwidth::SuperWide, FrameSizeMs::Twenty),
            14 => (CodecMode::Hybrid, Bandwidth::Full, FrameSizeMs::Ten),
            15 => (CodecMode::Hybrid, Bandwidth::Full, FrameSizeMs::Twenty),
            16 => (CodecMode::CELTOnly, Bandwidth::Narrow, FrameSizeMs::TwoPointFive),
            17 => (CodecMode::CELTOnly, Bandwidth::Narrow, FrameSizeMs::Five),
            18 => (CodecMode::CELTOnly, Bandwidth::Narrow, FrameSizeMs::Ten),
            19 => (CodecMode::CELTOnly, Bandwidth::Narrow, FrameSizeMs::Twenty),
            20 => (CodecMode::CELTOnly, Bandwidth::Wide, FrameSizeMs::TwoPointFive),
            21 => (CodecMode::CELTOnly, Bandwidth::Wide, FrameSizeMs::Five),
            22 => (CodecMode::CELTOnly, Bandwidth::Wide, FrameSizeMs::Ten),
            23 => (CodecMode::CELTOnly, Bandwidth::Wide, FrameSizeMs::Twenty),
            24 => (CodecMode::CELTOnly, Bandwidth::SuperWide, FrameSizeMs::TwoPointFive),
            25 => (CodecMode::CELTOnly, Bandwidth::SuperWide, FrameSizeMs::Five),
            26 => (CodecMode::CELTOnly, Bandwidth::SuperWide, FrameSizeMs::Ten),
            27 => (CodecMode::CELTOnly, Bandwidth::SuperWide, FrameSizeMs::Twenty),
            28 => (CodecMode::CELTOnly, Bandwidth::Full, FrameSizeMs::TwoPointFive),
            29 => (CodecMode::CELTOnly, Bandwidth::Full, FrameSizeMs::Five),
            30 => (CodecMode::CELTOnly, Bandwidth::Full, FrameSizeMs::Ten),
            31 => (CodecMode::CELTOnly, Bandwidth::Full, FrameSizeMs::Twenty),
            _ => { return Err(Error::InvalidCodecConfig); },
        };

        Ok(CodecConfig { mode, bandwidth, frame_size })
    }
}

impl TryFromSpecImpl<u8> for CodecConfig {
    open spec fn obeys_try_from_spec() -> bool {
        true
    }

    open spec fn try_from_spec(byte: u8) -> Result<Self, Error> {
        Ok(spec_codec_config(byte as int / 8))
    }
}

impl TryFrom<u8> for TableOfContentsHeader {
    type Error = Error;

    /// Reads a packet's first byte. Every byte is a header.
    fn try_from(byte: u8) -> (header: Result<Self, Error>) {
        let codec_config = match CodecConfig::try_from(byte) {
            Ok(config) => config,
            Err(e) => { return Err(e); },
        };
        let frames_per_packet = match FramesPerPacket::try_from(byte) {
            Ok(mode) => mode,
            Err(e) => { return Err(e); },
        };
        let bit: u8 = (byte >> 2) & 0b1;
        assert(bit == (byte / 4) % 2) by (bit_vector)
            requires
                bit == (byte >> 2) & 0b1,
        ;
        let channels = if bit == 0b1 {
            Channels::Stereo
        } else {
            Channels::Mono
        };

        Ok(TableOfContentsHeader { codec_config, channels, frames_per_packet })
    }
}

impl TryFromSpecImpl<u8> for TableOfContentsHeader {
    open spec fn obeys_try_from_spec() -> bool {
        true
    }

    open spec fn try_from_spec(byte: u8) -> Result<Self, Error> {
        Ok(spec_header(byte))
    }
}

/// Reading a byte as a header and writing that header back as a byte gives
/// the byte again: the index, the channel bit and the framing code that the
/// header stands for are those of the byte.
pub proof fn lemma_header_round_trip(byte: u8)
    ensures
        spec_header(byte).codec_config.spec_index() == Some(byte as int / 8),
        spec_header(byte).channels.spec_bit() == (byte as int / 4) % 2,
        spec_header(byte).frames_per_packet.spec_code() == byte as int % 4,
        spec_header(byte).spec_byte() == Some(byte as int),
{
}

} // verus!
