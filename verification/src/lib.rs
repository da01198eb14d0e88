//! Bitstream front end of an Opus-family audio codec.
//!
//! A packet starts with a table-of-contents byte, which names the codec
//! configuration, the channel count and the framing mode ([`toc`]). The
//! framing mode decides how the bytes after it are cut into frames
//! ([`framing`]). Each frame is an independent stream of range-coded symbols,
//! read from its front, and of raw bits, read from its back
//! ([`range_coding`]).
//!
//! What the library proves of the range coder, beyond what each call does:
//! - raw bits that were written are read back, whatever else the frame holds
//!   ([`range_coding::raw_bits`]);
//! - the bytes that the encoder gives stand for a number in the range of the
//!   symbols that were encoded, however the frame goes on
//!   ([`range_coding::code_range`]);
//! - the decoder finds the symbols exactly where the number that it takes in
//!   lies in the part of each symbol. It sets the low bit of each byte into
//!   the next byte, so that this number is the number of the frame only for
//!   frames in which that changes nothing ([`range_coding::round_trip`]).
use vstd::prelude::*;

pub mod decoder;
pub mod encoder;
pub mod framing;
pub mod range_coding;
pub mod toc;

pub use decoder::Decoder;
pub use encoder::Encoder;

verus! {

/// Why a packet was refused.
#[derive(Debug, Copy, Clone, PartialEq, Eq, Structural)]
pub enum Error {
    /// A value cannot be written on the scale that it was given.
    Encode,
    /// A frame codes a value that is not on the scale that it was read on.
    Decode,
    /// A packet is too short or too long for what it announces.
    InvalidPacketSize,
    /// A framing code that stands for no framing mode. No byte holds one.
    InvalidFramesPerPacket,
    /// A packet announces no frame, or more frames than a packet may hold.
    InvalidFrameCount,
    /// A packet ends before the length of its padding does.
    InvalidOpusPadding,
    /// A codec configuration that the table does not hold.
    InvalidCodecConfig,
}

#[derive(Debug, Copy, Clone, PartialEq, Eq, Structural)]
pub enum Channels {
    Mono,
    Stereo,
}

/// The four packet layouts, by the code in the low two bits of the first byte.
#[derive(Debug, Copy, Clone, PartialEq, Eq, Structural)]
pub enum FramesPerPacket {
    /// Code 0: one frame.
    One,
    /// Code 1: two frames of equal size.
    TwoEquallyCompressed,
    /// Code 2: two frames, the first with a size prefix.
    TwoDifferentlyCompressed,
    /// Code 3: a frame count byte, then that many frames.
    Arbitrary,
}

#[derive(Debug, Copy, Clone, PartialEq, Eq, Structural)]
pub enum CodecMode {
    SILKOnly,
    Hybrid,
    CELTOnly,
}

#[derive(Debug, Copy, Clone, PartialEq, Eq, Structural)]
pub enum Bandwidth {
    Narrow,
    Medium,
    Wide,
    SuperWide,
    Full,
}

#[derive(Debug, Copy, Clone, PartialEq, Eq, Structural)]
pub enum FrameSizeMs {
    TwoPointFive,
    Five,
    Ten,
    Twenty,
    Forty,
    Sixty,
}

#[derive(Debug, Copy, Clone, PartialEq, Eq, Structural)]
pub struct CodecConfig {
    pub mode: CodecMode,
    pub bandwidth: Bandwidth,
    pub frame_size: FrameSizeMs,
}

#[derive(Debug, Copy, Clone, PartialEq, Eq, Structural)]
pub struct TableOfContentsHeader {
    pub codec_config: CodecConfig,
    pub channels: Channels,
    pub frames_per_packet: FramesPerPacket,
}

} // verus!
