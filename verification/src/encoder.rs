//! The encoding side of the codec, as far as the bitstream goes.
use crate::Channels;
use vstd::prelude::*;

verus! {

pub struct Encoder {
    _sample_rate: u32,
    _bit_rate: u32,
    _channels: Channels,
}

impl Encoder {
    /// The sample rate that the encoder was made for.
    pub closed spec fn sample_rate(&self) -> u32 {
        self._sample_rate
    }

    /// The bit rate that the encoder was made for.
    pub closed spec fn bit_rate(&self) -> u32 {
        self._bit_rate
    }

    /// The channel count that the encoder was made for.
    pub closed spec fn channels(&self) -> Channels {
        self._channels
    }

    pub fn new(sample_rate: u32, bit_rate: u32, channels: Channels) -> (encoder: Self)
        ensures
            encoder.sample_rate() == sample_rate,
            encoder.bit_rate() == bit_rate,
            encoder.channels() == channels,
    {
        Self { _sample_rate: sample_rate, _bit_rate: bit_rate, _channels: channels }
    }
}

} // verus!
