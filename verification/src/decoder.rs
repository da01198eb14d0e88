//! The decoding side of the codec, as far as the bitstream goes: a packet is
//! cut into frames, and a range decoder is run on each frame.
use crate::framing::{spec_frame_layout, FrameIterator};
use crate::range_coding::range_decoder::{DecoderState, RangeDecoder};
use crate::toc::spec_header;
use crate::{Channels, Error, TableOfContentsHeader};
use vstd::prelude::*;
use vstd::slice::slice_subrange;

verus! {

/// The number of values that the first symbol of a frame can take.
pub const LEADING_SYMBOL_TOTAL: u32 = 3;

/// The first symbol of a frame: the integer below `LEADING_SYMBOL_TOTAL`
/// that a decoder reads first.
pub open spec fn spec_leading_symbol(frame: Seq<u8>) -> nat {
    let value = DecoderState::start(frame).uint_value(LEADING_SYMBOL_TOTAL as nat);
    if value < LEADING_SYMBOL_TOTAL {
        value
    } else {
        (LEADING_SYMBOL_TOTAL - 1) as nat
    }
}

/// The first symbol of each frame of a packet, or the reason why the packet
/// is refused. A packet has at least its first byte; one that has no more
/// holds no frame.
pub open spec fn spec_leading_symbols(data: Seq<u8>) -> Result<Seq<nat>, Error> {
    if data.len() == 0 {
        Err(Error::InvalidPacketSize)
    } else if data.len() < 2 {
        Ok(Seq::empty())
    } else {
        let packet = data.subrange(1, data.len() as int);
        match spec_frame_layout(spec_header(data[0]).frames_per_packet, packet) {
            Err(e) => Err(e),
            Ok(layout) => Ok(
                Seq::new(
                    layout.sizes.len(),
                    |i: int| spec_leading_symbol(layout.frame(packet, i)),
                ),
            ),
        }
    }
}

pub struct Decoder {
    _sample_rate: u32,
    _channels: Channels,
}

impl Decoder {
    /// The sample rate that the decoder was made for.
    pub closed spec fn sample_rate(&self) -> u32 {
        self._sample_rate
    }

    /// The channel count that the decoder was made for.
    pub closed spec fn channels(&self) -> Channels {
        self._channels
    }

    pub fn new(sample_rate: u32, channels: Channels) -> (decoder: Self)
        ensures
            decoder.sample_rate() == sample_rate,
            decoder.channels() == channels,
    {
        Self { _sample_rate: sample_rate, _channels: channels }
    }

    /// Cuts a packet into its frames and reads the first symbol of each.
    pub fn decode_leading_symbols(&mut self, data: &[u8]) -> (r: Result<Vec<u32>, Error>)
        ensures
            final(self).sample_rate() == old(self).sample_rate(),
            final(self).channels() == old(self).channels(),
            match spec_leading_symbols(data@) {
                Ok(symbols) => r is Ok && r.unwrap()@.len() == symbols.len() && forall|i: int|
                    0 <= i < symbols.len() ==> r.unwrap()@[i] == symbols[i],
                Err(e) => r == Err::<Vec<u32>, Error>(e),
            },
    {
        if data.len() == 0 {
            return Err(Error::InvalidPacketSize);
        }
        let table_of_contents = match TableOfContentsHeader::try_from(data[0]) {
            Ok(header) => header,
            Err(e) => { return Err(e); },
        };

        if data.len() < 2 {
            return Ok(Vec::new());
        }
        let packet = slice_subrange(data, 1, data.len());
        let mut frame_iter = match FrameIterator::new(&table_of_contents, packet) {
            Ok(frames) => frames,
            Err(e) => { return Err(e); },
        };
        let ghost layout = frame_iter.layout();

        let mut symbols: Vec<u32> = Vec::new();
        loop
            invariant
                frame_iter.wf(),
                frame_iter.layout() == layout,
                frame_iter.packet() == packet@,
                frame_iter.position() == symbols@.len(),
                symbols@.len() <= layout.sizes.len(),
                forall|i: int|
                    0 <= i < symbols@.len() ==> symbols@[i] == spec_leading_symbol(
                        layout.frame(packet@, i),
                    ),
            ensures
                symbols@.len() == layout.sizes.len(),
            decreases layout.sizes.len() - symbols@.len(),
        {
            match frame_iter.next() {
                Some(Ok(frame)) => {
                    let mut range_decoder = RangeDecoder::new(frame.compressed_data);
                    let symbol: u32 = range_decoder.decode_u32(LEADING_SYMBOL_TOTAL);
                    symbols.push(symbol);
                },
                Some(Err(e)) => { return Err(e); },
                None => { break; },
            }
        }

        Ok(symbols)
    }
}

} // verus!
