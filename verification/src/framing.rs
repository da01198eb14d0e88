//! Cutting a packet into frames.
//!
//! The bytes after the first byte of a packet hold, in this order: the bytes
//! that describe the layout (a frame count byte, the length of the padding,
//! the size prefixes), the frames themselves, one after the other, and the
//! padding.
use crate::{Error, FramesPerPacket, TableOfContentsHeader};
use vstd::prelude::*;
use vstd::slice::slice_subrange;

verus! {

/// The largest number of frames that one packet may hold.
pub const MAX_FRAME_COUNT_PER_PACKET: usize = 48;

/// How a packet's bytes are shared out.
pub ghost struct FrameLayout {
    /// The bytes at the front that describe the layout.
    pub prefix_len: nat,
    /// The size of each frame, in packet order.
    pub sizes: Seq<nat>,
    /// The padding bytes at the back.
    pub padding: nat,
}

/// The sum of the sizes.
pub open spec fn spec_total(sizes: Seq<nat>) -> nat
    decreases sizes.len(),
{
    if sizes.len() == 0 {
        0
    } else {
        spec_total(sizes.drop_last()) + sizes.last()
    }
}

impl FrameLayout {
    /// The index of the first byte of frame `i`: the frames follow the
    /// prefix with nothing between them.
    pub open spec fn frame_start(self, i: int) -> nat {
        self.prefix_len + spec_total(self.sizes.take(i))
    }

    /// The bytes of frame `i` of a packet with this layout.
    pub open spec fn frame(self, packet: Seq<u8>, i: int) -> Seq<u8> {
        packet.subrange(self.frame_start(i) as int, (self.frame_start(i) + self.sizes[i]) as int)
    }

    /// Prefix, frames and padding together are the whole packet.
    pub open spec fn covers(self, packet: Seq<u8>) -> bool {
        self.prefix_len + spec_total(self.sizes) + self.padding == packet.len()
    }
}

/// A size prefix at the front of `data`: the size it announces and the number
/// of bytes it takes. A first byte of 1 to 251 is the size itself; one of 252
/// to 255 is followed by a second byte that counts in steps of four. A first
/// byte of 0 is no size, and neither is a prefix that is cut short.
pub open spec fn spec_parse_size(data: Seq<u8>) -> Option<(nat, nat)> {
    if data.len() == 0 || data[0] == 0 {
        None
    } else if data[0] <= 251 {
        Some((data[0] as nat, 1))
    } else if data.len() >= 2 {
        Some(((data[1] * 4 + data[0]) as nat, 2))
    } else {
        None
    }
}

/// The announced length of the padding at the front of `data`, and the
/// number of bytes that the announcement takes: each byte of 255 stands for
/// 254 bytes of padding and is followed by another byte; a smaller byte
/// stands for itself and ends the announcement. `None` where `data` ends
/// before the announcement does.
pub open spec fn spec_padding_length(data: Seq<u8>) -> Option<(nat, nat)>
    decreases data.len(),
{
    if data.len() == 0 {
        None
    } else if data[0] == 255 {
        match spec_padding_length(data.drop_first()) {
            Some((total, used)) => Some((total + 254, used + 1)),
            None => None,
        }
    } else {
        Some((data[0] as nat, 1))
    }
}

/// The sizes that `n` size prefixes at the front of `data` announce, and the
/// number of bytes that the prefixes take. Each prefix is read from the front
/// of what is left, and the frame that it announces is taken off what is
/// left; `None` where a prefix is no size or announces more than is left.
pub open spec fn spec_prefixed_sizes(data: Seq<u8>, n: nat) -> Option<(Seq<nat>, nat)>
    decreases n,
{
    if n == 0 {
        Some((Seq::empty(), 0))
    } else {
        match spec_parse_size(data) {
            None => None,
            Some((size, used)) => if size > data.len() - used {
                None
            } else {
                match spec_prefixed_sizes(
                    data.subrange(used as int, data.len() - size),
                    (n - 1) as nat,
                ) {
                    None => None,
                    Some((sizes, more)) => Some((seq![size] + sizes, used + more)),
                }
            },
        }
    }
}

/// The layout of a packet with a frame count byte. The low six bits of that
/// byte are the frame count, bit 6 says that each frame but the last has a
/// size prefix, bit 5 that the packet ends in padding.
pub open spec fn spec_arbitrary_layout(packet: Seq<u8>) -> Result<FrameLayout, Error> {
    if packet.len() == 0 {
        Err(Error::InvalidPacketSize)
    } else {
        let control = packet[0] as int;
        let count = control % 64;
        let rest = packet.subrange(1, packet.len() as int);
        let announced = if (control / 32) % 2 == 1 {
            spec_padding_length(rest)
        } else {
            Some((0nat, 0nat))
        };
        if count == 0 || count > MAX_FRAME_COUNT_PER_PACKET {
            Err(Error::InvalidFrameCount)
        } else if announced is None {
            Err(Error::InvalidOpusPadding)
        } else {
            let (padding, used) = announced.unwrap();
            if (control / 32) % 2 == 1 && padding >= rest.len() - used {
                Err(Error::InvalidPacketSize)
            } else {
                let body = rest.subrange(used as int, rest.len() - padding);
                if (control / 64) % 2 == 1 {
                    match spec_prefixed_sizes(body, (count - 1) as nat) {
                        None => Err(Error::InvalidPacketSize),
                        Some((sizes, prefixes)) => Ok(
                            FrameLayout {
                                prefix_len: 1 + used + prefixes,
                                sizes: sizes.push(
                                    (body.len() - prefixes - spec_total(sizes)) as nat,
                                ),
                                padding,
                            },
                        ),
                    }
                } else if body.len() % (count as nat) != 0 {
                    Err(Error::InvalidPacketSize)
                } else {
                    Ok(
                        FrameLayout {
                            prefix_len: 1 + used,
                            sizes: Seq::new(count as nat, |i: int| body.len() / (count as nat)),
                            padding,
                        },
                    )
                }
            }
        }
    }
}

/// The layout of the bytes that follow a packet's first byte, or the reason
/// why they have none.
pub open spec fn spec_frame_layout(mode: FramesPerPacket, packet: Seq<u8>) -> Result<
    FrameLayout,
    Error,
> {
    match mode {
        FramesPerPacket::One => Ok(
            FrameLayout { prefix_len: 0, sizes: seq![packet.len()], padding: 0 },
        ),
        FramesPerPacket::TwoEquallyCompressed => if packet.len() % 2 != 0 {
            Err(Error::InvalidPacketSize)
        } else {
            Ok(
                FrameLayout {
                    prefix_len: 0,
                    sizes: seq![packet.len() / 2, packet.len() / 2],
                    padding: 0,
                },
            )
        },
        FramesPerPacket::TwoDifferentlyCompressed => match spec_parse_size(packet) {
            None => Err(Error::InvalidPacketSize),
            Some((size, used)) => if size > packet.len() - used {
                Err(Error::InvalidPacketSize)
            } else {
                Ok(
                    FrameLayout {
                        prefix_len: used,
                        sizes: seq![size, (packet.len() - used - size) as nat],
                        padding: 0,
                    },
                )
            },
        },
        FramesPerPacket::Arbitrary => spec_arbitrary_layout(packet),
    }
}

/// Reads a size prefix at the front of `data`. Returns the size and the
/// number of bytes read.
pub fn parse_size(data: &[u8]) -> (r: Option<(usize, usize)>)
    ensures
        match spec_parse_size(data@) {
            Some((size, used)) => r == Some((size as usize, used as usize)) && size <= 1275
                && 1 <= used <= 2 && used <= data@.len(),
            None => r is None,
        },
{
    if data.len() == 0 {
        return None;
    }
    let first_byte: u8 = data[0];
    if first_byte == 0 {
        None
    } else if first_byte <= 251 {
        Some((first_byte as usize, 1))
    } else if data.len() >= 2 {
        let len: usize = (data[1] as usize * 4) + first_byte as usize;
        Some((len, 2))
    } else {
        None
    }
}

/// The sizes of a frame list as the layout counts them.
pub open spec fn spec_sizes(sizes: Seq<usize>) -> Seq<nat> {
    Seq::new(sizes.len(), |i: int| sizes[i] as nat)
}

/// Adding a size at the back adds it to the sum.
pub proof fn lemma_total_push(sizes: Seq<nat>, size: nat)
    ensures
        spec_total(sizes.push(size)) == spec_total(sizes) + size,
{
    assert(sizes.push(size).drop_last() =~= sizes);
}

/// Adding a size at the front adds it to the sum.
pub proof fn lemma_total_prepend(size: nat, sizes: Seq<nat>)
    ensures
        spec_total(seq![size] + sizes) == size + spec_total(sizes),
    decreases sizes.len(),
{
    if sizes.len() == 0 {
        assert(seq![size] + sizes =~= Seq::<nat>::empty().push(size));
        lemma_total_push(Seq::<nat>::empty(), size);
    } else {
        assert((seq![size] + sizes).drop_last() =~= seq![size] + sizes.drop_last());
        assert((seq![size] + sizes).last() == sizes.last());
        lemma_total_prepend(size, sizes.drop_last());
    }
}

/// One frame adds up to its size, two frames to the sum of theirs.
pub proof fn lemma_total_short(first: nat, second: nat)
    ensures
        spec_total(seq![first]) == first,
        spec_total(seq![first, second]) == first + second,
{
    lemma_total_push(Seq::<nat>::empty(), first);
    lemma_total_push(Seq::<nat>::empty().push(first), second);
    assert(seq![first] =~= Seq::<nat>::empty().push(first));
    assert(seq![first, second] =~= Seq::<nat>::empty().push(first).push(second));
}

/// The sizes before frame `i + 1` are those before frame `i` and that of
/// frame `i`, and no partial sum is more than the whole.
pub proof fn lemma_total_take(sizes: Seq<nat>, i: int)
    requires
        0 <= i < sizes.len(),
    ensures
        spec_total(sizes.take(i + 1)) == spec_total(sizes.take(i)) + sizes[i],
        spec_total(sizes.take(i + 1)) <= spec_total(sizes),
    decreases sizes.len() - i,
{
    assert(sizes.take(i + 1).drop_last() =~= sizes.take(i));
    if i + 1 == sizes.len() {
        assert(sizes.take(i + 1) =~= sizes);
    } else {
        lemma_total_take(sizes, i + 1);
    }
}

/// Frames of one size add up to the count times that size.
pub proof fn lemma_total_constant(count: nat, size: nat)
    ensures
        spec_total(Seq::new(count, |i: int| size)) == count * size,
    decreases count,
{
    let sizes = Seq::new(count, |i: int| size);
    if count > 0 {
        assert(sizes.drop_last() =~= Seq::new((count - 1) as nat, |i: int| size));
        assert(sizes.last() == size);
        lemma_total_constant((count - 1) as nat, size);
        assert(count * size == (count - 1) * size + size) by (nonlinear_arith);
    } else {
        assert(count * size == 0) by (nonlinear_arith)
            requires
                count == 0,
        ;
    }
}

/// Size prefixes that can be read announce no more than what follows them
/// holds.
pub proof fn lemma_prefixed_sizes_fit(data: Seq<u8>, n: nat)
    requires
        spec_prefixed_sizes(data, n) is Some,
    ensures
        spec_prefixed_sizes(data, n).unwrap().0.len() == n,
        spec_prefixed_sizes(data, n).unwrap().1 + spec_total(
            spec_prefixed_sizes(data, n).unwrap().0,
        ) <= data.len(),
    decreases n,
{
    if n > 0 {
        let (size, used) = spec_parse_size(data).unwrap();
        let rest = data.subrange(used as int, data.len() - size);
        lemma_prefixed_sizes_fit(rest, (n - 1) as nat);
        lemma_total_prepend(size, spec_prefixed_sizes(rest, (n - 1) as nat).unwrap().0);
    } else {
        assert(spec_total(Seq::<nat>::empty()) == 0);
    }
}

/// Every byte of a packet that has a layout belongs to exactly one of the
/// prefix, a frame and the padding: the three add up to the packet's length,
/// the first frame starts where the prefix ends, each further frame starts
/// where the one before it ends, and the last one ends where the padding
/// starts. A packet holds at least one frame and at most
/// `MAX_FRAME_COUNT_PER_PACKET`.
pub proof fn lemma_layout_covers_packet(mode: FramesPerPacket, packet: Seq<u8>)
    requires
        spec_frame_layout(mode, packet) is Ok,
    ensures
        ({
            let layout = spec_frame_layout(mode, packet).unwrap();
            &&& layout.covers(packet)
            &&& 1 <= layout.sizes.len() <= MAX_FRAME_COUNT_PER_PACKET
            &&& layout.frame_start(0) == layout.prefix_len
            &&& forall|i: int|
                0 <= i < layout.sizes.len() ==> #[trigger] layout.frame_start(i + 1)
                    == layout.frame_start(i) + layout.sizes[i]
            &&& layout.frame_start(layout.sizes.len() as int) + layout.padding == packet.len()
        }),
{
    let layout = spec_frame_layout(mode, packet).unwrap();
    let sizes = layout.sizes;
    assert(sizes.take(0) =~= Seq::<nat>::empty());
    assert(sizes.take(sizes.len() as int) =~= sizes);
    assert forall|i: int| 0 <= i < sizes.len() implies #[trigger] layout.frame_start(i + 1)
        == layout.frame_start(i) + sizes[i] by {
        lemma_total_take(sizes, i);
    }
    match mode {
        FramesPerPacket::One => {
            lemma_total_short(packet.len(), 0);
        },
        FramesPerPacket::TwoEquallyCompressed => {
            lemma_total_short(packet.len() / 2, packet.len() / 2);
        },
        FramesPerPacket::TwoDifferentlyCompressed => {
            let (size, used) = spec_parse_size(packet).unwrap();
            lemma_total_short(size, (packet.len() - used - size) as nat);
        },
        FramesPerPacket::Arbitrary => {
            let control = packet[0] as int;
            let count = (control % 64) as nat;
            let rest = packet.subrange(1, packet.len() as int);
            let padded = (control / 32) % 2 == 1;
            let (padding, used) = if padded {
                spec_padding_length(rest).unwrap()
            } else {
                (0nat, 0nat)
            };
            if padded {
                lemma_padding_length_fits(rest);
            }
            let body = rest.subrange(used as int, rest.len() - padding);
            if (control / 64) % 2 == 1 {
                let (first, prefixes) = spec_prefixed_sizes(body, (count - 1) as nat).unwrap();
                lemma_prefixed_sizes_fit(body, (count - 1) as nat);
                lemma_total_push(first, (body.len() - prefixes - spec_total(first)) as nat);
            } else {
                let size = body.len() / count;
                lemma_total_constant(count, size);
                assert(body.len() % count == 0 ==> count * size == body.len())
                    by (nonlinear_arith)
                    requires
                        count > 0,
                        size == body.len() / count,
                ;
            }
        },
    }
}

/// An announcement of padding that can be read takes at least one byte and
/// no more bytes than there are.
pub proof fn lemma_padding_length_fits(data: Seq<u8>)
    requires
        spec_padding_length(data) is Some,
    ensures
        1 <= spec_padding_length(data).unwrap().1 <= data.len(),
        spec_padding_length(data).unwrap().0 <= 254 * spec_padding_length(data).unwrap().1,
    decreases data.len(),
{
    if data[0] == 255 {
        lemma_padding_length_fits(data.drop_first());
    }
}

/// Reads the announced length of the padding at `packet[start..]`. Returns
/// the length and the number of bytes read.
fn parse_padding_length(packet: &[u8], start: usize) -> (r: Option<(u128, usize)>)
    requires
        start <= packet@.len(),
    ensures
        match spec_padding_length(packet@.subrange(start as int, packet@.len() as int)) {
            Some((padding, used)) => r == Some((padding as u128, used as usize)) && 1 <= used
                <= packet@.len() - start && padding <= 254 * used,
            None => r is None,
        },
{
    let ghost data = packet@.subrange(start as int, packet@.len() as int);
    let mut pos: usize = start;
    let mut total: u128 = 0;
    assert(data.subrange(0, data.len() as int) =~= data);
    loop
        invariant
            start <= pos <= packet@.len(),
            data == packet@.subrange(start as int, packet@.len() as int),
            total == 254 * (pos - start),
            spec_padding_length(data) == match spec_padding_length(
                data.subrange(pos - start, data.len() as int),
            ) {
                Some((padding, used)) => Some(
                    (padding + total as nat, used + (pos - start) as nat),
                ),
                None => None,
            },
        decreases packet@.len() - pos,
    {
        let ghost here = data.subrange(pos - start, data.len() as int);
        if pos >= packet.len() {
            return None;
        }
        let byte: u8 = packet[pos];
        assert(here.drop_first() =~= data.subrange(pos + 1 - start, data.len() as int));
        pos += 1;
        if byte == 255 {
            total += 254;
        } else {
            total += byte as u128;
            proof {
                lemma_padding_length_fits(data);
            }
            return Some((total, pos - start));
        }
    }
}

/// Reads `n` size prefixes at `packet[start..end]`, where `end` is where the
/// frames end. Returns the sizes and the number of bytes read.
fn parse_prefixed_sizes(packet: &[u8], start: usize, end: usize, n: usize) -> (r: Option<
    (Vec<usize>, usize),
>)
    requires
        start <= end <= packet@.len(),
    ensures
        match spec_prefixed_sizes(packet@.subrange(start as int, end as int), n as nat) {
            Some((sizes, used)) => r is Some && spec_sizes(r.unwrap().0@) == sizes && r.unwrap().1
                == used,
            None => r is None,
        },
{
    let ghost data = packet@.subrange(start as int, end as int);
    let mut sizes: Vec<usize> = Vec::new();
    let mut pos: usize = start;
    let mut left: usize = end;
    let mut i: usize = 0;
    while i < n
        invariant
            start <= pos <= left <= end <= packet@.len(),
            i <= n,
            sizes@.len() == i,
            data == packet@.subrange(start as int, end as int),
            spec_prefixed_sizes(data, n as nat) == match spec_prefixed_sizes(
                packet@.subrange(pos as int, left as int),
                (n - i) as nat,
            ) {
                Some((more, used)) => Some(
                    (spec_sizes(sizes@) + more, used + (pos - start) as nat),
                ),
                None => None,
            },
        decreases n - i,
    {
        let ghost here = packet@.subrange(pos as int, left as int);
        let (size, used) = match parse_size(slice_subrange(packet, pos, left)) {
            Some(found) => found,
            None => { return None; },
        };
        if size > left - pos - used {
            return None;
        }
        proof {
            let rest = here.subrange(used as int, here.len() - size);
            assert(rest =~= packet@.subrange(pos + used, left - size));
        }
        pos += used;
        left -= size;
        sizes.push(size);
        i += 1;
    }
    Some((sizes, pos - start))
}

/// One frame of a packet: a view of its bytes.
#[derive(Debug)]
pub struct OpusFrame<'a> {
    pub compressed_data: &'a [u8],
}

impl<'a> View for OpusFrame<'a> {
    type V = Seq<u8>;

    open spec fn view(&self) -> Seq<u8> {
        self.compressed_data@
    }
}

impl<'a> OpusFrame<'a> {
    pub fn new(compressed_data: &'a [u8]) -> (frame: Self)
        ensures
            frame@ == compressed_data@,
    {
        Self { compressed_data }
    }
}

/// Hands out the frames of a packet in packet order.
pub struct FrameIterator<'a> {
    _toc: &'a TableOfContentsHeader,
    packet: &'a [u8],
    count: usize,
    current_frame: usize,
    _constant_bit_rate: bool,
    sizes: Vec<usize>,
    // Where the next frame starts in `packet`.
    offset: usize,
}

impl<'a> FrameIterator<'a> {
    /// The bytes that the frames are cut from.
    pub closed spec fn packet(&self) -> Seq<u8> {
        self.packet@
    }

    /// The number of frames handed out so far.
    pub closed spec fn position(&self) -> nat {
        self.current_frame as nat
    }

    /// How the bytes are shared out.
    pub closed spec fn layout(&self) -> FrameLayout {
        let sizes = spec_sizes(self.sizes@);
        let prefix_len = (self.offset - spec_total(sizes.take(self.current_frame as int))) as nat;
        FrameLayout {
            prefix_len,
            sizes,
            padding: (self.packet@.len() - prefix_len - spec_total(sizes)) as nat,
        }
    }

    /// The layout covers the packet, and no more frames were handed out than
    /// it has.
    pub closed spec fn wf(&self) -> bool {
        &&& self.count == self.sizes@.len()
        &&& self.current_frame <= self.count
        &&& spec_total(spec_sizes(self.sizes@).take(self.current_frame as int)) <= self.offset
        &&& self.offset - spec_total(spec_sizes(self.sizes@).take(self.current_frame as int))
            + spec_total(spec_sizes(self.sizes@)) <= self.packet@.len()
    }

    fn assemble(
        toc: &'a TableOfContentsHeader,
        packet: &'a [u8],
        sizes: Vec<usize>,
        offset: usize,
        constant_bit_rate: bool,
    ) -> (frames: Self)
        requires
            offset + spec_total(spec_sizes(sizes@)) <= packet@.len(),
        ensures
            frames.wf(),
            frames.packet() == packet@,
            frames.position() == 0,
            frames.layout() == (FrameLayout {
                prefix_len: offset as nat,
                sizes: spec_sizes(sizes@),
                padding: (packet@.len() - offset - spec_total(spec_sizes(sizes@))) as nat,
            }),
    {
        let count: usize = sizes.len();
        Self {
            _toc: toc,
            packet,
            count,
            current_frame: 0,
            _constant_bit_rate: constant_bit_rate,
            sizes,
            offset,
        }
    }

    /// The frames of a packet that starts with a frame count byte.
    fn new_arbitrary(toc: &'a TableOfContentsHeader, packet: &'a [u8]) -> (r: Result<Self, Error>)
        ensures
            match spec_arbitrary_layout(packet@) {
                Ok(layout) => r matches Ok(frames) && frames.wf() && frames.layout() == layout
                    && frames.packet() == packet@ && frames.position() == 0,
                Err(e) => r matches Err(found) && found == e,
            },
    {
        let len: usize = packet.len();
        if len == 0 {
            return Err(Error::InvalidPacketSize);
        }
        let first_byte: u8 = packet[0];
        let num_frames: usize = (first_byte & 0b00111111) as usize;
        let variable_bit_rate: bool = first_byte & 0b1000000 == 0b1000000;
        let opus_padding_present: bool = first_byte & 0b0100000 == 0b0100000;
        assert(first_byte & 0b00111111 == first_byte % 64) by (bit_vector);
        assert((first_byte & 0b1000000 == 0b1000000) == ((first_byte / 64) % 2 == 1))
            by (bit_vector);
        assert((first_byte & 0b0100000 == 0b0100000) == ((first_byte / 32) % 2 == 1))
            by (bit_vector);
        let ghost rest = packet@.subrange(1, len as int);

        if num_frames == 0 || num_frames > MAX_FRAME_COUNT_PER_PACKET {
            return Err(Error::InvalidFrameCount);
        }
        // The frames and their size prefixes lie in `packet[start..end]`.
        let mut start: usize = 1;
        let mut end: usize = len;
        if opus_padding_present {
            let (total_padding_bytes, num_bytes) = match parse_padding_length(packet, 1) {
                Some(found) => found,
                None => { return Err(Error::InvalidOpusPadding); },
            };
            start = 1 + num_bytes;
            if (len - start) as u128 <= total_padding_bytes {
                return Err(Error::InvalidPacketSize);
            }
            // Chop off the padding bytes at the end.
            end = len - total_padding_bytes as usize;
        }
        assert(rest.subrange(start - 1, end - 1) =~= packet@.subrange(start as int, end as int));

        if variable_bit_rate {
            let (sizes, num_bytes) = match variable_sizes(packet, start, end, num_frames) {
                Some(found) => found,
                None => { return Err(Error::InvalidPacketSize); },
            };
            Ok(Self::assemble(toc, packet, sizes, start + num_bytes, false))
        } else {
            let sizes = match constant_sizes(end - start, num_frames) {
                Some(found) => found,
                None => { return Err(Error::InvalidPacketSize); },
            };
            Ok(Self::assemble(toc, packet, sizes, start, true))
        }
    }

    /// Works out the layout of the bytes that follow a packet's first byte.
    /// Fails where they have none, with the reason.
    pub fn new(toc: &'a TableOfContentsHeader, packet: &'a [u8]) -> (r: Result<Self, Error>)
        ensures
            match spec_frame_layout(toc.frames_per_packet, packet@) {
                Ok(layout) => r matches Ok(frames) && frames.wf() && frames.layout() == layout
                    && frames.packet() == packet@ && frames.position() == 0,
                Err(e) => r matches Err(found) && found == e,
            },
    {
        let len: usize = packet.len();
        let mut sizes: Vec<usize> = Vec::new();
        match toc.frames_per_packet {
            FramesPerPacket::One => {
                sizes.push(len);
                proof {
                    lemma_total_short(len as nat, 0);
                    assert(spec_sizes(sizes@) =~= seq![len as nat]);
                }
                Ok(Self::assemble(toc, packet, sizes, 0, true))
            },
            FramesPerPacket::TwoEquallyCompressed => {
                if len % 2 != 0 {
                    return Err(Error::InvalidPacketSize);
                }
                let half: usize = len / 2;
                sizes.push(half);
                sizes.push(half);
                proof {
                    lemma_total_short(half as nat, half as nat);
                    assert(spec_sizes(sizes@) =~= seq![half as nat, half as nat]);
                }
                Ok(Self::assemble(toc, packet, sizes, 0, true))
            },
            FramesPerPacket::TwoDifferentlyCompressed => {
                let (first_frame_size, num_bytes) = match parse_size(packet) {
                    Some(found) => found,
                    None => { return Err(Error::InvalidPacketSize); },
                };
                if first_frame_size > len - num_bytes {
                    return Err(Error::InvalidPacketSize);
                }
                let last_frame_size: usize = len - num_bytes - first_frame_size;
                sizes.push(first_frame_size);
                sizes.push(last_frame_size);
                proof {
                    lemma_total_short(first_frame_size as nat, last_frame_size as nat);
                    assert(spec_sizes(sizes@) =~= seq![
                        first_frame_size as nat,
                        last_frame_size as nat,
                    ]);
                }
                Ok(Self::assemble(toc, packet, sizes, num_bytes, false))
            },
            FramesPerPacket::Arbitrary => Self::new_arbitrary(toc, packet),
        }
    }

    /// Hands out the next frame, or `None` when every frame was handed out.
    pub fn next(&mut self) -> (r: Option<Result<OpusFrame<'a>, Error>>)
        requires
            old(self).wf(),
        ensures
            final(self).wf(),
            final(self).layout() == old(self).layout(),
            final(self).packet() == old(self).packet(),
            old(self).position() < old(self).layout().sizes.len() ==> (r matches Some(Ok(frame))
                && frame@ == old(self).layout().frame(
                old(self).packet(),
                old(self).position() as int,
            ) && final(self).position() == old(self).position() + 1),
            old(self).position() >= old(self).layout().sizes.len() ==> r is None
                && final(self).position() == old(self).position(),
    {
        if self.current_frame < self.count {
            let size: usize = self.sizes[self.current_frame];
            let len: usize = self.packet.len();
            proof {
                lemma_total_take(spec_sizes(self.sizes@), self.current_frame as int);
            }
            let next_frame = slice_subrange(self.packet, self.offset, self.offset + size);
            self.offset += size;
            self.current_frame += 1;
            Some(Ok(OpusFrame::new(next_frame)))
        } else {
            None
        }
    }
}

/// The sizes of `count` frames of which each but the last has a size prefix
/// at `packet[start..end]`, and the number of bytes that the prefixes take.
fn variable_sizes(packet: &[u8], start: usize, end: usize, count: usize) -> (r: Option<
    (Vec<usize>, usize),
>)
    requires
        start <= end <= packet@.len(),
        count >= 1,
    ensures
        match spec_prefixed_sizes(packet@.subrange(start as int, end as int), (count - 1) as nat) {
            Some((first, used)) => r is Some && r.unwrap().1 == used && spec_sizes(r.unwrap().0@)
                == first.push((end - start - used - spec_total(first)) as nat) && used
                + spec_total(spec_sizes(r.unwrap().0@)) == end - start,
            None => r is None,
        },
{
    let (mut sizes, num_bytes) = match parse_prefixed_sizes(packet, start, end, count - 1) {
        Some(found) => found,
        None => { return None; },
    };
    let ghost first = spec_sizes(sizes@);
    proof {
        lemma_prefixed_sizes_fit(packet@.subrange(start as int, end as int), (count - 1) as nat);
    }
    let mut claimed: usize = 0;
    let mut i: usize = 0;
    while i < sizes.len()
        invariant
            i <= sizes@.len(),
            first == spec_sizes(sizes@),
            claimed == spec_total(first.take(i as int)),
            spec_total(first) <= end - start - num_bytes,
        decreases sizes@.len() - i,
    {
        proof {
            lemma_total_take(first, i as int);
        }
        claimed += sizes[i];
        i += 1;
    }
    assert(first.take(sizes@.len() as int) =~= first);
    let last_frame_size: usize = end - start - num_bytes - claimed;
    sizes.push(last_frame_size);
    proof {
        lemma_total_push(first, last_frame_size as nat);
    }
    Some((sizes, num_bytes))
}

/// The sizes of `count` frames that share `len` bytes evenly.
fn constant_sizes(len: usize, count: usize) -> (r: Option<Vec<usize>>)
    requires
        count >= 1,
    ensures
        len % count != 0 ==> r is None,
        len % count == 0 ==> r is Some && spec_sizes(r.unwrap()@) == Seq::new(
            count as nat,
            |i: int| len as nat / count as nat,
        ) && spec_total(spec_sizes(r.unwrap()@)) == len,
{
    if len % count != 0 {
        // The packet is not cleanly divisible by the number of constant bit
        // rate encoded frames.
        return None;
    }
    let frame_size: usize = len / count;
    let mut sizes: Vec<usize> = Vec::new();
    let mut i: usize = 0;
    while i < count
        invariant
            i <= count,
            sizes@.len() == i,
            forall|k: int| 0 <= k < i ==> sizes@[k] == frame_size,
        decreases count - i,
    {
        sizes.push(frame_size);
        i += 1;
    }
    proof {
        lemma_total_constant(count as nat, frame_size as nat);
        assert(count * frame_size == len) by (nonlinear_arith)
            requires
                count > 0,
                frame_size == len as int / count as int,
                len as int % count as int == 0,
        ;
    }
    Some(sizes)
}

} // verus!
