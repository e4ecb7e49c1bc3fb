//! Types shared by the encoder and the decoder: the stream header, the error
//! taxonomy, and the rolling color cache.

use vstd::prelude::*;

verus! {

/// One pixel as `(r, g, b, a)`.
pub type Pixel = (u8, u8, u8, u8);

/// Number of bytes a header occupies at the start of every stream.
pub const HEADER_LEN: usize = 14;

/// Why a stream could not be decoded.
#[derive(PartialEq, Eq, Structural, Debug, Clone, Copy)]
pub enum QoiError {
    /// The stream is shorter than a header, or does not start with the magic.
    HeaderInvalid,
    /// The stream ends before a chunk, or the promised pixels, are complete.
    StreamTruncated,
    /// A tag byte that belongs to no chunk kind. The tag space is exhaustive,
    /// so no function of this crate ever returns it.
    UnknownChunk,
}

/// The metadata record at the start of every stream.
#[derive(PartialEq, Eq, Structural, Debug, Clone, Copy)]
pub struct Header {
    /// Image height in pixels; big endian on the wire.
    pub height: u32,
    /// Image width in pixels; big endian on the wire.
    pub width: u32,
    /// 3 for RGB, 4 for RGBA. Carried through, never inspected when decoding.
    pub channel_count: u8,
    /// Opaque color space tag, carried through unmodified.
    pub color_space: u8,
}

/// The four bytes of `x`, most significant first.
pub open spec fn be_bytes(x: u32) -> Seq<u8> {
    seq![
        (x / 0x100_0000) as u8,
        (x / 0x1_0000 % 0x100) as u8,
        (x / 0x100 % 0x100) as u8,
        (x % 0x100) as u8,
    ]
}

/// The number whose big-endian bytes are `b0 b1 b2 b3`.
pub open spec fn be_value(b0: u8, b1: u8, b2: u8, b3: u8) -> int {
    b0 * 0x100_0000 + b1 * 0x1_0000 + b2 * 0x100 + b3
}

/// The ASCII magic `qoif`.
pub open spec fn magic() -> Seq<u8> {
    seq![0x71u8, 0x6fu8, 0x69u8, 0x66u8]
}

impl Header {
    /// The 14 bytes that stand for this header on the wire: magic, width,
    /// height, channel count, color space.
    pub open spec fn bytes(self) -> Seq<u8> {
        magic() + be_bytes(self.width) + be_bytes(self.height) + seq![
            self.channel_count,
            self.color_space,
        ]
    }

    /// Number of pixels the image holds.
    pub open spec fn pixel_count(self) -> int {
        self.height * self.width
    }
}

/// What reading a header from `data` yields: the header and the bytes behind
/// it, or nothing when `data` is too short or does not start with the magic.
/// No field is range-checked.
pub open spec fn parse_header(data: Seq<u8>) -> Option<(Header, Seq<u8>)> {
    if data.len() >= 14 && data.subrange(0, 4) == magic() {
        Some(
            (
                Header {
                    width: be_value(data[4], data[5], data[6], data[7]) as u32,
                    height: be_value(data[8], data[9], data[10], data[11]) as u32,
                    channel_count: data[12],
                    color_space: data[13],
                },
                data.skip(14),
            ),
        )
    } else {
        None
    }
}

/// Appends the 14 header bytes to `dst`.
pub fn encode_header(head: Header, dst: &mut Vec<u8>)
    ensures
        final(dst)@ == old(dst)@ + head.bytes(),
{
    let w: u32 = head.width;
    let h: u32 = head.height;
    dst.push(0x71);
    dst.push(0x6f);
    dst.push(0x69);
    dst.push(0x66);
    dst.push((w / 0x100_0000) as u8);
    dst.push((w / 0x1_0000 % 0x100) as u8);
    dst.push((w / 0x100 % 0x100) as u8);
    dst.push((w % 0x100) as u8);
    dst.push((h / 0x100_0000) as u8);
    dst.push((h / 0x1_0000 % 0x100) as u8);
    dst.push((h / 0x100 % 0x100) as u8);
    dst.push((h % 0x100) as u8);
    dst.push(head.channel_count);
    dst.push(head.color_space);
}

/// Reads a header from the start of `data` and returns it with the bytes that
/// follow. Useful to learn an image's size before decoding it.
pub fn read_header<'a>(data: &'a [u8]) -> (result: Result<(Header, &'a [u8]), QoiError>)
    ensures
        match result {
            Ok((head, rest)) => parse_header(data@) == Some((head, rest@)),
            Err(e) => e == QoiError::HeaderInvalid && parse_header(data@).is_none(),
        },
{
    if data.len() < HEADER_LEN {
        return Err(QoiError::HeaderInvalid);
    }
    if data[0] != 0x71 || data[1] != 0x6f || data[2] != 0x69 || data[3] != 0x66 {
        assert(data@.subrange(0, 4)[0] == data@[0]);
        assert(data@.subrange(0, 4)[1] == data@[1]);
        assert(data@.subrange(0, 4)[2] == data@[2]);
        assert(data@.subrange(0, 4)[3] == data@[3]);
        return Err(QoiError::HeaderInvalid);
    }
    assert(data@.subrange(0, 4) =~= magic());
    let width: u32 = data[4] as u32 * 0x100_0000 + data[5] as u32 * 0x1_0000 + data[6] as u32
        * 0x100 + data[7] as u32;
    let height: u32 = data[8] as u32 * 0x100_0000 + data[9] as u32 * 0x1_0000 + data[10] as u32
        * 0x100 + data[11] as u32;
    let head = Header { height, width, channel_count: data[12], color_space: data[13] };
    let rest = vstd::slice::slice_subrange(data, HEADER_LEN, data.len());
    Ok((head, rest))
}

/// The big-endian bytes of a number give the number back.
pub proof fn lemma_be_round_trip(x: u32)
    ensures
        be_bytes(x).len() == 4,
        be_value(be_bytes(x)[0], be_bytes(x)[1], be_bytes(x)[2], be_bytes(x)[3]) == x,
{
    let b0 = (x / 0x100_0000) as u8;
    let b1 = (x / 0x1_0000 % 0x100) as u8;
    let b2 = (x / 0x100 % 0x100) as u8;
    let b3 = (x % 0x100) as u8;
    assert(x / 0x100_0000 < 0x100 && (x / 0x100_0000) * 0x100_0000 + (x / 0x1_0000 % 0x100)
        * 0x1_0000 + (x / 0x100 % 0x100) * 0x100 + x % 0x100 == x) by (bit_vector);
    assert(be_value(b0, b1, b2, b3) == x);
}

/// Reading back an encoded header gives the header and leaves what follows
/// untouched.
pub proof fn lemma_header_round_trip(head: Header, rest: Seq<u8>)
    ensures
        parse_header(head.bytes() + rest) == Some((head, rest)),
{
    let data = head.bytes() + rest;
    let w = be_bytes(head.width);
    let h = be_bytes(head.height);
    lemma_be_round_trip(head.width);
    lemma_be_round_trip(head.height);
    assert(data.subrange(0, 4) =~= magic());
    assert(data.skip(14) =~= rest);
    assert(data[4] == w[0] && data[5] == w[1] && data[6] == w[2] && data[7] == w[3]);
    assert(data[8] == h[0] && data[9] == h[1] && data[10] == h[2] && data[11] == h[3]);
}

/// The cache slot a color belongs to: `(3r + 5g + 7b + 11a) mod 64`.
pub open spec fn hash_of(p: Pixel) -> int {
    (p.0 * 3 + p.1 * 5 + p.2 * 7 + p.3 * 11) % 64
}

/// What an encoder or a decoder remembers between two chunks: the 64 cache
/// slots and the pixel handled last.
pub struct CodecState {
    pub cache: Seq<Pixel>,
    pub last: Pixel,
}

impl CodecState {
    /// The state with these cache slots and this previous pixel.
    pub open spec fn of(cache: Seq<Pixel>, last: Pixel) -> CodecState {
        CodecState { cache, last }
    }

    /// The state at the start of every stream: a cache of transparent black
    /// and an opaque black previous pixel.
    pub open spec fn initial() -> CodecState {
        CodecState { cache: Seq::new(64, |i: int| (0u8, 0u8, 0u8, 0u8)), last: (0u8, 0u8, 0u8, 255u8) }
    }

    /// The state after pixel `p` was handled by any chunk but a run: `p` sits
    /// in its slot, whatever the slot held, and is the previous pixel.
    pub open spec fn remember(self, p: Pixel) -> CodecState {
        CodecState { cache: self.cache.update(hash_of(p), p), last: p }
    }
}

/// Maps a color to a cache slot in `0..64`.
pub fn color_hash(r: u8, g: u8, b: u8, a: u8) -> (slot: usize)
    ensures
        slot == hash_of((r, g, b, a)),
        slot < 64,
{
    (r as usize * 3 + g as usize * 5 + b as usize * 7 + a as usize * 11) % 64
}

/// Stores the color in its cache slot and makes it the previous pixel.
pub fn add_hash_and_last(
    r: u8,
    g: u8,
    b: u8,
    a: u8,
    array: &mut [Pixel; 64],
    last: &mut Pixel,
)
    ensures
        final(array)@ == old(array)@.update(hash_of((r, g, b, a)), (r, g, b, a)),
        *final(last) == (r, g, b, a),
{
    let hash = color_hash(r, g, b, a);
    array[hash] = (r, g, b, a);
    *last = (r, g, b, a);
}


/// One chunk of the stream, with every delta stored unbiased.
#[derive(PartialEq, Eq, Structural, Debug, Clone, Copy)]
pub enum Part {
    /// A full pixel: red, green, blue, alpha.
    RGBA(u8, u8, u8, u8),
    /// Red, green and blue of a pixel that keeps the previous alpha.
    RGB(u8, u8, u8),
    /// This many repetitions of the previous pixel, 1 to 62.
    Run(u8),
    /// Differences to the previous red, green and blue, each from -2 to 1.
    SmallDiff(i8, i8, i8),
    /// Red minus green difference (-8 to 7), green difference (-32 to 31),
    /// blue minus green difference (-8 to 7).
    LumaDiff(i8, i8, i8),
    /// The cache slot that holds the pixel, 0 to 63.
    Idx(u8),
}

impl Part {
    /// Every field lies in the range its bit field on the wire can hold.
    pub open spec fn wf(self) -> bool {
        match self {
            Part::RGBA(_, _, _, _) => true,
            Part::RGB(_, _, _) => true,
            Part::Run(len) => 1 <= len <= 62,
            Part::SmallDiff(dr, dg, db) => -2 <= dr <= 1 && -2 <= dg <= 1 && -2 <= db <= 1,
            Part::LumaDiff(drdg, dg, dbdg) => -8 <= drdg <= 7 && -32 <= dg <= 31 && -8 <= dbdg
                <= 7,
            Part::Idx(i) => i < 64,
        }
    }

    /// The bytes that stand for this chunk on the wire. A tag in the top two
    /// bits counts 64 per step; a delta is stored with its bias added.
    pub open spec fn bytes(self) -> Seq<u8> {
        match self {
            Part::RGBA(r, g, b, a) => seq![0xffu8, r, g, b, a],
            Part::RGB(r, g, b) => seq![0xfeu8, r, g, b],
            Part::Idx(i) => seq![i],
            Part::SmallDiff(dr, dg, db) => seq![
                (64 + (dr + 2) * 16 + (dg + 2) * 4 + (db + 2)) as u8,
            ],
            Part::LumaDiff(drdg, dg, dbdg) => seq![
                (128 + (dg + 32)) as u8,
                ((drdg + 8) * 16 + (dbdg + 8)) as u8,
            ],
            Part::Run(len) => seq![(192 + (len - 1)) as u8],
        }
    }

    /// What reading one chunk from the start of `data` yields: the bytes behind
    /// the chunk and the chunk, or `StreamTruncated` when `data` ends before
    /// the chunk does. The two full-byte tags are looked at before the two-bit
    /// tags.
    pub open spec fn parse(data: Seq<u8>) -> Result<(Seq<u8>, Part), QoiError> {
        if data.len() == 0 {
            Err(QoiError::StreamTruncated)
        } else if data[0] == 0xff {
            if data.len() < 5 {
                Err(QoiError::StreamTruncated)
            } else {
                Ok((data.skip(5), Part::RGBA(data[1], data[2], data[3], data[4])))
            }
        } else if data[0] == 0xfe {
            if data.len() < 4 {
                Err(QoiError::StreamTruncated)
            } else {
                Ok((data.skip(4), Part::RGB(data[1], data[2], data[3])))
            }
        } else if data[0] < 64 {
            Ok((data.skip(1), Part::Idx(data[0])))
        } else if data[0] < 128 {
            Ok(
                (
                    data.skip(1),
                    Part::SmallDiff(
                        (data[0] / 16 % 4 - 2) as i8,
                        (data[0] / 4 % 4 - 2) as i8,
                        (data[0] % 4 - 2) as i8,
                    ),
                ),
            )
        } else if data[0] < 192 {
            if data.len() < 2 {
                Err(QoiError::StreamTruncated)
            } else {
                Ok(
                    (
                        data.skip(2),
                        Part::LumaDiff(
                            (data[1] / 16 - 8) as i8,
                            (data[0] % 64 - 32) as i8,
                            (data[1] % 16 - 8) as i8,
                        ),
                    ),
                )
            }
        } else {
            Ok((data.skip(1), Part::Run((data[0] % 64 + 1) as u8)))
        }
    }

    /// Whether every field lies within its range, so that `encode` may be
    /// called.
    pub fn is_valid(&self) -> (valid: bool)
        ensures
            valid == self.wf(),
    {
        match self {
            Part::RGBA(_, _, _, _) => true,
            Part::RGB(_, _, _) => true,
            Part::Run(len) => 1 <= *len && *len <= 62,
            Part::SmallDiff(dr, dg, db) => -2 <= *dr && *dr <= 1 && -2 <= *dg && *dg <= 1 && -2
                <= *db && *db <= 1,
            Part::LumaDiff(drdg, dg, dbdg) => -8 <= *drdg && *drdg <= 7 && -32 <= *dg && *dg
                <= 31 && -8 <= *dbdg && *dbdg <= 7,
            Part::Idx(i) => *i < 64,
        }
    }

    /// Appends the wire form of this chunk to `dst`.
    pub fn encode(&self, dst: &mut Vec<u8>)
        requires
            self.wf(),
        ensures
            final(dst)@ == old(dst)@ + self.bytes(),
    {
        match self {
            Part::RGBA(r, g, b, a) => {
                dst.push(0xff);
                dst.push(*r);
                dst.push(*g);
                dst.push(*b);
                dst.push(*a);
            },
            Part::RGB(r, g, b) => {
                dst.push(0xfe);
                dst.push(*r);
                dst.push(*g);
                dst.push(*b);
            },
            Part::SmallDiff(dr, dg, db) => {
                let r: u8 = (*dr + 2) as u8;
                let g: u8 = (*dg + 2) as u8;
                let b: u8 = (*db + 2) as u8;
                assert((0b0100_0000u8 | (r << 4) | (g << 2) | b) == 64 + r * 16 + g * 4 + b)
                    by (bit_vector)
                    requires
                        r < 4,
                        g < 4,
                        b < 4,
                ;
                dst.push(0b0100_0000 | (r << 4) | (g << 2) | b);
            },
            Part::LumaDiff(drdg, dg, dbdg) => {
                let g: u8 = (*dg + 32) as u8;
                let r: u8 = (*drdg + 8) as u8;
                let b: u8 = (*dbdg + 8) as u8;
                assert((0b1000_0000u8 | g) == 128 + g) by (bit_vector)
                    requires
                        g < 64,
                ;
                assert(((r << 4) | b) == r * 16 + b) by (bit_vector)
                    requires
                        r < 16,
                        b < 16,
                ;
                dst.push(0b1000_0000 | g);
                dst.push((r << 4) | b);
            },
            Part::Run(len) => {
                let n: u8 = *len - 1;
                assert((n | 0b1100_0000u8) == 192 + n) by (bit_vector)
                    requires
                        n < 62,
                ;
                dst.push(n | 0b1100_0000);
            },
            Part::Idx(i) => {
                dst.push(*i);
            },
        }
    }

    /// Reads one chunk from the start of `data` and returns the bytes behind
    /// it with the chunk. Fails only where `data` ends before the chunk does.
    pub fn decode<'a>(data: &'a [u8]) -> (result: Result<(&'a [u8], Part), QoiError>)
        ensures
            match result {
                Ok((rest, part)) => Part::parse(data@) == Ok::<(Seq<u8>, Part), QoiError>(
                    (rest@, part),
                ) && part.wf(),
                Err(e) => Part::parse(data@) == Err::<(Seq<u8>, Part), QoiError>(e) && e
                    == QoiError::StreamTruncated,
            },
    {
        let len = data.len();
        if len == 0 {
            return Err(QoiError::StreamTruncated);
        }
        let first: u8 = data[0];
        if first == 0b1111_1111 {
            if len < 5 {
                return Err(QoiError::StreamTruncated);
            }
            Ok((vstd::slice::slice_subrange(data, 5, len), Part::RGBA(data[1], data[2], data[3], data[4])))
        } else if first == 0b1111_1110 {
            if len < 4 {
                return Err(QoiError::StreamTruncated);
            }
            Ok((vstd::slice::slice_subrange(data, 4, len), Part::RGB(data[1], data[2], data[3])))
        } else if first & 0b1100_0000 == 0b0000_0000 {
            assert(first & 0b1100_0000 == 0 ==> first < 64 && first & 0b0011_1111 == first)
                by (bit_vector);
            Ok((vstd::slice::slice_subrange(data, 1, len), Part::Idx(first & 0b0011_1111)))
        } else if first & 0b1100_0000 == 0b0100_0000 {
            assert(first & 0b1100_0000 == 0b0100_0000 ==> 64 <= first < 128 && (first >> 4)
                & 0b11 == first / 16 % 4 && (first >> 2) & 0b11 == first / 4 % 4 && first
                & 0b11 == first % 4) by (bit_vector);
            let dr: i8 = ((first >> 4) & 0b11) as i8 - 2;
            let dg: i8 = ((first >> 2) & 0b11) as i8 - 2;
            let db: i8 = (first & 0b11) as i8 - 2;
            Ok((vstd::slice::slice_subrange(data, 1, len), Part::SmallDiff(dr, dg, db)))
        } else if first & 0b1100_0000 == 0b1000_0000 {
            assert(first & 0b1100_0000 == 0b1000_0000 ==> 128 <= first < 192 && first
                & 0b0011_1111 == first % 64) by (bit_vector);
            if len < 2 {
                return Err(QoiError::StreamTruncated);
            }
            let second: u8 = data[1];
            assert((second & 0b1111_0000) >> 4 == second / 16 && second & 0b0000_1111 == second
                % 16) by (bit_vector);
            let dg: i8 = (first & 0b0011_1111) as i8 - 32;
            let drdg: i8 = ((second & 0b1111_0000) >> 4) as i8 - 8;
            let dbdg: i8 = (second & 0b0000_1111) as i8 - 8;
            Ok((vstd::slice::slice_subrange(data, 2, len), Part::LumaDiff(drdg, dg, dbdg)))
        } else if first & 0b1100_0000 == 0b1100_0000 {
            assert(first & 0b1100_0000 == 0b1100_0000 ==> 192 <= first && first & 0b0011_1111
                == first % 64) by (bit_vector);
            Ok((vstd::slice::slice_subrange(data, 1, len), Part::Run((first & 0b0011_1111) + 1)))
        } else {
            assert(first & 0b1100_0000 == 0b0000_0000 || first & 0b1100_0000 == 0b0100_0000
                || first & 0b1100_0000 == 0b1000_0000 || first & 0b1100_0000 == 0b1100_0000)
                by (bit_vector);
            Err(QoiError::UnknownChunk)
        }
    }
}

/// A chunk that is read is within its ranges and was shorter than the input; a
/// chunk is never unknown, and reading fails exactly where the input ends
/// inside the chunk that its first byte announces.
pub proof fn lemma_parse_facts(data: Seq<u8>)
    ensures
        match Part::parse(data) {
            Ok((rest, part)) => part.wf() && data == part.bytes() + rest,
            Err(e) => e == QoiError::StreamTruncated && (data.len() == 0 || (data[0] == 0xff
                && data.len() < 5) || (data[0] == 0xfe && data.len() < 4) || (128 <= data[0]
                < 192 && data.len() < 2)),
        },
{
    match Part::parse(data) {
        Ok((rest, part)) => {
            assert(data =~= part.bytes() + rest);
        },
        Err(e) => {},
    }
}

/// Reading back an encoded chunk gives the chunk and leaves what follows
/// untouched, for every chunk within its ranges.
pub proof fn lemma_part_round_trip(part: Part, rest: Seq<u8>)
    requires
        part.wf(),
    ensures
        Part::parse(part.bytes() + rest) == Ok::<(Seq<u8>, Part), QoiError>((rest, part)),
{
    let data = part.bytes() + rest;
    let n = part.bytes().len() as int;
    assert(data.skip(n) =~= rest);
}

} // verus!
