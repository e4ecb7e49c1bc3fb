//! The pixel-stream encoder: which chunk is chosen for each pixel, what a
//! whole image encodes to, and the function that computes it.

use crate::shared::add_hash_and_last;
use crate::shared::color_hash;
use crate::shared::encode_header;
use crate::shared::hash_of;
use crate::shared::CodecState;
use crate::shared::Header;
use crate::shared::Part;
use crate::shared::Pixel;
use vstd::prelude::*;

verus! {

/// Longest run a single chunk can hold.
pub const MAX_RUN: u8 = 62;

/// The pixels of a raw row-major buffer with `channels` bytes per pixel. With
/// three channels every pixel is opaque: its alpha is that of the pixel before
/// it, and the one before the first pixel has alpha 255.
pub open spec fn pixels_of(img: Seq<u8>, channels: u8) -> Seq<Pixel> {
    if channels == 4 {
        Seq::new(
            img.len() / 4,
            |i: int| (img[4 * i], img[4 * i + 1], img[4 * i + 2], img[4 * i + 3]),
        )
    } else {
        Seq::new(img.len() / 3, |i: int| (img[3 * i], img[3 * i + 1], img[3 * i + 2], 255u8))
    }
}

/// The buffer holds exactly `height * width` pixels of three or four channels.
pub open spec fn valid_image(img: Seq<u8>, height: u32, width: u32, channels: u8) -> bool {
    (channels == 3 || channels == 4) && img.len() == height * width * channels
}

/// The difference `a - b` as a signed 8-bit number, wrapping around.
pub open spec fn wrapped_diff(a: u8, b: u8) -> int {
    if (a - b) % 256 >= 128 {
        (a - b) % 256 - 256
    } else {
        (a - b) % 256
    }
}

/// Pixel `a` can follow pixel `b` as a small difference: same alpha, and each
/// wrapped color difference from -2 to 1.
pub open spec fn small_diff_fits(a: Pixel, b: Pixel) -> bool {
    &&& a.3 == b.3
    &&& -2 <= wrapped_diff(a.0, b.0) <= 1
    &&& -2 <= wrapped_diff(a.1, b.1) <= 1
    &&& -2 <= wrapped_diff(a.2, b.2) <= 1
}

/// Pixel `a` can follow pixel `b` as a luma difference: same alpha, a green
/// difference from -32 to 31, and red and blue differences within -8 to 7 of
/// the green one. The differences are taken without wrapping.
pub open spec fn luma_fits(a: Pixel, b: Pixel) -> bool {
    &&& a.3 == b.3
    &&& -32 <= a.1 - b.1 <= 31
    &&& -8 <= (a.0 - b.0) - (a.1 - b.1) <= 7
    &&& -8 <= (a.2 - b.2) - (a.1 - b.1) <= 7
}

/// The chunk for a pixel `p` that differs from the previous one: the first
/// that applies of cache index, small difference, luma difference, RGB, RGBA.
pub open spec fn choose_part(p: Pixel, st: CodecState) -> Part {
    if st.cache[hash_of(p)] == p {
        Part::Idx(hash_of(p) as u8)
    } else if small_diff_fits(p, st.last) {
        Part::SmallDiff(
            wrapped_diff(p.0, st.last.0) as i8,
            wrapped_diff(p.1, st.last.1) as i8,
            wrapped_diff(p.2, st.last.2) as i8,
        )
    } else if luma_fits(p, st.last) {
        Part::LumaDiff(
            ((p.0 - st.last.0) - (p.1 - st.last.1)) as i8,
            (p.1 - st.last.1) as i8,
            ((p.2 - st.last.2) - (p.1 - st.last.1)) as i8,
        )
    } else if p.3 == st.last.3 {
        Part::RGB(p.0, p.1, p.2)
    } else {
        Part::RGBA(p.0, p.1, p.2, p.3)
    }
}

/// How many pixels from index `i` on equal `p`, counting no more than `cap`.
pub open spec fn run_length(px: Seq<Pixel>, i: int, p: Pixel, cap: nat) -> nat
    decreases cap,
{
    if cap == 0 || i < 0 || i >= px.len() || px[i] != p {
        0
    } else {
        1 + run_length(px, i + 1, p, (cap - 1) as nat)
    }
}

/// A run stays within its cap and within the image, holds only pixels equal to
/// `p`, and is not empty where the pixel at `i` equals `p`.
pub proof fn lemma_run_length_bounds(px: Seq<Pixel>, i: int, p: Pixel, cap: nat)
    ensures
        run_length(px, i, p, cap) <= cap,
        0 <= i <= px.len() ==> i + run_length(px, i, p, cap) <= px.len(),
        cap > 0 && 0 <= i < px.len() && px[i] == p ==> run_length(px, i, p, cap) >= 1,
        forall|j: int| i <= j < i + run_length(px, i, p, cap) ==> px[j] == p,
    decreases cap,
{
    if !(cap == 0 || i < 0 || i >= px.len() || px[i] != p) {
        lemma_run_length_bounds(px, i + 1, p, (cap - 1) as nat);
    }
}

/// The chunks for the pixels from index `i` on, starting in state `st`. A
/// pixel equal to the previous one opens a run that takes in as many equal
/// pixels as follow, up to 62, and leaves the state alone; any other pixel
/// gets the chunk `choose_part` names and is remembered.
#[verifier::opaque]
pub open spec fn encode_pixels(px: Seq<Pixel>, i: int, st: CodecState) -> Seq<u8>
    decreases px.len() - i,
{
    if i < 0 || i >= px.len() {
        Seq::empty()
    } else if px[i] == st.last {
        proof {
            lemma_run_length_bounds(px, i, st.last, 62);
        }
        let len = run_length(px, i, st.last, 62);
        Part::Run(len as u8).bytes() + encode_pixels(px, i + len, st)
    } else {
        choose_part(px[i], st).bytes() + encode_pixels(px, i + 1, st.remember(px[i]))
    }
}

/// The eight bytes that close every stream.
pub open spec fn end_marker() -> Seq<u8> {
    seq![0u8, 0u8, 0u8, 0u8, 0u8, 0u8, 0u8, 1u8]
}

/// The stream an image encodes to: header, chunks, end marker.
pub open spec fn encode_stream(
    img: Seq<u8>,
    height: u32,
    width: u32,
    channels: u8,
    color_space: u8,
) -> Seq<u8> {
    Header { height, width, channel_count: channels, color_space }.bytes() + encode_pixels(
        pixels_of(img, channels),
        0,
        CodecState::initial(),
    ) + end_marker()
}

/// The difference `a - b` as a signed 8-bit number, wrapping around.
fn wrapping_diff(a: u8, b: u8) -> (d: i8)
    ensures
        d == wrapped_diff(a, b),
{
    let d: u8 = a.wrapping_sub(b);
    if d >= 128 {
        (d as i16 - 256) as i8
    } else {
        d as i8
    }
}

/// Whether pixel `a` can follow pixel `b` as a small difference.
pub fn can_use_small_dif(a: Pixel, b: Pixel) -> (fits: bool)
    ensures
        fits == small_diff_fits(a, b),
{
    let dr: i8 = wrapping_diff(a.0, b.0);
    let dg: i8 = wrapping_diff(a.1, b.1);
    let db: i8 = wrapping_diff(a.2, b.2);
    if a.3 != b.3 {
        return false;
    }
    dr >= -2 && dr <= 1 && dg >= -2 && dg <= 1 && db >= -2 && db <= 1
}

/// Whether pixel `a` can follow pixel `b` as a luma difference.
pub fn can_use_luma(a: Pixel, b: Pixel) -> (fits: bool)
    ensures
        fits == luma_fits(a, b),
{
    let dr: isize = a.0 as isize - b.0 as isize;
    let dg: isize = a.1 as isize - b.1 as isize;
    let db: isize = a.2 as isize - b.2 as isize;
    let drdg: isize = dr - dg;
    let dbdg: isize = db - dg;
    if a.3 != b.3 {
        return false;
    }
    dg >= -32 && dg <= 31 && drdg >= -8 && drdg <= 7 && dbdg >= -8 && dbdg <= 7
}


/// How `encode_pixels` unfolds: nothing behind the last pixel, a run where the
/// pixel equals the previous one, and the chosen chunk otherwise.
pub proof fn lemma_encode_pixels_unfold(px: Seq<Pixel>, i: int, st: CodecState)
    ensures
        i < 0 || i >= px.len() ==> encode_pixels(px, i, st) == Seq::<u8>::empty(),
        0 <= i < px.len() && px[i] == st.last ==> encode_pixels(px, i, st) == Part::Run(
            run_length(px, i, st.last, 62) as u8,
        ).bytes() + encode_pixels(px, i + run_length(px, i, st.last, 62), st),
        0 <= i < px.len() && px[i] != st.last ==> encode_pixels(px, i, st) == choose_part(
            px[i],
            st,
        ).bytes() + encode_pixels(px, i + 1, st.remember(px[i])),
{
    reveal(encode_pixels);
}

/// Pixel `i` of a raw buffer with three or four bytes per pixel.
fn read_pixel(img: &[u8], channels: u8, i: usize) -> (p: Pixel)
    requires
        channels == 3 || channels == 4,
        i < pixels_of(img@, channels).len(),
    ensures
        p == pixels_of(img@, channels)[i as int],
{
    let len: usize = img.len();
    if channels == 4 {
        assert(4 * i + 3 < len) by {
            assert(pixels_of(img@, channels).len() == len / 4);
        }
        (img[4 * i], img[4 * i + 1], img[4 * i + 2], img[4 * i + 3])
    } else {
        assert(3 * i + 2 < len) by {
            assert(pixels_of(img@, channels).len() == len / 3);
        }
        (img[3 * i], img[3 * i + 1], img[3 * i + 2], 255u8)
    }
}

/// Whether two pixels are the same color.
fn same_pixel(a: Pixel, b: Pixel) -> (same: bool)
    ensures
        same == (a == b),
{
    a.0 == b.0 && a.1 == b.1 && a.2 == b.2 && a.3 == b.3
}

/// Counts the pixels from index `start` on that equal `p`, up to 62.
fn count_run(img: &[u8], channels: u8, start: usize, p: Pixel) -> (len: u8)
    requires
        channels == 3 || channels == 4,
        start <= pixels_of(img@, channels).len(),
    ensures
        len == run_length(pixels_of(img@, channels), start as int, p, 62),
        len <= 62,
        start + len <= pixels_of(img@, channels).len(),
{
    let ghost px = pixels_of(img@, channels);
    let count: usize = if channels == 4 {
        img.len() / 4
    } else {
        img.len() / 3
    };
    let mut len: u8 = 0;
    loop
        invariant
            channels == 3 || channels == 4,
            px == pixels_of(img@, channels),
            count == px.len(),
            len <= 62,
            start + len <= count,
            run_length(px, start as int, p, 62) == len + run_length(
                px,
                start + len,
                p,
                (62 - len) as nat,
            ),
        ensures
            len <= 62,
            start + len <= count,
            len == run_length(px, start as int, p, 62),
        decreases 62 - len,
    {
        if len == MAX_RUN || start + len as usize >= count {
            break;
        }
        let q: Pixel = read_pixel(img, channels, start + len as usize);
        if !same_pixel(q, p) {
            break;
        }
        len = len + 1;
    }
    len
}

/// Picks the chunk for a pixel that differs from the previous one.
fn pick_part(p: Pixel, cache: &[Pixel; 64], last: Pixel) -> (part: Part)
    ensures
        part == choose_part(p, CodecState::of(cache@, last)),
        part.wf(),
{
    let slot: usize = color_hash(p.0, p.1, p.2, p.3);
    if same_pixel(cache[slot], p) {
        Part::Idx(slot as u8)
    } else if can_use_small_dif(p, last) {
        Part::SmallDiff(
            wrapping_diff(p.0, last.0),
            wrapping_diff(p.1, last.1),
            wrapping_diff(p.2, last.2),
        )
    } else if can_use_luma(p, last) {
        let dr: i8 = wrapping_diff(p.0, last.0);
        let dg: i8 = wrapping_diff(p.1, last.1);
        let db: i8 = wrapping_diff(p.2, last.2);
        Part::LumaDiff(dr - dg, dg, db - dg)
    } else if p.3 == last.3 {
        Part::RGB(p.0, p.1, p.2)
    } else {
        Part::RGBA(p.0, p.1, p.2, p.3)
    }
}


/// Compresses raw row-major image data to a stream.
///
/// `img_data` holds `height * width` pixels of `channel_count` bytes each:
/// 3 for RGB, 4 for RGBA. `color_space` is stored in the header as it is.
/// Returns nothing where the channel count is neither 3 nor 4 or the buffer
/// has another length.
pub fn encode_qoi(
    img_data: &[u8],
    height: u32,
    width: u32,
    channel_count: u8,
    color_space: u8,
) -> (result: Option<Vec<u8>>)
    ensures
        match result {
            Some(buf) => valid_image(img_data@, height, width, channel_count) && buf@
                == encode_stream(img_data@, height, width, channel_count, color_space),
            None => !valid_image(img_data@, height, width, channel_count),
        },
{
    if channel_count != 3 && channel_count != 4 {
        return None;
    }
    assert(height as u128 * width as u128 * channel_count as u128 <= 0xffff_ffff * 0xffff_ffff
        * 4 && height as u128 * width as u128 * channel_count as u128 == height * width
        * channel_count) by (nonlinear_arith)
        requires
            channel_count <= 4,
    ;
    let expected: u128 = height as u128 * width as u128 * channel_count as u128;
    if img_data.len() as u128 != expected {
        return None;
    }
    let count: usize = if channel_count == 4 {
        img_data.len() / 4
    } else {
        img_data.len() / 3
    };
    let ghost px = pixels_of(img_data@, channel_count);
    let header = Header { height, width, channel_count, color_space };
    let mut buf: Vec<u8> = Vec::new();
    encode_header(header, &mut buf);
    let mut colorhashes: [Pixel; 64] = [(0u8, 0u8, 0u8, 0u8);64];
    let mut last: Pixel = (0u8, 0u8, 0u8, 255u8);
    let mut i: usize = 0;
    proof {
        assert(colorhashes@ =~= CodecState::initial().cache);
        assert(CodecState::of(colorhashes@, last) == CodecState::initial());
        assert(buf@ =~= header.bytes());
    }
    while i < count
        invariant
            channel_count == 3 || channel_count == 4,
            px == pixels_of(img_data@, channel_count),
            count == px.len(),
            i <= count,
            buf@ + encode_pixels(px, i as int, CodecState::of(colorhashes@, last))
                == header.bytes() + encode_pixels(px, 0, CodecState::initial()),
        decreases count - i,
    {
        let ghost st = CodecState::of(colorhashes@, last);
        let ghost before = buf@;
        let cpxl: Pixel = read_pixel(img_data, channel_count, i);
        proof {
            lemma_encode_pixels_unfold(px, i as int, st);
        }
        if same_pixel(cpxl, last) {
            let runlen: u8 = count_run(img_data, channel_count, i, last);
            proof {
                lemma_run_length_bounds(px, i as int, last, 62);
            }
            let part = Part::Run(runlen);
            part.encode(&mut buf);
            i = i + runlen as usize;
            assert((before + part.bytes()) + encode_pixels(px, i as int, st) =~= before
                + (part.bytes() + encode_pixels(px, i as int, st)));
        } else {
            let part = pick_part(cpxl, &colorhashes, last);
            part.encode(&mut buf);
            add_hash_and_last(cpxl.0, cpxl.1, cpxl.2, cpxl.3, &mut colorhashes, &mut last);
            i = i + 1;
            assert((before + part.bytes()) + encode_pixels(px, i as int, st.remember(cpxl))
                =~= before + (part.bytes() + encode_pixels(px, i as int, st.remember(cpxl))));
        }
    }
    proof {
        lemma_encode_pixels_unfold(px, i as int, CodecState::of(colorhashes@, last));
        assert(buf@ + Seq::<u8>::empty() =~= buf@);
    }
    let ghost chunks = buf@;
    buf.push(0x00);
    buf.push(0x00);
    buf.push(0x00);
    buf.push(0x00);
    buf.push(0x00);
    buf.push(0x00);
    buf.push(0x00);
    buf.push(0x01);
    assert(buf@ =~= chunks + end_marker());
    Some(buf)
}

} // verus!
