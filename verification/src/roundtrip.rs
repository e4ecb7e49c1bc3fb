//! Decoding inverts encoding: the proof that every valid image comes back from
//! its stream, pixel for pixel.

use crate::decoder::decode_chunks;
use crate::decoder::decode_stream;
use crate::decoder::lemma_decode_chunks_unfold;
use crate::decoder::pixel_bytes;
use crate::decoder::pixel_run;
use crate::decoder::prepend;
use crate::decoder::rgba_bytes;
use crate::decoder::shift_channel;
use crate::encoder::choose_part;
use crate::encoder::encode_pixels;
use crate::encoder::encode_stream;
use crate::encoder::end_marker;
use crate::encoder::lemma_encode_pixels_unfold;
use crate::encoder::luma_fits;
use crate::encoder::small_diff_fits;
use crate::encoder::wrapped_diff;
use crate::encoder::lemma_run_length_bounds;
use crate::encoder::pixels_of;
use crate::encoder::run_length;
use crate::encoder::valid_image;
use crate::shared::hash_of;
use crate::shared::lemma_header_round_trip;
use crate::shared::lemma_part_round_trip;
use crate::shared::CodecState;
use crate::shared::Header;
use crate::shared::Part;
use crate::shared::Pixel;
use crate::shared::QoiError;
use vstd::prelude::*;

verus! {

/// The RGBA data of the pixels from `i` on starts with the four bytes of pixel
/// `i`.
pub proof fn lemma_rgba_first(px: Seq<Pixel>, i: int)
    requires
        0 <= i < px.len(),
    ensures
        rgba_bytes(px.skip(i)) == pixel_bytes(px[i]) + rgba_bytes(px.skip(i + 1)),
{
    let whole = rgba_bytes(px.skip(i));
    let parts = pixel_bytes(px[i]) + rgba_bytes(px.skip(i + 1));
    assert(whole.len() == parts.len());
    assert forall|j: int| 0 <= j < whole.len() implies whole[j] == parts[j] by {
        if j >= 4 {
            assert((j - 4) / 4 == j / 4 - 1);
            assert((j - 4) % 4 == j % 4);
            assert(px.skip(i + 1)[(j - 4) / 4] == px.skip(i)[j / 4]);
        } else {
            assert(j / 4 == 0);
            assert(j % 4 == j);
        }
    }
    assert(whole =~= parts);
}

/// Where the `len` pixels from `i` on all equal `p`, the RGBA data of the
/// pixels from `i` on starts with a run of `len` times `p`.
pub proof fn lemma_rgba_run(px: Seq<Pixel>, i: int, p: Pixel, len: nat)
    requires
        0 <= i,
        i + len <= px.len(),
        forall|j: int| i <= j < i + len ==> px[j] == p,
    ensures
        rgba_bytes(px.skip(i)) == pixel_run(p, len) + rgba_bytes(px.skip(i + len)),
    decreases len,
{
    if len == 0 {
        assert(pixel_run(p, 0) + rgba_bytes(px.skip(i)) =~= rgba_bytes(px.skip(i)));
    } else {
        let shorter = (len - 1) as nat;
        lemma_rgba_run(px, i, p, shorter);
        lemma_rgba_first(px, i + shorter);
        assert(px[i + shorter] == p);
        assert((pixel_run(p, shorter) + pixel_bytes(p)) + rgba_bytes(px.skip(i + len))
            =~= pixel_run(p, shorter) + (pixel_bytes(p) + rgba_bytes(px.skip(i + len))));
    }
}

/// Moving channel `b` by its difference to `a` gives `a`, whether the
/// difference was taken wrapped or not.
pub proof fn lemma_shift_back(a: u8, b: u8)
    ensures
        -128 <= wrapped_diff(a, b) <= 127,
        shift_channel(b, wrapped_diff(a, b)) == a,
        shift_channel(b, a - b) == a,
{
}

/// The chunk chosen for a pixel decodes to that pixel, alone, and leaves the
/// decoder in the state the encoder goes on with.
pub proof fn lemma_chosen_part_decodes(p: Pixel, st: CodecState)
    ensures
        choose_part(p, st).wf(),
        !(choose_part(p, st) is Run),
        choose_part(p, st).pixel(st) == p,
        choose_part(p, st).output(st) == pixel_bytes(p),
        choose_part(p, st).next_state(st) == st.remember(p),
{
    let part = choose_part(p, st);
    lemma_shift_back(p.0, st.last.0);
    lemma_shift_back(p.1, st.last.1);
    lemma_shift_back(p.2, st.last.2);
    assert(part.pixel(st) == p) by {
        if st.cache[hash_of(p)] == p {
            assert(part == Part::Idx(hash_of(p) as u8));
        } else if small_diff_fits(p, st.last) {
            let dr = wrapped_diff(p.0, st.last.0);
            let dg = wrapped_diff(p.1, st.last.1);
            let db = wrapped_diff(p.2, st.last.2);
            assert(part == Part::SmallDiff(dr as i8, dg as i8, db as i8));
        } else if luma_fits(p, st.last) {
            let dr = p.0 - st.last.0;
            let dg = p.1 - st.last.1;
            let db = p.2 - st.last.2;
            assert(part == Part::LumaDiff((dr - dg) as i8, dg as i8, (db - dg) as i8));
            assert(((dr - dg) as i8) + (dg as i8) == dr);
            assert(((db - dg) as i8) + (dg as i8) == db);
        } else if p.3 == st.last.3 {
            assert(part == Part::RGB(p.0, p.1, p.2));
        } else {
            assert(part == Part::RGBA(p.0, p.1, p.2, p.3));
        }
    }
    assert(pixel_run(p, 1) =~= pixel_bytes(p)) by {
        reveal_with_fuel(pixel_run, 2);
    }
}

/// Decoding the chunks that the pixels from `i` on encode to, with anything
/// behind them, gives those pixels as RGBA data and leaves what was behind.
pub proof fn lemma_chunks_round_trip(px: Seq<Pixel>, i: int, st: CodecState, tail: Seq<u8>)
    requires
        0 <= i <= px.len(),
    ensures
        decode_chunks(encode_pixels(px, i, st) + tail, st, 4 * (px.len() - i)) == Ok::<
            (Seq<u8>, Seq<u8>),
            QoiError,
        >((rgba_bytes(px.skip(i)), tail)),
    decreases px.len() - i,
{
    let data = encode_pixels(px, i, st) + tail;
    let need = 4 * (px.len() - i);
    lemma_encode_pixels_unfold(px, i, st);
    lemma_decode_chunks_unfold(data, st, need);
    if i == px.len() {
        assert(data =~= tail);
        assert(rgba_bytes(px.skip(i)) =~= Seq::<u8>::empty());
    } else if px[i] == st.last {
        let len = run_length(px, i, st.last, 62);
        lemma_run_length_bounds(px, i, st.last, 62);
        let part = Part::Run(len as u8);
        let rest = encode_pixels(px, i + len, st) + tail;
        assert(data =~= part.bytes() + rest);
        lemma_part_round_trip(part, rest);
        lemma_chunks_round_trip(px, i + len, st, tail);
        lemma_rgba_run(px, i, st.last, len);
    } else {
        let part = choose_part(px[i], st);
        let rest = encode_pixels(px, i + 1, st.remember(px[i])) + tail;
        assert(data =~= part.bytes() + rest);
        lemma_chosen_part_decodes(px[i], st);
        lemma_part_round_trip(part, rest);
        lemma_chunks_round_trip(px, i + 1, st.remember(px[i]), tail);
        lemma_rgba_first(px, i);
    }
}

/// An image of four channels is its own RGBA data.
pub proof fn lemma_rgba_of_four_channels(img: Seq<u8>)
    requires
        img.len() % 4 == 0,
    ensures
        rgba_bytes(pixels_of(img, 4)) == img,
{
    assert(rgba_bytes(pixels_of(img, 4)) =~= img);
}

/// Round trip: decoding the stream that a valid image encodes to gives the
/// header the image was encoded with, the image as RGBA data (an image of
/// three channels comes back opaque, one of four channels byte for byte), and
/// the end marker as the trailing bytes.
pub proof fn lemma_round_trip(
    img: Seq<u8>,
    height: u32,
    width: u32,
    channel_count: u8,
    color_space: u8,
)
    requires
        valid_image(img, height, width, channel_count),
    ensures
        decode_stream(encode_stream(img, height, width, channel_count, color_space)) == Ok::<
            (Header, Seq<u8>, Seq<u8>),
            QoiError,
        >(
            (
                Header { height, width, channel_count, color_space },
                rgba_bytes(pixels_of(img, channel_count)),
                end_marker(),
            ),
        ),
        channel_count == 4 ==> rgba_bytes(pixels_of(img, channel_count)) == img,
{
    let head = Header { height, width, channel_count, color_space };
    let px = pixels_of(img, channel_count);
    let body = encode_pixels(px, 0, CodecState::initial()) + end_marker();
    let stream = encode_stream(img, height, width, channel_count, color_space);
    assert(stream =~= head.bytes() + body);
    lemma_header_round_trip(head, body);
    assert(px.len() == height * width) by {
        let area = height * width;
        if channel_count == 4 {
            assert(img.len() == area * 4);
        } else {
            assert(img.len() == area * 3);
        }
    }
    lemma_chunks_round_trip(px, 0, CodecState::initial(), end_marker());
    assert(px.skip(0) =~= px);
    if channel_count == 4 {
        lemma_rgba_of_four_channels(img);
    }
}

} // verus!
