//! The pixel-stream decoder: what a chunk means given the state so far, what a
//! whole stream decodes to, and the function that computes it.

use crate::shared::add_hash_and_last;
use crate::shared::lemma_parse_facts;
use crate::shared::parse_header;
use crate::shared::read_header;
use crate::shared::CodecState;
use crate::shared::Header;
use crate::shared::Part;
use crate::shared::Pixel;
use crate::shared::QoiError;
use vstd::prelude::*;

verus! {

/// The four output bytes of one pixel.
pub open spec fn pixel_bytes(p: Pixel) -> Seq<u8> {
    seq![p.0, p.1, p.2, p.3]
}

/// Channel `k` of a pixel: red, green, blue, alpha.
pub open spec fn channel(p: Pixel, k: int) -> u8 {
    if k == 0 {
        p.0
    } else if k == 1 {
        p.1
    } else if k == 2 {
        p.2
    } else {
        p.3
    }
}

/// The pixels laid out as raw RGBA data, four bytes each.
pub open spec fn rgba_bytes(px: Seq<Pixel>) -> Seq<u8> {
    Seq::new(4 * px.len(), |j: int| channel(px[j / 4], j % 4))
}

/// The output bytes of `n` copies of one pixel.
pub open spec fn pixel_run(p: Pixel, n: nat) -> Seq<u8>
    decreases n,
{
    if n == 0 {
        Seq::empty()
    } else {
        pixel_run(p, (n - 1) as nat) + pixel_bytes(p)
    }
}

/// A channel moved by a signed difference, wrapping around at 8 bits.
pub open spec fn shift_channel(c: u8, d: int) -> u8 {
    ((c + d) % 256) as u8
}

impl Part {
    /// The pixel this chunk stands for when it follows the state `st`. A run
    /// stands for the previous pixel.
    pub open spec fn pixel(self, st: CodecState) -> Pixel {
        match self {
            Part::RGBA(r, g, b, a) => (r, g, b, a),
            Part::RGB(r, g, b) => (r, g, b, st.last.3),
            Part::SmallDiff(dr, dg, db) => (
                shift_channel(st.last.0, dr as int),
                shift_channel(st.last.1, dg as int),
                shift_channel(st.last.2, db as int),
                st.last.3,
            ),
            Part::LumaDiff(drdg, dg, dbdg) => (
                shift_channel(st.last.0, drdg + dg),
                shift_channel(st.last.1, dg as int),
                shift_channel(st.last.2, dbdg + dg),
                st.last.3,
            ),
            Part::Idx(i) => st.cache[i as int],
            Part::Run(_) => st.last,
        }
    }

    /// How many pixels this chunk stands for.
    pub open spec fn count(self) -> nat {
        match self {
            Part::Run(len) => len as nat,
            _ => 1,
        }
    }

    /// The output bytes this chunk stands for when it follows the state `st`.
    pub open spec fn output(self, st: CodecState) -> Seq<u8> {
        pixel_run(self.pixel(st), self.count())
    }

    /// The state after this chunk. A run leaves the state alone; every other
    /// chunk stores its pixel in the cache and makes it the previous pixel.
    pub open spec fn next_state(self, st: CodecState) -> CodecState {
        match self {
            Part::Run(_) => st,
            _ => st.remember(self.pixel(st)),
        }
    }
}

/// The outcome `r` of decoding the rest of a stream, with the output `prefix`
/// put in front of its pixels.
pub open spec fn prepend(prefix: Seq<u8>, r: Result<(Seq<u8>, Seq<u8>), QoiError>) -> Result<
    (Seq<u8>, Seq<u8>),
    QoiError,
> {
    match r {
        Ok((pixels, rest)) => Ok((prefix + pixels, rest)),
        Err(e) => Err(e),
    }
}

/// What decoding chunks from `data` yields, starting in state `st`, until at
/// least `need` output bytes are there: the output bytes and the input that
/// was not looked at. A run that passes the mark is emitted in full.
#[verifier::opaque]
pub open spec fn decode_chunks(data: Seq<u8>, st: CodecState, need: int) -> Result<
    (Seq<u8>, Seq<u8>),
    QoiError,
>
    decreases data.len(),
{
    if need <= 0 {
        Ok((Seq::empty(), data))
    } else {
        match Part::parse(data) {
            Err(e) => Err(e),
            Ok((rest, part)) => prepend(
                part.output(st),
                decode_chunks(rest, part.next_state(st), need - 4 * part.count()),
            ),
        }
    }
}

/// What decoding a whole stream yields: the header, `4 * height * width` or
/// more bytes of RGBA pixels, and the trailing bytes that were not looked at.
pub open spec fn decode_stream(data: Seq<u8>) -> Result<(Header, Seq<u8>, Seq<u8>), QoiError> {
    match parse_header(data) {
        None => Err(QoiError::HeaderInvalid),
        Some((head, body)) => match decode_chunks(
            body,
            CodecState::initial(),
            4 * head.pixel_count(),
        ) {
            Ok((pixels, rest)) => Ok((head, pixels, rest)),
            Err(e) => Err(e),
        },
    }
}


/// How `decode_chunks` unfolds: it stops where nothing more is needed, fails
/// where the next chunk cannot be read, and otherwise puts the output of the
/// next chunk in front of what the rest of the stream decodes to.
pub proof fn lemma_decode_chunks_unfold(data: Seq<u8>, st: CodecState, need: int)
    ensures
        need <= 0 ==> decode_chunks(data, st, need) == Ok::<(Seq<u8>, Seq<u8>), QoiError>(
            (Seq::empty(), data),
        ),
        need > 0 ==> match Part::parse(data) {
            Err(e) => decode_chunks(data, st, need) == Err::<(Seq<u8>, Seq<u8>), QoiError>(e),
            Ok((rest, part)) => decode_chunks(data, st, need) == prepend(
                part.output(st),
                decode_chunks(rest, part.next_state(st), need - 4 * part.count()),
            ),
        },
{
    reveal(decode_chunks);
}

/// Output put in front of output put in front of an outcome is the joined
/// output put in front of it.
pub proof fn lemma_prepend_twice(a: Seq<u8>, b: Seq<u8>, r: Result<(Seq<u8>, Seq<u8>), QoiError>)
    ensures
        prepend(a, prepend(b, r)) == prepend(a + b, r),
{
    match r {
        Ok((pixels, rest)) => {
            assert(a + (b + pixels) =~= (a + b) + pixels);
        },
        Err(e) => {},
    }
}

/// A run of `n` pixels is `4 * n` bytes long.
pub proof fn lemma_pixel_run_len(p: Pixel, n: nat)
    ensures
        pixel_run(p, n).len() == 4 * n,
    decreases n,
{
    if n > 0 {
        lemma_pixel_run_len(p, (n - 1) as nat);
    }
}

/// What holds of every outcome of `decode_chunks`. Where it succeeds, the
/// output is whole pixels, reaches the mark and passes it by less than one
/// run, takes no more than 62 pixels from each byte read, and what is left is
/// the end of the input. Where it fails, output was still needed and the
/// input ended too early.
pub proof fn lemma_decode_chunks_facts(data: Seq<u8>, st: CodecState, need: int)
    ensures
        match decode_chunks(data, st, need) {
            Ok((pixels, rest)) => {
                &&& pixels.len() % 4 == 0
                &&& pixels.len() >= need
                &&& need > 0 ==> pixels.len() < need + 248
                &&& need <= 0 ==> pixels.len() == 0
                &&& rest.len() <= data.len()
                &&& rest == data.skip(data.len() - rest.len())
                &&& pixels.len() <= 248 * (data.len() - rest.len())
            },
            Err(e) => e == QoiError::StreamTruncated && need > 0,
        },
    decreases data.len(),
{
    lemma_decode_chunks_unfold(data, st, need);
    lemma_parse_facts(data);
    if need <= 0 {
        assert(data.skip(0) =~= data);
    } else {
        match Part::parse(data) {
            Err(e) => {},
            Ok((after, part)) => {
                let used = part.bytes().len();
                assert(data.len() == used + after.len());
                assert(used >= 1);
                lemma_pixel_run_len(part.pixel(st), part.count());
                lemma_decode_chunks_facts(after, part.next_state(st), need - 4 * part.count());
                match decode_chunks(after, part.next_state(st), need - 4 * part.count()) {
                    Err(e) => {},
                    Ok((pixels, rest)) => {
                        assert(after =~= data.skip(used as int));
                        assert(rest =~= data.skip(data.len() - rest.len()));
                    },
                }
            },
        }
    }
}

/// No stream fails to decode for an unknown chunk: either no header can be
/// read or the stream ends too early. A stream that decodes yields at least
/// `4 * height * width` bytes of whole pixels, and fewer than one run more.
pub proof fn lemma_decode_stream_facts(data: Seq<u8>)
    ensures
        match decode_stream(data) {
            Ok((head, pixels, rest)) => {
                &&& parse_header(data) is Some
                &&& head == parse_header(data).unwrap().0
                &&& pixels.len() % 4 == 0
                &&& 4 * head.pixel_count() <= pixels.len()
                &&& pixels.len() < 4 * head.pixel_count() + 248
                &&& head.pixel_count() == 0 ==> rest == data.skip(14)
                &&& rest.len() + 14 <= data.len()
                &&& rest == data.skip(data.len() - rest.len())
            },
            Err(e) => if parse_header(data) is None {
                e == QoiError::HeaderInvalid
            } else {
                e == QoiError::StreamTruncated
            },
        },
{
    match parse_header(data) {
        None => {},
        Some((head, body)) => {
            let need = 4 * head.pixel_count();
            assert(head.pixel_count() >= 0) by (nonlinear_arith)
                requires
                    head.pixel_count() == head.height * head.width,
            ;
            lemma_decode_chunks_facts(body, CodecState::initial(), need);
            lemma_decode_chunks_unfold(body, CodecState::initial(), need);
            match decode_chunks(body, CodecState::initial(), need) {
                Err(e) => {},
                Ok((pixels, rest)) => {
                    assert(rest =~= data.skip(data.len() - rest.len()));
                },
            }
        },
    }
}

/// Appends the four bytes of `p` to `out`.
fn push_pixel(out: &mut Vec<u8>, p: Pixel)
    ensures
        final(out)@ == old(out)@ + pixel_bytes(p),
{
    out.push(p.0);
    out.push(p.1);
    out.push(p.2);
    out.push(p.3);
    assert(out@ =~= old(out)@ + pixel_bytes(p));
}

/// Adds the signed difference `d` to the channel `c`, wrapping around at 8
/// bits.
fn shifted(c: u8, d: i8) -> (moved: u8)
    ensures
        moved == shift_channel(c, d as int),
{
    c.wrapping_add_signed(d)
}

/// The pixel that a chunk stands for, given the cache and the previous pixel.
fn pixel_of(part: Part, cache: &[Pixel; 64], last: Pixel) -> (p: Pixel)
    requires
        part.wf(),
    ensures
        p == part.pixel(CodecState::of(cache@, last)),
{
    match part {
        Part::RGBA(r, g, b, a) => (r, g, b, a),
        Part::RGB(r, g, b) => (r, g, b, last.3),
        Part::Run(_) => last,
        Part::LumaDiff(drdg, dg, dbdg) => {
            let dr: i8 = drdg + dg;
            let db: i8 = dbdg + dg;
            (shifted(last.0, dr), shifted(last.1, dg), shifted(last.2, db), last.3)
        },
        Part::SmallDiff(dr, dg, db) => (
            shifted(last.0, dr),
            shifted(last.1, dg),
            shifted(last.2, db),
            last.3,
        ),
        Part::Idx(index) => cache[index as usize],
    }
}

/// Carries out one chunk: appends the pixels it stands for to `out` and moves
/// the cache and the previous pixel on.
fn apply_part(part: Part, out: &mut Vec<u8>, cache: &mut [Pixel; 64], last: &mut Pixel)
    requires
        part.wf(),
    ensures
        final(out)@ == old(out)@ + part.output(CodecState::of(old(cache)@, *old(last))),
        CodecState::of(final(cache)@, *final(last)) == part.next_state(
            CodecState::of(old(cache)@, *old(last)),
        ),
{
    let ghost before = out@;
    let p: Pixel = pixel_of(part, cache, *last);
    match part {
        Part::Run(runlen) => {
            let mut done: u8 = 0;
            assert(out@ =~= before + pixel_run(p, 0));
            while done < runlen
                invariant
                    done <= runlen,
                    out@ == before + pixel_run(p, done as nat),
                decreases runlen - done,
            {
                push_pixel(out, p);
                done = done + 1;
                assert(out@ =~= before + pixel_run(p, done as nat));
            }
        },
        _ => {
            push_pixel(out, p);
            add_hash_and_last(p.0, p.1, p.2, p.3, cache, last);
            assert(pixel_run(p, 1) =~= pixel_bytes(p)) by {
                reveal_with_fuel(pixel_run, 2);
            }
        },
    }
}

/// Decodes a stream to raw row-major RGBA data, whatever channel count the
/// header names. Returns the header, the pixels, and the bytes behind the last
/// chunk that was needed, which hold the end marker of a well-formed stream.
///
/// Decoding stops as soon as `4 * height * width` bytes are there. It fails
/// with `HeaderInvalid` where no header can be read, and with
/// `StreamTruncated` where the stream ends before that many bytes are there.
pub fn decode_qoi<'a>(data: &'a [u8]) -> (result: Result<(Header, Vec<u8>, &'a [u8]), QoiError>)
    ensures
        match result {
            Ok((head, pixels, rest)) => decode_stream(data@) == Ok::<
                (Header, Seq<u8>, Seq<u8>),
                QoiError,
            >((head, pixels@, rest@)) && pixels@.len() % 4 == 0 && 4 * head.pixel_count()
                <= pixels@.len() < 4 * head.pixel_count() + 248,
            Err(e) => decode_stream(data@) == Err::<(Header, Seq<u8>, Seq<u8>), QoiError>(e)
                && e != QoiError::UnknownChunk,
        },
{
    proof {
        lemma_decode_stream_facts(data@);
    }
    let (head, body) = match read_header(data) {
        Ok(pair) => pair,
        Err(e) => {
            return Err(e);
        },
    };
    assert(head.height as u128 * head.width as u128 * 4 <= 0xffff_ffff * 0xffff_ffff * 4
        && head.height as u128 * head.width as u128 * 4 == 4 * (head.height * head.width))
        by (nonlinear_arith);
    let decoded_size: u128 = head.height as u128 * head.width as u128 * 4;
    let mut rest: &[u8] = body;
    let mut pxlbuffer: Vec<u8> = Vec::new();
    let mut colorhashes: [Pixel; 64] = [(0u8, 0u8, 0u8, 0u8);64];
    let mut last_pxl: Pixel = (0u8, 0u8, 0u8, 255u8);
    proof {
        assert(colorhashes@ =~= CodecState::initial().cache);
        assert(CodecState::of(colorhashes@, last_pxl) == CodecState::initial());
        let whole = decode_chunks(body@, CodecState::initial(), decoded_size as int);
        assert(prepend(Seq::empty(), whole) == whole) by {
            match whole {
                Ok((pixels, tail)) => {
                    assert(Seq::<u8>::empty() + pixels =~= pixels);
                },
                Err(e) => {},
            }
        }
    }
    while (pxlbuffer.len() as u128) < decoded_size
        invariant
            parse_header(data@) == Some((head, body@)),
            decoded_size == 4 * head.pixel_count(),
            prepend(
                pxlbuffer@,
                decode_chunks(
                    rest@,
                    CodecState::of(colorhashes@, last_pxl),
                    decoded_size - pxlbuffer@.len(),
                ),
            ) == decode_chunks(body@, CodecState::initial(), decoded_size as int),
        decreases rest@.len(),
    {
        let ghost st = CodecState::of(colorhashes@, last_pxl);
        let ghost before = pxlbuffer@;
        let ghost need = decoded_size - before.len();
        proof {
            lemma_decode_chunks_unfold(rest@, st, need);
        }
        let (after, part) = match Part::decode(rest) {
            Ok(pair) => pair,
            Err(e) => {
                return Err(e);
            },
        };
        proof {
            lemma_prepend_twice(
                before,
                part.output(st),
                decode_chunks(after@, part.next_state(st), need - 4 * part.count()),
            );
            lemma_pixel_run_len(part.pixel(st), part.count());
            lemma_parse_facts(rest@);
        }
        rest = after;
        apply_part(part, &mut pxlbuffer, &mut colorhashes, &mut last_pxl);
    }
    proof {
        lemma_decode_chunks_unfold(
            rest@,
            CodecState::of(colorhashes@, last_pxl),
            decoded_size - pxlbuffer@.len(),
        );
        assert(pxlbuffer@ + Seq::<u8>::empty() =~= pxlbuffer@);
    }
    Ok((head, pxlbuffer, rest))
}

} // verus!
