use vstd::prelude::*;

use crate::chunks::{lemma_parse_front, parse_chunks, tag_len, QoiChunk};
use crate::codec::{decode_step, stream_start, QoiCodecState};
use crate::encoder::{end_marker, image_bytes, lemma_encode_pixels_wf};
use crate::stream::{
    chunks_bytes, decode_chunks, decode_from, encode_from, encode_pixels, law_round_trip,
    lemma_decode_from_append, lemma_parse_chunks_bytes, repeat_pixel,
};
use crate::util::{Pixel, RGBA_CHANNELS, RGB_CHANNELS};

verus! {

/// Length of the header in front of the chunks.
pub const HEADER_SIZE: usize = 14;

/// Why a stream could not be decoded.
#[derive(Clone, Copy, PartialEq, Eq, Structural, Debug)]
pub enum DecoderError {
    /// Fewer bytes than a header.
    HeaderTooSmall,
    /// Wrong magic, or a channel count other than 3 or 4.
    InvalidHeader,
    /// The bytes ended before the pixels asked for.
    Truncated,
}

/// The header bytes that a decoder accepts.
pub open spec fn header_ok(b: Seq<u8>) -> bool {
    &&& b.len() >= 14
    &&& b[0] == 0x71 && b[1] == 0x6f && b[2] == 0x69 && b[3] == 0x66
    &&& (b[12] == 3 || b[12] == 4)
}

/// The 32-bit number at `at`, most significant byte first.
pub open spec fn be_value(b: Seq<u8>, at: int) -> int {
    b[at] * 0x100_0000 + b[at + 1] * 0x1_0000 + b[at + 2] * 0x100 + b[at + 3]
}

/// The bytes of `ps`, three or four per pixel.
#[verifier::opaque]
pub open spec fn pixel_bytes(ps: Seq<Pixel>, channels: int) -> Seq<u8>
    decreases ps.len(),
{
    if ps.len() == 0 {
        seq![]
    } else {
        pixel_bytes(ps.drop_last(), channels) + one_pixel_bytes(ps.last(), channels)
    }
}

pub open spec fn one_pixel_bytes(p: Pixel, channels: int) -> Seq<u8> {
    if channels == 4 {
        seq![p.r, p.g, p.b, p.a]
    } else {
        seq![p.r, p.g, p.b]
    }
}

/// The pixels that the chunk bytes `data` decode to.
#[verifier::opaque]
pub open spec fn stream_pixels(data: Seq<u8>) -> Seq<Pixel> {
    decode_chunks(parse_chunks(data))
}

/// Reads the header of an encoded image.
pub struct QoiDecoder {
    reader: Vec<u8>,
    width: u32,
    height: u32,
    channels: u8,
}

impl QoiDecoder {
    pub closed spec fn bytes(&self) -> Seq<u8> {
        self.reader@
    }

    pub closed spec fn spec_width(&self) -> u32 {
        self.width
    }

    pub closed spec fn spec_height(&self) -> u32 {
        self.height
    }

    pub closed spec fn spec_channels(&self) -> u8 {
        self.channels
    }

    /// Reads the header at the front of `reader`.
    pub fn new(reader: Vec<u8>) -> (r: Result<QoiDecoder, DecoderError>)
        ensures
            r is Ok <==> header_ok(reader@),
            r == Err::<QoiDecoder, DecoderError>(DecoderError::HeaderTooSmall) <==> reader@.len() < 14,
            r == Err::<QoiDecoder, DecoderError>(DecoderError::InvalidHeader) <==> reader@.len()
                >= 14 && !header_ok(reader@),
            r matches Ok(d) ==> {
                &&& header_ok(reader@)
                &&& d.bytes() == reader@
                &&& d.spec_width() == be_value(reader@, 4)
                &&& d.spec_height() == be_value(reader@, 8)
                &&& d.spec_channels() == reader@[12]
            },
    {
        let mut decoder = QoiDecoder { reader, width: 0, height: 0, channels: 4 };
        match decoder.read_metadata() {
            Ok(()) => Ok(decoder),
            Err(e) => Err(e),
        }
    }

    fn read_metadata(&mut self) -> (r: Result<(), DecoderError>)
        ensures
            final(self).reader == old(self).reader,
            r is Ok <==> header_ok(old(self).reader@),
            r == Err::<(), DecoderError>(DecoderError::HeaderTooSmall) <==> old(self).reader@.len() < 14,
            r == Err::<(), DecoderError>(DecoderError::InvalidHeader) <==> old(self).reader@.len()
                >= 14 && !header_ok(old(self).reader@),
            r is Ok ==> {
                &&& header_ok(old(self).reader@)
                &&& final(self).width == be_value(old(self).reader@, 4)
                &&& final(self).height == be_value(old(self).reader@, 8)
                &&& final(self).channels == old(self).reader@[12]
            },
    {
        if self.reader.len() < HEADER_SIZE {
            return Err(DecoderError::HeaderTooSmall);
        }
        if self.reader[0] != 0x71 || self.reader[1] != 0x6f || self.reader[2] != 0x69
            || self.reader[3] != 0x66 {
            return Err(DecoderError::InvalidHeader);
        }
        let channels = self.reader[12];
        if channels != RGB_CHANNELS && channels != RGBA_CHANNELS {
            return Err(DecoderError::InvalidHeader);
        }
        self.width = read_u32(&self.reader, 4);
        self.height = read_u32(&self.reader, 8);
        self.channels = channels;
        Ok(())
    }

    /// Width and height of the image.
    pub fn dimensions(&self) -> (r: (u32, u32))
        ensures
            r == (self.spec_width(), self.spec_height()),
    {
        (self.width, self.height)
    }

    /// Bytes per pixel: 3 or 4.
    pub fn channels(&self) -> (r: u8)
        ensures
            r == self.spec_channels(),
    {
        self.channels
    }

    /// A reader of the pixels that follow the header.
    pub fn into_reader(self) -> (r: QoiReader)
        requires
            self.spec_channels() == 3 || self.spec_channels() == 4,
            self.bytes().len() >= 14,
        ensures
            r.inv(),
            r.data() == self.bytes().subrange(14, self.bytes().len() as int),
            r.delivered() == Seq::<Pixel>::empty(),
            r.channel_count() == self.spec_channels(),
    {
        let mut rest: Vec<u8> = Vec::new();
        let mut i: usize = HEADER_SIZE;
        while i < self.reader.len()
            invariant
                14 <= i <= self.reader@.len(),
                rest@ == self.reader@.subrange(14, i as int),
            decreases self.reader@.len() - i,
        {
            rest.push(self.reader[i]);
            i = i + 1;
            proof {
                assert(rest@ =~= self.reader@.subrange(14, i as int));
            }
        }
        QoiReader::new(rest, self.channels)
    }
}

fn read_u32(b: &Vec<u8>, at: usize) -> (r: u32)
    requires
        at <= 8,
        at + 4 <= b@.len(),
    ensures
        r == be_value(b@, at as int),
{
    let (b0, b1, b2, b3) = (b[at] as u32, b[at + 1] as u32, b[at + 2] as u32, b[at + 3] as u32);
    b0 * 0x100_0000 + b1 * 0x1_0000 + b2 * 0x100 + b3
}

/// Pulls pixels out of a chunk stream.
pub struct QoiReader {
    reader: Vec<u8>,
    pos: usize,
    state: QoiCodecState,
    channels: u8,
    /// Further copies of the previous pixel that the last chunk still owes.
    pending: usize,
    read_chunks: Ghost<Seq<QoiChunk>>,
    delivered: Ghost<Seq<Pixel>>,
}

impl QoiReader {
    /// The chunk bytes being read.
    pub closed spec fn data(&self) -> Seq<u8> {
        self.reader@
    }

    /// The pixels handed out so far.
    pub closed spec fn delivered(&self) -> Seq<Pixel> {
        self.delivered@
    }

    pub closed spec fn channel_count(&self) -> u8 {
        self.channels
    }

    #[verifier::opaque]
    pub closed spec fn inv(&self) -> bool {
        let cs = self.read_chunks@;
        let data = self.reader@;
        &&& self.channels == 3 || self.channels == 4
        &&& self.pos <= data.len()
        &&& parse_chunks(data) == cs + parse_chunks(data.subrange(self.pos as int, data.len() as int))
        &&& forall|i: int| 0 <= i < cs.len() ==> (#[trigger] cs[i]).wf()
        &&& self.state.wf()
        &&& self.state@ == decode_from(stream_start(), cs).0
        &&& self.delivered@ + repeat_pixel(self.state.last_pixel, self.pending as nat) == decode_from(
            stream_start(),
            cs,
        ).1
    }

    /// A reader of the chunk bytes `reader` for an image with `channels` bytes per pixel.
    pub fn new(reader: Vec<u8>, channels: u8) -> (r: QoiReader)
        requires
            channels == 3 || channels == 4,
        ensures
            r.inv(),
            r.data() == reader@,
            r.delivered() == Seq::<Pixel>::empty(),
            r.channel_count() == channels,
    {
        let r = QoiReader {
            reader,
            pos: 0,
            state: QoiCodecState::new(),
            channels,
            pending: 0,
            read_chunks: Ghost(Seq::empty()),
            delivered: Ghost(Seq::empty()),
        };
        assert(r.reader@.subrange(0, r.reader@.len() as int) =~= r.reader@);
        assert(Seq::<QoiChunk>::empty() + parse_chunks(r.reader@) =~= parse_chunks(r.reader@));
        assert(Seq::<Pixel>::empty() + repeat_pixel(r.state.last_pixel, 0) =~= Seq::<Pixel>::empty());
        assert(r.inv()) by {
            reveal(QoiReader::inv);
        }
        r
    }

    /// Decodes the next chunk, which owes at least one pixel; fails when the bytes end first.
    fn read_chunk(&mut self) -> (r: Result<(), DecoderError>)
        requires
            old(self).inv(),
            old(self).pending == 0,
        ensures
            final(self).inv(),
            final(self).reader == old(self).reader,
            final(self).channels == old(self).channels,
            final(self).delivered == old(self).delivered,
            r is Ok ==> final(self).pending > 0,
            r is Err ==> r == Err::<(), DecoderError>(DecoderError::Truncated) && stream_pixels(
                old(self).reader@,
            ) == old(self).delivered@,
    {
        reveal(QoiReader::inv);
        let ghost data = self.reader@;
        let ghost cs = self.read_chunks@;
        let ghost rest = data.subrange(self.pos as int, data.len() as int);
        proof {
            assert(decode_from(stream_start(), cs).1 =~= self.delivered@) by {
                assert(self.delivered@ + repeat_pixel(self.state.last_pixel, 0) =~= self.delivered@);
            }
        }
        if self.pos >= self.reader.len() {
            proof {
                self.lemma_stream_ends(cs, rest);
            }
            return Err(DecoderError::Truncated);
        }
        match QoiChunk::decode(self.reader.as_slice(), self.pos) {
            None => {
                proof {
                    assert(tag_len(rest[0]) > rest.len());
                    self.lemma_stream_ends(cs, rest);
                }
                Err(DecoderError::Truncated)
            },
            Some((chunk, n)) => {
                proof {
                    let after = data.subrange(self.pos + n, data.len() as int);
                    assert(rest =~= crate::chunks::chunk_bytes(chunk) + after);
                    lemma_parse_front(chunk, after);
                    assert(cs + (seq![chunk] + parse_chunks(after)) =~= cs.push(chunk) + parse_chunks(
                        after,
                    ));
                    assert(cs.push(chunk).drop_last() =~= cs);
                }
                let (_pixel, repeats) = self.state.process_chunk(chunk);
                self.pos = self.pos + n;
                self.pending = repeats;
                self.read_chunks = Ghost(self.read_chunks@.push(chunk));
                proof {
                    assert(repeats >= 1);
                    let step = decode_step(decode_from(stream_start(), cs).0, chunk);
                    assert(step.1 == self.state.last_pixel);
                }
                Ok(())
            },
        }
    }

    proof fn lemma_stream_ends(&self, cs: Seq<QoiChunk>, rest: Seq<u8>)
        requires
            self.inv(),
            cs == self.read_chunks@,
            rest == self.reader@.subrange(self.pos as int, self.reader@.len() as int),
            rest.len() == 0 || tag_len(rest[0]) > rest.len(),
            self.pending == 0,
        ensures
            stream_pixels(self.reader@) == self.delivered@,
    {
        reveal(QoiReader::inv);
        reveal(stream_pixels);
        assert(parse_chunks(rest) =~= Seq::<QoiChunk>::empty());
        assert(cs + Seq::<QoiChunk>::empty() =~= cs);
        assert(self.delivered@ + repeat_pixel(self.state.last_pixel, 0) =~= self.delivered@);
    }

    /// Fills `buf` with the bytes of the next `buf.len() / channels` pixels and returns how
    /// many bytes that is; fails when the stream ends before them.
    #[verifier::rlimit(50)]
    pub fn read(&mut self, buf: &mut [u8]) -> (r: Result<usize, DecoderError>)
        requires
            old(self).inv(),
        ensures
            final(self).inv(),
            final(self).data() == old(self).data(),
            final(self).channel_count() == old(self).channel_count(),
            final(buf)@.len() == old(buf)@.len(),
            ({
                let ch = old(self).channel_count() as int;
                let want = old(buf)@.len() as int / ch;
                let all = stream_pixels(old(self).data());
                let start = old(self).delivered().len() as int;
                &&& old(self).delivered() == all.subrange(0, start)
                &&& (r is Ok <==> start + want <= all.len())
                &&& (r is Err ==> r == Err::<usize, DecoderError>(DecoderError::Truncated))
                &&& r matches Ok(n) ==> {
                    &&& n == want * ch
                    &&& final(self).delivered() == all.subrange(0, start + want)
                    &&& final(buf)@.subrange(0, n as int) == pixel_bytes(
                        all.subrange(start, start + want),
                        ch,
                    )
                    &&& final(buf)@.subrange(n as int, final(buf)@.len() as int) == old(
                        buf,
                    )@.subrange(n as int, old(buf)@.len() as int)
                }
            }),
    {
        proof {
            self.lemma_delivered_prefix();
        }
        let ch = self.channels as usize;
        let len = buf.len();
        let want = len / ch;
        let ghost start = self.delivered@.len() as int;
        let ghost all = stream_pixels(self.reader@);
        assert(old(self).delivered() == all.subrange(0, start));
        let mut k: usize = 0;
        proof {
            reveal(pixel_bytes);
            assert(buf@.subrange(0, 0) =~= pixel_bytes(all.subrange(start, start), ch as int));
            assert(self.inv() ==> self.channels == 3 || self.channels == 4) by {
                reveal(QoiReader::inv);
            }
        }
        while k < want
            invariant
                self.inv(),
                self.reader@ == old(self).reader@,
                self.channels == old(self).channels,
                ch == self.channels as usize,
                want == len / ch,
                len == buf@.len(),
                buf@.len() == old(buf)@.len(),
                k <= want,
                all == stream_pixels(self.reader@),
                0 <= start,
                start + k <= all.len(),
                old(self).delivered() == all.subrange(0, start),
                self.delivered@.len() == start + k,
                self.delivered@ == all.subrange(0, start + k),
                buf@.subrange(0, (k * ch) as int) == pixel_bytes(all.subrange(start, start + k), ch as int),
                buf@.subrange((k * ch) as int, len as int) == old(buf)@.subrange((k * ch) as int, len as int),
            decreases want - k,
        {
            if self.pending == 0 {
                match self.read_chunk() {
                    Ok(()) => {},
                    Err(e) => {
                        return Err(e);
                    },
                }
            }
            proof {
                self.lemma_delivered_prefix();
                assert(k * ch + ch <= len) by (nonlinear_arith)
                    requires
                        k < want,
                        want == len / ch,
                        ch > 0,
                ;
            }
            let at = k * ch;
            let p = self.take_pixel();
            proof {
                self.lemma_delivered_prefix();
            }
            let ghost before = buf@;
            write_pixel(buf, at, p, self.channels);
            k = k + 1;
            proof {
                lemma_fill_step(all, start, k as int, ch as int, at as int, p, before, buf@, old(buf)@);
            }
        }
        assert(want * ch <= len) by (nonlinear_arith)
            requires
                want == len / ch,
                ch > 0,
        ;
        Ok(want * ch)
    }

    /// Hands out the next pixel that the last chunk owes.
    fn take_pixel(&mut self) -> (p: Pixel)
        requires
            old(self).inv(),
            old(self).pending > 0,
        ensures
            final(self).inv(),
            final(self).reader == old(self).reader,
            final(self).channels == old(self).channels,
            final(self).delivered@ == old(self).delivered@.push(p),
            p == stream_pixels(old(self).reader@)[old(self).delivered@.len() as int],
    {
        reveal(QoiReader::inv);
        proof {
            self.lemma_delivered_prefix();
        }
        let p = self.state.last_pixel;
        let ghost old_pending = self.pending;
        self.pending = self.pending - 1;
        self.delivered = Ghost(self.delivered@.push(p));
        proof {
            assert(self.delivered@ + repeat_pixel(p, self.pending as nat) =~= old(self).delivered@
                + repeat_pixel(p, old_pending as nat));
        }
        p
    }

    /// What has been handed out is the front of all that the stream decodes to.
    proof fn lemma_delivered_prefix(&self)
        requires
            self.inv(),
        ensures
            ({
                let all = stream_pixels(self.reader@);
                let d = self.delivered@;
                &&& self.channels == 3 || self.channels == 4
                &&& d.len() + self.pending <= all.len()
                &&& d == all.subrange(0, d.len() as int)
                &&& forall|i: int|
                    d.len() <= i < d.len() + self.pending ==> all[i] == self.state.last_pixel
            }),
    {
        reveal(QoiReader::inv);
        reveal(stream_pixels);
        let cs = self.read_chunks@;
        let data = self.reader@;
        let rest = parse_chunks(data.subrange(self.pos as int, data.len() as int));
        lemma_decode_from_append(stream_start(), cs, rest);
        let head = decode_from(stream_start(), cs).1;
        let all = stream_pixels(data);
        assert(all == head + decode_from(decode_from(stream_start(), cs).0, rest).1);
        let d = self.delivered@;
        assert forall|i: int| 0 <= i < d.len() implies all[i] == d[i] by {
            assert(head[i] == d[i]);
        }
        assert(d =~= all.subrange(0, d.len() as int));
        assert forall|i: int| d.len() <= i < d.len() + self.pending implies all[i] == self.state.last_pixel by {
            assert(head[i] == repeat_pixel(self.state.last_pixel, self.pending as nat)[i - d.len()]);
        }
    }
}

/// One more pixel written after the ones before it.
proof fn lemma_fill_step(
    all: Seq<Pixel>,
    start: int,
    k: int,
    ch: int,
    at: int,
    p: Pixel,
    before: Seq<u8>,
    after: Seq<u8>,
    orig: Seq<u8>,
)
    requires
        k >= 1,
        ch == 3 || ch == 4,
        at == (k - 1) * ch,
        0 <= start,
        start + k <= all.len(),
        all[start + k - 1] == p,
        at + ch <= before.len(),
        before.len() == orig.len(),
        after.len() == before.len(),
        before.subrange(0, at) == pixel_bytes(all.subrange(start, start + k - 1), ch),
        before.subrange(at, before.len() as int) == orig.subrange(at, orig.len() as int),
        after.subrange(0, at) == before.subrange(0, at),
        after.subrange(at, at + ch) == one_pixel_bytes(p, ch),
        after.subrange(at + ch, after.len() as int) == before.subrange(at + ch, before.len() as int),
    ensures
        k * ch == at + ch,
        after.subrange(0, k * ch) == pixel_bytes(all.subrange(start, start + k), ch),
        after.subrange(k * ch, after.len() as int) == orig.subrange(k * ch, orig.len() as int),
{
    reveal(pixel_bytes);
    assert(k * ch == at + ch) by (nonlinear_arith)
        requires
            at == (k - 1) * ch,
    ;
    let newp = all.subrange(start, start + k);
    assert(newp.drop_last() =~= all.subrange(start, start + k - 1));
    assert(newp.last() == p);
    assert(after.subrange(0, at + ch) =~= after.subrange(0, at) + after.subrange(at, at + ch));
    assert(after.subrange(at + ch, after.len() as int) =~= orig.subrange(at + ch, orig.len() as int)) by {
        assert(before.subrange(at + ch, before.len() as int) =~= before.subrange(at, before.len() as int).subrange(ch, before.len() - at));
        assert(orig.subrange(at + ch, orig.len() as int) =~= orig.subrange(at, orig.len() as int).subrange(ch, orig.len() - at));
    }
}

/// Writes the bytes of `p` at `at`: three, or four with alpha.
fn write_pixel(buf: &mut [u8], at: usize, p: Pixel, channels: u8)
    requires
        channels == 3 || channels == 4,
        at + channels <= old(buf)@.len(),
    ensures
        final(buf)@.len() == old(buf)@.len(),
        final(buf)@.subrange(0, at as int) == old(buf)@.subrange(0, at as int),
        final(buf)@.subrange(at as int, at + channels) == one_pixel_bytes(p, channels as int),
        final(buf)@.subrange(at + channels, old(buf)@.len() as int) == old(buf)@.subrange(
            at + channels,
            old(buf)@.len() as int,
        ),
{
    buf[at] = p.r;
    buf[at + 1] = p.g;
    buf[at + 2] = p.b;
    if channels == 4 {
        buf[at + 3] = p.a;
    }
    assert(buf@.subrange(0, at as int) =~= old(buf)@.subrange(0, at as int));
    assert(buf@.subrange(at as int, at + channels) =~= one_pixel_bytes(p, channels as int));
    assert(buf@.subrange(at + channels, old(buf)@.len() as int) =~= old(buf)@.subrange(
        at + channels,
        old(buf)@.len() as int,
    ));
}

/// Decoding the chunk bytes of an encoded image gives back its pixels first, unless the
/// pixels end in a pending run of exactly one repeated pixel, which the final drain leaves
/// unwritten.
pub proof fn law_image_round_trip(width: u32, height: u32, channels: u8, ps: Seq<Pixel>)
    requires
        encode_from(stream_start(), ps).0.run != 1,
    ensures
        ({
            let b = image_bytes(width, height, channels, ps);
            stream_pixels(b.subrange(14, b.len() as int)).subrange(0, ps.len() as int) == ps
        }),
{
    reveal(stream_pixels);
    let b = image_bytes(width, height, channels, ps);
    let cs = encode_pixels(ps);
    assert(b.subrange(14, b.len() as int) =~= chunks_bytes(cs) + end_marker());
    lemma_encode_pixels_wf(ps);
    lemma_parse_chunks_bytes(cs, end_marker());
    law_round_trip(ps);
    lemma_decode_from_append(stream_start(), cs, parse_chunks(end_marker()));
    assert(decode_chunks(cs) == ps);
    let all = stream_pixels(b.subrange(14, b.len() as int));
    assert(all.subrange(0, ps.len() as int) =~= ps);
}

} // verus!
