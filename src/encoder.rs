use vstd::prelude::*;

use crate::chunks::{QoiChunk, OP_RUN};
use crate::codec::{run_chunk, segment_start, stream_start, ChunkState, QoiCodecState};
use crate::split::{
    lemma_merge_all, is_run_state, law_split_merge, lead_end, lead_stop, leading_repeats,
    lemma_encode_from_chunks_wf, lemma_lead_end_bounds, lemma_lead_end_step, lemma_merge_segment,
    lemma_runs_total_prefix, merge_all, merge_segment, concat_segments, resolve, resolve_all,
    run_len_of, runs_total, split_encode,
};
use crate::stream::{
    chunks_bytes, chunks_of, encode_from, encode_pixels, full_run_chunks, full_runs,
    lemma_encode_from_wf, lemma_pending_range, pending_run, stream_state,
};
use crate::util::{Pixel, MAX_RUN_LENGTH, RGBA_CHANNELS, RGB_CHANNELS};

verus! {

/// Number of segments that `write_image` splits an image into.
pub const DEFAULT_SEGMENTS: usize = 2;

/// Why an image could not be encoded.
#[derive(Clone, Copy, PartialEq, Eq, Structural, Debug)]
pub enum EncodeError {
    /// The channel count is neither 3 nor 4.
    UnsupportedChannels,
}

/// The pixels of an interleaved buffer with `channels` bytes per pixel; without an alpha
/// byte a pixel is opaque.
pub open spec fn pixels_of(buf: Seq<u8>, channels: int) -> Seq<Pixel> {
    Seq::new(
        (buf.len() as int / channels) as nat,
        |i: int|
            Pixel {
                r: buf[channels * i],
                g: buf[channels * i + 1],
                b: buf[channels * i + 2],
                a: if channels == 4 {
                    buf[channels * i + 3]
                } else {
                    255u8
                },
            },
    )
}

/// A 32-bit number, most significant byte first.
pub open spec fn be_bytes(x: u32) -> Seq<u8> {
    seq![(x / 0x100_0000) as u8, (x / 0x1_0000 % 256) as u8, (x / 0x100 % 256) as u8, (x % 256) as u8]
}

/// The 14-byte header: magic, width, height, channel count and colour space.
pub open spec fn header_bytes(width: u32, height: u32, channels: u8, color_space: u8) -> Seq<u8> {
    seq![0x71u8, 0x6fu8, 0x69u8, 0x66u8] + be_bytes(width) + be_bytes(height) + seq![
        channels,
        color_space,
    ]
}

/// The 8 bytes that end a stream.
pub open spec fn end_marker() -> Seq<u8> {
    seq![0u8, 0u8, 0u8, 0u8, 0u8, 0u8, 0u8, 1u8]
}

/// The whole encoded image.
pub open spec fn image_bytes(width: u32, height: u32, channels: u8, pixels: Seq<Pixel>) -> Seq<u8> {
    header_bytes(width, height, channels, 0) + chunks_bytes(encode_pixels(pixels)) + end_marker()
}

/// Writes images into a byte sink.
pub struct QoiEncoder {
    w: Vec<u8>,
}

impl QoiEncoder {
    pub closed spec fn sink(&self) -> Seq<u8> {
        self.w@
    }

    pub fn new(w: Vec<u8>) -> (e: QoiEncoder)
        ensures
            e.sink() == w@,
    {
        QoiEncoder { w }
    }

    /// Gives back the sink with everything written to it.
    pub fn into_inner(self) -> (w: Vec<u8>)
        ensures
            w@ == self.sink(),
    {
        self.w
    }

    /// Encodes pixels `start..end` of `buf` on their own, from a fresh segment state.
    fn to_chunks(buf: &[u8], channels: u8, start: usize, end: usize) -> (r: (
        Vec<ChunkState>,
        QoiCodecState,
    ))
        requires
            channels == 3 || channels == 4,
            start <= end <= (buf@.len() as int) / (channels as int),
        ensures
            r.1.wf(),
            (r.1@, r.0@) == encode_from(
                segment_start(),
                pixels_of(buf@, channels as int).subrange(start as int, end as int),
            ),
    {
        let ghost ps = pixels_of(buf@, channels as int);
        let mut chunks: Vec<ChunkState> = Vec::new();
        let mut codec_state = QoiCodecState::new_segment();
        let step = channels as usize;
        let mut i: usize = start;
        while i < end
            invariant
                start <= i <= end <= (buf@.len() as int) / (channels as int),
                step == channels as usize,
                channels == 3 || channels == 4,
                ps == pixels_of(buf@, channels as int),
                codec_state.wf(),
                (codec_state@, chunks@) == encode_from(
                    segment_start(),
                    ps.subrange(start as int, i as int),
                ),
            decreases end - i,
        {
            proof {
                assert(step * i + step <= buf@.len()) by (nonlinear_arith)
                    requires
                        i < (buf@.len() as int) / (step as int),
                        step > 0,
                ;
            }
            let n = buf.len();
            assert(step * i <= n);
            let base = step * i;
            let pixel = if channels == RGB_CHANNELS {
                Pixel::new(buf[base], buf[base + 1], buf[base + 2], 255)
            } else {
                Pixel::new(buf[base], buf[base + 1], buf[base + 2], buf[base + 3])
            };
            assert(pixel == ps[i as int]);
            let out = codec_state.process_pixel(pixel);
            proof {
                let sub = ps.subrange(start as int, i + 1);
                assert(sub.drop_last() =~= ps.subrange(start as int, i as int));
            }
            let mut j: usize = 0;
            let ghost before = chunks@;
            while j < out.len()
                invariant
                    j <= out@.len(),
                    chunks@ == before + out@.subrange(0, j as int),
                decreases out@.len() - j,
            {
                chunks.push(out[j]);
                j = j + 1;
                proof {
                    assert(out@.subrange(0, j as int) =~= out@.subrange(0, j - 1).push(out@[j - 1]));
                }
            }
            assert(out@.subrange(0, out@.len() as int) =~= out@);
            i = i + 1;
        }
        (chunks, codec_state)
    }

    /// Appends segment (`chunks`, `state`) to the stream whose state is `global`, writing its
    /// chunks, fixed up with what the stream knows, to `out`.
    fn merge_segment(
        global: &mut QoiCodecState,
        out: &mut Vec<QoiChunk>,
        chunks: &Vec<ChunkState>,
        state: &QoiCodecState,
        Ghost(seg): Ghost<Seq<Pixel>>,
    )
        requires
            old(global).wf(),
            stream_state(old(global)@),
            state.wf(),
            (state@, chunks@) == encode_from(segment_start(), seg),
            seg.len() <= usize::MAX,
        ensures
            final(global).wf(),
            final(global)@ == merge_segment(old(global)@, chunks@, state@).0,
            final(out)@ == old(out)@ + merge_segment(old(global)@, chunks@, state@).1,
    {
        let ghost g = global@;
        let ghost cs = chunks@;
        proof {
            lemma_merge_segment(g, seg);
            lemma_encode_from_chunks_wf(segment_start(), seg);
        }
        if chunks.len() == 0 && state.run_length == 0 {
            assert(out@ =~= old(out)@ + Seq::<QoiChunk>::empty());
            return;
        }
        // The pixel that opens the segment, read back with a fresh state.
        let fresh = QoiCodecState::new_segment();
        let mut first_n: u128 = 0;
        let pixel = if chunks.len() == 0 {
            fresh.last_pixel()
        } else {
            let c = chunks[0].get_chunk();
            first_n = match c {
                QoiChunk::RUN(o) => o.run_length as u128,
                _ => 1,
            };
            fresh.lookup_chunk(c)
        };
        // The run chunks that follow it continue its run.
        let mut k: usize = if chunks.len() == 0 {
            0
        } else {
            1
        };
        let mut sum: u128 = 0;
        proof {
            if cs.len() > 0 {
                lemma_lead_end_bounds(cs, 1);
                lemma_runs_total_prefix(cs, 1, lead_end(cs, 1));
                assert(cs.subrange(1, 1) =~= Seq::<ChunkState>::empty());
            }
        }
        while k < chunks.len() && chunks[k].resolved_run_length() > 0
            invariant
                cs == chunks@,
                cs.len() > 0 ==> 1 <= k <= lead_end(cs, 1) <= cs.len(),
                cs.len() > 0 ==> lead_end(cs, k as int) == lead_end(cs, 1),
                cs.len() > 0 ==> sum == runs_total(cs.subrange(1, k as int)),
                cs.len() > 0 ==> runs_total(cs.subrange(1, lead_end(cs, 1))) < seg.len() + 1,
                cs.len() == 0 ==> k == 0,
                seg.len() <= usize::MAX,
                forall|i: int| 0 <= i < cs.len() ==> (#[trigger] cs[i]).chunk().wf(),
            decreases chunks@.len() - k,
        {
            proof {
                lemma_lead_end_step(cs, k as int);
                lemma_lead_end_bounds(cs, k + 1);
                lemma_runs_total_prefix(cs, k as int, lead_end(cs, 1));
                lemma_runs_total_prefix(cs, k + 1, lead_end(cs, 1));
            }
            let x = chunks[k].resolved_run_length();
            assert(sum + x <= seg.len());
            sum = sum + x as u128;
            k = k + 1;
        }
        assert(k == lead_stop(cs));
        let exhausted = k == chunks.len();
        let extra: u128 = if chunks.len() == 0 {
            state.run_length as u128 - 1
        } else if exhausted {
            first_n - 1 + sum + state.run_length as u128
        } else {
            first_n - 1 + sum
        };
        assert(extra == leading_repeats(cs, state@));
        // Re-encode the opening pixel against the stream's true state.
        let mut temp = *global;
        let out1 = temp.process_pixel(pixel);
        let ghost t = temp@;
        let ghost base = out@;
        let mut j: usize = 0;
        while j < out1.len()
            invariant
                j <= out1@.len(),
                out@ == base + chunks_of(out1@.subrange(0, j as int)),
            decreases out1@.len() - j,
        {
            out.push(out1[j].get_chunk());
            j = j + 1;
            proof {
                assert(chunks_of(out1@.subrange(0, j as int)) =~= chunks_of(
                    out1@.subrange(0, j - 1),
                ).push(out1@[j - 1].chunk()));
            }
        }
        assert(out1@.subrange(0, out1@.len() as int) =~= out1@);
        // The whole run, cut into chunks of the longest length and a remainder.
        let mut total: u128 = temp.run_length as u128 + extra;
        let ghost total0 = total as int;
        let ghost base2 = out@;
        let ghost mut n: nat = 0;
        proof {
            lemma_pending_range(total0);
        }
        while total > MAX_RUN_LENGTH as u128
            invariant
                total >= 0,
                full_runs(total0) == n + full_runs(total as int),
                pending_run(total0) == pending_run(total as int),
                out@ == base2 + chunks_of(full_run_chunks(n)),
            decreases total,
        {
            out.push(QoiChunk::RUN(OP_RUN::new(MAX_RUN_LENGTH)));
            total = total - MAX_RUN_LENGTH as u128;
            proof {
                n = n + 1;
                assert(chunks_of(full_run_chunks(n)) =~= chunks_of(full_run_chunks((n - 1) as nat)).push(
                    run_chunk(62),
                ));
            }
        }
        assert(full_runs(total as int) == 0 && pending_run(total as int) == total);
        if !exhausted && total > 0 {
            out.push(QoiChunk::RUN(OP_RUN::new(total as u8)));
        }
        // The rest of the segment. An unresolved chunk is looked up in the stream's table as it
        // stands after the opening pixel: a slot that the segment cannot vouch for has not been
        // written since then, so that table holds the true content of the chunk's slot.
        let ghost base3 = out@;
        let mut i: usize = k;
        while i < chunks.len()
            invariant
                k <= i <= chunks@.len(),
                cs == chunks@,
                temp@ == t,
                temp.wf(),
                out@ == base3 + resolve_all(cs.subrange(k as int, i as int), t),
            decreases chunks@.len() - i,
        {
            let c = match chunks[i] {
                ChunkState::Resolved(c) => c,
                ChunkState::Unresolved(c, p) => match temp.lookup_pixel(&p) {
                    Some(index) => index,
                    None => c,
                },
            };
            out.push(c);
            i = i + 1;
            proof {
                assert(resolve_all(cs.subrange(k as int, i as int), t) =~= resolve_all(
                    cs.subrange(k as int, i - 1),
                    t,
                ).push(resolve(cs[i - 1], t)));
            }
        }
        assert(out@ =~= old(out)@ + merge_segment(g, cs, state@).1);
        // The stream continues with the segment's state.
        temp.merge(*state);
        if exhausted {
            temp.run_length = total as u8;
        }
        *global = temp;
    }
}

impl ChunkState {
    /// The length of a run chunk that needs no resolving; zero for any other chunk.
    pub fn resolved_run_length(&self) -> (n: u8)
        requires
            self.chunk().wf(),
        ensures
            (n > 0) == is_run_state(*self),
            n as int == if is_run_state(*self) {
                run_len_of(*self)
            } else {
                0
            },
    {
        match self {
            ChunkState::Resolved(QoiChunk::RUN(o)) => o.run_length,
            _ => 0,
        }
    }
}

impl QoiEncoder {
    /// Writes the 14-byte header.
    fn write_header(&mut self, width: u32, height: u32, channels: u8, color_space: u8)
        ensures
            final(self).sink() == old(self).sink() + header_bytes(width, height, channels, color_space),
    {
        self.w.push(0x71);
        self.w.push(0x6f);
        self.w.push(0x69);
        self.w.push(0x66);
        self.write_u32(width);
        self.write_u32(height);
        self.w.push(channels);
        self.w.push(color_space);
        assert(self.w@ =~= old(self).w@ + header_bytes(width, height, channels, color_space));
    }

    fn write_u32(&mut self, x: u32)
        ensures
            final(self).sink() == old(self).sink() + be_bytes(x),
    {
        let b0 = (x >> 24) as u8;
        let b1 = (x >> 16) as u8;
        let b2 = (x >> 8) as u8;
        let b3 = x as u8;
        assert(b0 == (x / 0x100_0000) as u8 && b1 == (x / 0x1_0000 % 256) as u8 && b2 == (x / 0x100
            % 256) as u8 && b3 == (x % 256) as u8) by (bit_vector)
            requires
                b0 == (x >> 24) as u8,
                b1 == (x >> 16) as u8,
                b2 == (x >> 8) as u8,
                b3 == x as u8,
        ;
        self.w.push(b0);
        self.w.push(b1);
        self.w.push(b2);
        self.w.push(b3);
        assert(self.w@ =~= old(self).w@ + be_bytes(x));
    }

    /// Encodes the interleaved pixel buffer `buf` of a `width` x `height` image with
    /// `channels` bytes per pixel. The pixels are cut into `segments` contiguous segments,
    /// each encoded on its own from a fresh segment state; the segments are then merged left
    /// to right into one chunk stream, which is exactly that of encoding all pixels in one
    /// sequence, whatever the number of segments.
    pub fn encode(&mut self, buf: &[u8], width: u32, height: u32, channels: u8, segments: usize)
        requires
            channels == 3 || channels == 4,
            segments >= 1,
            buf@.len() == width * height * channels,
        ensures
            final(self).sink() == old(self).sink() + image_bytes(
                width,
                height,
                channels,
                pixels_of(buf@, channels as int),
            ),
    {
        self.write_header(width, height, channels, 0);
        let ghost ps = pixels_of(buf@, channels as int);
        let n: usize = buf.len() / channels as usize;
        let seg_len: usize = if n % segments == 0 {
            n / segments
        } else {
            n / segments + 1
        };
        let seg_len: usize = if seg_len == 0 {
            1
        } else {
            seg_len
        };
        // Each segment is encoded independently of the others.
        let mut parts: Vec<(Vec<ChunkState>, QoiCodecState)> = Vec::new();
        let ghost mut segs: Seq<Seq<Pixel>> = seq![];
        let mut start: usize = 0;
        while start < n
            invariant
                start <= n,
                n == (buf@.len() as int) / (channels as int),
                ps.len() == n,
                ps == pixels_of(buf@, channels as int),
                channels == 3 || channels == 4,
                seg_len >= 1,
                concat_segments(segs) == ps.subrange(0, start as int),
                parts@.len() == segs.len(),
                forall|i: int|
                    0 <= i < segs.len() ==> {
                        &&& (#[trigger] parts@[i]).1.wf()
                        &&& (parts@[i].1@, parts@[i].0@) == encode_from(segment_start(), segs[i])
                        &&& segs[i].len() <= usize::MAX
                    },
            decreases n - start,
        {
            let end = if n - start > seg_len {
                start + seg_len
            } else {
                n
            };
            let part = Self::to_chunks(buf, channels, start, end);
            parts.push(part);
            proof {
                let seg = ps.subrange(start as int, end as int);
                assert(segs.push(seg).drop_last() =~= segs);
                assert(ps.subrange(0, end as int) =~= ps.subrange(0, start as int) + seg);
                segs = segs.push(seg);
            }
            start = end;
        }
        assert(ps.subrange(0, n as int) =~= ps);
        // The segments are merged in order into the stream.
        let mut global = QoiCodecState::new();
        let mut chunks: Vec<QoiChunk> = Vec::new();
        let mut i: usize = 0;
        proof {
            assert(segs.subrange(0, 0) =~= Seq::<Seq<Pixel>>::empty());
        }
        while i < parts.len()
            invariant
                i <= parts@.len(),
                parts@.len() == segs.len(),
                forall|j: int|
                    0 <= j < segs.len() ==> {
                        &&& (#[trigger] parts@[j]).1.wf()
                        &&& (parts@[j].1@, parts@[j].0@) == encode_from(segment_start(), segs[j])
                        &&& segs[j].len() <= usize::MAX
                    },
                global.wf(),
                (global@, chunks@) == merge_all(segs.subrange(0, i as int)),
            decreases parts@.len() - i,
        {
            proof {
                lemma_merge_all(segs.subrange(0, i as int));
                assert(segs.subrange(0, i + 1).drop_last() =~= segs.subrange(0, i as int));
            }
            Self::merge_segment(&mut global, &mut chunks, &parts[i].0, &parts[i].1, Ghost(segs[i as int]));
            i = i + 1;
        }
        assert(segs.subrange(0, segs.len() as int) =~= segs);
        if let Some(c) = global.drain() {
            chunks.push(c);
        }
        proof {
            law_split_merge(segs);
            lemma_encode_pixels_wf(ps);
        }
        assert(chunks@ == encode_pixels(ps)) by {
            assert(chunks@ =~= split_encode(segs));
        }
        let ghost before = self.w@;
        let mut k: usize = 0;
        while k < chunks.len()
            invariant
                k <= chunks@.len(),
                chunks@ == encode_pixels(ps),
                forall|j: int| 0 <= j < chunks@.len() ==> (#[trigger] chunks@[j]).wf(),
                self.w@ == before + chunks_bytes(chunks@.subrange(0, k as int)),
            decreases chunks@.len() - k,
        {
            chunks[k].encode(&mut self.w);
            k = k + 1;
            proof {
                assert(chunks@.subrange(0, k as int).drop_last() =~= chunks@.subrange(0, k - 1));
            }
        }
        assert(chunks@.subrange(0, chunks@.len() as int) =~= chunks@);
        let end: [u8; 8] = [0x00, 0x00, 0x00, 0x00, 0x00, 0x00, 0x00, 0x01];
        let mut e: usize = 0;
        let ghost mid = self.w@;
        while e < 8
            invariant
                e <= 8,
                end@ == end_marker(),
                self.w@ == mid + end_marker().subrange(0, e as int),
            decreases 8 - e,
        {
            self.w.push(end[e]);
            e = e + 1;
            proof {
                assert(end_marker().subrange(0, e as int) =~= end_marker().subrange(0, e - 1).push(end_marker()[e - 1]));
            }
        }
        assert(end_marker().subrange(0, 8) =~= end_marker());
        assert(self.w@ =~= old(self).w@ + image_bytes(width, height, channels, ps));
    }

    /// Encodes an image with 3 (RGB) or 4 (RGBA) channels and gives back the sink.
    pub fn write_image(self, buf: &[u8], width: u32, height: u32, channels: u8) -> (r: Result<
        Vec<u8>,
        EncodeError,
    >)
        requires
            channels == 3 || channels == 4 ==> buf@.len() == width * height * channels,
        ensures
            r is Err <==> !(channels == 3 || channels == 4),
            r matches Ok(w) ==> w@ == self.sink() + image_bytes(
                width,
                height,
                channels,
                pixels_of(buf@, channels as int),
            ),
    {
        if channels != RGB_CHANNELS && channels != RGBA_CHANNELS {
            return Err(EncodeError::UnsupportedChannels);
        }
        let mut encoder = self;
        encoder.encode(buf, width, height, channels, DEFAULT_SEGMENTS);
        Ok(encoder.w)
    }
}

/// Every chunk of an encoded pixel sequence is well formed.
pub proof fn lemma_encode_pixels_wf(ps: Seq<Pixel>)
    ensures
        forall|j: int| 0 <= j < encode_pixels(ps).len() ==> (#[trigger] encode_pixels(ps)[j]).wf(),
{
    lemma_encode_from_chunks_wf(stream_start(), ps);
    lemma_encode_from_wf(stream_start(), ps);
    let (s, cs) = encode_from(stream_start(), ps);
    assert forall|j: int| 0 <= j < encode_pixels(ps).len() implies (#[trigger] encode_pixels(ps)[j]).wf() by {
        if j < cs.len() {
            assert(encode_pixels(ps)[j] == cs[j].chunk());
        }
    }
}

} // verus!
