use vstd::prelude::*;

use crate::chunks::{
    chunk_pixel, diff_of, luma_of, QoiChunk, OP_DIFF, OP_INDEX, OP_LUMA, OP_RGB, OP_RGBA, OP_RUN,
};
use crate::util::{pixel_hash, Pixel, MAX_RUN_LENGTH, SEEN_PIXEL_ARRAY_SIZE};

verus! {

/// Whether bit `i` of the mask `m` is set.
pub open spec fn slot_known(m: u64, i: int) -> bool {
    m & (1u64 << (i as u64)) != 0
}

/// The mask `m` with bit `i` set.
pub open spec fn mark_slot(m: u64, i: int) -> u64 {
    m | (1u64 << (i as u64))
}

pub proof fn lemma_mark_slot(m: u64, i: int, j: int)
    requires
        0 <= i < 64,
        0 <= j < 64,
    ensures
        slot_known(mark_slot(m, i), j) == (j == i || slot_known(m, j)),
{
    let (a, b) = (i as u64, j as u64);
    assert((m | (1u64 << a)) & (1u64 << b) != 0 <==> (b == a || m & (1u64 << b) != 0))
        by (bit_vector)
        requires
            a < 64 && b < 64,
    ;
}

pub proof fn lemma_mask_full_and_empty(j: int)
    requires
        0 <= j < 64,
    ensures
        slot_known(0xffff_ffff_ffff_ffffu64, j),
        !slot_known(0u64, j),
{
    let b = j as u64;
    assert(0xffff_ffff_ffff_ffffu64 & (1u64 << b) != 0 && 0u64 & (1u64 << b) == 0) by (bit_vector)
        requires
            b < 64,
    ;
}

/// A chunk of the encoder's output, and whether it is final.
#[derive(Clone, Copy, PartialEq, Eq, Structural, Debug)]
pub enum ChunkState {
    /// Correct whatever preceded the segment it came from.
    Resolved(QoiChunk),
    /// Produced for `Pixel` while its table slot held nothing this state could vouch for:
    /// an index reference may replace it once the true table is known.
    Unresolved(QoiChunk, Pixel),
}

impl ChunkState {
    pub open spec fn chunk(self) -> QoiChunk {
        match self {
            ChunkState::Resolved(c) => c,
            ChunkState::Unresolved(c, _) => c,
        }
    }

    pub fn get_chunk(self) -> (c: QoiChunk)
        ensures
            c == self.chunk(),
    {
        match self {
            ChunkState::Resolved(chunk) => chunk,
            ChunkState::Unresolved(chunk, _) => chunk,
        }
    }
}

/// The mathematical content of a codec state.
pub struct CodecView {
    pub last: Pixel,
    pub seen: Seq<Pixel>,
    pub run: int,
    /// Mask of the table slots whose content the state can vouch for.
    pub vouched: u64,
}

/// State shared by encoding and decoding: the previous pixel, the table of previously seen
/// pixels, the pending run, the mask of table slots that this state has written itself, and
/// whether the state began at the true start of a stream.
///
/// A state vouches for a table slot when it wrote the slot itself, or when it began at the
/// true start of a stream, where the table's initial content is itself the truth.
#[derive(Clone, Copy, Debug)]
pub struct QoiCodecState {
    pub last_pixel: Pixel,
    pub previously_seen: [Pixel; 64],
    pub run_length: u8,
    pub modified: u64,
    pub from_stream_start: bool,
}

/// The slots that a state vouches for: every slot from the start of a stream, else the ones
/// it wrote.
pub open spec fn vouched_mask(modified: u64, from_stream_start: bool) -> u64 {
    if from_stream_start {
        0xffff_ffff_ffff_ffffu64
    } else {
        modified
    }
}

impl View for QoiCodecState {
    type V = CodecView;

    open spec fn view(&self) -> CodecView {
        CodecView {
            last: self.last_pixel,
            seen: self.previously_seen@,
            run: self.run_length as int,
            vouched: vouched_mask(self.modified, self.from_stream_start),
        }
    }
}

impl CodecView {
    pub open spec fn wf(self) -> bool {
        &&& self.seen.len() == 64
        &&& 0 <= self.run <= 62
    }
}

/// The pixel every stream starts after.
pub open spec fn start_pixel() -> Pixel {
    Pixel { r: 0, g: 0, b: 0, a: 255 }
}

/// The content of every slot of a fresh table.
pub open spec fn blank_pixel() -> Pixel {
    Pixel { r: 0, g: 0, b: 0, a: 0 }
}

/// A fresh state; `known` is the mask of slots it vouches for.
pub open spec fn fresh_view(known: u64) -> CodecView {
    CodecView { last: start_pixel(), seen: Seq::new(64, |i: int| blank_pixel()), run: 0, vouched: known }
}

/// The state at the true start of a stream: it vouches for every slot.
pub open spec fn stream_start() -> CodecView {
    fresh_view(0xffff_ffff_ffff_ffffu64)
}

/// The state that a segment starts from: it vouches for nothing.
pub open spec fn segment_start() -> CodecView {
    fresh_view(0)
}

/// The difference, luma or raw chunk for `p` after `prev`, in that order of preference.
pub open spec fn pixel_chunk(prev: Pixel, p: Pixel) -> QoiChunk {
    match diff_of(prev, p) {
        Some(d) => QoiChunk::DIFF(d),
        None => match luma_of(prev, p) {
            Some(l) => QoiChunk::LUMA(l),
            None => if p.a == prev.a {
                QoiChunk::RGB(OP_RGB { r: p.r, g: p.g, b: p.b })
            } else {
                QoiChunk::RGBA(OP_RGBA { r: p.r, g: p.g, b: p.b, a: p.a })
            },
        },
    }
}

pub open spec fn run_chunk(n: int) -> QoiChunk {
    QoiChunk::RUN(OP_RUN { run_length: n as u8 })
}

/// One encoding step: the state after `p` and the chunks emitted for it.
pub open spec fn encode_step(s: CodecView, p: Pixel) -> (CodecView, Seq<ChunkState>) {
    if p == s.last && s.run < 62 {
        (CodecView { run: s.run + 1, ..s }, seq![])
    } else {
        let closed: Seq<ChunkState> = if s.run > 0 {
            seq![ChunkState::Resolved(run_chunk(s.run))]
        } else {
            seq![]
        };
        if p == s.last {
            (CodecView { run: 1, ..s }, closed)
        } else {
            let h = pixel_hash(p);
            if slot_known(s.vouched, h) && s.seen[h] == p {
                (
                    CodecView { last: p, run: 0, ..s },
                    closed.push(ChunkState::Resolved(QoiChunk::INDEX(OP_INDEX { index: h as u8 }))),
                )
            } else {
                let c = pixel_chunk(s.last, p);
                let cs = if slot_known(s.vouched, h) {
                    ChunkState::Resolved(c)
                } else {
                    ChunkState::Unresolved(c, p)
                };
                (
                    CodecView {
                        last: p,
                        seen: s.seen.update(h, p),
                        run: 0,
                        vouched: mark_slot(s.vouched, h),
                    },
                    closed.push(cs),
                )
            }
        }
    }
}

/// One decoding step: the state after chunk `c`, the pixel it gives and how many times.
pub open spec fn decode_step(s: CodecView, c: QoiChunk) -> (CodecView, Pixel, int) {
    match c {
        QoiChunk::RUN(o) => (s, s.last, o.run_length as int),
        _ => {
            let p = chunk_pixel(s.last, s.seen, c);
            (CodecView { last: p, seen: s.seen.update(pixel_hash(p), p), ..s }, p, 1)
        },
    }
}

/// The table `global` overlaid with the slots that `other` vouches for.
pub open spec fn merged_seen(global: Seq<Pixel>, other: CodecView) -> Seq<Pixel> {
    Seq::new(
        64,
        |i: int|
            if slot_known(other.vouched, i) {
                other.seen[i]
            } else {
                global[i]
            },
    )
}

/// `global` followed by the state `other`, which was built from a fresh start.
pub open spec fn merge_view(global: CodecView, other: CodecView) -> CodecView {
    CodecView {
        last: other.last,
        seen: merged_seen(global.seen, other),
        run: other.run,
        vouched: global.vouched | other.vouched,
    }
}

impl QoiCodecState {
    pub open spec fn wf(&self) -> bool {
        self@.wf()
    }

    fn fresh(from_stream_start: bool) -> (s: Self)
        ensures
            s@ == fresh_view(vouched_mask(0, from_stream_start)),
            s.modified == 0,
            s.from_stream_start == from_stream_start,
            s.wf(),
    {
        let s = Self {
            last_pixel: Pixel::new(0, 0, 0, 255),
            previously_seen: [Pixel::new(0, 0, 0, 0); 64],
            run_length: 0,
            modified: 0,
            from_stream_start,
        };
        assert(s@.seen =~= Seq::new(64, |i: int| blank_pixel()));
        s
    }

    /// A state at the true start of a stream: opaque black before it, a blank table, no run,
    /// no slot written yet.
    pub fn new() -> (s: Self)
        ensures
            s@ == stream_start(),
            s.last_pixel == (Pixel { r: 0, g: 0, b: 0, a: 255 }),
            forall|i: int| 0 <= i < 64 ==> s.previously_seen@[i] == (Pixel { r: 0, g: 0, b: 0, a: 0 }),
            s.run_length == 0,
            s.modified == 0,
            s.from_stream_start,
            s.wf(),
    {
        Self::fresh(true)
    }

    /// A state for a segment of a stream whose earlier content is not known.
    pub fn new_segment() -> (s: Self)
        ensures
            s@ == segment_start(),
            s.modified == 0,
            !s.from_stream_start,
            s.wf(),
    {
        Self::fresh(false)
    }

    /// Whether this state has itself written table slot `hash_idx`.
    pub fn modified(&self, hash_idx: usize) -> (r: bool)
        requires
            hash_idx < SEEN_PIXEL_ARRAY_SIZE,
        ensures
            r == slot_known(self.modified, hash_idx as int),
    {
        (self.modified & (1u64 << hash_idx as u64)) != 0
    }

    /// Whether this state vouches for table slot `hash_idx`: it began at the true start of the
    /// stream, or it wrote the slot itself.
    pub fn vouches(&self, hash_idx: usize) -> (r: bool)
        requires
            hash_idx < SEEN_PIXEL_ARRAY_SIZE,
        ensures
            r == slot_known(self@.vouched, hash_idx as int),
    {
        proof {
            lemma_mask_full_and_empty(hash_idx as int);
        }
        self.from_stream_start || self.modified(hash_idx)
    }

    /// Whether a chunk made for `pixel` stays valid whatever preceded this state.
    fn is_resolved(&self, chunk: &QoiChunk, pixel: &Pixel) -> (r: bool)
        ensures
            r == (chunk is INDEX || chunk is RUN || slot_known(self@.vouched, pixel_hash(*pixel))),
    {
        match chunk {
            QoiChunk::INDEX(_) => true,
            QoiChunk::RUN(_) => true,
            _ => self.vouches(pixel.hash()),
        }
    }

    /// Emits the difference, luma or raw chunk for `pixel` and records it in the table.
    fn cleanup(&mut self, chunks: &mut Vec<ChunkState>, chunk: QoiChunk, pixel: Pixel)
        requires
            old(self).wf(),
            !(chunk is INDEX || chunk is RUN),
        ensures
            final(self).wf(),
            final(self)@ == (CodecView {
                last: pixel,
                seen: old(self)@.seen.update(pixel_hash(pixel), pixel),
                vouched: mark_slot(old(self)@.vouched, pixel_hash(pixel)),
                ..old(self)@
            }),
            final(chunks)@ == old(chunks)@.push(
                if slot_known(old(self)@.vouched, pixel_hash(pixel)) {
                    ChunkState::Resolved(chunk)
                } else {
                    ChunkState::Unresolved(chunk, pixel)
                },
            ),
    {
        if self.is_resolved(&chunk, &pixel) {
            chunks.push(ChunkState::Resolved(chunk));
        } else {
            chunks.push(ChunkState::Unresolved(chunk, pixel));
        }
        let hash_idx = pixel.hash();
        self.previously_seen[hash_idx] = pixel;
        self.modified = self.modified | (1u64 << hash_idx as u64);
        self.last_pixel = pixel;
        proof {
            lemma_vouched_mark(old(self).modified, self.from_stream_start, hash_idx as int);
        }
    }

    /// Encodes one pixel: extends the run, closes it, or emits an index, difference, luma or
    /// raw chunk (zero, one or two chunks in all).
    pub fn process_pixel(&mut self, pixel: Pixel) -> (chunks: Vec<ChunkState>)
        requires
            old(self).wf(),
        ensures
            final(self).wf(),
            (final(self)@, chunks@) == encode_step(old(self)@, pixel),
    {
        let mut chunks: Vec<ChunkState> = Vec::new();
        if pixel == self.last_pixel && self.run_length < MAX_RUN_LENGTH {
            self.run_length = self.run_length + 1;
            return chunks;
        } else if self.run_length > 0 {
            chunks.push(ChunkState::Resolved(QoiChunk::RUN(OP_RUN::new(self.run_length))));
            if pixel == self.last_pixel {
                self.run_length = 1;
                return chunks;
            }
            self.run_length = 0;
        }
        let hash_idx = pixel.hash();
        if self.vouches(hash_idx) && self.previously_seen[hash_idx] == pixel {
            chunks.push(ChunkState::Resolved(QoiChunk::INDEX(OP_INDEX::new(hash_idx as u8))));
            self.last_pixel = pixel;
            return chunks;
        }
        let chunk = if let Some(op_diff) = OP_DIFF::try_new(self.last_pixel, pixel) {
            QoiChunk::DIFF(op_diff)
        } else if let Some(op_luma) = OP_LUMA::try_new(self.last_pixel, pixel) {
            QoiChunk::LUMA(op_luma)
        } else if pixel.a() == self.last_pixel.a() {
            QoiChunk::RGB(OP_RGB::new(pixel))
        } else {
            QoiChunk::RGBA(OP_RGBA::new(pixel))
        };
        self.cleanup(&mut chunks, chunk, pixel);
        proof {
            assert(chunks@ =~= encode_step(old(self)@, pixel).1);
        }
        chunks
    }

    /// The run chunk that still has to be written at the end of the stream, if the pending
    /// run is longer than one pixel.
    pub fn drain(&self) -> (r: Option<QoiChunk>)
        requires
            self.wf(),
        ensures
            r == drain_spec(self@),
    {
        if self.run_length > 1 {
            Some(QoiChunk::RUN(OP_RUN::new(self.run_length)))
        } else {
            None
        }
    }

    /// Continues this state with `other`, a state that started fresh where this one stopped:
    /// the previous pixel and the run come from `other`, and each table slot from `other`
    /// where it vouches for it.
    pub fn merge(&mut self, other: QoiCodecState)
        requires
            old(self).wf(),
            other.wf(),
        ensures
            final(self).wf(),
            final(self)@ == merge_view(old(self)@, other@),
    {
        self.last_pixel = other.last_pixel;
        self.run_length = other.run_length;
        let mut i: usize = 0;
        while i < SEEN_PIXEL_ARRAY_SIZE
            invariant
                i <= 64,
                self.previously_seen@.len() == 64,
                self.last_pixel == other.last_pixel,
                self.run_length == other.run_length,
                self.modified == old(self).modified,
                self.from_stream_start == old(self).from_stream_start,
                forall|j: int|
                    0 <= j < 64 ==> #[trigger] self.previously_seen@[j] == if j < i {
                        merged_seen(old(self)@.seen, other@)[j]
                    } else {
                        old(self)@.seen[j]
                    },
            decreases 64 - i,
        {
            if other.vouches(i) {
                self.previously_seen[i] = other.previously_seen[i];
            }
            i = i + 1;
        }
        self.modified = self.modified | other.modified;
        self.from_stream_start = self.from_stream_start || other.from_stream_start;
        proof {
            lemma_vouched_union(
                old(self).modified,
                old(self).from_stream_start,
                other.modified,
                other.from_stream_start,
            );
        }
        assert(self.previously_seen@ =~= merged_seen(old(self)@.seen, other@));
    }

    pub fn last_pixel(&self) -> (p: Pixel)
        ensures
            p == self.last_pixel,
    {
        self.last_pixel
    }

    pub fn run_length(&self) -> (n: u8)
        ensures
            n == self.run_length,
    {
        self.run_length
    }

    /// An index reference for `pixel`, when the table holds exactly it in its slot.
    pub fn lookup_pixel(&self, pixel: &Pixel) -> (r: Option<QoiChunk>)
        requires
            self.wf(),
        ensures
            r == lookup_spec(self@, *pixel),
    {
        let hash_idx = pixel.hash();
        if self.previously_seen[hash_idx] == *pixel {
            Some(QoiChunk::INDEX(OP_INDEX::new(hash_idx as u8)))
        } else {
            None
        }
    }

    /// The pixel that `chunk` stands for in this state (the previous pixel for a run).
    pub fn lookup_chunk(&self, chunk: QoiChunk) -> (p: Pixel)
        requires
            self.wf(),
            chunk.wf(),
        ensures
            p == chunk_pixel(self.last_pixel, self@.seen, chunk),
    {
        match chunk {
            QoiChunk::RGB(c) => Pixel::new(c.r, c.g, c.b, self.last_pixel.a()),
            QoiChunk::RGBA(c) => Pixel::new(c.r, c.g, c.b, c.a),
            QoiChunk::RUN(_) => self.last_pixel,
            QoiChunk::LUMA(c) => Pixel::from((self.last_pixel, c)),
            QoiChunk::DIFF(c) => Pixel::from((self.last_pixel, c)),
            QoiChunk::INDEX(c) => self.previously_seen[c.index as usize],
        }
    }

    /// Decodes one chunk: the pixel it gives and how many times.
    pub fn process_chunk(&mut self, chunk: QoiChunk) -> (r: (Pixel, usize))
        requires
            old(self).wf(),
            chunk.wf(),
        ensures
            final(self).wf(),
            (final(self)@, r.0, r.1 as int) == decode_step(old(self)@, chunk),
    {
        if let QoiChunk::RUN(c) = chunk {
            (self.last_pixel, c.run_length() as usize)
        } else {
            self.last_pixel = self.lookup_chunk(chunk);
            let hash_idx = self.last_pixel.hash();
            self.previously_seen[hash_idx] = self.last_pixel;
            (self.last_pixel, 1)
        }
    }
}

/// The chunk that ends a stream whose state is `s`.
pub open spec fn drain_spec(s: CodecView) -> Option<QoiChunk> {
    if s.run > 1 {
        Some(run_chunk(s.run))
    } else {
        None
    }
}

/// The index reference for `p` in the table of `s`, when the slot holds exactly `p`.
pub open spec fn lookup_spec(s: CodecView, p: Pixel) -> Option<QoiChunk> {
    if s.seen[pixel_hash(p)] == p {
        Some(QoiChunk::INDEX(OP_INDEX { index: pixel_hash(p) as u8 }))
    } else {
        None
    }
}

/// The difference, luma or raw chunk for `p` gives `p` back after `prev`.
pub proof fn lemma_pixel_chunk_round_trip(prev: Pixel, p: Pixel, seen: Seq<Pixel>)
    ensures
        pixel_chunk(prev, p).wf(),
        !(pixel_chunk(prev, p) is INDEX || pixel_chunk(prev, p) is RUN),
        chunk_pixel(prev, seen, pixel_chunk(prev, p)) == p,
{
    if diff_of(prev, p) is Some {
        crate::chunks::lemma_diff_round_trip(prev, p, seen);
    } else if luma_of(prev, p) is Some {
        crate::chunks::lemma_luma_round_trip(prev, p, seen);
    }
}

/// Writing slot `h` marks it in the vouched mask too.
pub proof fn lemma_vouched_mark(m: u64, from_stream_start: bool, h: int)
    requires
        0 <= h < 64,
    ensures
        vouched_mask(mark_slot(m, h), from_stream_start) == mark_slot(
            vouched_mask(m, from_stream_start),
            h,
        ),
{
    let a = h as u64;
    assert(0xffff_ffff_ffff_ffffu64 | (1u64 << a) == 0xffff_ffff_ffff_ffffu64) by (bit_vector)
        requires
            a < 64,
    ;
}

/// The vouched mask of two masks of written slots put together.
pub proof fn lemma_vouched_union(m1: u64, s1: bool, m2: u64, s2: bool)
    ensures
        vouched_mask(m1 | m2, s1 || s2) == vouched_mask(m1, s1) | vouched_mask(m2, s2),
{
    let (x, y) = (m1, m2);
    assert(0xffff_ffff_ffff_ffffu64 | y == 0xffff_ffff_ffff_ffffu64 && x | 0xffff_ffff_ffff_ffffu64
        == 0xffff_ffff_ffff_ffffu64 && 0xffff_ffff_ffff_ffffu64 | 0xffff_ffff_ffff_ffffu64
        == 0xffff_ffff_ffff_ffffu64) by (bit_vector);
}

} // verus!
