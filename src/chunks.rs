#![allow(non_camel_case_types)]

use vstd::prelude::*;

use crate::util::{Pixel, MAX_RUN_LENGTH, SEEN_PIXEL_ARRAY_SIZE};

verus! {

/// `a - b + bias` in 8-bit wraparound arithmetic.
pub open spec fn biased_sub_spec(a: u8, b: u8, bias: u8) -> u8 {
    ((a + 256 - b + bias) % 256) as u8
}

/// `a + b - bias` in 8-bit wraparound arithmetic.
pub open spec fn biased_add_spec(a: u8, b: u8, bias: u8) -> u8 {
    ((a + b + 256 - bias) % 256) as u8
}

/// Raw pixel with the alpha of the previous pixel.
#[derive(Clone, Copy, PartialEq, Eq, Structural, Debug)]
pub struct OP_RGB {
    pub r: u8,
    pub g: u8,
    pub b: u8,
}

/// Raw pixel with all four channels.
#[derive(Clone, Copy, PartialEq, Eq, Structural, Debug)]
pub struct OP_RGBA {
    pub r: u8,
    pub g: u8,
    pub b: u8,
    pub a: u8,
}

/// Reference to a slot of the seen-pixel table.
#[derive(Clone, Copy, PartialEq, Eq, Structural, Debug)]
pub struct OP_INDEX {
    pub index: u8,
}

/// Small per-channel difference to the previous pixel, each stored with bias 2.
#[derive(Clone, Copy, PartialEq, Eq, Structural, Debug)]
pub struct OP_DIFF {
    pub dr: u8,
    pub dg: u8,
    pub db: u8,
}

/// Green difference (bias 32) and red/blue differences relative to it (bias 8).
#[derive(Clone, Copy, PartialEq, Eq, Structural, Debug)]
pub struct OP_LUMA {
    pub dg: u8,
    pub dr_dg: u8,
    pub db_dg: u8,
}

/// Repetition of the previous pixel, `run_length` times.
#[derive(Clone, Copy, PartialEq, Eq, Structural, Debug)]
pub struct OP_RUN {
    pub run_length: u8,
}

/// One record of the chunk stream.
#[derive(Clone, Copy, PartialEq, Eq, Structural, Debug)]
pub enum QoiChunk {
    RGB(OP_RGB),
    RGBA(OP_RGBA),
    INDEX(OP_INDEX),
    DIFF(OP_DIFF),
    LUMA(OP_LUMA),
    RUN(OP_RUN),
}

impl QoiChunk {
    /// Every field fits the bits that the layout gives it.
    pub open spec fn wf(self) -> bool {
        match self {
            QoiChunk::RGB(_) => true,
            QoiChunk::RGBA(_) => true,
            QoiChunk::INDEX(c) => c.index < 64,
            QoiChunk::DIFF(c) => c.dr < 4 && c.dg < 4 && c.db < 4,
            QoiChunk::LUMA(c) => c.dg < 64 && c.dr_dg < 16 && c.db_dg < 16,
            QoiChunk::RUN(c) => 1 <= c.run_length <= 62,
        }
    }
}

/// The bytes of a chunk on the wire.
pub open spec fn chunk_bytes(c: QoiChunk) -> Seq<u8> {
    match c {
        QoiChunk::RGB(o) => seq![0xfeu8, o.r, o.g, o.b],
        QoiChunk::RGBA(o) => seq![0xffu8, o.r, o.g, o.b, o.a],
        QoiChunk::INDEX(o) => seq![o.index],
        QoiChunk::DIFF(o) => seq![(0x40 + o.dr * 16 + o.dg * 4 + o.db) as u8],
        QoiChunk::LUMA(o) => seq![(0x80 + o.dg) as u8, (o.dr_dg * 16 + o.db_dg) as u8],
        QoiChunk::RUN(o) => seq![(0xc0 + o.run_length - 1) as u8],
    }
}

/// Length of the chunk that starts with byte `b`.
pub open spec fn tag_len(b: u8) -> int {
    if b == 0xfe {
        4
    } else if b == 0xff {
        5
    } else if 0x80 <= b < 0xc0 {
        2
    } else {
        1
    }
}

/// The pixel that a non-run chunk stands for, after `prev` and with the table `seen`.
pub open spec fn chunk_pixel(prev: Pixel, seen: Seq<Pixel>, c: QoiChunk) -> Pixel {
    match c {
        QoiChunk::RGB(o) => Pixel { r: o.r, g: o.g, b: o.b, a: prev.a },
        QoiChunk::RGBA(o) => Pixel { r: o.r, g: o.g, b: o.b, a: o.a },
        QoiChunk::INDEX(o) => seen[o.index as int],
        QoiChunk::DIFF(o) => Pixel {
            r: biased_add_spec(prev.r, o.dr, 2),
            g: biased_add_spec(prev.g, o.dg, 2),
            b: biased_add_spec(prev.b, o.db, 2),
            a: prev.a,
        },
        QoiChunk::LUMA(o) => Pixel {
            r: biased_add_spec(prev.r, biased_add_spec(o.dr_dg, o.dg, 8), 32),
            g: biased_add_spec(prev.g, o.dg, 32),
            b: biased_add_spec(prev.b, biased_add_spec(o.db_dg, o.dg, 8), 32),
            a: prev.a,
        },
        QoiChunk::RUN(_) => prev,
    }
}

/// The small-difference chunk from `prev` to `curr`, when one exists.
pub open spec fn diff_of(prev: Pixel, curr: Pixel) -> Option<OP_DIFF> {
    let dr = biased_sub_spec(curr.r, prev.r, 2);
    let dg = biased_sub_spec(curr.g, prev.g, 2);
    let db = biased_sub_spec(curr.b, prev.b, 2);
    if prev.a == curr.a && dr < 4 && dg < 4 && db < 4 {
        Some(OP_DIFF { dr, dg, db })
    } else {
        None
    }
}

/// The luma chunk from `prev` to `curr`, when one exists.
pub open spec fn luma_of(prev: Pixel, curr: Pixel) -> Option<OP_LUMA> {
    let dr = biased_sub_spec(curr.r, prev.r, 32);
    let dg = biased_sub_spec(curr.g, prev.g, 32);
    let db = biased_sub_spec(curr.b, prev.b, 32);
    let dr_dg = biased_sub_spec(dr, dg, 8);
    let db_dg = biased_sub_spec(db, dg, 8);
    if prev.a == curr.a && dg < 64 && dr_dg < 16 && db_dg < 16 {
        Some(OP_LUMA { dg, dr_dg, db_dg })
    } else {
        None
    }
}

/// The signed difference `x - y` of two channels, in `[-128, 128)`.
pub open spec fn channel_delta(x: u8, y: u8) -> int {
    let d = (x + 256 - y) % 256;
    if d >= 128 {
        d - 256
    } else {
        d
    }
}

pub fn biased_sub(a: u8, b: u8, bias: u8) -> (r: u8)
    ensures
        r == biased_sub_spec(a, b, bias),
{
    ((a as u16 + 256 - b as u16 + bias as u16) % 256) as u8
}

pub fn biased_add(a: u8, b: u8, bias: u8) -> (r: u8)
    ensures
        r == biased_add_spec(a, b, bias),
{
    ((a as u16 + b as u16 + 256 - bias as u16) % 256) as u8
}

impl OP_RGB {
    pub fn new(pixel: Pixel) -> (c: OP_RGB)
        ensures
            c == (OP_RGB { r: pixel.r, g: pixel.g, b: pixel.b }),
    {
        OP_RGB { r: pixel.r(), g: pixel.g(), b: pixel.b() }
    }

    pub fn matches(byte: u8) -> (m: bool)
        ensures
            m == (byte == 0xfe),
    {
        byte == 0xfe
    }

    /// Reads the chunk whose four bytes start at `pos`.
    pub fn from_bytes(buffer: &[u8], pos: usize) -> (c: OP_RGB)
        requires
            pos + 4 <= buffer@.len(),
            buffer@[pos as int] == 0xfe,
        ensures
            chunk_bytes(QoiChunk::RGB(c)) == buffer@.subrange(pos as int, pos + 4),
    {
        let len = buffer.len();
        assert(pos + 4 <= len);
        let c = OP_RGB { r: buffer[pos + 1], g: buffer[pos + 2], b: buffer[pos + 3] };
        assert(chunk_bytes(QoiChunk::RGB(c)) =~= buffer@.subrange(pos as int, pos + 4));
        c
    }
}

impl OP_RGBA {
    pub fn new(pixel: Pixel) -> (c: OP_RGBA)
        ensures
            c == (OP_RGBA { r: pixel.r, g: pixel.g, b: pixel.b, a: pixel.a }),
    {
        OP_RGBA { r: pixel.r(), g: pixel.g(), b: pixel.b(), a: pixel.a() }
    }

    pub fn matches(byte: u8) -> (m: bool)
        ensures
            m == (byte == 0xff),
    {
        byte == 0xff
    }

    /// Reads the chunk whose five bytes start at `pos`.
    pub fn from_bytes(buffer: &[u8], pos: usize) -> (c: OP_RGBA)
        requires
            pos + 5 <= buffer@.len(),
            buffer@[pos as int] == 0xff,
        ensures
            chunk_bytes(QoiChunk::RGBA(c)) == buffer@.subrange(pos as int, pos + 5),
    {
        let len = buffer.len();
        assert(pos + 5 <= len);
        let c = OP_RGBA { r: buffer[pos + 1], g: buffer[pos + 2], b: buffer[pos + 3], a: buffer[pos + 4] };
        assert(chunk_bytes(QoiChunk::RGBA(c)) =~= buffer@.subrange(pos as int, pos + 5));
        c
    }
}

impl OP_INDEX {
    pub fn new(index: u8) -> (c: OP_INDEX)
        requires
            index < SEEN_PIXEL_ARRAY_SIZE,
        ensures
            c == (OP_INDEX { index }),
    {
        OP_INDEX { index }
    }

    pub fn matches(byte: u8) -> (m: bool)
        ensures
            m == (byte < 0x40),
    {
        let m = byte >> 6 == 0;
        assert(m == (byte < 0x40)) by (bit_vector)
            requires
                m == (byte >> 6 == 0),
        ;
        m
    }

    pub fn from_bytes(b0: u8) -> (c: OP_INDEX)
        requires
            b0 < 0x40,
        ensures
            chunk_bytes(QoiChunk::INDEX(c)) == seq![b0],
            QoiChunk::INDEX(c).wf(),
    {
        let index = b0 & 0b0011_1111;
        assert(index == b0 && index < 64) by (bit_vector)
            requires
                b0 < 0x40,
                index == b0 & 0x3f,
        ;
        OP_INDEX { index }
    }
}

impl OP_DIFF {
    pub fn try_new(prev: Pixel, curr: Pixel) -> (r: Option<OP_DIFF>)
        ensures
            r == diff_of(prev, curr),
    {
        if prev.a() != curr.a() {
            return None;
        }
        let dr = biased_sub(curr.r(), prev.r(), 2);
        let dg = biased_sub(curr.g(), prev.g(), 2);
        let db = biased_sub(curr.b(), prev.b(), 2);
        if dr < 4 && dg < 4 && db < 4 {
            Some(OP_DIFF { dr, dg, db })
        } else {
            None
        }
    }

    pub fn matches(byte: u8) -> (m: bool)
        ensures
            m == (0x40 <= byte < 0x80),
    {
        let m = byte >> 6 == 1;
        assert(m == (0x40 <= byte < 0x80)) by (bit_vector)
            requires
                m == (byte >> 6 == 1),
        ;
        m
    }

    pub fn from_bytes(b0: u8) -> (c: OP_DIFF)
        requires
            0x40 <= b0 < 0x80,
        ensures
            chunk_bytes(QoiChunk::DIFF(c)) == seq![b0],
            QoiChunk::DIFF(c).wf(),
    {
        let dr = (b0 & 0b0011_0000) >> 4;
        let dg = (b0 & 0b0000_1100) >> 2;
        let db = b0 & 0b0000_0011;
        assert(dr < 4 && dg < 4 && db < 4 && (0x40 + dr * 16 + dg * 4 + db) as u8 == b0)
            by (bit_vector)
            requires
                0x40 <= b0 < 0x80,
                dr == (b0 & 0x30) >> 4,
                dg == (b0 & 0x0c) >> 2,
                db == b0 & 0x03,
        ;
        OP_DIFF { dr, dg, db }
    }
}

impl OP_LUMA {
    pub fn try_new(prev: Pixel, curr: Pixel) -> (r: Option<OP_LUMA>)
        ensures
            r == luma_of(prev, curr),
    {
        if prev.a() != curr.a() {
            return None;
        }
        let dr = biased_sub(curr.r(), prev.r(), 32);
        let dg = biased_sub(curr.g(), prev.g(), 32);
        let db = biased_sub(curr.b(), prev.b(), 32);
        let dr_dg = biased_sub(dr, dg, 8);
        let db_dg = biased_sub(db, dg, 8);
        if dg < 64 && dr_dg < 16 && db_dg < 16 {
            Some(OP_LUMA { dg, dr_dg, db_dg })
        } else {
            None
        }
    }

    pub fn matches(byte: u8) -> (m: bool)
        ensures
            m == (0x80 <= byte < 0xc0),
    {
        let m = byte >> 6 == 2;
        assert(m == (0x80 <= byte < 0xc0)) by (bit_vector)
            requires
                m == (byte >> 6 == 2),
        ;
        m
    }

    pub fn from_bytes(b0: u8, b1: u8) -> (c: OP_LUMA)
        requires
            0x80 <= b0 < 0xc0,
        ensures
            chunk_bytes(QoiChunk::LUMA(c)) == seq![b0, b1],
            QoiChunk::LUMA(c).wf(),
    {
        let dg = b0 & 0b0011_1111;
        let dr_dg = b1 >> 4;
        let db_dg = b1 & 0b0000_1111;
        assert(dg < 64 && dr_dg < 16 && db_dg < 16 && (0x80 + dg) as u8 == b0 && (dr_dg * 16
            + db_dg) as u8 == b1) by (bit_vector)
            requires
                0x80 <= b0 < 0xc0,
                dg == b0 & 0x3f,
                dr_dg == b1 >> 4,
                db_dg == b1 & 0x0f,
        ;
        OP_LUMA { dg, dr_dg, db_dg }
    }
}

impl OP_RUN {
    pub fn new(run: u8) -> (c: OP_RUN)
        requires
            1 <= run <= MAX_RUN_LENGTH,
        ensures
            c == (OP_RUN { run_length: run }),
    {
        OP_RUN { run_length: run }
    }

    pub fn run_length(&self) -> (n: u8)
        ensures
            n == self.run_length,
    {
        self.run_length
    }

    pub fn matches(byte: u8) -> (m: bool)
        ensures
            m == (0xc0 <= byte),
    {
        let m = byte >> 6 == 3;
        assert(m == (0xc0 <= byte)) by (bit_vector)
            requires
                m == (byte >> 6 == 3),
        ;
        m
    }

    pub fn from_bytes(b0: u8) -> (c: OP_RUN)
        requires
            0xc0 <= b0 < 0xfe,
        ensures
            chunk_bytes(QoiChunk::RUN(c)) == seq![b0],
            QoiChunk::RUN(c).wf(),
    {
        let stored = b0 & 0b0011_1111;
        assert(stored < 62 && (0xc0 + stored) as u8 == b0) by (bit_vector)
            requires
                0xc0 <= b0 < 0xfe,
                stored == b0 & 0x3f,
        ;
        // stored with bias -1
        let run_length = stored + 1;
        OP_RUN { run_length }
    }
}

impl From<(Pixel, OP_DIFF)> for Pixel {
    /// The pixel that a small-difference chunk gives after `px`.
    fn from(pair: (Pixel, OP_DIFF)) -> (p: Pixel) {
        let (px, chunk) = pair;
        Pixel::new(
            biased_add(px.r(), chunk.dr, 2),
            biased_add(px.g(), chunk.dg, 2),
            biased_add(px.b(), chunk.db, 2),
            px.a(),
        )
    }
}

impl vstd::std_specs::convert::FromSpecImpl<(Pixel, OP_DIFF)> for Pixel {
    open spec fn obeys_from_spec() -> bool {
        true
    }

    open spec fn from_spec(pair: (Pixel, OP_DIFF)) -> Pixel {
        chunk_pixel(pair.0, Seq::empty(), QoiChunk::DIFF(pair.1))
    }
}

impl From<(Pixel, OP_LUMA)> for Pixel {
    /// The pixel that a luma chunk gives after `px`.
    fn from(pair: (Pixel, OP_LUMA)) -> (p: Pixel) {
        let (px, chunk) = pair;
        let dr = biased_add(chunk.dr_dg, chunk.dg, 8);
        let db = biased_add(chunk.db_dg, chunk.dg, 8);
        Pixel::new(
            biased_add(px.r(), dr, 32),
            biased_add(px.g(), chunk.dg, 32),
            biased_add(px.b(), db, 32),
            px.a(),
        )
    }
}

impl vstd::std_specs::convert::FromSpecImpl<(Pixel, OP_LUMA)> for Pixel {
    open spec fn obeys_from_spec() -> bool {
        true
    }

    open spec fn from_spec(pair: (Pixel, OP_LUMA)) -> Pixel {
        chunk_pixel(pair.0, Seq::empty(), QoiChunk::LUMA(pair.1))
    }
}

impl QoiChunk {
    /// Appends the chunk's bytes to `out`.
    pub fn encode(&self, out: &mut Vec<u8>)
        requires
            self.wf(),
        ensures
            final(out)@ == old(out)@ + chunk_bytes(*self),
    {
        match self {
            QoiChunk::RGB(c) => {
                out.push(0b1111_1110);
                out.push(c.r);
                out.push(c.g);
                out.push(c.b);
            },
            QoiChunk::RGBA(c) => {
                out.push(0b1111_1111);
                out.push(c.r);
                out.push(c.g);
                out.push(c.b);
                out.push(c.a);
            },
            QoiChunk::INDEX(c) => {
                out.push(c.index);
            },
            QoiChunk::DIFF(c) => {
                let (dr, dg, db) = (c.dr, c.dg, c.db);
                let byte: u8 = 0b0100_0000 | dr << 4 | dg << 2 | db;
                assert(byte == (0x40 + dr * 16 + dg * 4 + db) as u8) by (bit_vector)
                    requires
                        dr < 4 && dg < 4 && db < 4,
                        byte == 0x40u8 | dr << 4 | dg << 2 | db,
                ;
                out.push(byte);
            },
            QoiChunk::LUMA(c) => {
                let (dg, dr_dg, db_dg) = (c.dg, c.dr_dg, c.db_dg);
                let b0: u8 = 0b1000_0000 | dg;
                let b1: u8 = dr_dg << 4 | db_dg;
                assert(b0 == (0x80 + dg) as u8 && b1 == (dr_dg * 16 + db_dg) as u8) by (bit_vector)
                    requires
                        dg < 64 && dr_dg < 16 && db_dg < 16,
                        b0 == 0x80u8 | dg,
                        b1 == dr_dg << 4 | db_dg,
                ;
                out.push(b0);
                out.push(b1);
            },
            QoiChunk::RUN(c) => {
                // stored with bias -1
                out.push(0b1100_0000 | (c.run_length - 1));
                let (n, byte) = (c.run_length, 0b1100_0000u8 | (c.run_length - 1));
                assert(byte == (0xc0 + n - 1) as u8) by (bit_vector)
                    requires
                        1 <= n <= 62,
                        byte == 0xc0u8 | (n - 1) as u8,
                ;
            },
        }
        assert(final(out)@ =~= old(out)@ + chunk_bytes(*self));
    }

    /// Reads the chunk that starts at `pos`, trying the tags in a fixed order in which the
    /// two full-byte tags come before the run tag they share their top bits with.
    /// Returns the chunk and its length, or `None` when the bytes end inside it.
    pub fn decode(buf: &[u8], pos: usize) -> (r: Option<(QoiChunk, usize)>)
        requires
            pos < buf@.len(),
        ensures
            r is None <==> pos + tag_len(buf@[pos as int]) > buf@.len(),
            r matches Some((c, n)) ==> {
                &&& c.wf()
                &&& n == tag_len(buf@[pos as int])
                &&& chunk_bytes(c) == buf@.subrange(pos as int, pos + n)
            },
    {
        let b0 = buf[pos];
        let left = buf.len() - pos;
        let r = if OP_DIFF::matches(b0) {
            Some((QoiChunk::DIFF(OP_DIFF::from_bytes(b0)), 1))
        } else if OP_INDEX::matches(b0) {
            Some((QoiChunk::INDEX(OP_INDEX::from_bytes(b0)), 1))
        } else if OP_LUMA::matches(b0) {
            if left < 2 {
                None
            } else {
                Some((QoiChunk::LUMA(OP_LUMA::from_bytes(b0, buf[pos + 1])), 2))
            }
        } else if OP_RGBA::matches(b0) {
            if left < 5 {
                None
            } else {
                Some((QoiChunk::RGBA(OP_RGBA::from_bytes(buf, pos)), 5))
            }
        } else if OP_RGB::matches(b0) {
            if left < 4 {
                None
            } else {
                Some((QoiChunk::RGB(OP_RGB::from_bytes(buf, pos)), 4))
            }
        } else {
            Some((QoiChunk::RUN(OP_RUN::from_bytes(b0)), 1))
        };
        proof {
            if let Some((c, n)) = r {
                assert(chunk_bytes(c) =~= buf@.subrange(pos as int, pos + n));
            }
        }
        r
    }
}

/// Two well-formed chunks with the same bytes are the same chunk.
pub proof fn lemma_chunk_bytes_injective(c1: QoiChunk, c2: QoiChunk)
    requires
        c1.wf(),
        c2.wf(),
        chunk_bytes(c1) == chunk_bytes(c2),
    ensures
        c1 == c2,
{
    let s1 = chunk_bytes(c1);
    let s2 = chunk_bytes(c2);
    assert(s1[0] == s2[0] && s1.len() == s2.len());
    match (c1, c2) {
        (QoiChunk::RGB(a), QoiChunk::RGB(b)) => {
            assert(s1[1] == s2[1] && s1[2] == s2[2] && s1[3] == s2[3]);
            assert(a.r == b.r && a.g == b.g && a.b == b.b);
        },
        (QoiChunk::RGBA(a), QoiChunk::RGBA(b)) => {
            assert(s1[1] == s2[1] && s1[2] == s2[2] && s1[3] == s2[3] && s1[4] == s2[4]);
            assert(a.r == b.r && a.g == b.g && a.b == b.b && a.a == b.a);
        },
        (QoiChunk::INDEX(a), QoiChunk::INDEX(b)) => {},
        (QoiChunk::RUN(a), QoiChunk::RUN(b)) => {},
        (QoiChunk::DIFF(a), QoiChunk::DIFF(b)) => {
            let (x1, y1, z1, x2, y2, z2) = (a.dr, a.dg, a.db, b.dr, b.dg, b.db);
            assert(x1 == x2 && y1 == y2 && z1 == z2) by (bit_vector)
                requires
                    x1 < 4 && y1 < 4 && z1 < 4 && x2 < 4 && y2 < 4 && z2 < 4,
                    (0x40 + x1 * 16 + y1 * 4 + z1) as u8 == (0x40 + x2 * 16 + y2 * 4 + z2) as u8,
            ;
        },
        (QoiChunk::LUMA(a), QoiChunk::LUMA(b)) => {
            assert(s1[1] == s2[1]);
            let (x1, y1, z1, x2, y2, z2) = (a.dg, a.dr_dg, a.db_dg, b.dg, b.dr_dg, b.db_dg);
            assert(x1 == x2 && y1 == y2 && z1 == z2) by (bit_vector)
                requires
                    x1 < 64 && y1 < 16 && z1 < 16 && x2 < 64 && y2 < 16 && z2 < 16,
                    (0x80 + x1) as u8 == (0x80 + x2) as u8,
                    (y1 * 16 + z1) as u8 == (y2 * 16 + z2) as u8,
            ;
        },
        _ => {},
    }
}

/// The first byte of a well-formed chunk tells its length.
pub proof fn lemma_chunk_len(c: QoiChunk)
    requires
        c.wf(),
    ensures
        chunk_bytes(c).len() == tag_len(chunk_bytes(c)[0]),
{
    match c {
        QoiChunk::DIFF(o) => {
            let (x, y, z) = (o.dr, o.dg, o.db);
            let byte = (0x40 + x * 16 + y * 4 + z) as u8;
            assert(0x40 <= byte && byte < 0x80) by (bit_vector)
                requires
                    x < 4 && y < 4 && z < 4,
                    byte == (0x40 + x * 16 + y * 4 + z) as u8,
            ;
        },
        QoiChunk::LUMA(o) => {},
        QoiChunk::RUN(o) => {},
        _ => {},
    }
}

/// `a % 256 == r` for `a == k * 256 + r` with `r` a byte.
proof fn lemma_mod_byte(a: int, k: int, r: int)
    requires
        a == k * 256 + r,
        0 <= r < 256,
    ensures
        a % 256 == r,
{
    vstd::arithmetic::div_mod::lemma_fundamental_div_mod_converse_mod(a, 256, k, r);
}

/// `a == (a / 256) * 256 + a % 256`.
proof fn lemma_split_byte(a: int)
    ensures
        a == (a / 256) * 256 + a % 256,
        0 <= a % 256 < 256,
{
    vstd::arithmetic::div_mod::lemma_fundamental_div_mod(a, 256);
}

proof fn lemma_biased_round_trip(x: u8, y: u8, bias: u8)
    ensures
        biased_add_spec(x, biased_sub_spec(y, x, bias), bias) == y,
{
    let n = y + 256 - x + bias;
    lemma_split_byte(n);
    let q = n / 256;
    let d = n % 256;
    lemma_mod_byte(x + d + 256 - bias, 2 - q, y as int);
}

proof fn lemma_luma_channel(x: u8, y: u8, gx: u8, gy: u8)
    ensures
        biased_add_spec(
            x,
            biased_add_spec(
                biased_sub_spec(biased_sub_spec(y, x, 32), biased_sub_spec(gy, gx, 32), 8),
                biased_sub_spec(gy, gx, 32),
                8,
            ),
            32,
        ) == y,
{
    let dx = biased_sub_spec(y, x, 32);
    let dg = biased_sub_spec(gy, gx, 32);
    let s = biased_sub_spec(dx, dg, 8);
    let t = biased_add_spec(s, dg, 8);
    assert(t == dx) by {
        lemma_biased_round_trip(dg, dx, 8);
    }
    lemma_biased_round_trip(x, y, 32);
}

/// A small-difference chunk, when one exists, gives back the pixel it was made for.
pub proof fn lemma_diff_round_trip(prev: Pixel, curr: Pixel, seen: Seq<Pixel>)
    requires
        diff_of(prev, curr) is Some,
    ensures
        QoiChunk::DIFF(diff_of(prev, curr)->0).wf(),
        chunk_pixel(prev, seen, QoiChunk::DIFF(diff_of(prev, curr)->0)) == curr,
{
    lemma_biased_round_trip(prev.r, curr.r, 2);
    lemma_biased_round_trip(prev.g, curr.g, 2);
    lemma_biased_round_trip(prev.b, curr.b, 2);
}

/// A luma chunk, when one exists, gives back the pixel it was made for.
pub proof fn lemma_luma_round_trip(prev: Pixel, curr: Pixel, seen: Seq<Pixel>)
    requires
        luma_of(prev, curr) is Some,
    ensures
        QoiChunk::LUMA(luma_of(prev, curr)->0).wf(),
        chunk_pixel(prev, seen, QoiChunk::LUMA(luma_of(prev, curr)->0)) == curr,
{
    lemma_luma_channel(prev.r, curr.r, prev.g, curr.g);
    lemma_luma_channel(prev.b, curr.b, prev.g, curr.g);
    lemma_biased_round_trip(prev.g, curr.g, 32);
}

/// Equal alpha and channel differences in `[-2, 1]`: the small-difference chunk exists and
/// decodes to exactly the second pixel.
pub proof fn law_diff_bias(prev: Pixel, curr: Pixel, seen: Seq<Pixel>)
    requires
        prev.a == curr.a,
        -2 <= channel_delta(curr.r, prev.r) <= 1,
        -2 <= channel_delta(curr.g, prev.g) <= 1,
        -2 <= channel_delta(curr.b, prev.b) <= 1,
    ensures
        diff_of(prev, curr) is Some,
        chunk_pixel(prev, seen, QoiChunk::DIFF(diff_of(prev, curr)->0)) == curr,
{
    lemma_delta_small(curr.r, prev.r);
    lemma_delta_small(curr.g, prev.g);
    lemma_delta_small(curr.b, prev.b);
    lemma_diff_round_trip(prev, curr, seen);
}

proof fn lemma_delta_small(x: u8, y: u8)
    requires
        -2 <= channel_delta(x, y) <= 1,
    ensures
        biased_sub_spec(x, y, 2) < 4,
{
    let n = x + 256 - y;
    lemma_split_byte(n);
    let q = n / 256;
    let d = n % 256;
    if d >= 254 {
        lemma_mod_byte(n + 2, q + 1, d + 2 - 256);
    } else {
        lemma_mod_byte(n + 2, q, d + 2);
    }
}

/// Equal alpha, green difference in `[-32, 31]` and red and blue differences within
/// `[-8, 7]` of it: the luma chunk exists and decodes to exactly the second pixel.
pub proof fn law_luma_bias(prev: Pixel, curr: Pixel, seen: Seq<Pixel>)
    requires
        prev.a == curr.a,
        -32 <= channel_delta(curr.g, prev.g) <= 31,
        -8 <= channel_delta(curr.r, prev.r) - channel_delta(curr.g, prev.g) <= 7,
        -8 <= channel_delta(curr.b, prev.b) - channel_delta(curr.g, prev.g) <= 7,
    ensures
        luma_of(prev, curr) is Some,
        chunk_pixel(prev, seen, QoiChunk::LUMA(luma_of(prev, curr)->0)) == curr,
{
    lemma_delta_luma(curr.r, prev.r, curr.g, prev.g);
    lemma_delta_luma(curr.b, prev.b, curr.g, prev.g);
    lemma_luma_round_trip(prev, curr, seen);
}

/// The stored luma field of a channel is its signed difference plus 32, modulo 256.
proof fn lemma_biased32(x: u8, y: u8)
    ensures
        biased_sub_spec(x, y, 32) as int == (channel_delta(x, y) + 32 + 256) % 256,
{
    let n = x + 256 - y;
    lemma_split_byte(n);
    let q = n / 256;
    let d = n % 256;
    let dl = channel_delta(x, y);
    let r = (dl + 32 + 256) % 256;
    lemma_split_byte(dl + 32 + 256);
    let k = (dl + 32 + 256) / 256;
    // both sides are the byte that n + 32 leaves
    if d >= 128 {
        lemma_mod_byte(n + 32, q + k, r);
    } else {
        lemma_mod_byte(n + 32, q + k - 1, r);
    }
}

proof fn lemma_delta_luma(x: u8, y: u8, gx: u8, gy: u8)
    requires
        -32 <= channel_delta(gx, gy) <= 31,
        -8 <= channel_delta(x, y) - channel_delta(gx, gy) <= 7,
    ensures
        biased_sub_spec(gx, gy, 32) < 64,
        biased_sub_spec(biased_sub_spec(x, y, 32), biased_sub_spec(gx, gy, 32), 8) < 16,
{
    let dg = channel_delta(gx, gy);
    let dx = channel_delta(x, y);
    let g32 = biased_sub_spec(gx, gy, 32);
    let x32 = biased_sub_spec(x, y, 32);
    lemma_biased32(gx, gy);
    lemma_biased32(x, y);
    lemma_mod_byte(dg + 32 + 256, 1, dg + 32);
    assert(g32 == dg + 32);
    lemma_split_byte(dx + 32 + 256);
    let k = (dx + 32 + 256) / 256;
    lemma_mod_byte(x32 + 256 - g32 + 8, 2 - k, dx - dg + 8);
}

/// The chunk at the front of `data`, when `data` holds all of its bytes.
pub open spec fn chunk_at(data: Seq<u8>) -> QoiChunk {
    choose|c: QoiChunk| c.wf() && chunk_bytes(c) == data.subrange(0, tag_len(data[0]))
}

/// The chunks that `data` holds, read front to back until the bytes end or end inside a
/// chunk.
pub open spec fn parse_chunks(data: Seq<u8>) -> Seq<QoiChunk>
    decreases data.len(),
{
    if data.len() == 0 || tag_len(data[0]) > data.len() {
        seq![]
    } else {
        seq![chunk_at(data)] + parse_chunks(data.subrange(tag_len(data[0]), data.len() as int))
    }
}

/// A well-formed chunk in front of other bytes is read as that chunk, then the rest.
pub proof fn lemma_parse_front(c: QoiChunk, rest: Seq<u8>)
    requires
        c.wf(),
    ensures
        parse_chunks(chunk_bytes(c) + rest) == seq![c] + parse_chunks(rest),
{
    let data = chunk_bytes(c) + rest;
    lemma_chunk_len(c);
    let n = chunk_bytes(c).len() as int;
    assert(data[0] == chunk_bytes(c)[0]);
    assert(data.subrange(0, n) =~= chunk_bytes(c));
    let d = chunk_at(data);
    assert(d.wf() && chunk_bytes(d) == data.subrange(0, tag_len(data[0])));
    lemma_chunk_bytes_injective(c, d);
    assert(data.subrange(n, data.len() as int) =~= rest);
}

/// A stored small difference below 4 is a signed difference in `[-2, 1]`.
proof fn lemma_small_delta(x: u8, y: u8)
    requires
        biased_sub_spec(x, y, 2) < 4,
    ensures
        -2 <= channel_delta(x, y) <= 1,
{
    let n = x + 256 - y;
    lemma_split_byte(n);
    let q = n / 256;
    let d = n % 256;
    if d <= 253 {
        lemma_mod_byte(n + 2, q, d + 2);
    } else {
        lemma_mod_byte(n + 2, q + 1, d + 2 - 256);
    }
}

/// Where a small-difference chunk exists, a luma chunk exists too.
pub proof fn lemma_diff_implies_luma(prev: Pixel, curr: Pixel)
    requires
        diff_of(prev, curr) is Some,
    ensures
        luma_of(prev, curr) is Some,
{
    lemma_small_delta(curr.r, prev.r);
    lemma_small_delta(curr.g, prev.g);
    lemma_small_delta(curr.b, prev.b);
    law_luma_bias(prev, curr, Seq::empty());
}

} // verus!
