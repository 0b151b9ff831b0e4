use vstd::prelude::*;

use crate::chunks::{
    chunk_bytes, diff_of, lemma_diff_implies_luma, lemma_parse_front, luma_of, parse_chunks,
    QoiChunk, OP_RGB,
};
use crate::codec::{
    decode_step, lemma_pixel_chunk_round_trip, drain_spec, encode_step, mark_slot, run_chunk,
    slot_known, stream_start, ChunkState, CodecView,
};
use crate::util::{pixel_hash, Pixel};

verus! {

/// Encodes `ps` one pixel after the other from state `s`.
pub open spec fn encode_from(s: CodecView, ps: Seq<Pixel>) -> (CodecView, Seq<ChunkState>)
    decreases ps.len(),
{
    if ps.len() == 0 {
        (s, seq![])
    } else {
        let (s1, c1) = encode_from(s, ps.drop_last());
        let (s2, c2) = encode_step(s1, ps.last());
        (s2, c1 + c2)
    }
}

/// The chunks inside a sequence of chunk states.
pub open spec fn chunks_of(cs: Seq<ChunkState>) -> Seq<QoiChunk> {
    cs.map_values(|c: ChunkState| c.chunk())
}

pub open spec fn opt_seq(c: Option<QoiChunk>) -> Seq<QoiChunk> {
    match c {
        Some(c) => seq![c],
        None => seq![],
    }
}

/// The chunk stream of `ps` encoded as one sequence from the start of a stream.
pub open spec fn encode_pixels(ps: Seq<Pixel>) -> Seq<QoiChunk> {
    let (s, cs) = encode_from(stream_start(), ps);
    chunks_of(cs) + opt_seq(drain_spec(s))
}

/// The bytes of a chunk sequence.
pub open spec fn chunks_bytes(cs: Seq<QoiChunk>) -> Seq<u8>
    decreases cs.len(),
{
    if cs.len() == 0 {
        seq![]
    } else {
        chunks_bytes(cs.drop_last()) + chunk_bytes(cs.last())
    }
}

/// Number of full-length run chunks that `t` repeated pixels emit before the rest is pending.
pub open spec fn full_runs(t: int) -> nat
    decreases t,
{
    if t <= 62 {
        0
    } else {
        1 + full_runs(t - 62)
    }
}

/// The part of a run of `t` repeated pixels that is still pending after the full chunks.
pub open spec fn pending_run(t: int) -> int
    decreases t,
{
    if t <= 62 {
        t
    } else {
        pending_run(t - 62)
    }
}

/// `n` run chunks of the longest length.
pub open spec fn full_run_chunks(n: nat) -> Seq<ChunkState> {
    Seq::new(n, |i: int| ChunkState::Resolved(run_chunk(62)))
}

/// `n` copies of pixel `p`.
pub open spec fn repeat_pixel(p: Pixel, n: nat) -> Seq<Pixel> {
    Seq::new(n, |i: int| p)
}

/// The last pixel is in its table slot, unless nothing but the start pixel has been seen.
pub open spec fn last_cached(s: CodecView) -> bool {
    s.seen[pixel_hash(s.last)] == s.last || s.last == Pixel { r: 0, g: 0, b: 0, a: 255 }
}

/// The state of a stream encoded from its true start.
pub open spec fn stream_state(s: CodecView) -> bool {
    &&& s.wf()
    &&& s.vouched == 0xffff_ffff_ffff_ffffu64
    &&& last_cached(s)
}

pub proof fn lemma_pending_range(t: int)
    requires
        t >= 0,
    ensures
        0 <= pending_run(t) <= 62,
        t > 0 ==> pending_run(t) > 0,
        t == 62 * full_runs(t) + pending_run(t),
    decreases t,
{
    if t > 62 {
        lemma_pending_range(t - 62);
    }
}

/// One more repeated pixel either extends the pending run or, at the longest run, closes a
/// full chunk and starts a new run of one.
pub proof fn lemma_pending_step(t: int)
    requires
        t >= 0,
    ensures
        pending_run(t) < 62 ==> pending_run(t + 1) == pending_run(t) + 1 && full_runs(t + 1)
            == full_runs(t),
        pending_run(t) == 62 ==> pending_run(t + 1) == 1 && full_runs(t + 1) == full_runs(t) + 1,
    decreases t,
{
    if t > 62 {
        lemma_pending_step(t - 62);
    } else if t == 62 {
        assert(pending_run(1) == 1 && full_runs(1) == 0);
    }
}

pub proof fn lemma_encode_from_append(s: CodecView, a: Seq<Pixel>, b: Seq<Pixel>)
    ensures
        encode_from(s, a + b) == (
            encode_from(encode_from(s, a).0, b).0,
            encode_from(s, a).1 + encode_from(encode_from(s, a).0, b).1,
        ),
    decreases b.len(),
{
    if b.len() == 0 {
        assert(a + b =~= a);
        assert(encode_from(s, a).1 + Seq::<ChunkState>::empty() =~= encode_from(s, a).1);
    } else {
        lemma_encode_from_append(s, a, b.drop_last());
        assert((a + b).drop_last() =~= a + b.drop_last());
        assert((a + b).last() == b.last());
        let m = encode_from(s, a);
        let r = encode_from(m.0, b.drop_last());
        let st = encode_step(r.0, b.last());
        assert(m.1 + r.1 + st.1 =~= m.1 + (r.1 + st.1));
    }
}

pub proof fn lemma_encode_from_one(s: CodecView, p: Pixel)
    ensures
        encode_from(s, seq![p]) == encode_step(s, p),
{
    assert(seq![p].drop_last() =~= Seq::<Pixel>::empty());
    assert(encode_from(s, Seq::<Pixel>::empty()) == (s, Seq::<ChunkState>::empty()));
    assert(Seq::<ChunkState>::empty() + encode_step(s, p).1 =~= encode_step(s, p).1);
}

/// `encode_from` on a pixel put in front of others.
pub proof fn lemma_encode_from_cons(s: CodecView, p: Pixel, ps: Seq<Pixel>)
    ensures
        encode_from(s, seq![p] + ps) == (
            encode_from(encode_step(s, p).0, ps).0,
            encode_step(s, p).1 + encode_from(encode_step(s, p).0, ps).1,
        ),
{
    lemma_encode_from_append(s, seq![p], ps);
    lemma_encode_from_one(s, p);
}

/// The invariant of a stream encoded from its start holds after every step.
pub proof fn lemma_step_stream_state(s: CodecView, p: Pixel)
    requires
        stream_state(s),
    ensures
        stream_state(encode_step(s, p).0),
        encode_step(s, p).1.len() > 0 ==> forall|i: int|
            0 <= i < encode_step(s, p).1.len() ==> encode_step(s, p).1[i] is Resolved,
{
    let h = pixel_hash(p);
    lemma_mask_full_marked(h);
    lemma_full_known(h);
}

pub proof fn lemma_mask_full_marked(h: int)
    requires
        0 <= h < 64,
    ensures
        mark_slot(0xffff_ffff_ffff_ffffu64, h) == 0xffff_ffff_ffff_ffffu64,
{
    let a = h as u64;
    assert(0xffff_ffff_ffff_ffffu64 | (1u64 << a) == 0xffff_ffff_ffff_ffffu64) by (bit_vector)
        requires
            a < 64,
    ;
}

pub proof fn lemma_full_known(h: int)
    requires
        0 <= h < 64,
    ensures
        slot_known(0xffff_ffff_ffff_ffffu64, h),
{
    crate::codec::lemma_mask_full_and_empty(h);
}

pub proof fn lemma_encode_from_stream_state(s: CodecView, ps: Seq<Pixel>)
    requires
        stream_state(s),
    ensures
        stream_state(encode_from(s, ps).0),
    decreases ps.len(),
{
    if ps.len() > 0 {
        lemma_encode_from_stream_state(s, ps.drop_last());
        lemma_step_stream_state(encode_from(s, ps.drop_last()).0, ps.last());
    }
}

pub proof fn lemma_encode_from_wf(s: CodecView, ps: Seq<Pixel>)
    requires
        s.wf(),
    ensures
        encode_from(s, ps).0.wf(),
    decreases ps.len(),
{
    if ps.len() > 0 {
        lemma_encode_from_wf(s, ps.drop_last());
    }
}

/// Repeating the previous pixel `n` times only counts the run, closing full chunks as it
/// goes.
pub proof fn lemma_encode_repeats(s: CodecView, n: nat)
    requires
        s.wf(),
    ensures
        encode_from(s, repeat_pixel(s.last, n)) == (
            CodecView { run: pending_run(s.run + n), ..s },
            full_run_chunks(full_runs(s.run + n)),
        ),
    decreases n,
{
    if n == 0 {
        assert(repeat_pixel(s.last, 0) =~= Seq::<Pixel>::empty());
        assert(full_run_chunks(0) =~= Seq::<ChunkState>::empty());
        assert(CodecView { run: pending_run(s.run + 0), ..s } == s);
    } else {
        let m = (n - 1) as nat;
        lemma_encode_repeats(s, m);
        assert(repeat_pixel(s.last, n).drop_last() =~= repeat_pixel(s.last, m));
        lemma_pending_step(s.run + m);
        lemma_pending_range(s.run + m);
        let t = s.run + m;
        if pending_run(t) == 62 {
            assert(full_run_chunks(full_runs(t)).push(ChunkState::Resolved(run_chunk(62)))
                =~= full_run_chunks(full_runs(t + 1)));
        } else {
            assert(full_run_chunks(full_runs(t)) + Seq::<ChunkState>::empty() =~= full_run_chunks(
                full_runs(t + 1),
            ));
        }
    }
}

/// A pixel that differs from the previous one first closes the pending run, then is encoded
/// as if no run were pending.
pub proof fn lemma_step_closes_run(s: CodecView, p: Pixel)
    requires
        s.wf(),
        p != s.last,
    ensures
        encode_step(s, p) == (
            encode_step(CodecView { run: 0, ..s }, p).0,
            (if s.run > 0 {
                seq![ChunkState::Resolved(run_chunk(s.run))]
            } else {
                seq![]
            }) + encode_step(CodecView { run: 0, ..s }, p).1,
        ),
{
    let z = CodecView { run: 0, ..s };
    let c = encode_step(z, p).1;
    assert(Seq::<ChunkState>::empty() + c =~= c);
    assert(c.len() == 1);
    let closed: Seq<ChunkState> = if s.run > 0 {
        seq![ChunkState::Resolved(run_chunk(s.run))]
    } else {
        seq![]
    };
    assert(closed.push(c[0]) =~= closed + c);
}

pub proof fn lemma_chunks_of_append(a: Seq<ChunkState>, b: Seq<ChunkState>)
    ensures
        chunks_of(a + b) == chunks_of(a) + chunks_of(b),
{
    assert(chunks_of(a + b) =~= chunks_of(a) + chunks_of(b));
}

pub proof fn lemma_chunks_bytes_append(a: Seq<QoiChunk>, b: Seq<QoiChunk>)
    ensures
        chunks_bytes(a + b) == chunks_bytes(a) + chunks_bytes(b),
    decreases b.len(),
{
    if b.len() == 0 {
        assert(a + b =~= a);
        assert(chunks_bytes(a) + Seq::<u8>::empty() =~= chunks_bytes(a));
    } else {
        lemma_chunks_bytes_append(a, b.drop_last());
        assert((a + b).drop_last() =~= a + b.drop_last());
        assert(chunks_bytes(a) + chunks_bytes(b.drop_last()) + chunk_bytes(b.last()) =~= chunks_bytes(a)
            + (chunks_bytes(b.drop_last()) + chunk_bytes(b.last())));
    }
}

/// Decodes `cs` one chunk after the other from state `s`: the state after them and the
/// pixels they give.
pub open spec fn decode_from(s: CodecView, cs: Seq<QoiChunk>) -> (CodecView, Seq<Pixel>)
    decreases cs.len(),
{
    if cs.len() == 0 {
        (s, seq![])
    } else {
        let (s1, p1) = decode_from(s, cs.drop_last());
        let (s2, p, n) = decode_step(s1, cs.last());
        (s2, p1 + repeat_pixel(p, n as nat))
    }
}

/// The pixels of a chunk stream decoded from the start of a stream.
pub open spec fn decode_chunks(cs: Seq<QoiChunk>) -> Seq<Pixel> {
    decode_from(stream_start(), cs).1
}

pub proof fn lemma_decode_from_append(s: CodecView, a: Seq<QoiChunk>, b: Seq<QoiChunk>)
    ensures
        decode_from(s, a + b) == (
            decode_from(decode_from(s, a).0, b).0,
            decode_from(s, a).1 + decode_from(decode_from(s, a).0, b).1,
        ),
    decreases b.len(),
{
    if b.len() == 0 {
        assert(a + b =~= a);
        assert(decode_from(s, a).1 + Seq::<Pixel>::empty() =~= decode_from(s, a).1);
    } else {
        lemma_decode_from_append(s, a, b.drop_last());
        assert((a + b).drop_last() =~= a + b.drop_last());
        assert((a + b).last() == b.last());
        let m = decode_from(s, a);
        let r = decode_from(m.0, b.drop_last());
        let st = decode_step(r.0, b.last());
        assert(m.1 + r.1 + repeat_pixel(st.1, st.2 as nat) =~= m.1 + (r.1 + repeat_pixel(
            st.1,
            st.2 as nat,
        )));
    }
}

pub proof fn lemma_decode_one(s: CodecView, c: QoiChunk)
    ensures
        decode_from(s, seq![c]) == (decode_step(s, c).0, repeat_pixel(
            decode_step(s, c).1,
            decode_step(s, c).2 as nat,
        )),
{
    assert(seq![c].drop_last() =~= Seq::<QoiChunk>::empty());
    assert(decode_from(s, Seq::<QoiChunk>::empty()) == (s, Seq::<Pixel>::empty()));
    assert(Seq::<Pixel>::empty() + repeat_pixel(decode_step(s, c).1, decode_step(s, c).2 as nat)
        =~= repeat_pixel(decode_step(s, c).1, decode_step(s, c).2 as nat));
}

/// How a decoder state follows the encoder state `e` after the pixels `ps`: the decoded
/// pixels and the pending run make up `ps`.
pub open spec fn decoder_follows(e: CodecView, d: CodecView, decoded: Seq<Pixel>, ps: Seq<Pixel>) -> bool {
    &&& stream_state(e)
    &&& d == CodecView { run: 0, ..e }
    &&& decoded + repeat_pixel(e.last, e.run as nat) == ps
}

proof fn lemma_follow_step(e: CodecView, d: CodecView, decoded: Seq<Pixel>, ps: Seq<Pixel>, p: Pixel)
    requires
        decoder_follows(e, d, decoded, ps),
    ensures
        ({
            let (e2, cs) = encode_step(e, p);
            let (d2, more) = decode_from(d, chunks_of(cs));
            decoder_follows(e2, d2, decoded + more, ps.push(p))
        }),
{
    let (e2, cs) = encode_step(e, p);
    lemma_step_stream_state(e, p);
    let h = pixel_hash(p);
    lemma_full_known(h);
    if p == e.last && e.run < 62 {
        assert(chunks_of(cs) =~= Seq::<QoiChunk>::empty());
        assert(decoded + Seq::<Pixel>::empty() =~= decoded);
        assert(repeat_pixel(e.last, e.run as nat).push(p) =~= repeat_pixel(e.last, (e.run + 1) as nat));
    } else {
        let closer: Seq<QoiChunk> = if e.run > 0 {
            seq![run_chunk(e.run)]
        } else {
            seq![]
        };
        let dc = decode_from(d, closer);
        if e.run > 0 {
            lemma_decode_one(d, run_chunk(e.run));
        }
        assert(dc.0 == d);
        assert(dc.1 =~= repeat_pixel(e.last, e.run as nat));
        if p == e.last {
            assert(chunks_of(cs) =~= closer);
            assert(decoded + repeat_pixel(e.last, e.run as nat) + repeat_pixel(e.last, 1) =~= ps.push(p));
        } else {
            let own = cs.last().chunk();
            assert(chunks_of(cs) =~= closer + seq![own]);
            lemma_decode_from_append(d, closer, seq![own]);
            lemma_decode_one(d, own);
            lemma_pixel_chunk_round_trip(e.last, p, e.seen);
            assert(decode_step(d, own).1 == p);
            assert(decode_step(d, own).0 == CodecView { run: 0, ..e2 }) by {
                assert(e.seen.update(h, p) =~= e2.seen);
            }
            assert(decoded + (repeat_pixel(e.last, e.run as nat) + repeat_pixel(p, 1)) + repeat_pixel(
                p,
                0,
            ) =~= ps.push(p));
        }
    }
}

proof fn lemma_follow(ps: Seq<Pixel>)
    ensures
        ({
            let (e, cs) = encode_from(stream_start(), ps);
            let (d, decoded) = decode_from(stream_start(), chunks_of(cs));
            decoder_follows(e, d, decoded, ps)
        }),
    decreases ps.len(),
{
    if ps.len() == 0 {
        assert(chunks_of(Seq::<ChunkState>::empty()) =~= Seq::<QoiChunk>::empty());
        assert(stream_state(stream_start()));
        assert(Seq::<Pixel>::empty() + repeat_pixel(start_last(), 0) =~= ps);
    } else {
        let prev = ps.drop_last();
        lemma_follow(prev);
        let (e1, cs1) = encode_from(stream_start(), prev);
        let (d1, dec1) = decode_from(stream_start(), chunks_of(cs1));
        lemma_follow_step(e1, d1, dec1, prev, ps.last());
        let cs2 = encode_step(e1, ps.last()).1;
        lemma_chunks_of_append(cs1, cs2);
        lemma_decode_from_append(stream_start(), chunks_of(cs1), chunks_of(cs2));
        assert(prev.push(ps.last()) =~= ps);
    }
}

pub open spec fn start_last() -> Pixel {
    stream_start().last
}

/// Decoding the chunk stream of a pixel sequence gives the sequence back, unless the
/// sequence ends in a pending run of exactly one repeated pixel, which the final drain
/// leaves unwritten.
pub proof fn law_round_trip(ps: Seq<Pixel>)
    requires
        encode_from(stream_start(), ps).0.run != 1,
    ensures
        decode_chunks(encode_pixels(ps)) == ps,
{
    lemma_follow(ps);
    let (e, cs) = encode_from(stream_start(), ps);
    let (d, decoded) = decode_from(stream_start(), chunks_of(cs));
    lemma_decode_from_append(stream_start(), chunks_of(cs), opt_seq(drain_spec(e)));
    if e.run > 1 {
        lemma_decode_one(d, run_chunk(e.run));
    } else {
        assert(decoded + Seq::<Pixel>::empty() =~= decoded);
        assert(decoded + repeat_pixel(e.last, 0) =~= decoded);
    }
}

/// Reading back the bytes of well-formed chunks gives those chunks, then whatever follows.
pub proof fn lemma_parse_chunks_bytes(cs: Seq<QoiChunk>, rest: Seq<u8>)
    requires
        forall|i: int| 0 <= i < cs.len() ==> (#[trigger] cs[i]).wf(),
    ensures
        parse_chunks(chunks_bytes(cs) + rest) == cs + parse_chunks(rest),
    decreases cs.len(),
{
    if cs.len() == 0 {
        assert(chunks_bytes(cs) + rest =~= rest);
        assert(cs + parse_chunks(rest) =~= parse_chunks(rest));
    } else {
        let tail = cs.drop_first();
        lemma_parse_chunks_bytes(tail, rest);
        assert(cs =~= seq![cs[0]] + tail);
        lemma_chunks_bytes_append(seq![cs[0]], tail);
        assert(seq![cs[0]].drop_last() =~= Seq::<QoiChunk>::empty());
        assert(chunks_bytes(Seq::<QoiChunk>::empty()) == Seq::<u8>::empty());
        assert(seq![cs[0]].last() == cs[0]);
        assert(chunks_bytes(seq![cs[0]]) =~= chunk_bytes(cs[0]));
        assert(chunks_bytes(cs) + rest =~= chunk_bytes(cs[0]) + (chunks_bytes(tail) + rest));
        lemma_parse_front(cs[0], chunks_bytes(tail) + rest);
        assert(seq![cs[0]] + (tail + parse_chunks(rest)) =~= cs + parse_chunks(rest));
    }
}

/// Decoding `n` run chunks of 62 after the previous pixel gives `62 * n` copies of it.
proof fn lemma_decode_full_runs(d: CodecView, n: nat)
    ensures
        decode_from(d, chunks_of(full_run_chunks(n))) == (d, repeat_pixel(d.last, 62 * n)),
    decreases n,
{
    if n == 0 {
        assert(chunks_of(full_run_chunks(0)) =~= Seq::<QoiChunk>::empty());
        assert(repeat_pixel(d.last, 0) =~= Seq::<Pixel>::empty());
    } else {
        let m = (n - 1) as nat;
        lemma_decode_full_runs(d, m);
        assert(chunks_of(full_run_chunks(n)).drop_last() =~= chunks_of(full_run_chunks(m)));
        assert(repeat_pixel(d.last, 62 * m) + repeat_pixel(d.last, 62) =~= repeat_pixel(
            d.last,
            62 * n,
        ));
    }
}

/// A run of `n` repeats of the previous pixel, from a state without a pending run, is
/// encoded as run chunks of the longest length, 62, with the rest (between 1 and 62 when
/// `n > 0`) left pending; decoding those chunks and a run chunk for the rest gives exactly
/// the `n` pixels. A run chunk of length `l` between 1 and 62 is the byte `0xc0 + l - 1`,
/// and reads back as `l` copies of the previous pixel.
pub proof fn law_run_bias(s: CodecView, n: nat, l: int)
    requires
        s.wf(),
        s.run == 0,
        1 <= l <= 62,
    ensures
        ({
            let (s2, cs) = encode_from(s, repeat_pixel(s.last, n));
            let rest: Seq<QoiChunk> = if s2.run > 0 {
                seq![run_chunk(s2.run)]
            } else {
                seq![]
            };
            &&& forall|i: int| 0 <= i < cs.len() ==> #[trigger] cs[i] == ChunkState::Resolved(run_chunk(62))
            &&& 62 * cs.len() + s2.run == n
            &&& n > 0 ==> 1 <= s2.run <= 62
            &&& decode_from(CodecView { run: 0, ..s }, chunks_of(cs) + rest).1 == repeat_pixel(s.last, n)
        }),
        chunk_bytes(run_chunk(l)) == seq![(0xc0 + l - 1) as u8],
        parse_chunks(chunk_bytes(run_chunk(l))) == seq![run_chunk(l)],
        decode_step(s, run_chunk(l)).1 == s.last && decode_step(s, run_chunk(l)).2 == l,
{
    lemma_encode_repeats(s, n);
    lemma_pending_range(n as int);
    let (s2, cs) = encode_from(s, repeat_pixel(s.last, n));
    assert(CodecView { run: 0, ..s } == s);
    let d = s;
    lemma_decode_full_runs(d, full_runs(n as int));
    let rest: Seq<QoiChunk> = if s2.run > 0 {
        seq![run_chunk(s2.run)]
    } else {
        seq![]
    };
    lemma_decode_from_append(d, chunks_of(cs), rest);
    if s2.run > 0 {
        lemma_decode_one(d, run_chunk(s2.run));
    }
    assert(repeat_pixel(d.last, 62 * full_runs(n as int)) + repeat_pixel(d.last, s2.run as nat)
        =~= repeat_pixel(s.last, n));
    assert(repeat_pixel(d.last, 62 * full_runs(n as int)) + Seq::<Pixel>::empty() =~= repeat_pixel(
        d.last,
        62 * full_runs(n as int),
    ));
    assert(parse_chunks(Seq::<u8>::empty()) == Seq::<QoiChunk>::empty());
    lemma_parse_front(run_chunk(l), Seq::<u8>::empty());
    assert(chunk_bytes(run_chunk(l)) + Seq::<u8>::empty() =~= chunk_bytes(run_chunk(l)));
    assert(seq![run_chunk(l)] + Seq::<QoiChunk>::empty() =~= seq![run_chunk(l)]);
}

/// The raw RGB chunk of an opaque pixel.
pub open spec fn rgb_chunk(p: Pixel) -> QoiChunk {
    QoiChunk::RGB(OP_RGB { r: p.r, g: p.g, b: p.b })
}

/// The pixel before `ps[i]`: opaque black before the first.
pub open spec fn pixel_before(ps: Seq<Pixel>, i: int) -> Pixel {
    if i == 0 {
        start_last()
    } else {
        ps[i - 1]
    }
}

/// Opaque pixels, all different, none opaque black, each too far from the one before for a
/// luma chunk.
pub open spec fn far_apart(ps: Seq<Pixel>) -> bool {
    &&& forall|i: int| 0 <= i < ps.len() ==> (#[trigger] ps[i]).a == 255 && ps[i] != start_last()
    &&& forall|i: int, j: int| 0 <= i < j < ps.len() ==> #[trigger] ps[i] != #[trigger] ps[j]
    &&& forall|i: int| 0 <= i < ps.len() ==> luma_of(pixel_before(ps, i), #[trigger] ps[i]) is None
}

proof fn lemma_raw_prefix(ps: Seq<Pixel>, n: int)
    requires
        far_apart(ps),
        0 <= n <= ps.len(),
    ensures
        ({
            let (s, cs) = encode_from(stream_start(), ps.subrange(0, n));
            &&& stream_state(s)
            &&& s.run == 0
            &&& s.last == pixel_before(ps, n)
            &&& forall|k: int|
                0 <= k < 64 && (#[trigger] s.seen[k]).a == 255 ==> exists|j: int|
                    0 <= j < n && ps[j] == s.seen[k]
            &&& chunks_of(cs) == ps.subrange(0, n).map_values(|p: Pixel| rgb_chunk(p))
        }),
    decreases n,
{
    if n == 0 {
        assert(ps.subrange(0, 0) =~= Seq::<Pixel>::empty());
        assert(stream_state(stream_start()));
        assert(chunks_of(Seq::<ChunkState>::empty()) =~= Seq::<Pixel>::empty().map_values(
            |p: Pixel| rgb_chunk(p),
        ));
    } else {
        lemma_raw_prefix(ps, n - 1);
        assert(ps.subrange(0, n).drop_last() =~= ps.subrange(0, n - 1));
        let (s, cs) = encode_from(stream_start(), ps.subrange(0, n - 1));
        let p = ps[n - 1];
        let prev = pixel_before(ps, n - 1);
        assert(s.last == prev);
        assert(p != prev);
        let h = pixel_hash(p);
        lemma_full_known(h);
        if s.seen[h] == p {
            let j = choose|j: int| 0 <= j < n - 1 && ps[j] == s.seen[h];
            assert(ps[j] != ps[n - 1]);
        }
        if diff_of(prev, p) is Some {
            lemma_diff_implies_luma(prev, p);
        }
        lemma_step_stream_state(s, p);
        let (s2, c2) = encode_step(s, p);
        assert(c2 =~= seq![ChunkState::Resolved(rgb_chunk(p))]);
        assert forall|k: int|
            0 <= k < 64 && (#[trigger] s2.seen[k]).a == 255 implies exists|j: int|
            0 <= j < n && ps[j] == s2.seen[k] by {
            if k != h {
                let j = choose|j: int| 0 <= j < n - 1 && ps[j] == s.seen[k];
                assert(0 <= j < n && ps[j] == s2.seen[k]);
            } else {
                assert(ps[n - 1] == s2.seen[k]);
            }
        }
        lemma_chunks_of_append(cs, c2);
        assert(chunks_of(cs + c2) =~= ps.subrange(0, n).map_values(|p: Pixel| rgb_chunk(p)));
    }
}

/// Opaque pixels that are all different, none of them opaque black, and each too far from
/// the one before it (the first from opaque black) for a luma chunk, are encoded as one raw
/// RGB chunk each.
pub proof fn law_raw_dumps(ps: Seq<Pixel>)
    requires
        far_apart(ps),
    ensures
        encode_pixels(ps) == ps.map_values(|p: Pixel| rgb_chunk(p)),
{
    lemma_raw_prefix(ps, ps.len() as int);
    assert(ps.subrange(0, ps.len() as int) =~= ps);
    let (s, cs) = encode_from(stream_start(), ps);
    assert(chunks_of(cs) + Seq::<QoiChunk>::empty() =~= chunks_of(cs));
}

} // verus!
