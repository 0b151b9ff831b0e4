use vstd::prelude::*;

use crate::chunks::{chunk_pixel, QoiChunk};
use crate::codec::{
    encode_step, lemma_mark_slot, lemma_mask_full_and_empty, lemma_pixel_chunk_round_trip,
    lookup_spec, merge_view, merged_seen, run_chunk, segment_start, slot_known, start_pixel,
    drain_spec, stream_start, ChunkState, CodecView,
};
use crate::stream::{
    chunks_of, encode_from, encode_pixels, full_run_chunks, full_runs, lemma_chunks_of_append,
    lemma_encode_from_append, lemma_encode_from_cons, lemma_encode_from_stream_state,
    lemma_encode_from_wf, lemma_encode_repeats, lemma_full_known, lemma_pending_range,
    lemma_step_closes_run, lemma_step_stream_state, opt_seq, pending_run, repeat_pixel,
    stream_state,
};
use crate::util::{pixel_hash, Pixel};

verus! {

/// A run chunk that needs no resolving.
pub open spec fn is_run_state(c: ChunkState) -> bool {
    c matches ChunkState::Resolved(QoiChunk::RUN(_))
}

/// The length of a run chunk; nothing for other chunks.
pub open spec fn run_len_of(c: ChunkState) -> int {
    match c.chunk() {
        QoiChunk::RUN(o) => o.run_length as int,
        _ => 0,
    }
}

/// Sum of the run lengths in `cs`.
pub open spec fn runs_total(cs: Seq<ChunkState>) -> int
    decreases cs.len(),
{
    if cs.len() == 0 {
        0
    } else {
        runs_total(cs.drop_last()) + run_len_of(cs.last())
    }
}

/// Index just past the run chunks that start at `k`.
pub open spec fn lead_end(cs: Seq<ChunkState>, k: int) -> int
    decreases cs.len() - k,
{
    if 0 <= k < cs.len() && is_run_state(cs[k]) {
        lead_end(cs, k + 1)
    } else {
        k
    }
}

/// The final chunk for `c`, given the true table `g`: an unresolved chunk becomes an index
/// reference where `g` holds its pixel.
pub open spec fn resolve(c: ChunkState, g: CodecView) -> QoiChunk {
    match c {
        ChunkState::Resolved(c) => c,
        ChunkState::Unresolved(c, p) => match lookup_spec(g, p) {
            Some(i) => i,
            None => c,
        },
    }
}

pub open spec fn resolve_all(cs: Seq<ChunkState>, g: CodecView) -> Seq<QoiChunk> {
    cs.map_values(|c: ChunkState| resolve(c, g))
}

/// The pixel that opens a segment, read back from its chunks with a fresh state.
pub open spec fn first_pixel(cs: Seq<ChunkState>) -> Pixel {
    if cs.len() == 0 {
        start_pixel()
    } else {
        chunk_pixel(start_pixel(), segment_start().seen, cs[0].chunk())
    }
}

/// Where the leading run chunks of a segment end.
pub open spec fn lead_stop(cs: Seq<ChunkState>) -> int {
    if cs.len() == 0 {
        0
    } else {
        lead_end(cs, 1)
    }
}

/// How many times the segment's first pixel repeats right after itself, read from its
/// leading run chunks and, when nothing follows them, from its pending run.
pub open spec fn leading_repeats(cs: Seq<ChunkState>, s: CodecView) -> int {
    if cs.len() == 0 {
        s.run - 1
    } else {
        let first_n = match cs[0].chunk() {
            QoiChunk::RUN(o) => o.run_length as int,
            _ => 1,
        };
        let k = lead_end(cs, 1);
        first_n - 1 + runs_total(cs.subrange(1, k)) + if k == cs.len() {
            s.run
        } else {
            0
        }
    }
}

/// Appends segment (`cs`, `s`), encoded from a fresh segment state, to a stream whose state
/// is `g`: the chunks to emit and the stream's next state.
pub open spec fn merge_segment(g: CodecView, cs: Seq<ChunkState>, s: CodecView) -> (
    CodecView,
    Seq<QoiChunk>,
) {
    if cs.len() == 0 && s.run == 0 {
        (g, seq![])
    } else {
        let (t, out1) = encode_step(g, first_pixel(cs));
        let total = t.run + leading_repeats(cs, s);
        let k = lead_stop(cs);
        let exhausted = k == cs.len();
        let tail: Seq<QoiChunk> = if !exhausted && pending_run(total) > 0 {
            seq![run_chunk(pending_run(total))]
        } else {
            seq![]
        };
        let out = chunks_of(out1) + chunks_of(full_run_chunks(full_runs(total))) + tail
            + resolve_all(cs.subrange(k, cs.len() as int), t);
        let m = merge_view(t, s);
        (CodecView {
            run: if exhausted {
                pending_run(total)
            } else {
                s.run
            },
            ..m
        }, out)
    }
}

/// The segments one after the other.
pub open spec fn concat_segments(segs: Seq<Seq<Pixel>>) -> Seq<Pixel>
    decreases segs.len(),
{
    if segs.len() == 0 {
        seq![]
    } else {
        concat_segments(segs.drop_last()) + segs.last()
    }
}

/// Merging every segment, each encoded on its own from a fresh segment state.
pub open spec fn merge_all(segs: Seq<Seq<Pixel>>) -> (CodecView, Seq<QoiChunk>)
    decreases segs.len(),
{
    if segs.len() == 0 {
        (stream_start(), seq![])
    } else {
        let (g, out) = merge_all(segs.drop_last());
        let (l, cs) = encode_from(segment_start(), segs.last());
        let (g2, o2) = merge_segment(g, cs, l);
        (g2, out + o2)
    }
}

/// The chunk stream that encoding the segments apart and merging them gives.
pub open spec fn split_encode(segs: Seq<Seq<Pixel>>) -> Seq<QoiChunk> {
    let (g, out) = merge_all(segs);
    out + opt_seq(drain_spec(g))
}

/// How a segment's own state relates to the true stream state `tr` over the same pixels, with
/// `t` the true state at the segment's first pixel.
pub open spec fn tracks(l: CodecView, tr: CodecView, t: CodecView) -> bool {
    &&& l.wf()
    &&& stream_state(tr)
    &&& t.wf()
    &&& l.last == tr.last
    &&& l.run == tr.run
    &&& forall|i: int|
        0 <= i < 64 && slot_known(l.vouched, i) ==> #[trigger] l.seen[i] == tr.seen[i]
    &&& forall|i: int| 0 <= i < 64 && !slot_known(l.vouched, i) ==> #[trigger] tr.seen[i] == t.seen[i]
}

proof fn lemma_tracks_step(l: CodecView, tr: CodecView, t: CodecView, p: Pixel)
    requires
        tracks(l, tr, t),
    ensures
        tracks(encode_step(l, p).0, encode_step(tr, p).0, t),
        resolve_all(encode_step(l, p).1, t) == chunks_of(encode_step(tr, p).1),
{
    let h = pixel_hash(p);
    lemma_full_known(h);
    lemma_step_stream_state(tr, p);
    let (l2, cl) = encode_step(l, p);
    let (tr2, ct) = encode_step(tr, p);
    if !(p == l.last) && !(slot_known(l.vouched, h) && l.seen[h] == p) {
        assert forall|i: int| 0 <= i < 64 implies slot_known(l2.vouched, i) == (slot_known(
            l.vouched,
            i,
        ) || i == h) by {
            lemma_mark_slot(l.vouched, h, i);
        }
        assert forall|i: int|
            0 <= i < 64 && slot_known(l2.vouched, i) implies #[trigger] l2.seen[i] == tr2.seen[i] by {
            if i != h {
                assert(slot_known(l.vouched, i));
            }
        }
        assert forall|i: int|
            0 <= i < 64 && !slot_known(l2.vouched, i) implies #[trigger] tr2.seen[i] == t.seen[i] by {
            assert(!slot_known(l.vouched, i) && i != h);
        }
    }
    assert(resolve_all(cl, t) =~= chunks_of(ct));
}

/// A segment's chunks, resolved against the true state at its first pixel, are the true
/// chunks, as long as the segment's state tracks the true one.
proof fn lemma_tracks(l: CodecView, tr: CodecView, t: CodecView, ps: Seq<Pixel>)
    requires
        tracks(l, tr, t),
    ensures
        tracks(encode_from(l, ps).0, encode_from(tr, ps).0, t),
        resolve_all(encode_from(l, ps).1, t) == chunks_of(encode_from(tr, ps).1),
    decreases ps.len(),
{
    if ps.len() == 0 {
        assert(resolve_all(Seq::<ChunkState>::empty(), t) =~= chunks_of(Seq::<ChunkState>::empty()));
    } else {
        lemma_tracks(l, tr, t, ps.drop_last());
        let (l1, cl1) = encode_from(l, ps.drop_last());
        let (tr1, ct1) = encode_from(tr, ps.drop_last());
        lemma_tracks_step(l1, tr1, t, ps.last());
        let cl2 = encode_step(l1, ps.last()).1;
        let ct2 = encode_step(tr1, ps.last()).1;
        assert(resolve_all(cl1 + cl2, t) =~= resolve_all(cl1, t) + resolve_all(cl2, t));
        lemma_chunks_of_append(ct1, ct2);
    }
}

proof fn lemma_runs_total_append(a: Seq<ChunkState>, b: Seq<ChunkState>)
    ensures
        runs_total(a + b) == runs_total(a) + runs_total(b),
    decreases b.len(),
{
    if b.len() == 0 {
        assert(a + b =~= a);
    } else {
        lemma_runs_total_append(a, b.drop_last());
        assert((a + b).drop_last() =~= a + b.drop_last());
        assert((a + b).last() == b.last());
    }
}

proof fn lemma_runs_total_one(c: ChunkState)
    ensures
        runs_total(seq![c]) == run_len_of(c),
{
    assert(seq![c].drop_last() =~= Seq::<ChunkState>::empty());
    assert(runs_total(Seq::<ChunkState>::empty()) == 0);
    assert(seq![c].last() == c);
}

proof fn lemma_runs_total_full(n: nat)
    ensures
        runs_total(full_run_chunks(n)) == 62 * n,
    decreases n,
{
    if n > 0 {
        lemma_runs_total_full((n - 1) as nat);
        assert(full_run_chunks(n).drop_last() =~= full_run_chunks((n - 1) as nat));
    }
}

proof fn lemma_runs_total_nonneg(a: Seq<ChunkState>)
    ensures
        runs_total(a) >= 0,
    decreases a.len(),
{
    if a.len() > 0 {
        lemma_runs_total_nonneg(a.drop_last());
    }
}

/// The run chunks from `k` up to `m` are exactly the leading ones.
proof fn lemma_lead_end(cs: Seq<ChunkState>, k: int, m: int)
    requires
        0 <= k <= m <= cs.len(),
        forall|i: int| k <= i < m ==> is_run_state(#[trigger] cs[i]),
        m == cs.len() || !is_run_state(cs[m]),
    ensures
        lead_end(cs, k) == m,
    decreases m - k,
{
    if k < m {
        lemma_lead_end(cs, k + 1, m);
    }
}

/// How many elements at the front of `ps` equal `p`.
pub open spec fn same_prefix(ps: Seq<Pixel>, p: Pixel) -> nat
    decreases ps.len(),
{
    if ps.len() > 0 && ps[0] == p {
        1 + same_prefix(ps.drop_first(), p)
    } else {
        0
    }
}

proof fn lemma_same_prefix(ps: Seq<Pixel>, p: Pixel)
    ensures
        same_prefix(ps, p) <= ps.len(),
        ps.subrange(0, same_prefix(ps, p) as int) =~= repeat_pixel(p, same_prefix(ps, p)),
        same_prefix(ps, p) < ps.len() ==> ps[same_prefix(ps, p) as int] != p,
    decreases ps.len(),
{
    if ps.len() > 0 && ps[0] == p {
        lemma_same_prefix(ps.drop_first(), p);
        let n = same_prefix(ps, p);
        assert forall|i: int| 0 <= i < n implies ps[i] == p by {
            if i > 0 {
                assert(ps[i] == ps.drop_first().subrange(0, n - 1)[i - 1]);
            }
        }
    }
}

/// Once the next pixel differs from the previous one, the pending run is closed first and
/// the rest goes as from a state without a run.
proof fn lemma_rest_closes(s: CodecView, rest: Seq<Pixel>)
    requires
        s.wf(),
        rest.len() > 0,
        rest[0] != s.last,
    ensures
        ({
            let sz = CodecView { run: 0, ..s };
            let closer: Seq<ChunkState> = if s.run > 0 {
                seq![ChunkState::Resolved(run_chunk(s.run))]
            } else {
                seq![]
            };
            &&& encode_from(s, rest) == (encode_from(sz, rest).0, closer + encode_from(sz, rest).1)
            &&& encode_from(sz, rest).1.len() > 0
            &&& !is_run_state(encode_from(sz, rest).1[0])
        }),
{
    let sz = CodecView { run: 0, ..s };
    let r0 = rest[0];
    let tail = rest.drop_first();
    assert(rest =~= seq![r0] + tail);
    lemma_encode_from_cons(s, r0, tail);
    lemma_encode_from_cons(sz, r0, tail);
    lemma_step_closes_run(s, r0);
    lemma_pixel_chunk_round_trip(s.last, r0, s.seen);
    let st = encode_step(sz, r0);
    let closer: Seq<ChunkState> = if s.run > 0 {
        seq![ChunkState::Resolved(run_chunk(s.run))]
    } else {
        seq![]
    };
    assert(closer + st.1 + encode_from(st.0, tail).1 =~= closer + (st.1 + encode_from(st.0, tail).1));
    assert((st.1 + encode_from(st.0, tail).1)[0] == st.1[0]);
}

/// `runs_total` of a sequence, split at its first element.
proof fn lemma_runs_total_front(a: Seq<ChunkState>)
    requires
        a.len() > 0,
    ensures
        runs_total(a) == run_len_of(a[0]) + runs_total(a.subrange(1, a.len() as int)),
{
    assert(a =~= seq![a[0]] + a.subrange(1, a.len() as int));
    lemma_runs_total_append(seq![a[0]], a.subrange(1, a.len() as int));
    lemma_runs_total_one(a[0]);
}

/// What the first pixel of a segment does, to the segment's own state and to the stream's.
proof fn lemma_heads(g: CodecView, q0: Pixel)
    requires
        stream_state(g),
    ensures
        ({
            let (l1, h1) = encode_step(segment_start(), q0);
            let (t1, out1) = encode_step(g, q0);
            &&& l1.wf() && l1.last == q0 && t1.last == q0
            &&& stream_state(t1)
            &&& l1.run == if q0 == start_pixel() {
                1int
            } else {
                0int
            }
            &&& h1.len() == if q0 == start_pixel() {
                0int
            } else {
                1int
            }
            &&& h1.len() == 1 ==> !is_run_state(h1[0]) && run_len_of(h1[0]) == 0 && chunk_pixel(
                start_pixel(),
                segment_start().seen,
                h1[0].chunk(),
            ) == q0
            &&& forall|i: int|
                0 <= i < 64 && #[trigger] slot_known(l1.vouched, i) ==> l1.seen[i] == t1.seen[i]
        }),
{
    let l0 = segment_start();
    let (l1, h1) = encode_step(l0, q0);
    let (t1, out1) = encode_step(g, q0);
    lemma_step_stream_state(g, q0);
    let h = pixel_hash(q0);
    lemma_pixel_chunk_round_trip(start_pixel(), q0, l0.seen);
    assert forall|i: int| 0 <= i < 64 implies #[trigger] slot_known(l1.vouched, i) == (i == h
        && q0 != start_pixel()) by {
        lemma_mask_full_and_empty(i);
        lemma_mark_slot(0u64, h, i);
    }
}

/// The pieces that a segment's own encoding falls into: its first pixel, the repeats of
/// it, and the rest.
proof fn lemma_split_pieces(l1: CodecView, h1: Seq<ChunkState>, t1: CodecView, out1: Seq<ChunkState>, q0: Pixel, e0: nat, rest: Seq<Pixel>)
    requires
        l1.wf(),
        stream_state(t1),
        l1.last == q0,
        t1.last == q0,
    ensures
        encode_from(l1, repeat_pixel(q0, e0) + rest) == (
            encode_from(encode_from(l1, repeat_pixel(q0, e0)).0, rest).0,
            full_run_chunks(full_runs(l1.run + e0)) + encode_from(
                encode_from(l1, repeat_pixel(q0, e0)).0,
                rest,
            ).1,
        ),
        encode_from(l1, repeat_pixel(q0, e0)).0 == (CodecView { run: pending_run(l1.run + e0), ..l1 }),
        encode_from(t1, repeat_pixel(q0, e0) + rest) == (
            encode_from(encode_from(t1, repeat_pixel(q0, e0)).0, rest).0,
            full_run_chunks(full_runs(t1.run + e0)) + encode_from(
                encode_from(t1, repeat_pixel(q0, e0)).0,
                rest,
            ).1,
        ),
        encode_from(t1, repeat_pixel(q0, e0)).0 == (CodecView { run: pending_run(t1.run + e0), ..t1 }),
{
    lemma_encode_from_append(l1, repeat_pixel(q0, e0), rest);
    lemma_encode_repeats(l1, e0);
    lemma_encode_from_append(t1, repeat_pixel(q0, e0), rest);
    lemma_encode_repeats(t1, e0);
}

/// Merging a segment that was encoded on its own continues the stream exactly as encoding
/// its pixels in sequence would.
pub proof fn lemma_merge_segment(g: CodecView, seg: Seq<Pixel>)
    requires
        stream_state(g),
    ensures
        ({
            let (l, cs) = encode_from(segment_start(), seg);
            &&& merge_segment(g, cs, l) == (encode_from(g, seg).0, chunks_of(encode_from(g, seg).1))
            &&& seg.len() > 0 ==> 0 <= leading_repeats(cs, l) < seg.len()
        }),
{
    let l0 = segment_start();
    if seg.len() == 0 {
        assert(chunks_of(Seq::<ChunkState>::empty()) =~= Seq::<QoiChunk>::empty());
        return;
    }
    let q0 = seg[0];
    let tail0 = seg.drop_first();
    lemma_same_prefix(tail0, q0);
    let e0 = same_prefix(tail0, q0);
    let reps = repeat_pixel(q0, e0);
    let rest = tail0.subrange(e0 as int, tail0.len() as int);
    assert(seg =~= seq![q0] + (reps + rest));
    assert(tail0 =~= reps + rest);
    lemma_encode_from_cons(l0, q0, reps + rest);
    lemma_encode_from_cons(g, q0, reps + rest);
    lemma_heads(g, q0);
    let (l1, h1) = encode_step(l0, q0);
    let (t1, out1) = encode_step(g, q0);
    lemma_split_pieces(l1, h1, t1, out1, q0, e0, rest);
    if rest.len() > 0 {
        assert(rest[0] == tail0[e0 as int]);
        lemma_merge_rest(g, l1, h1, t1, out1, q0, e0, rest);
    } else {
        assert(rest =~= Seq::<Pixel>::empty());
        lemma_merge_done(g, l1, h1, t1, out1, q0, e0);
    }
    assert(h1 + (full_run_chunks(full_runs(l1.run + e0)) + encode_from(encode_from(l1, reps).0, rest).1)
        =~= h1 + full_run_chunks(full_runs(l1.run + e0)) + encode_from(encode_from(l1, reps).0, rest).1);
    assert(out1 + (full_run_chunks(full_runs(t1.run + e0)) + encode_from(encode_from(t1, reps).0, rest).1)
        =~= out1 + full_run_chunks(full_runs(t1.run + e0)) + encode_from(encode_from(t1, reps).0, rest).1);
}

/// The segment when something other than its first pixel follows the leading repeats.
#[verifier::rlimit(100)]
proof fn lemma_merge_rest(g: CodecView, l1: CodecView, h1: Seq<ChunkState>, t1: CodecView, out1: Seq<ChunkState>, q0: Pixel, e0: nat, rest: Seq<Pixel>)
    requires
        stream_state(g),
        rest.len() > 0,
        rest[0] != q0,
        (l1, h1) == encode_step(segment_start(), q0),
        (t1, out1) == encode_step(g, q0),
        l1.wf() && l1.last == q0 && t1.last == q0,
        stream_state(t1),
        l1.run == if q0 == start_pixel() { 1int } else { 0int },
        h1.len() == if q0 == start_pixel() { 0int } else { 1int },
        h1.len() == 1 ==> !is_run_state(h1[0]) && run_len_of(h1[0]) == 0 && chunk_pixel(
            start_pixel(),
            segment_start().seen,
            h1[0].chunk(),
        ) == q0,
        forall|i: int|
            0 <= i < 64 && #[trigger] slot_known(l1.vouched, i) ==> l1.seen[i] == t1.seen[i],
    ensures
        ({
            let l2 = CodecView { run: pending_run(l1.run + e0), ..l1 };
            let t2 = CodecView { run: pending_run(t1.run + e0), ..t1 };
            let cs = h1 + full_run_chunks(full_runs(l1.run + e0)) + encode_from(l2, rest).1;
            let lf = encode_from(l2, rest).0;
            &&& merge_segment(g, cs, lf) == (
                encode_from(t2, rest).0,
                chunks_of(out1 + full_run_chunks(full_runs(t1.run + e0)) + encode_from(t2, rest).1),
            )
            &&& leading_repeats(cs, lf) == e0
        }),
{
    let l2 = CodecView { run: pending_run(l1.run + e0), ..l1 };
    let t2 = CodecView { run: pending_run(t1.run + e0), ..t1 };
    let fl = full_run_chunks(full_runs(l1.run + e0));
    let ft = full_run_chunks(full_runs(t1.run + e0));
    let total = t1.run + e0;
    lemma_pending_range(total);
    lemma_pending_range(l1.run + e0);
    lemma_runs_total_full(full_runs(l1.run + e0));
    lemma_rest_closes(l2, rest);
    lemma_rest_closes(t2, rest);
    let l2z = CodecView { run: 0, ..l2 };
    let t2z = CodecView { run: 0, ..t2 };
    assert(tracks(l2z, t2z, t1));
    lemma_tracks(l2z, t2z, t1, rest);
    let rl = encode_from(l2z, rest).1;
    let rt = encode_from(t2z, rest).1;
    let lf = encode_from(l2, rest).0;
    let closer_l: Seq<ChunkState> = if l2.run > 0 {
        seq![ChunkState::Resolved(run_chunk(l2.run))]
    } else {
        seq![]
    };
    let lead = h1 + fl + closer_l;
    let cs = h1 + fl + encode_from(l2, rest).1;
    assert(cs =~= lead + rl);
    lemma_runs_total_append(h1 + fl, closer_l);
    lemma_runs_total_append(h1, fl);
    if h1.len() == 1 {
        lemma_runs_total_one(h1[0]);
    } else {
        assert(h1 =~= Seq::<ChunkState>::empty());
    }
    if closer_l.len() == 1 {
        lemma_runs_total_one(closer_l[0]);
    }
    assert(runs_total(lead) == l1.run + e0);
    assert(lead.len() >= 1);
    assert forall|i: int| 1 <= i < lead.len() implies is_run_state(#[trigger] cs[i]) by {
        assert(cs[i] == lead[i]);
    }
    assert(cs[lead.len() as int] == rl[0]);
    lemma_lead_end(cs, 1, lead.len() as int);
    assert(cs.subrange(lead.len() as int, cs.len() as int) =~= rl);
    assert(cs.subrange(1, lead.len() as int) =~= lead.subrange(1, lead.len() as int));
    lemma_runs_total_front(lead);
    assert(cs[0] == lead[0]);
    assert(first_pixel(cs) == q0);
    assert(leading_repeats(cs, lf) == e0);
    let tr_f = encode_from(t2z, rest).0;
    assert(merged_seen(t1.seen, lf) =~= tr_f.seen);
    assert(t1.vouched | lf.vouched == tr_f.vouched) by {
        let m = lf.vouched;
        assert(0xffff_ffff_ffff_ffffu64 | m == 0xffff_ffff_ffff_ffffu64) by (bit_vector);
    }
    let closer_t: Seq<ChunkState> = if t2.run > 0 {
        seq![ChunkState::Resolved(run_chunk(t2.run))]
    } else {
        seq![]
    };
    assert(out1 + ft + encode_from(t2, rest).1 =~= out1 + (ft + (closer_t + rt)));
    lemma_chunks_of_append(out1, ft + (closer_t + rt));
    lemma_chunks_of_append(ft, closer_t + rt);
    lemma_chunks_of_append(closer_t, rt);
    assert(chunks_of(closer_t) =~= (if pending_run(total) > 0 {
        seq![run_chunk(pending_run(total))]
    } else {
        Seq::<QoiChunk>::empty()
    }));
    assert(merge_segment(g, cs, lf).1 =~= chunks_of(out1 + ft + encode_from(t2, rest).1));
}

/// The segment when it ends within the repeats of its first pixel.
#[verifier::rlimit(100)]
proof fn lemma_merge_done(g: CodecView, l1: CodecView, h1: Seq<ChunkState>, t1: CodecView, out1: Seq<ChunkState>, q0: Pixel, e0: nat)
    requires
        stream_state(g),
        (l1, h1) == encode_step(segment_start(), q0),
        (t1, out1) == encode_step(g, q0),
        l1.wf() && l1.last == q0 && t1.last == q0,
        stream_state(t1),
        l1.run == if q0 == start_pixel() { 1int } else { 0int },
        h1.len() == if q0 == start_pixel() { 0int } else { 1int },
        h1.len() == 1 ==> !is_run_state(h1[0]) && run_len_of(h1[0]) == 0 && chunk_pixel(
            start_pixel(),
            segment_start().seen,
            h1[0].chunk(),
        ) == q0,
        forall|i: int|
            0 <= i < 64 && #[trigger] slot_known(l1.vouched, i) ==> l1.seen[i] == t1.seen[i],
    ensures
        ({
            let l2 = CodecView { run: pending_run(l1.run + e0), ..l1 };
            let t2 = CodecView { run: pending_run(t1.run + e0), ..t1 };
            let cs = h1 + full_run_chunks(full_runs(l1.run + e0)) + encode_from(l2, Seq::<Pixel>::empty()).1;
            let lf = encode_from(l2, Seq::<Pixel>::empty()).0;
            &&& merge_segment(g, cs, lf) == (
                encode_from(t2, Seq::<Pixel>::empty()).0,
                chunks_of(out1 + full_run_chunks(full_runs(t1.run + e0)) + encode_from(t2, Seq::<Pixel>::empty()).1),
            )
            &&& leading_repeats(cs, lf) == e0
        }),
{
    let l2 = CodecView { run: pending_run(l1.run + e0), ..l1 };
    let t2 = CodecView { run: pending_run(t1.run + e0), ..t1 };
    let fl = full_run_chunks(full_runs(l1.run + e0));
    let ft = full_run_chunks(full_runs(t1.run + e0));
    let total = t1.run + e0;
    lemma_pending_range(total);
    lemma_pending_range(l1.run + e0);
    lemma_runs_total_full(full_runs(l1.run + e0));
    let e = Seq::<Pixel>::empty();
    assert(encode_from(l2, e) == (l2, Seq::<ChunkState>::empty()));
    assert(encode_from(t2, e) == (t2, Seq::<ChunkState>::empty()));
    let lf = l2;
    let cs = h1 + fl;
    assert(h1 + fl + Seq::<ChunkState>::empty() =~= cs);
    assert(out1 + ft + Seq::<ChunkState>::empty() =~= out1 + ft);
    lemma_runs_total_append(h1, fl);
    if h1.len() == 1 {
        lemma_runs_total_one(h1[0]);
    } else {
        assert(h1 =~= Seq::<ChunkState>::empty());
    }
    assert(merged_seen(t1.seen, lf) =~= t2.seen);
    assert(t1.vouched | lf.vouched == t2.vouched) by {
        let m = lf.vouched;
        assert(0xffff_ffff_ffff_ffffu64 | m == 0xffff_ffff_ffff_ffffu64) by (bit_vector);
    }
    lemma_chunks_of_append(out1, ft);
    assert(cs.subrange(cs.len() as int, cs.len() as int) =~= Seq::<ChunkState>::empty());
    assert(resolve_all(Seq::<ChunkState>::empty(), t1) =~= Seq::<QoiChunk>::empty());
    if cs.len() > 0 {
        assert forall|i: int| 1 <= i < cs.len() implies is_run_state(#[trigger] cs[i]) by {
            if h1.len() == 1 {
                assert(cs[i] == fl[i - 1]);
            } else {
                assert(cs[i] == fl[i]);
            }
        }
        lemma_lead_end(cs, 1, cs.len() as int);
        lemma_runs_total_front(cs);
        assert(first_pixel(cs) == q0);
        assert(leading_repeats(cs, lf) == e0);
    } else {
        assert(leading_repeats(cs, lf) == e0);
    }
    assert(merge_segment(g, cs, lf).1 =~= chunks_of(out1 + ft));
}

pub proof fn lemma_merge_all(segs: Seq<Seq<Pixel>>)
    ensures
        merge_all(segs) == (
            encode_from(stream_start(), concat_segments(segs)).0,
            chunks_of(encode_from(stream_start(), concat_segments(segs)).1),
        ),
        stream_state(merge_all(segs).0),
    decreases segs.len(),
{
    if segs.len() == 0 {
        assert(chunks_of(Seq::<ChunkState>::empty()) =~= Seq::<QoiChunk>::empty());
        assert(stream_state(stream_start()));
    } else {
        lemma_merge_all(segs.drop_last());
        let prefix = concat_segments(segs.drop_last());
        let g = merge_all(segs.drop_last()).0;
        lemma_merge_segment(g, segs.last());
        lemma_encode_from_append(stream_start(), prefix, segs.last());
        lemma_chunks_of_append(
            encode_from(stream_start(), prefix).1,
            encode_from(g, segs.last()).1,
        );
        lemma_encode_from_stream_state(g, segs.last());
    }
}

/// Encoding any split of a pixel sequence into segments, each on its own from a fresh
/// segment state, and merging them left to right gives exactly the chunk stream of encoding
/// the whole sequence at once.
pub proof fn law_split_merge(segs: Seq<Seq<Pixel>>)
    ensures
        split_encode(segs) == encode_pixels(concat_segments(segs)),
{
    lemma_merge_all(segs);
}

/// Every chunk that encoding emits is well formed.
pub proof fn lemma_encode_from_chunks_wf(s: CodecView, ps: Seq<Pixel>)
    requires
        s.wf(),
    ensures
        forall|i: int|
            0 <= i < encode_from(s, ps).1.len() ==> (#[trigger] encode_from(s, ps).1[i]).chunk().wf(),
    decreases ps.len(),
{
    if ps.len() > 0 {
        lemma_encode_from_chunks_wf(s, ps.drop_last());
        lemma_encode_from_wf(s, ps.drop_last());
        let s1 = encode_from(s, ps.drop_last()).0;
        lemma_pixel_chunk_round_trip(s1.last, ps.last(), s1.seen);
        let c1 = encode_from(s, ps.drop_last()).1;
        let c2 = encode_step(s1, ps.last()).1;
        assert forall|i: int| 0 <= i < c1.len() + c2.len() implies (#[trigger] (c1 + c2)[i]).chunk().wf() by {
            if i >= c1.len() {
                assert((c1 + c2)[i] == c2[i - c1.len()]);
            }
        }
    }
}

/// The leading run total up to `k` is at most the one up to `m`, for `k <= m`.
pub proof fn lemma_runs_total_prefix(cs: Seq<ChunkState>, k: int, m: int)
    requires
        1 <= k <= m <= cs.len(),
    ensures
        runs_total(cs.subrange(1, k)) <= runs_total(cs.subrange(1, m)),
        k < m ==> runs_total(cs.subrange(1, k + 1)) == runs_total(cs.subrange(1, k)) + run_len_of(cs[k]),
{
    assert(cs.subrange(1, m) =~= cs.subrange(1, k) + cs.subrange(k, m));
    lemma_runs_total_append(cs.subrange(1, k), cs.subrange(k, m));
    lemma_runs_total_nonneg(cs.subrange(k, m));
    if k < m {
        assert(cs.subrange(1, k + 1).drop_last() =~= cs.subrange(1, k));
    }
}

/// The scan for leading run chunks can go on from any point before its end.
pub proof fn lemma_lead_end_step(cs: Seq<ChunkState>, k: int)
    requires
        0 <= k < cs.len(),
        is_run_state(cs[k]),
    ensures
        lead_end(cs, k) == lead_end(cs, k + 1),
{
}

pub proof fn lemma_lead_end_bounds(cs: Seq<ChunkState>, k: int)
    requires
        0 <= k <= cs.len(),
    ensures
        k <= lead_end(cs, k) <= cs.len(),
    decreases cs.len() - k,
{
    if k < cs.len() && is_run_state(cs[k]) {
        lemma_lead_end_bounds(cs, k + 1);
    }
}

} // verus!
