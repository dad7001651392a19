use vstd::prelude::*;

use crate::plan::{
    check_ranges, contiguous, edits_match, last_end, lemma_contiguous_bounded,
    lemma_partition_coverage, lemma_sorted_drop_last, partition, ranges_fit, segments_of,
    segments_upto, sorted_ranges, FormatError, Segment,
};
use crate::range::Range;

verus! {

/// The largest number of bytes copied from the source file at once.
pub const CHUNK_SIZE: usize = 16 * 1024 * 1024;

/// A piece of an unedited region: `len` bytes of the source file from `offset`.
#[derive(Clone, Copy, Debug, PartialEq, Eq, Structural)]
pub struct Chunk {
    pub offset: u64,
    pub len: usize,
}

/// The chunks in which the region `[start, end)` is copied: all of
/// `CHUNK_SIZE` bytes but the last, which may be smaller.
pub open spec fn chunks_of(start: u64, end: u64) -> Seq<Chunk>
    decreases end - start,
{
    if start >= end {
        Seq::empty()
    } else {
        let n: int = if end - start < CHUNK_SIZE { end - start } else { CHUNK_SIZE as int };
        seq![Chunk { offset: start, len: n as usize }] + chunks_of((start + n) as u64, end)
    }
}

/// The bytes of `src` that a chunk stands for.
pub open spec fn chunk_bytes(src: Seq<u8>, c: Chunk) -> Seq<u8> {
    src.subrange(c.offset as int, c.offset + c.len)
}

/// The bytes that copying the chunks one after the other produces.
pub open spec fn read_chunks(src: Seq<u8>, cs: Seq<Chunk>) -> Seq<u8>
    decreases cs.len(),
{
    if cs.len() == 0 {
        Seq::empty()
    } else {
        read_chunks(src, cs.drop_last()) + chunk_bytes(src, cs.last())
    }
}

/// The bytes of the source interval `r`.
pub open spec fn range_bytes(src: Seq<u8>, r: Range) -> Seq<u8> {
    src.subrange(r.start as int, r.end as int)
}

/// What a segment contributes to the output: source bytes for an unedited
/// segment, the whole part for an edited one.
pub open spec fn segment_bytes(src: Seq<u8>, parts: Seq<Seq<u8>>, s: Segment) -> Seq<u8> {
    match s {
        Segment::Original(r) => range_bytes(src, r),
        Segment::Edited(i, _) => parts[i as int],
    }
}

/// The output of a combine: the segments' bytes, one after the other.
pub open spec fn merged(src: Seq<u8>, parts: Seq<Seq<u8>>, segs: Seq<Segment>) -> Seq<u8>
    decreases segs.len(),
{
    if segs.len() == 0 {
        Seq::empty()
    } else {
        merged(src, parts, segs.drop_last()) + segment_bytes(src, parts, segs.last())
    }
}

/// The parts that splitting `src` at the ranges writes: the bytes of each range.
pub open spec fn split_parts(src: Seq<u8>, rs: Seq<Range>) -> Seq<Seq<u8>> {
    Seq::new(rs.len(), |i: int| range_bytes(src, rs[i]))
}

/// Every range lies within a source of `len` bytes.
pub open spec fn ranges_within(rs: Seq<Range>, len: nat) -> bool {
    forall|i: int| 0 <= i < rs.len() ==> (#[trigger] rs[i]).wf() && rs[i].end <= len
}

/// The segments can be streamed from a source of `src_len` bytes and `n_parts` parts.
pub open spec fn segments_readable(segs: Seq<Segment>, src_len: nat, n_parts: nat) -> bool {
    forall|k: int| 0 <= k < segs.len() ==> match #[trigger] segs[k] {
        Segment::Original(r) => r.wf() && r.end <= src_len,
        Segment::Edited(i, _) => i < n_parts,
    }
}

proof fn lemma_read_chunks_cons(src: Seq<u8>, c: Chunk, cs: Seq<Chunk>)
    ensures
        read_chunks(src, seq![c] + cs) == chunk_bytes(src, c) + read_chunks(src, cs),
    decreases cs.len(),
{
    if cs.len() == 0 {
        assert((seq![c] + cs).drop_last() =~= Seq::<Chunk>::empty());
        assert(read_chunks(src, Seq::<Chunk>::empty()) == Seq::<u8>::empty());
        assert(read_chunks(src, seq![c] + cs) =~= chunk_bytes(src, c) + read_chunks(src, cs));
    } else {
        lemma_read_chunks_cons(src, c, cs.drop_last());
        assert((seq![c] + cs).drop_last() =~= seq![c] + cs.drop_last());
        assert(read_chunks(src, seq![c] + cs) =~= chunk_bytes(src, c) + read_chunks(src, cs));
    }
}

/// Copying the region `[start, end)` of `src` chunk by chunk yields exactly
/// the bytes of the region, and every chunk holds between 1 and `CHUNK_SIZE`
/// bytes.
pub proof fn lemma_chunked_copy(src: Seq<u8>, start: u64, end: u64)
    requires
        start <= end <= src.len(),
    ensures
        read_chunks(src, chunks_of(start, end)) == src.subrange(start as int, end as int),
        forall|k: int| 0 <= k < chunks_of(start, end).len()
            ==> 0 < (#[trigger] chunks_of(start, end)[k]).len <= CHUNK_SIZE,
    decreases end - start,
{
    if start < end {
        let n: int = if end - start < CHUNK_SIZE { end - start } else { CHUNK_SIZE as int };
        let c = Chunk { offset: start, len: n as usize };
        let next = (start + n) as u64;
        lemma_chunked_copy(src, next, end);
        lemma_read_chunks_cons(src, c, chunks_of(next, end));
        assert(src.subrange(start as int, end as int) =~= chunk_bytes(src, c) + src.subrange(
            next as int,
            end as int,
        ));
        let cs = chunks_of(start, end);
        assert forall|k: int| 0 <= k < cs.len() implies 0 < (#[trigger] cs[k]).len <= CHUNK_SIZE by {
            if k > 0 {
                assert(cs[k] == chunks_of(next, end)[k - 1]);
            }
        }
    } else {
        assert(src.subrange(start as int, end as int) =~= Seq::<u8>::empty());
    }
}

/// The chunks in which the region is copied.
pub fn chunk_plan(region: Range) -> (r: Vec<Chunk>)
    requires
        region.wf(),
    ensures
        r@ == chunks_of(region.start, region.end),
{
    let mut out: Vec<Chunk> = Vec::new();
    let mut pos: u64 = region.start;
    while pos < region.end
        invariant
            region.start <= pos <= region.end,
            out@ + chunks_of(pos, region.end) == chunks_of(region.start, region.end),
        decreases region.end - pos,
    {
        let remaining = region.end - pos;
        let n: usize = if remaining < CHUNK_SIZE as u64 {
            remaining as usize
        } else {
            CHUNK_SIZE
        };
        let ghost before = out@;
        out.push(Chunk { offset: pos, len: n });
        assert(out@ + chunks_of((pos + n) as u64, region.end) =~= before + chunks_of(pos, region.end));
        pos = pos + n as u64;
    }
    assert(out@ =~= out@ + chunks_of(pos, region.end));
    out
}

/// Grows or shrinks `buf` to exactly `new_size` bytes: kept bytes stay, new
/// ones are zero, and nothing past `new_size` remains.
pub fn resize_buffer(buf: &mut Vec<u8>, new_size: usize)
    ensures
        final(buf)@.len() == new_size,
        forall|i: int| 0 <= i < new_size && i < old(buf)@.len() ==> final(buf)@[i] == old(buf)@[i],
        forall|i: int| old(buf)@.len() <= i < new_size ==> final(buf)@[i] == 0,
{
    let buf_len = buf.len();
    if buf_len < new_size {
        let mut j: usize = buf_len;
        while j < new_size
            invariant
                buf_len <= j <= new_size,
                buf@.len() == j,
                old(buf)@.len() == buf_len,
                forall|i: int| 0 <= i < buf_len ==> buf@[i] == old(buf)@[i],
                forall|i: int| buf_len <= i < j ==> buf@[i] == 0,
            decreases new_size - j,
        {
            buf.push(0);
            j = j + 1;
        }
    } else if buf_len > new_size {
        buf.truncate(new_size);
    }
}

/// Fills the whole of `buf` with the bytes of `src` from `offset`.
fn read_at(buf: &mut Vec<u8>, src: &Vec<u8>, offset: u64)
    requires
        offset + old(buf)@.len() <= src@.len(),
    ensures
        final(buf)@ == src@.subrange(offset as int, offset + old(buf)@.len()),
{
    let n = buf.len();
    let m = src.len();
    let base: usize = offset as usize;
    let mut j: usize = 0;
    while j < n
        invariant
            0 <= j <= n,
            n == buf@.len(),
            m == src@.len(),
            base == offset,
            offset + n <= src@.len(),
            forall|i: int| 0 <= i < j ==> buf@[i] == src@[offset + i],
        decreases n - j,
    {
        buf.set(j, src[base + j]);
        j = j + 1;
    }
    assert(buf@ =~= src@.subrange(offset as int, offset + n));
}

/// Appends the bytes of the region to `out`, copying them through `buf` one
/// chunk at a time.
fn copy_region(out: &mut Vec<u8>, buf: &mut Vec<u8>, src: &Vec<u8>, region: Range)
    requires
        region.wf(),
        region.end <= src@.len(),
    ensures
        final(out)@ == old(out)@ + range_bytes(src@, region),
{
    let plan = chunk_plan(region);
    proof {
        lemma_chunked_copy(src@, region.start, region.end);
    }
    let mut j: usize = 0;
    while j < plan.len()
        invariant
            0 <= j <= plan@.len(),
            plan@ == chunks_of(region.start, region.end),
            region.start <= region.end <= src@.len(),
            forall|k: int| 0 <= k < plan@.len() ==> 0 < (#[trigger] plan@[k]).len <= CHUNK_SIZE,
            out@ == old(out)@ + read_chunks(src@, plan@.subrange(0, j as int)),
        decreases plan@.len() - j,
    {
        let c = plan[j];
        proof {
            lemma_chunk_within(src@, region.start, region.end, j as int);
        }
        resize_buffer(buf, c.len);
        read_at(buf, src, c.offset);
        out.extend_from_slice(buf.as_slice());
        assert(plan@.subrange(0, j + 1).drop_last() =~= plan@.subrange(0, j as int));
        j = j + 1;
    }
    assert(plan@.subrange(0, j as int) =~= plan@);
}

proof fn lemma_chunk_within(src: Seq<u8>, start: u64, end: u64, k: int)
    requires
        start <= end <= src.len(),
        0 <= k < chunks_of(start, end).len(),
    ensures
        start <= chunks_of(start, end)[k].offset,
        chunks_of(start, end)[k].offset + chunks_of(start, end)[k].len <= end,
    decreases end - start,
{
    if start < end {
        let n: int = if end - start < CHUNK_SIZE { end - start } else { CHUNK_SIZE as int };
        if k > 0 {
            lemma_chunk_within(src, (start + n) as u64, end, k - 1);
        }
    }
}

/// Streams the segments into a new output: source bytes for unedited
/// segments, copied in chunks through one reused buffer, and the whole part
/// for edited ones.
pub fn merge(source: &Vec<u8>, parts: &Vec<Vec<u8>>, segments: &Vec<Segment>) -> (r: Vec<u8>)
    requires
        segments_readable(segments@, source@.len(), parts@.len()),
    ensures
        r@ == merged(source@, parts.deep_view(), segments@),
{
    let mut out: Vec<u8> = Vec::new();
    let mut buf: Vec<u8> = Vec::new();
    let mut k: usize = 0;
    while k < segments.len()
        invariant
            0 <= k <= segments@.len(),
            segments_readable(segments@, source@.len(), parts@.len()),
            out@ == merged(source@, parts.deep_view(), segments@.subrange(0, k as int)),
        decreases segments@.len() - k,
    {
        let ghost before = out@;
        let seg = segments[k];
        match seg {
            Segment::Original(r) => {
                copy_region(&mut out, &mut buf, source, r);
            },
            Segment::Edited(i, _) => {
                out.extend_from_slice(parts[i].as_slice());
            },
        }
        assert(segments@.subrange(0, k + 1).drop_last() =~= segments@.subrange(0, k as int));
        k = k + 1;
    }
    assert(segments@.subrange(0, k as int) =~= segments@);
    out
}

/// How much longer than their intervals the edited segments' contents are,
/// in total.
pub open spec fn growth(parts: Seq<Seq<u8>>, segs: Seq<Segment>) -> int
    decreases segs.len(),
{
    if segs.len() == 0 {
        0
    } else {
        growth(parts, segs.drop_last()) + match segs.last() {
            Segment::Edited(i, r) => parts[i as int].len() - r.spec_len(),
            Segment::Original(_) => 0,
        }
    }
}

proof fn lemma_merged_concat(src: Seq<u8>, parts: Seq<Seq<u8>>, a: Seq<Segment>, b: Seq<Segment>)
    ensures
        merged(src, parts, a + b) == merged(src, parts, a) + merged(src, parts, b),
    decreases b.len(),
{
    if b.len() == 0 {
        assert(a + b =~= a);
        assert(merged(src, parts, a) + merged(src, parts, b) =~= merged(src, parts, a));
    } else {
        lemma_merged_concat(src, parts, a, b.drop_last());
        assert((a + b).drop_last() =~= a + b.drop_last());
        assert(merged(src, parts, a + b) =~= merged(src, parts, a) + merged(src, parts, b));
    }
}

proof fn lemma_merged_one(src: Seq<u8>, parts: Seq<Seq<u8>>, s: Segment)
    ensures
        merged(src, parts, seq![s]) == segment_bytes(src, parts, s),
{
    assert(seq![s].drop_last() =~= Seq::<Segment>::empty());
    assert(merged(src, parts, Seq::<Segment>::empty()) == Seq::<u8>::empty());
    assert(merged(src, parts, seq![s]) =~= segment_bytes(src, parts, s));
}

proof fn lemma_upto_round_trip(src: Seq<u8>, parts: Seq<Seq<u8>>, rs: Seq<Range>)
    requires
        sorted_ranges(rs),
        last_end(rs) <= src.len(),
        rs.len() <= usize::MAX,
        parts.len() >= rs.len(),
        forall|i: int| 0 <= i < rs.len() ==> parts[i] == range_bytes(src, #[trigger] rs[i]),
    ensures
        merged(src, parts, segments_upto(rs)) == src.subrange(0, last_end(rs) as int),
    decreases rs.len(),
{
    if rs.len() == 0 {
        assert(src.subrange(0, 0) =~= Seq::<u8>::empty());
    } else {
        let prev = rs.drop_last();
        let r = rs.last();
        lemma_sorted_drop_last(rs);
        assert forall|i: int| 0 <= i < prev.len() implies parts[i] == range_bytes(
            src,
            #[trigger] prev[i],
        ) by {
            assert(prev[i] == rs[i]);
        }
        lemma_upto_round_trip(src, parts, prev);
        let sp = segments_upto(prev);
        let e = Segment::Edited((rs.len() - 1) as usize, r);
        lemma_merged_one(src, parts, e);
        assert(segment_bytes(src, parts, e) == range_bytes(src, r));
        if r.start > last_end(prev) {
            let g = Segment::Original(Range { start: last_end(prev), end: r.start });
            assert(segments_upto(rs) =~= sp + seq![g] + seq![e]);
            lemma_merged_concat(src, parts, sp + seq![g], seq![e]);
            lemma_merged_concat(src, parts, sp, seq![g]);
            lemma_merged_one(src, parts, g);
        } else {
            assert(segments_upto(rs) =~= sp + seq![e]);
            lemma_merged_concat(src, parts, sp, seq![e]);
        }
        assert(merged(src, parts, segments_upto(rs)) =~= src.subrange(0, last_end(rs) as int));
    }
}

/// Splitting a source at ranges that fit it and combining the unmodified
/// parts again gives back the source byte for byte.
pub proof fn lemma_round_trip(src: Seq<u8>, rs: Seq<Range>)
    requires
        src.len() <= u64::MAX,
        rs.len() <= usize::MAX,
        ranges_fit(rs, src.len() as u64),
    ensures
        merged(src, split_parts(src, rs), segments_of(rs, src.len() as u64)) == src,
{
    let parts = split_parts(src, rs);
    let len = src.len() as u64;
    lemma_upto_round_trip(src, parts, rs);
    let g = Segment::Original(Range { start: last_end(rs), end: len });
    assert(segments_of(rs, len) =~= segments_upto(rs) + seq![g]);
    lemma_merged_concat(src, parts, segments_upto(rs), seq![g]);
    lemma_merged_one(src, parts, g);
    assert(merged(src, parts, segments_of(rs, len)) =~= src);
}

/// The bytes for the segments up to the last range are those up to the range
/// before it, then the gap before the last range, then the last range's part.
proof fn lemma_upto_step(src: Seq<u8>, parts: Seq<Seq<u8>>, rs: Seq<Range>)
    requires
        sorted_ranges(rs),
        rs.len() > 0,
        rs.len() <= usize::MAX,
        last_end(rs) <= src.len(),
    ensures
        merged(src, parts, segments_upto(rs)) == merged(src, parts, segments_upto(rs.drop_last()))
            + src.subrange(last_end(rs.drop_last()) as int, rs.last().start as int)
            + parts[rs.len() - 1],
{
    let prev = rs.drop_last();
    let r = rs.last();
    lemma_sorted_drop_last(rs);
    let sp = segments_upto(prev);
    let e = Segment::Edited((rs.len() - 1) as usize, r);
    lemma_merged_one(src, parts, e);
    if r.start > last_end(prev) {
        let g = Segment::Original(Range { start: last_end(prev), end: r.start });
        assert(segments_upto(rs) =~= sp + seq![g] + seq![e]);
        lemma_merged_concat(src, parts, sp + seq![g], seq![e]);
        lemma_merged_concat(src, parts, sp, seq![g]);
        lemma_merged_one(src, parts, g);
    } else {
        assert(segments_upto(rs) =~= sp + seq![e]);
        lemma_merged_concat(src, parts, sp, seq![e]);
        assert(src.subrange(last_end(prev) as int, r.start as int) =~= Seq::<u8>::empty());
    }
    assert(merged(src, parts, segments_upto(rs)) =~= merged(src, parts, sp)
        + src.subrange(last_end(prev) as int, r.start as int) + parts[rs.len() - 1]);
}

#[verifier::spinoff_prover]
#[verifier::rlimit(40)]
proof fn lemma_upto_replaced(src: Seq<u8>, parts: Seq<Seq<u8>>, rs: Seq<Range>, i: int)
    requires
        sorted_ranges(rs),
        last_end(rs) <= src.len(),
        rs.len() <= usize::MAX,
        parts.len() >= rs.len(),
        0 <= i,
        forall|j: int| 0 <= j < rs.len() && j != i ==> parts[j] == range_bytes(src, #[trigger] rs[j]),
    ensures
        rs.len() <= i ==> merged(src, parts, segments_upto(rs)) == src.subrange(0, last_end(rs) as int),
        rs.len() > i ==> rs[i].end <= last_end(rs) && merged(src, parts, segments_upto(rs))
            == src.subrange(0, rs[i].start as int) + parts[i] + src.subrange(
            rs[i].end as int,
            last_end(rs) as int,
        ),
    decreases rs.len(),
{
    if rs.len() == 0 {
        assert(src.subrange(0, 0) =~= Seq::<u8>::empty());
    } else {
        let prev = rs.drop_last();
        let r = rs.last();
        let n = rs.len() - 1;
        lemma_sorted_drop_last(rs);
        assert forall|j: int| 0 <= j < prev.len() && j != i implies parts[j] == range_bytes(
            src,
            #[trigger] prev[j],
        ) by {
            assert(prev[j] == rs[j]);
        }
        lemma_upto_replaced(src, parts, prev, i);
        lemma_upto_step(src, parts, rs);
        let m = merged(src, parts, segments_upto(rs));
        let mp = merged(src, parts, segments_upto(prev));
        let le = last_end(prev) as int;
        let gap = src.subrange(le, r.start as int);
        assert(m == mp + gap + parts[n]);
        if n < i {
            lemma_join(src, 0, le, r.start as int);
            lemma_join(src, 0, r.start as int, r.end as int);
        } else if n == i {
            lemma_join(src, 0, le, r.start as int);
            assert(src.subrange(r.end as int, r.end as int) =~= Seq::<u8>::empty());
            assert(m =~= src.subrange(0, r.start as int) + parts[i] + src.subrange(
                r.end as int,
                r.end as int,
            ));
        } else {
            let head = src.subrange(0, rs[i].start as int) + parts[i];
            let e = rs[i].end as int;
            assert(prev[i] == rs[i]);
            assert(mp == head + src.subrange(e, le));
            lemma_join(src, e, le, r.start as int);
            lemma_join(src, e, r.start as int, r.end as int);
            assert(m =~= head + src.subrange(e, r.end as int));
        }
    }
}

proof fn lemma_join(src: Seq<u8>, x: int, y: int, z: int)
    requires
        0 <= x <= y <= z <= src.len(),
    ensures
        src.subrange(x, y) + src.subrange(y, z) == src.subrange(x, z),
{
    assert(src.subrange(x, y) + src.subrange(y, z) =~= src.subrange(x, z));
}

/// Replacing the content of part `i` alone with `c`, of any length, and
/// combining gives the source up to range `i`'s start, then exactly `c`, then
/// the rest of the source from range `i`'s end: every unedited byte is kept,
/// and those after the part move by the change in its length.
pub proof fn lemma_single_replacement(src: Seq<u8>, rs: Seq<Range>, i: int, c: Seq<u8>)
    requires
        src.len() <= u64::MAX,
        rs.len() <= usize::MAX,
        ranges_fit(rs, src.len() as u64),
        0 <= i < rs.len(),
    ensures
        ({
            let out = merged(src, split_parts(src, rs).update(i, c), segments_of(rs, src.len() as u64));
            let s = rs[i].start as int;
            let e = rs[i].end as int;
            &&& out == src.subrange(0, s) + c + src.subrange(e, src.len() as int)
            &&& out.len() == src.len() - (e - s) + c.len()
            &&& out.subrange(0, s) == src.subrange(0, s)
            &&& out.subrange(s, s + c.len()) == c
            &&& out.subrange(s + c.len(), out.len() as int) == src.subrange(e, src.len() as int)
        }),
{
    let parts = split_parts(src, rs).update(i, c);
    let len = src.len() as u64;
    lemma_upto_replaced(src, parts, rs, i);
    lemma_sorted_drop_last(rs);
    let g = Segment::Original(Range { start: last_end(rs), end: len });
    assert(segments_of(rs, len) =~= segments_upto(rs) + seq![g]);
    lemma_merged_concat(src, parts, segments_upto(rs), seq![g]);
    lemma_merged_one(src, parts, g);
    assert(rs[i].wf());
    let out = merged(src, parts, segments_of(rs, len));
    let s = rs[i].start as int;
    let e = rs[i].end as int;
    assert(out =~= src.subrange(0, s) + c + src.subrange(e, src.len() as int));
    assert(out.subrange(0, s) =~= src.subrange(0, s));
    assert(out.subrange(s, s + c.len()) =~= c);
    assert(out.subrange(s + c.len(), out.len() as int) =~= src.subrange(e, src.len() as int));
}

proof fn lemma_segment_position(src: Seq<u8>, parts: Seq<Seq<u8>>, segs: Seq<Segment>, to: u64, k: int)
    requires
        contiguous(segs, 0, to),
        to <= src.len(),
        0 <= k < segs.len(),
    ensures
        merged(src, parts, segs.take(k)).len() == segs[k].interval().start + growth(parts, segs.take(k)),
    decreases k,
{
    if k == 0 {
        assert(segs.take(0) =~= Seq::<Segment>::empty());
    } else {
        lemma_segment_position(src, parts, segs, to, k - 1);
        lemma_contiguous_bounded(segs, 0, to, k - 1);
        assert(segs.take(k).drop_last() =~= segs.take(k - 1));
        assert(segs[k - 1].interval().wf());
        assert(segs[k - 1].interval().end == segs[k].interval().start);
    }
}

/// Whatever the parts hold, the combined output holds each segment's bytes
/// at the segment's place: each part in full, of whatever length, where its
/// range stood, and each unedited interval of the source unchanged, moved by
/// how much the edits before it grew or shrank. The output is as much longer
/// than the source as the edits grew in total.
#[verifier::spinoff_prover]
pub proof fn lemma_replacement(src: Seq<u8>, parts: Seq<Seq<u8>>, rs: Seq<Range>)
    requires
        src.len() <= u64::MAX,
        rs.len() <= usize::MAX,
        ranges_fit(rs, src.len() as u64),
        parts.len() == rs.len(),
    ensures
        ({
            let segs = segments_of(rs, src.len() as u64);
            let out = merged(src, parts, segs);
            &&& out.len() == src.len() + growth(parts, segs)
            &&& forall|k: int| 0 <= k < segs.len() ==> {
                let p = (#[trigger] segs[k]).interval().start + growth(parts, segs.take(k));
                out.subrange(p, p + segment_bytes(src, parts, segs[k]).len())
                    == segment_bytes(src, parts, segs[k])
            }
        }),
{
    let len = src.len() as u64;
    let segs = segments_of(rs, len);
    let out = merged(src, parts, segs);
    lemma_partition_coverage(rs, len);
    assert forall|k: int| 0 <= k < segs.len() implies {
        let p = (#[trigger] segs[k]).interval().start + growth(parts, segs.take(k));
        out.subrange(p, p + segment_bytes(src, parts, segs[k]).len())
            == segment_bytes(src, parts, segs[k])
    } by {
        lemma_segment_position(src, parts, segs, len, k);
        assert(segs =~= segs.take(k) + seq![segs[k]] + segs.skip(k + 1));
        lemma_merged_concat(src, parts, segs.take(k) + seq![segs[k]], segs.skip(k + 1));
        lemma_merged_concat(src, parts, segs.take(k), seq![segs[k]]);
        lemma_merged_one(src, parts, segs[k]);
    }
    let last = segs.len() - 1;
    lemma_segment_position(src, parts, segs, len, last);
    assert(segs.take(last + 1) =~= segs);
    assert(segs.take(last + 1).drop_last() =~= segs.take(last));
    assert(segs[last].interval().wf());
}

proof fn lemma_segments_readable(rs: Seq<Range>, file_len: u64, n_parts: nat)
    requires
        ranges_fit(rs, file_len),
        rs.len() <= usize::MAX,
        rs.len() == n_parts,
    ensures
        segments_readable(segments_of(rs, file_len), file_len as nat, n_parts),
{
    let segs = segments_of(rs, file_len);
    lemma_partition_coverage(rs, file_len);
    assert forall|k: int| 0 <= k < segs.len() implies match #[trigger] segs[k] {
        Segment::Original(r) => r.wf() && r.end <= file_len,
        Segment::Edited(i, _) => i < n_parts,
    } by {
        lemma_contiguous_bounded(segs, 0, file_len, k);
    }
}

/// Why a combine of parts held in memory cannot go ahead.
#[derive(Clone, Copy, Debug, PartialEq, Eq, Structural)]
pub enum CombineError {
    /// The ranges cannot be combined against the source.
    Format(FormatError),
    /// There is not exactly one part for each range.
    PartCount,
}

/// Reads the bytes of every range out of `source`, as a split writes them to
/// the part files; `None` when a range is reversed or reaches past the end of
/// the source.
pub fn extract_parts(source: &Vec<u8>, ranges: &Vec<Range>) -> (r: Option<Vec<Vec<u8>>>)
    ensures
        r is Some <==> ranges_within(ranges@, source@.len()),
        r matches Some(p) ==> p.deep_view() == split_parts(source@, ranges@),
{
    let mut out: Vec<Vec<u8>> = Vec::new();
    let mut i: usize = 0;
    while i < ranges.len()
        invariant
            0 <= i <= ranges@.len(),
            out@.len() == i,
            ranges_within(ranges@.subrange(0, i as int), source@.len()),
            forall|j: int| 0 <= j < i ==> (#[trigger] out@[j])@ == range_bytes(source@, ranges@[j]),
        decreases ranges@.len() - i,
    {
        let r = ranges[i];
        if r.start > r.end || r.end > source.len() as u64 {
            assert(!ranges@[i as int].wf() || ranges@[i as int].end > source@.len());
            return None;
        }
        let mut buf: Vec<u8> = Vec::new();
        resize_buffer(&mut buf, (r.end - r.start) as usize);
        read_at(&mut buf, source, r.start);
        out.push(buf);
        assert(ranges@.subrange(0, i + 1) =~= ranges@.subrange(0, i as int).push(r));
        i = i + 1;
    }
    assert(ranges@.subrange(0, i as int) =~= ranges@);
    assert forall|j: int| 0 <= j < out@.len() implies out.deep_view()[j] == split_parts(
        source@,
        ranges@,
    )[j] by {
        assert(out.deep_view()[j] =~= out@[j]@);
    }
    assert(out.deep_view() =~= split_parts(source@, ranges@));
    Some(out)
}

/// Combines a source held in memory with one part per range: checks the
/// ranges, partitions the source and streams the segments.
pub fn combine_bytes(source: &Vec<u8>, parts: &Vec<Vec<u8>>, ranges: &Vec<Range>) -> (r: Result<Vec<u8>, CombineError>)
    ensures
        ({
            let len = source@.len() as u64;
            &&& r is Ok <==> ranges_fit(ranges@, len) && parts@.len() == ranges@.len()
            &&& r matches Ok(out) ==> out@ == merged(source@, parts.deep_view(), segments_of(ranges@, len))
            &&& r == Err::<Vec<u8>, CombineError>(CombineError::Format(FormatError::Unordered))
                <==> !sorted_ranges(ranges@)
            &&& r == Err::<Vec<u8>, CombineError>(CombineError::Format(FormatError::PastEnd))
                <==> sorted_ranges(ranges@) && last_end(ranges@) > len
            &&& r == Err::<Vec<u8>, CombineError>(CombineError::PartCount)
                <==> ranges_fit(ranges@, len) && parts@.len() != ranges@.len()
        }),
{
    let len = source.len() as u64;
    match check_ranges(ranges, len) {
        Err(e) => Err(CombineError::Format(e)),
        Ok(()) => {
            if parts.len() != ranges.len() {
                return Err(CombineError::PartCount);
            }
            let segments = partition(ranges, len);
            proof {
                lemma_segments_readable(ranges@, len, parts@.len());
            }
            Ok(merge(source, parts, &segments))
        },
    }
}

} // verus!
