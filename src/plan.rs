use vstd::prelude::*;

use crate::range::Range;

verus! {

/// The record that a split writes and a combine reads: the source file's path
/// and the ranges taken out of it, part `i` holding range `i`.
#[derive(Clone, Debug)]
pub struct Manifest {
    pub path: String,
    pub ranges: Vec<Range>,
}

impl Manifest {
    pub fn new(path: String, ranges: Vec<Range>) -> (r: Manifest)
        ensures
            r.path@ == path@,
            r.ranges@ == ranges@,
    {
        Manifest { path, ranges }
    }

}

/// One piece of the output of a combine, in output order.
#[derive(Clone, Copy, Debug, PartialEq, Eq, Structural)]
pub enum Segment {
    /// Bytes copied verbatim from the source file.
    Original(Range),
    /// The range with this index in the manifest, whose content comes from its part file.
    Edited(usize, Range),
}

impl Segment {
    /// The interval of the source file that the segment stands for.
    pub open spec fn interval(self) -> Range {
        match self {
            Segment::Original(r) => r,
            Segment::Edited(_, r) => r,
        }
    }
}

/// Why a manifest cannot be combined.
#[derive(Clone, Copy, Debug, PartialEq, Eq, Structural)]
pub enum FormatError {
    /// A range is reversed, or does not start at or after the end of the one before it.
    Unordered,
    /// The last range ends past the end of the source file.
    PastEnd,
}

/// Every range is well formed and starts at or after the end of the one before it.
pub open spec fn sorted_ranges(rs: Seq<Range>) -> bool {
    &&& forall|i: int| 0 <= i < rs.len() ==> (#[trigger] rs[i]).wf()
    &&& forall|i: int| 0 < i < rs.len() ==> rs[i - 1].end <= (#[trigger] rs[i]).start
}

/// The end of the last range, or 0 when there is none.
pub open spec fn last_end(rs: Seq<Range>) -> u64 {
    if rs.len() == 0 {
        0
    } else {
        rs.last().end
    }
}

/// The ranges can be combined against a source file of `file_len` bytes.
pub open spec fn ranges_fit(rs: Seq<Range>, file_len: u64) -> bool {
    sorted_ranges(rs) && last_end(rs) <= file_len
}

/// The segments for the ranges, up to and including the last range: a gap
/// before each range that starts after the previous end, then the range.
pub open spec fn segments_upto(rs: Seq<Range>) -> Seq<Segment>
    decreases rs.len(),
{
    if rs.len() == 0 {
        Seq::empty()
    } else {
        let prev = rs.drop_last();
        let r = rs.last();
        let gap = if r.start > last_end(prev) {
            seq![Segment::Original(Range { start: last_end(prev), end: r.start })]
        } else {
            Seq::empty()
        };
        segments_upto(prev) + gap + seq![Segment::Edited((rs.len() - 1) as usize, r)]
    }
}

/// The full partition of a source file of `file_len` bytes: the segments of the
/// ranges, then the trailing gap up to the end of the file (possibly empty).
pub open spec fn segments_of(rs: Seq<Range>, file_len: u64) -> Seq<Segment> {
    segments_upto(rs).push(Segment::Original(Range { start: last_end(rs), end: file_len }))
}

/// The segments' intervals follow one another without gap or overlap, from
/// `from` to `to`, each well formed.
pub open spec fn contiguous(s: Seq<Segment>, from: u64, to: u64) -> bool {
    &&& s.len() > 0 ==> s[0].interval().start == from && s.last().interval().end == to
    &&& s.len() == 0 ==> from == to
    &&& forall|k: int| 0 <= k < s.len() ==> (#[trigger] s[k]).interval().wf()
    &&& forall|k: int| 0 < k < s.len() ==> s[k - 1].interval().end == (#[trigger] s[k]).interval().start
}

/// Each edited segment names a range of the manifest by its index and carries it.
pub open spec fn edits_match(s: Seq<Segment>, rs: Seq<Range>) -> bool {
    forall|k: int| 0 <= k < s.len() ==> match #[trigger] s[k] {
        Segment::Edited(i, r) => i < rs.len() && r == rs[i as int],
        Segment::Original(_) => true,
    }
}

#[verifier::rlimit(40)]
proof fn lemma_upto_contiguous(rs: Seq<Range>)
    requires
        sorted_ranges(rs),
        rs.len() <= usize::MAX,
    ensures
        contiguous(segments_upto(rs), 0, last_end(rs)),
        edits_match(segments_upto(rs), rs),
    decreases rs.len(),
{
    if rs.len() > 0 {
        let prev = rs.drop_last();
        let r = rs.last();
        lemma_sorted_drop_last(rs);
        lemma_upto_contiguous(prev);
        if prev.len() > 0 {
            assert(rs[rs.len() - 2].end <= rs[rs.len() - 1].start);
        }
        assert(rs[rs.len() - 1].wf());
        let sp = segments_upto(prev);
        let e = Segment::Edited((rs.len() - 1) as usize, r);
        let tail = if r.start > last_end(prev) {
            seq![Segment::Original(Range { start: last_end(prev), end: r.start }), e]
        } else {
            seq![e]
        };
        let s = segments_upto(rs);
        assert(s =~= sp + tail);
        assert(contiguous(tail, last_end(prev), r.end));
        assert(edits_match(tail, rs));
        lemma_concat_contiguous(sp, tail, 0, last_end(prev), r.end, rs);
    }
}

proof fn lemma_concat_contiguous(a: Seq<Segment>, b: Seq<Segment>, x: u64, y: u64, z: u64, rs: Seq<Range>)
    requires
        contiguous(a, x, y),
        contiguous(b, y, z),
        edits_match(a, rs),
        edits_match(b, rs),
    ensures
        contiguous(a + b, x, z),
        edits_match(a + b, rs),
{
    let s = a + b;
    assert forall|k: int| 0 <= k < s.len() implies match #[trigger] s[k] {
        Segment::Edited(i, r) => i < rs.len() && r == rs[i as int],
        Segment::Original(_) => true,
    } by {
        if k < a.len() {
            assert(s[k] == a[k]);
        } else {
            assert(s[k] == b[k - a.len()]);
        }
    }
    assert forall|k: int| 0 <= k < s.len() implies (#[trigger] s[k]).interval().wf() by {
        if k < a.len() {
            assert(s[k] == a[k]);
        } else {
            assert(s[k] == b[k - a.len()]);
        }
    }
    assert forall|k: int| 0 < k < s.len() implies s[k - 1].interval().end == (
    #[trigger] s[k]).interval().start by {
        if k < a.len() {
            assert(s[k] == a[k]);
            assert(s[k - 1] == a[k - 1]);
        } else if k == a.len() {
            assert(s[k] == b[0]);
            assert(s[k - 1] == a[k - 1]);
        } else {
            assert(s[k] == b[k - a.len()]);
            assert(s[k - 1] == b[k - 1 - a.len()]);
        }
    }
    if a.len() == 0 {
        assert(s =~= b);
    } else if b.len() == 0 {
        assert(s =~= a);
    } else {
        assert(s[0] == a[0]);
        assert(s.last() == b.last());
    }
}

pub(crate) proof fn lemma_sorted_drop_last(rs: Seq<Range>)
    requires
        sorted_ranges(rs),
        rs.len() > 0,
    ensures
        sorted_ranges(rs.drop_last()),
        last_end(rs.drop_last()) <= rs.last().start,
        rs.last().wf(),
{
    let prev = rs.drop_last();
    assert forall|i: int| 0 < i < prev.len() implies prev[i - 1].end <= (
    #[trigger] prev[i]).start by {
        assert(rs[i - 1].end <= rs[i].start);
    }
    if prev.len() > 0 {
        assert(rs[rs.len() - 2].end <= rs[rs.len() - 1].start);
    }
    assert(rs[rs.len() - 1].wf());
}

/// Every segment of a contiguous run ends at or before the run's end.
pub(crate) proof fn lemma_contiguous_bounded(s: Seq<Segment>, from: u64, to: u64, k: int)
    requires
        contiguous(s, from, to),
        0 <= k < s.len(),
    ensures
        s[k].interval().end <= to,
    decreases s.len() - k,
{
    if k < s.len() - 1 {
        lemma_contiguous_bounded(s, from, to, k + 1);
        assert(s[k + 1].interval().wf());
    }
}

/// For ranges that fit a source file of `file_len` bytes, the derived segments
/// cover `[0, file_len)` exactly once, in order: they start at 0, each begins
/// where the one before ends, none is reversed, and the last ends at
/// `file_len`. Each edited segment carries the manifest range that it names.
pub proof fn lemma_partition_coverage(rs: Seq<Range>, file_len: u64)
    requires
        ranges_fit(rs, file_len),
        rs.len() <= usize::MAX,
    ensures
        contiguous(segments_of(rs, file_len), 0, file_len),
        edits_match(segments_of(rs, file_len), rs),
{
    lemma_upto_contiguous(rs);
    let tail = seq![Segment::Original(Range { start: last_end(rs), end: file_len })];
    assert(segments_of(rs, file_len) =~= segments_upto(rs) + tail);
    assert(contiguous(tail, last_end(rs), file_len));
    lemma_concat_contiguous(segments_upto(rs), tail, 0, last_end(rs), file_len, rs);
}

/// Builds the segment list by one scan over the ranges in stored order,
/// followed by the trailing gap up to `file_len`.
pub fn partition(ranges: &Vec<Range>, file_len: u64) -> (r: Vec<Segment>)
    ensures
        r@ == segments_of(ranges@, file_len),
{
    let mut out: Vec<Segment> = Vec::new();
    let mut last: u64 = 0;
    let mut i: usize = 0;
    while i < ranges.len()
        invariant
            0 <= i <= ranges@.len(),
            out@ == segments_upto(ranges@.subrange(0, i as int)),
            last == last_end(ranges@.subrange(0, i as int)),
        decreases ranges@.len() - i,
    {
        let r = ranges[i];
        let ghost pre = ranges@.subrange(0, i as int);
        assert(ranges@.subrange(0, i + 1).drop_last() =~= pre);
        if r.start > last {
            out.push(Segment::Original(Range { start: last, end: r.start }));
        }
        out.push(Segment::Edited(i, r));
        last = r.end;
        i = i + 1;
        proof {
            let cur = ranges@.subrange(0, i as int);
            assert(cur.last() == r);
            let gap = if r.start > last_end(pre) {
                seq![Segment::Original(Range { start: last_end(pre), end: r.start })]
            } else {
                Seq::<Segment>::empty()
            };
            assert(out@ =~= segments_upto(pre) + gap + seq![Segment::Edited((i - 1) as usize, r)]);
        }
    }
    assert(ranges@.subrange(0, i as int) =~= ranges@);
    out.push(Segment::Original(Range { start: last, end: file_len }));
    out
}

/// Checks that the ranges can be combined against a source file of
/// `file_len` bytes.
pub fn check_ranges(ranges: &Vec<Range>, file_len: u64) -> (r: Result<(), FormatError>)
    ensures
        r is Ok <==> ranges_fit(ranges@, file_len),
        r == Err::<(), FormatError>(FormatError::Unordered) <==> !sorted_ranges(ranges@),
        r == Err::<(), FormatError>(FormatError::PastEnd) <==> sorted_ranges(ranges@)
            && last_end(ranges@) > file_len,
{
    let mut i: usize = 0;
    let mut last: u64 = 0;
    while i < ranges.len()
        invariant
            0 <= i <= ranges@.len(),
            sorted_ranges(ranges@.subrange(0, i as int)),
            last == last_end(ranges@.subrange(0, i as int)),
        decreases ranges@.len() - i,
    {
        let r = ranges[i];
        let ghost pre = ranges@.subrange(0, i as int);
        if r.start > r.end {
            assert(!ranges@[i as int].wf());
            return Err(FormatError::Unordered);
        }
        if i > 0 && r.start < last {
            assert(ranges@[i - 1].end > ranges@[i as int].start);
            return Err(FormatError::Unordered);
        }
        let ghost cur = ranges@.subrange(0, i + 1);
        assert(sorted_ranges(cur)) by {
            assert forall|j: int| 0 <= j < cur.len() implies (#[trigger] cur[j]).wf() by {
                if j < i {
                    assert(cur[j] == pre[j]);
                }
            }
            assert forall|j: int| 0 < j < cur.len() implies cur[j - 1].end <= (
            #[trigger] cur[j]).start by {
                if j < i {
                    assert(cur[j] == pre[j]);
                }
                assert(cur[j - 1] == pre[j - 1]);
            }
        }
        last = r.end;
        i = i + 1;
    }
    assert(ranges@.subrange(0, i as int) =~= ranges@);
    if last > file_len {
        return Err(FormatError::PastEnd);
    }
    Ok(())
}

/// The segments to stream for a combine against a source file of `file_len`
/// bytes, or why the ranges cannot be combined.
pub fn plan_segments(ranges: &Vec<Range>, file_len: u64) -> (r: Result<Vec<Segment>, FormatError>)
    ensures
        ranges_fit(ranges@, file_len) ==> (r matches Ok(s) && s@ == segments_of(ranges@, file_len)),
        r == Err::<Vec<Segment>, FormatError>(FormatError::Unordered) <==> !sorted_ranges(ranges@),
        r == Err::<Vec<Segment>, FormatError>(FormatError::PastEnd) <==> sorted_ranges(ranges@)
            && last_end(ranges@) > file_len,
{
    match check_ranges(ranges, file_len) {
        Ok(()) => Ok(partition(ranges, file_len)),
        Err(e) => Err(e),
    }
}

} // verus!
