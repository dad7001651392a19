use edit_chunks::plan::{partition, plan_segments, FormatError, Manifest, Segment};
use edit_chunks::range::Range;
use edit_chunks::stream::{
    chunk_plan, combine_bytes, extract_parts, merge, resize_buffer, Chunk, CombineError,
    CHUNK_SIZE,
};

fn source(n: usize) -> Vec<u8> {
    (0..n).map(|i| (i % 251) as u8).collect()
}

fn r(start: u64, end: u64) -> Range {
    Range { start, end }
}

#[test]
fn scenario_split_edit_combine() {
    let src = source(100);
    let ranges = vec![r(10, 20), r(50, 60)];
    let m = Manifest::new(String::from("f"), ranges.clone());
    assert_eq!(m.ranges, ranges);
    let mut parts = extract_parts(&src, &ranges).unwrap();
    assert_eq!(parts.len(), 2);
    assert_eq!(parts[0], src[10..20].to_vec());
    assert_eq!(parts[1], src[50..60].to_vec());
    parts[0] = vec![1, 2, 3, 4, 5];
    let out = combine_bytes(&src, &parts, &ranges).unwrap();
    assert_eq!(out.len(), 95);
    assert_eq!(out[0..10], src[0..10]);
    assert_eq!(out[10..15], [1, 2, 3, 4, 5]);
    assert_eq!(out[15..45], src[20..50]);
    assert_eq!(out[45..55], src[50..60]);
    assert_eq!(out[55..95], src[60..100]);
}

#[test]
fn scenario_partition() {
    let segs = partition(&vec![r(10, 20), r(50, 60)], 100);
    assert_eq!(
        segs,
        vec![
            Segment::Original(r(0, 10)),
            Segment::Edited(0, r(10, 20)),
            Segment::Original(r(20, 50)),
            Segment::Edited(1, r(50, 60)),
            Segment::Original(r(60, 100)),
        ]
    );
}

#[test]
fn partition_adjacent_and_leading_ranges() {
    let segs = partition(&vec![r(0, 5), r(5, 10)], 10);
    assert_eq!(
        segs,
        vec![
            Segment::Edited(0, r(0, 5)),
            Segment::Edited(1, r(5, 10)),
            Segment::Original(r(10, 10)),
        ]
    );
}

#[test]
fn partition_without_ranges() {
    assert_eq!(partition(&vec![], 42), vec![Segment::Original(r(0, 42))]);
}

#[test]
fn partition_covers_file() {
    let segs = partition(&vec![r(3, 7), r(7, 7), r(20, 30)], 50);
    let mut pos = 0;
    for s in &segs {
        let iv = match s {
            Segment::Original(iv) => iv,
            Segment::Edited(_, iv) => iv,
        };
        assert_eq!(iv.start, pos);
        assert!(iv.start <= iv.end);
        pos = iv.end;
    }
    assert_eq!(pos, 50);
}

#[test]
fn round_trip_unmodified() {
    let src = source(300);
    for ranges in [
        vec![],
        vec![r(0, 300)],
        vec![r(0, 0), r(10, 20), r(20, 299)],
        vec![r(5, 6), r(100, 200), r(300, 300)],
    ] {
        let parts = extract_parts(&src, &ranges).unwrap();
        assert_eq!(combine_bytes(&src, &parts, &ranges).unwrap(), src);
    }
}

#[test]
fn replacement_with_empty_and_larger_parts() {
    let src = source(40);
    let ranges = vec![r(5, 10), r(20, 25)];
    let parts = vec![vec![], vec![9u8; 12]];
    let out = combine_bytes(&src, &parts, &ranges).unwrap();
    assert_eq!(out.len(), 40 - 5 + 7);
    assert_eq!(out[0..5], src[0..5]);
    assert_eq!(out[5..15], src[10..20]);
    assert_eq!(out[15..27], [9u8; 12]);
    assert_eq!(out[27..42], src[25..40]);
}

#[test]
fn combine_rejects_unordered_ranges() {
    let src = source(40);
    let parts = vec![vec![], vec![]];
    assert_eq!(
        combine_bytes(&src, &parts, &vec![r(20, 25), r(5, 10)]),
        Err(CombineError::Format(FormatError::Unordered))
    );
    assert_eq!(
        combine_bytes(&src, &parts, &vec![r(5, 10), r(8, 12)]),
        Err(CombineError::Format(FormatError::Unordered))
    );
    assert_eq!(
        plan_segments(&vec![r(10, 5)], 40),
        Err(FormatError::Unordered)
    );
}

#[test]
fn combine_rejects_range_past_end() {
    let src = source(40);
    assert_eq!(
        combine_bytes(&src, &vec![vec![]], &vec![r(30, 41)]),
        Err(CombineError::Format(FormatError::PastEnd))
    );
}

#[test]
fn combine_rejects_missing_part() {
    let src = source(40);
    assert_eq!(
        combine_bytes(&src, &vec![vec![]], &vec![r(1, 2), r(3, 4)]),
        Err(CombineError::PartCount)
    );
}

#[test]
fn split_rejects_short_source() {
    let src = source(10);
    assert_eq!(extract_parts(&src, &vec![r(5, 11)]), None);
    assert_eq!(extract_parts(&src, &vec![r(6, 5)]), None);
    assert_eq!(extract_parts(&src, &vec![r(10, 10)]), Some(vec![vec![]]));
}

#[test]
fn chunk_plan_sizes() {
    let cs = CHUNK_SIZE as u64;
    assert_eq!(chunk_plan(r(7, 7)), vec![]);
    assert_eq!(chunk_plan(r(7, 8)), vec![Chunk { offset: 7, len: 1 }]);
    assert_eq!(chunk_plan(r(0, cs - 1)), vec![Chunk { offset: 0, len: CHUNK_SIZE - 1 }]);
    assert_eq!(chunk_plan(r(0, cs)), vec![Chunk { offset: 0, len: CHUNK_SIZE }]);
    assert_eq!(
        chunk_plan(r(0, cs + 1)),
        vec![Chunk { offset: 0, len: CHUNK_SIZE }, Chunk { offset: cs, len: 1 }]
    );
    let ten = chunk_plan(r(3, 3 + 10 * cs));
    assert_eq!(ten.len(), 10);
    for (k, c) in ten.iter().enumerate() {
        assert_eq!(*c, Chunk { offset: 3 + k as u64 * cs, len: CHUNK_SIZE });
    }
}

#[test]
fn chunked_copy_matches_source() {
    let n = CHUNK_SIZE + 1;
    let src = source(n + 2);
    for len in [0usize, 1, CHUNK_SIZE - 1, CHUNK_SIZE, CHUNK_SIZE + 1] {
        let segs = vec![Segment::Original(r(1, 1 + len as u64))];
        let out = merge(&src, &vec![], &segs);
        assert_eq!(out.len(), len);
        assert!(out[..] == src[1..1 + len]);
    }
}

#[test]
fn resize_buffer_grows_and_truncates() {
    let mut buf = vec![1u8, 2, 3];
    resize_buffer(&mut buf, 5);
    assert_eq!(buf, vec![1, 2, 3, 0, 0]);
    resize_buffer(&mut buf, 2);
    assert_eq!(buf, vec![1, 2]);
    resize_buffer(&mut buf, 2);
    assert_eq!(buf, vec![1, 2]);
    resize_buffer(&mut buf, 0);
    assert!(buf.is_empty());
}

#[test]
fn single_replacement_keeps_prefix_and_suffix() {
    let src = source(64);
    let ranges = vec![r(4, 8), r(16, 24), r(40, 41)];
    for c in [vec![], vec![7u8; 3], vec![8u8; 30]] {
        let mut parts = extract_parts(&src, &ranges).unwrap();
        parts[1] = c.clone();
        let out = combine_bytes(&src, &parts, &ranges).unwrap();
        let mut expected = src[0..16].to_vec();
        expected.extend_from_slice(&c);
        expected.extend_from_slice(&src[24..64]);
        assert_eq!(out.len(), 64 - 8 + c.len());
        assert_eq!(out, expected);
    }
}
