use chunked_stats::{
    compute_chunk, merge_results, Aggregates, ChunkError, CountOverflow, RecordFault, Stats,
};

fn stats_of(totals: &Aggregates, key: &[u8]) -> (i64, i64, i128, u64) {
    let s = totals.get(key).unwrap();
    (s.min(), s.max(), s.sum(), s.count())
}

fn same(a: &Aggregates, b: &Aggregates) -> bool {
    if a.len() != b.len() {
        return false;
    }
    for (key, stats) in a.entries() {
        match b.get(key) {
            Some(other) => {
                if (stats.min(), stats.max(), stats.sum(), stats.count())
                    != (other.min(), other.max(), other.sum(), other.count())
                {
                    return false;
                }
            }
            None => return false,
        }
    }
    true
}

fn merged(parts: &[&[u8]]) -> Aggregates {
    let mut result = Aggregates::new();
    for part in parts {
        let chunk = compute_chunk(part).unwrap();
        assert_eq!(merge_results(&mut result, chunk), Ok(()));
    }
    result
}

#[test]
fn single_value_stats() {
    let s = Stats::single(-25);
    assert_eq!((s.min(), s.max(), s.sum(), s.count()), (-25, -25, -25, 1));
    assert_eq!(s.mean(), -25);
}

#[test]
fn absorb_updates_all_four() {
    let s = Stats::single(123).absorb(150).unwrap();
    assert_eq!((s.min(), s.max(), s.sum(), s.count()), (123, 150, 273, 2));
    let s = s.absorb(-40).unwrap();
    assert_eq!((s.min(), s.max(), s.sum(), s.count()), (-40, 150, 233, 3));
}

#[test]
fn combine_is_elementwise() {
    let a = Stats::single(5).absorb(9).unwrap();
    let b = Stats::single(-3).absorb(7).unwrap().absorb(1).unwrap();
    let c = a.combine(&b).unwrap();
    assert_eq!((c.min(), c.max(), c.sum(), c.count()), (-3, 9, 19, 5));
    let d = b.combine(&a).unwrap();
    assert_eq!((d.min(), d.max(), d.sum(), d.count()), (-3, 9, 19, 5));
}

#[test]
fn mean_rounds_to_nearest_tie_away_from_zero() {
    let s = Stats::single(123).absorb(150).unwrap();
    assert_eq!(s.mean(), 137);
    let s = Stats::single(-123).absorb(-150).unwrap();
    assert_eq!(s.mean(), -137);
    let s = Stats::single(1).absorb(2).unwrap().absorb(2).unwrap();
    assert_eq!(s.mean(), 2);
    let s = Stats::single(1).absorb(1).unwrap().absorb(2).unwrap();
    assert_eq!(s.mean(), 1);
    let s = Stats::single(-1).absorb(0).unwrap();
    assert_eq!(s.mean(), -1);
    let s = Stats::single(0).absorb(1).unwrap();
    assert_eq!(s.mean(), 1);
    let s = Stats::single(-1).absorb(1).unwrap();
    assert_eq!(s.mean(), 0);
}

#[test]
fn mean_at_the_ends_of_the_range() {
    let s = Stats::single(i64::MAX).absorb(i64::MAX).unwrap();
    assert_eq!(s.mean(), i64::MAX);
    assert_eq!(s.sum(), 2 * (i64::MAX as i128));
    let s = Stats::single(i64::MIN).absorb(i64::MIN).unwrap();
    assert_eq!(s.mean(), i64::MIN);
    let s = Stats::single(i64::MIN).absorb(i64::MAX).unwrap();
    assert_eq!(s.sum(), -1);
    assert_eq!(s.mean(), -1);
}

#[test]
fn count_overflow_in_combine() {
    let mut s = Stats::single(1);
    for _ in 0..63 {
        s = s.combine(&s).unwrap();
    }
    assert_eq!(s.count(), 1u64 << 63);
    assert_eq!(s.sum(), 1i128 << 63);
    assert!(s.combine(&s).is_none());
    assert!(s.absorb(1).is_some());
    let mut rest = Stats::single(-1);
    for _ in 0..62 {
        rest = rest.combine(&rest).unwrap();
    }
    let mut full = s.combine(&rest).unwrap();
    let mut step = Stats::single(0);
    for _ in 0..62 {
        full = full.combine(&step).unwrap();
        step = step.combine(&step).unwrap();
    }
    assert_eq!(full.count(), u64::MAX);
    assert_eq!(full.sum(), 1i128 << 62);
    assert_eq!((full.min(), full.max()), (-1, 1));
    assert!(full.absorb(5).is_none());
    assert!(full.combine(&Stats::single(5)).is_none());
}

#[test]
fn empty_mapping() {
    let totals = Aggregates::new();
    assert_eq!(totals.len(), 0);
    assert!(totals.get(b"Paris").is_none());
    assert!(totals.entries().is_empty());
}

#[test]
fn record_inserts_then_updates() {
    let mut totals = Aggregates::new();
    assert!(totals.record(b"Oslo", -25));
    assert_eq!(totals.len(), 1);
    assert_eq!(stats_of(&totals, b"Oslo"), (-25, -25, -25, 1));
    assert!(totals.record(b"Oslo", 10));
    assert_eq!(totals.len(), 1);
    assert_eq!(stats_of(&totals, b"Oslo"), (-25, 10, -15, 2));
    assert!(totals.record(b"Paris", 123));
    assert_eq!(totals.len(), 2);
    assert_eq!(stats_of(&totals, b"Paris"), (123, 123, 123, 1));
    assert_eq!(stats_of(&totals, b"Oslo"), (-25, 10, -15, 2));
    assert!(totals.get(b"Osl").is_none());
}

#[test]
fn merge_one_combines_or_inserts() {
    let mut totals = Aggregates::new();
    let a = Stats::single(5).absorb(9).unwrap();
    assert!(totals.merge_one(b"k", &a));
    assert_eq!(stats_of(&totals, b"k"), (5, 9, 14, 2));
    let b = Stats::single(-1);
    assert!(totals.merge_one(b"k", &b));
    assert_eq!(stats_of(&totals, b"k"), (-1, 9, 13, 3));
}

#[test]
fn entries_list_every_key_once() {
    let mut totals = Aggregates::new();
    for key in [&b"a"[..], b"b", b"c", b"a", b"b", b"a"] {
        assert!(totals.record(key, 1));
    }
    let mut seen: Vec<(Vec<u8>, u64)> =
        totals.entries().iter().map(|(k, s)| ((*k).clone(), s.count())).collect();
    seen.sort();
    assert_eq!(seen, vec![(b"a".to_vec(), 3), (b"b".to_vec(), 2), (b"c".to_vec(), 1)]);
    assert_eq!(totals.len(), 3);
}

#[test]
fn chunk_of_three_records() {
    let totals = compute_chunk(b"Paris;12.3\nParis;15.0\nOslo;-2.5\n").unwrap();
    assert_eq!(totals.len(), 2);
    assert_eq!(stats_of(&totals, b"Paris"), (123, 150, 273, 2));
    assert_eq!(stats_of(&totals, b"Oslo"), (-25, -25, -25, 1));
    assert_eq!(totals.get(b"Paris").unwrap().mean(), 137);
    assert_eq!(totals.get(b"Oslo").unwrap().mean(), -25);
}

#[test]
fn empty_chunk() {
    let totals = compute_chunk(b"").unwrap();
    assert_eq!(totals.len(), 0);
}

#[test]
fn last_line_without_terminator_counts() {
    let totals = compute_chunk(b"a;1.0\nb;2.0").unwrap();
    assert_eq!(totals.len(), 2);
    assert_eq!(stats_of(&totals, b"b"), (20, 20, 20, 1));
    let totals = compute_chunk(b"a;1.0").unwrap();
    assert_eq!(stats_of(&totals, b"a"), (10, 10, 10, 1));
}

#[test]
fn key_may_hold_the_separator() {
    let totals = compute_chunk(b"a;b;1.0\na;b;3.0\na;2.0\n").unwrap();
    assert_eq!(totals.len(), 2);
    assert_eq!(stats_of(&totals, b"a;b"), (10, 30, 40, 2));
    assert_eq!(stats_of(&totals, b"a"), (20, 20, 20, 1));
}

#[test]
fn chunk_error_names_offset_and_fault() {
    assert_eq!(
        compute_chunk(b"a;1.0\nbroken\nc;3.0\n").unwrap_err(),
        ChunkError { offset: 6, fault: RecordFault::MissingSeparator }
    );
    assert_eq!(
        compute_chunk(b"a;1.0\nb;2.0\nc;x.0\n").unwrap_err(),
        ChunkError { offset: 12, fault: RecordFault::InvalidValue }
    );
    assert_eq!(
        compute_chunk(b"\xff;1.0\n").unwrap_err(),
        ChunkError { offset: 0, fault: RecordFault::InvalidKey }
    );
    assert_eq!(
        compute_chunk(b"a;1.0\nb;99999999999999999999.0").unwrap_err(),
        ChunkError { offset: 6, fault: RecordFault::ValueOutOfRange }
    );
}

#[test]
fn first_fault_wins() {
    assert_eq!(
        compute_chunk(b"a;1.0\nb;zz\nnosep\n").unwrap_err(),
        ChunkError { offset: 6, fault: RecordFault::InvalidValue }
    );
}

#[test]
fn empty_line_is_a_fault() {
    assert_eq!(
        compute_chunk(b"a;1.0\n\nb;2.0\n").unwrap_err(),
        ChunkError { offset: 6, fault: RecordFault::MissingSeparator }
    );
    assert_eq!(
        compute_chunk(b"\n").unwrap_err(),
        ChunkError { offset: 0, fault: RecordFault::MissingSeparator }
    );
}

#[test]
fn carriage_return_is_part_of_the_value() {
    assert_eq!(
        compute_chunk(b"a;1.0\r\n").unwrap_err(),
        ChunkError { offset: 0, fault: RecordFault::InvalidValue }
    );
}

#[test]
fn merge_inserts_new_keys_and_updates_known_ones() {
    let mut result = compute_chunk(b"Paris;12.3\nOslo;-2.5\n").unwrap();
    let chunk = compute_chunk(b"Paris;15.0\nRome;20.0\nParis;-1.0\n").unwrap();
    assert_eq!(merge_results(&mut result, chunk), Ok(()));
    assert_eq!(result.len(), 3);
    assert_eq!(stats_of(&result, b"Paris"), (-10, 150, 263, 3));
    assert_eq!(stats_of(&result, b"Oslo"), (-25, -25, -25, 1));
    assert_eq!(stats_of(&result, b"Rome"), (200, 200, 200, 1));
}

#[test]
fn merge_with_empty_changes_nothing() {
    let mut result = compute_chunk(b"Paris;12.3\n").unwrap();
    assert_eq!(merge_results(&mut result, Aggregates::new()), Ok(()));
    assert_eq!(result.len(), 1);
    assert_eq!(stats_of(&result, b"Paris"), (123, 123, 123, 1));
    let mut empty = Aggregates::new();
    assert_eq!(merge_results(&mut empty, result), Ok(()));
    assert_eq!(stats_of(&empty, b"Paris"), (123, 123, 123, 1));
}

#[test]
fn merge_order_does_not_matter() {
    let a: &[u8] = b"Paris;12.3\nOslo;-2.5\nRome;30.1\n";
    let b: &[u8] = b"Paris;15.0\nOslo;-7.5\n";
    let c: &[u8] = b"Lima;18.2\nParis;-3.3\nRome;30.0\n";
    let reference = merged(&[a, b, c]);
    assert_eq!(stats_of(&reference, b"Paris"), (-33, 150, 240, 3));
    assert_eq!(stats_of(&reference, b"Oslo"), (-75, -25, -100, 2));
    assert_eq!(stats_of(&reference, b"Rome"), (300, 301, 601, 2));
    assert_eq!(stats_of(&reference, b"Lima"), (182, 182, 182, 1));
    for order in [[a, c, b], [b, a, c], [b, c, a], [c, a, b], [c, b, a]] {
        assert!(same(&merged(&order), &reference));
    }
}

#[test]
fn partition_does_not_matter() {
    let whole: &[u8] = b"a;1.0\nb;2.0\na;3.0\nc;-4.0\nb;5.5\na;-0.1\n";
    let reference = compute_chunk(whole).unwrap();
    let cuts: [&[usize]; 4] = [&[6], &[12, 25], &[6, 12, 18, 25, 31], &[18]];
    for cut in cuts {
        let mut parts: Vec<&[u8]> = Vec::new();
        let mut from = 0;
        for &at in cut {
            parts.push(&whole[from..at]);
            from = at;
        }
        parts.push(&whole[from..]);
        assert!(same(&merged(&parts), &reference));
        parts.reverse();
        assert!(same(&merged(&parts), &reference));
    }
}

#[test]
fn merge_refuses_count_overflow_and_keeps_the_result() {
    let mut big = Stats::single(1);
    for _ in 0..63 {
        big = big.combine(&big).unwrap();
    }
    let mut result = Aggregates::new();
    assert!(result.merge_one(b"k", &big));
    assert!(result.record(b"other", 7));
    let mut chunk = Aggregates::new();
    assert!(chunk.record(b"fresh", 3));
    assert!(chunk.merge_one(b"k", &big));
    assert_eq!(merge_results(&mut result, chunk), Err(CountOverflow));
    assert_eq!(result.len(), 2);
    assert!(result.get(b"fresh").is_none());
    assert_eq!(stats_of(&result, b"k"), (1, 1, 1i128 << 63, 1u64 << 63));
    assert_eq!(stats_of(&result, b"other"), (7, 7, 7, 1));
}

#[test]
fn record_refuses_count_overflow() {
    let mut big = Stats::single(1);
    for _ in 0..63 {
        big = big.combine(&big).unwrap();
    }
    let mut rest = Stats::single(1);
    let mut totals = Aggregates::new();
    assert!(totals.merge_one(b"k", &big));
    for _ in 0..63 {
        assert!(totals.merge_one(b"k", &rest));
        rest = rest.combine(&rest).unwrap();
    }
    assert_eq!(totals.get(b"k").unwrap().count(), u64::MAX);
    assert!(!totals.record(b"k", 1));
    assert_eq!(totals.get(b"k").unwrap().count(), u64::MAX);
    assert!(totals.record(b"j", 1));
}
