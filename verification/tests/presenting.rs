use chunked_stats::order::key_before;
use chunked_stats::{
    aggregate_all, compute_chunk, merge_results, render_result, sorted_entries, Aggregates,
    ChunkError, ChunkSplitter, RecordFault, Scheduler, Step,
};

fn keys_in_order(totals: &Aggregates) -> Vec<Vec<u8>> {
    sorted_entries(totals).iter().map(|(key, _)| (*key).clone()).collect()
}

#[test]
fn end_to_end_example() {
    let input = b"Paris;12.3\nParis;15.0\nOslo;-2.5\n";
    let totals = aggregate_all(input, 1 << 20).unwrap();
    assert_eq!(totals.len(), 2);
    let oslo = totals.get(b"Oslo").unwrap();
    assert_eq!((oslo.min(), oslo.mean(), oslo.max()), (-25, -25, -25));
    let paris = totals.get(b"Paris").unwrap();
    assert_eq!((paris.min(), paris.mean(), paris.max()), (123, 137, 150));
    assert_eq!(render_result(&totals), b"{Oslo=-2.5/-2.5/-2.5, Paris=12.3/13.7/15.0, }".to_vec());
}

#[test]
fn end_to_end_example_in_small_chunks() {
    let input = b"Paris;12.3\nParis;15.0\nOslo;-2.5\n";
    for size in [0usize, 1, 5, 11, 12, 22, 33, 34] {
        let totals = aggregate_all(input, size).unwrap();
        assert_eq!(
            render_result(&totals),
            b"{Oslo=-2.5/-2.5/-2.5, Paris=12.3/13.7/15.0, }".to_vec()
        );
    }
}

#[test]
fn empty_input_presents_empty_braces() {
    let totals = aggregate_all(b"", 1024).unwrap();
    assert_eq!(totals.len(), 0);
    assert_eq!(render_result(&totals), b"{}".to_vec());
    assert_eq!(render_result(&Aggregates::new()), b"{}".to_vec());
    assert_eq!(render_result(&compute_chunk(b"").unwrap()), b"{}".to_vec());
}

#[test]
fn keys_come_out_sorted() {
    let totals =
        compute_chunk(b"b;1.0\na;1.0\nab;1.0\n;1.0\nB;1.0\naa;1.0\nz;1.0\nZ\xc3\xbcrich;1.0\n")
            .unwrap();
    let keys = keys_in_order(&totals);
    let mut expected: Vec<Vec<u8>> = vec![
        b"b".to_vec(),
        b"a".to_vec(),
        b"ab".to_vec(),
        b"".to_vec(),
        b"B".to_vec(),
        b"aa".to_vec(),
        b"z".to_vec(),
        "Zürich".as_bytes().to_vec(),
    ];
    expected.sort();
    assert_eq!(keys, expected);
    assert_eq!(keys[0], b"".to_vec());
    assert_eq!(keys[1], b"B".to_vec());
}

#[test]
fn many_keys_come_out_sorted() {
    let mut input = Vec::new();
    let mut expected: Vec<String> = Vec::new();
    for i in 0..500u32 {
        let key = format!("k{}", i.wrapping_mul(2654435761) % 1000);
        input.extend_from_slice(format!("{};{}.{}\n", key, i % 90, i % 10).as_bytes());
        expected.push(key);
    }
    expected.sort();
    expected.dedup();
    let totals = aggregate_all(&input, 64).unwrap();
    let keys: Vec<String> =
        keys_in_order(&totals).into_iter().map(|k| String::from_utf8(k).unwrap()).collect();
    assert_eq!(keys, expected);
}

#[test]
fn sorted_entries_carry_their_stats() {
    let totals = compute_chunk(b"b;2.0\na;1.0\nb;4.0\n").unwrap();
    let items = sorted_entries(&totals);
    assert_eq!(items.len(), 2);
    assert_eq!(items[0].0.as_slice(), b"a");
    assert_eq!((items[0].1.min(), items[0].1.max(), items[0].1.count()), (10, 10, 1));
    assert_eq!(items[1].0.as_slice(), b"b");
    assert_eq!((items[1].1.min(), items[1].1.max(), items[1].1.count()), (20, 40, 2));
}

#[test]
fn key_order_is_lexicographic() {
    assert!(key_before(b"a", b"b"));
    assert!(!key_before(b"b", b"a"));
    assert!(!key_before(b"a", b"a"));
    assert!(key_before(b"", b"a"));
    assert!(!key_before(b"", b""));
    assert!(key_before(b"a", b"aa"));
    assert!(!key_before(b"aa", b"a"));
    assert!(key_before(b"Z", b"a"));
    assert!(key_before(b"ab", b"b"));
    assert!(key_before(b"a\x7f", b"a\x80"));
}

#[test]
fn renders_negative_means_and_small_values() {
    let totals = compute_chunk(b"x;-0.1\nx;0.0\ny;-12.3\ny;-15.0\nz;0.1\nz;0.2\n").unwrap();
    assert_eq!(
        render_result(&totals),
        b"{x=-0.1/-0.1/0.0, y=-15.0/-13.7/-12.3, z=0.1/0.2/0.2, }".to_vec()
    );
}

#[test]
fn chunk_size_does_not_change_the_result() {
    let mut input = Vec::new();
    for i in 0..300i64 {
        input.extend_from_slice(
            format!("city{};{}{}.{}\n", i % 23, if i % 3 == 0 { "-" } else { "" }, i % 70, i % 10)
                .as_bytes(),
        );
    }
    let reference = render_result(&compute_chunk(&input).unwrap());
    for size in [0usize, 1, 10, 100, 1000, 1 << 20] {
        assert_eq!(render_result(&aggregate_all(&input, size).unwrap()), reference);
    }
}

#[test]
fn fault_offset_is_counted_in_the_stream() {
    let input = b"a;1.0\nb;2.0\nc;3.0\nbroken\nd;4.0\n";
    for size in [0usize, 1, 6, 7, 13, 100] {
        assert_eq!(
            aggregate_all(input, size).unwrap_err(),
            ChunkError { offset: 18, fault: RecordFault::MissingSeparator }
        );
    }
    assert_eq!(
        aggregate_all(b"a;1.0\nb;2.0\nc;3.x", 4).unwrap_err(),
        ChunkError { offset: 12, fault: RecordFault::InvalidValue }
    );
}

#[test]
fn driven_by_the_scheduler_out_of_order() {
    let mut input = Vec::new();
    for i in 0..120i64 {
        input.extend_from_slice(format!("s{};{}.{}\n", i % 7, i % 40, i % 10).as_bytes());
    }
    let reference = render_result(&compute_chunk(&input).unwrap());
    let mut splitter = ChunkSplitter::new(50);
    let mut chunks = splitter.push(&input);
    chunks.extend(splitter.finish());
    chunks.reverse();
    let mut pool = Scheduler::new(3).unwrap();
    let mut running: Vec<(u64, Vec<u8>)> = Vec::new();
    let mut in_hand: Option<Vec<u8>> = None;
    let mut result = Aggregates::new();
    let mut most = 0;
    loop {
        match pool.next_step(in_hand.is_some()) {
            Step::ReadInput => match chunks.pop() {
                Some(chunk) => in_hand = Some(chunk),
                None => pool.close(),
            },
            Step::Start => {
                let ticket = pool.start_chunk().unwrap();
                running.push((ticket, in_hand.take().unwrap()));
            }
            Step::AwaitResult => {
                let (ticket, chunk) = running.pop().unwrap();
                let part = compute_chunk(&chunk).unwrap();
                assert!(pool.complete(ticket));
                assert_eq!(merge_results(&mut result, part), Ok(()));
            }
            Step::Present => break,
        }
        most = most.max(pool.in_flight());
        assert!(pool.in_flight() <= 3);
    }
    assert_eq!(most, 3);
    assert!(pool.is_finished());
    assert!(running.is_empty());
    assert_eq!(render_result(&result), reference);
}
