use chunked_stats::ChunkSplitter;

fn split(data: &[u8], size: usize, block: usize) -> Vec<Vec<u8>> {
    let mut splitter = ChunkSplitter::new(size);
    let mut chunks = Vec::new();
    let mut from = 0;
    while from < data.len() {
        let to = if block == 0 { data.len() } else { (from + block).min(data.len()) };
        chunks.extend(splitter.push(&data[from..to]));
        from = to;
    }
    if let Some(last) = splitter.finish() {
        chunks.push(last);
    }
    chunks
}

fn sample() -> Vec<u8> {
    let mut data = Vec::new();
    for i in 0..200 {
        data.extend_from_slice(format!("station{};{}.{}\n", i % 17, i * 3 % 50, i % 10).as_bytes());
    }
    data
}

#[test]
fn chunks_rejoin_to_the_input() {
    let data = sample();
    for size in [0usize, 1, 2, 7, 13, 64, 100, 1000, 100000] {
        let chunks = split(&data, size, 0);
        assert_eq!(chunks.concat(), data);
    }
}

#[test]
fn every_chunk_but_the_last_ends_a_line_and_reaches_the_size() {
    let mut data = sample();
    data.extend_from_slice(b"tail;1.0");
    for size in [0usize, 1, 2, 7, 13, 64, 100, 1000] {
        let chunks = split(&data, size, 0);
        assert!(!chunks.is_empty());
        for chunk in &chunks[..chunks.len() - 1] {
            assert!(chunk.len() > size);
            assert_eq!(*chunk.last().unwrap(), b'\n');
            assert!(!chunk[size..chunk.len() - 1].contains(&b'\n'));
        }
        for chunk in &chunks {
            assert!(!chunk.is_empty());
        }
        assert_eq!(chunks.concat(), data);
    }
}

#[test]
fn block_size_does_not_change_the_chunks() {
    let data = sample();
    for size in [0usize, 5, 40, 333] {
        let whole = split(&data, size, 0);
        for block in [1usize, 2, 3, 16, 41, 500] {
            assert_eq!(split(&data, size, block), whole);
        }
    }
}

#[test]
fn exact_chunks_of_a_small_input() {
    let data = b"a;1.0\nb;2.0\nc;3.0\n";
    let chunks = split(data, 7, 0);
    assert_eq!(chunks, vec![b"a;1.0\nb;2.0\n".to_vec(), b"c;3.0\n".to_vec()]);
    let chunks = split(data, 0, 0);
    assert_eq!(chunks, vec![b"a;1.0\n".to_vec(), b"b;2.0\n".to_vec(), b"c;3.0\n".to_vec()]);
    let chunks = split(data, 5, 0);
    assert_eq!(chunks, vec![b"a;1.0\n".to_vec(), b"b;2.0\n".to_vec(), b"c;3.0\n".to_vec()]);
    let chunks = split(data, 6, 0);
    assert_eq!(chunks, vec![b"a;1.0\nb;2.0\n".to_vec(), b"c;3.0\n".to_vec()]);
    let chunks = split(data, 18, 0);
    assert_eq!(chunks, vec![data.to_vec()]);
}

#[test]
fn one_long_line_is_one_chunk() {
    let mut line = vec![b'k'; 5000];
    line.extend_from_slice(b";1.0\n");
    for size in [0usize, 1, 10, 4999, 5004, 5005, 6000] {
        for block in [0usize, 1, 7, 4096] {
            assert_eq!(split(&line, size, block), vec![line.clone()]);
        }
    }
}

#[test]
fn one_long_line_without_terminator_is_one_chunk() {
    let mut line = vec![b'k'; 300];
    line.extend_from_slice(b";1.0");
    for size in [0usize, 10, 1000] {
        assert_eq!(split(&line, size, 0), vec![line.clone()]);
        assert_eq!(split(&line, size, 9), vec![line.clone()]);
    }
}

#[test]
fn last_line_without_terminator_is_kept_once() {
    let data = b"a;1.0\nb;2.0\nc;3.0";
    let chunks = split(data, 3, 0);
    assert_eq!(chunks, vec![b"a;1.0\n".to_vec(), b"b;2.0\n".to_vec(), b"c;3.0".to_vec()]);
}

#[test]
fn empty_input_gives_no_chunk() {
    assert!(split(b"", 10, 0).is_empty());
    let mut splitter = ChunkSplitter::new(4);
    assert!(splitter.push(b"").is_empty());
    assert!(splitter.finish().is_none());
}

#[test]
fn pending_bytes_wait_for_their_terminator() {
    let mut splitter = ChunkSplitter::new(4);
    assert!(splitter.push(b"ab").is_empty());
    assert!(splitter.push(b"\ncd").is_empty());
    assert!(splitter.push(b"ef").is_empty());
    let chunks = splitter.push(b"\ngh\nij");
    assert_eq!(chunks, vec![b"ab\ncdef\n".to_vec()]);
    let chunks = splitter.push(b"kl\n\n");
    assert_eq!(chunks, vec![b"gh\nijkl\n".to_vec()]);
    assert_eq!(splitter.finish(), Some(b"\n".to_vec()));
}
