use train::{assemble_into, append_fragment, partition, stream_fragments, write_chunk, ChunkResult};

fn content(n: usize) -> Vec<u8> {
    (0..n).map(|i| (i % 251) as u8).collect()
}

fn parts_for(content: &[u8], chunk: usize) -> Vec<ChunkResult> {
    partition(content.len(), chunk)
        .iter()
        .map(|r| ChunkResult { start: r.start, data: content[r.start..=r.end].to_vec() })
        .collect()
}

#[test]
fn write_chunk_places_bytes_at_offset() {
    let mut file = vec![0u8; 10];
    let part = ChunkResult { start: 3, data: vec![7, 8, 9] };
    write_chunk(&mut file, &part);
    assert_eq!(file, vec![0, 0, 0, 7, 8, 9, 0, 0, 0, 0]);
}

#[test]
fn reassembly_concrete_scenario() {
    // 100 bytes, chunk size 30: four chunks fetched, the final file is the
    // source content, byte for byte.
    let src = content(100);
    let parts = parts_for(&src, 30);
    assert_eq!(parts.len(), 4);
    let mut file = vec![0u8; 100];
    assemble_into(&mut file, &parts);
    assert_eq!(file, src);
}

#[test]
fn reassembly_is_order_independent() {
    let src = content(100);
    let parts = parts_for(&src, 30);
    let mut in_order = vec![0u8; 100];
    assemble_into(&mut in_order, &parts);

    for perm in [[3usize, 0, 2, 1], [1, 3, 0, 2], [2, 1, 3, 0]] {
        let shuffled: Vec<ChunkResult> = perm
            .iter()
            .map(|&i| ChunkResult { start: parts[i].start, data: parts[i].data.clone() })
            .collect();
        let mut out = vec![0u8; 100];
        assemble_into(&mut out, &shuffled);
        assert_eq!(out, in_order);
        assert_eq!(out, src);
    }
}

#[test]
fn rerun_produces_identical_file() {
    // Two runs against the same unchanged content and size: byte-identical
    // output, even when the chunking differs between runs.
    let src = content(100);
    let mut first = vec![0u8; 100];
    assemble_into(&mut first, &parts_for(&src, 30));
    let mut second = vec![0u8; 100];
    assemble_into(&mut second, &parts_for(&src, 40));
    assert_eq!(first, second);
    assert_eq!(first, src);
}

#[test]
fn append_fragment_appends() {
    let mut file = vec![1u8, 2];
    append_fragment(&mut file, &[3, 4, 5]);
    assert_eq!(file, vec![1, 2, 3, 4, 5]);
}

#[test]
fn stream_fragments_joins_the_body() {
    // The fallback path: however the body arrives in reads, the file holds
    // exactly the joined body.
    let mut file: Vec<u8> = Vec::new();
    let frags = vec![b"hel".to_vec(), b"".to_vec(), b"lo ".to_vec(), b"world".to_vec()];
    stream_fragments(&mut file, &frags);
    assert_eq!(file, b"hello world".to_vec());
}

#[test]
fn stream_no_fragments_writes_nothing() {
    let mut file: Vec<u8> = Vec::new();
    stream_fragments(&mut file, &Vec::new());
    assert_eq!(file, Vec::<u8>::new());
}
