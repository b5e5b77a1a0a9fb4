use station_stats::chunker::{chunk_at_newlines, partition, PARALLELISM};

fn joined(chunks: &[&[u8]]) -> Vec<u8> {
    chunks.join(&b'\n')
}

#[test]
fn default_parallelism_is_eight() {
    assert_eq!(PARALLELISM, 8);
}

#[test]
fn chunks_end_before_the_last_newline_of_their_window() {
    // 24 bytes in 3 partitions: windows of 8 bytes
    let region = b"aa;1.0\nbb;2.0\ncc;3.0\nd;4";
    let chunks = chunk_at_newlines(region, 3).unwrap();
    assert_eq!(chunks, vec![&b"aa;1.0"[..], &b"bb;2.0"[..], &b"cc;3.0\nd;4"[..]]);
}

#[test]
fn chunks_take_the_nearest_newline_before_the_split_point() {
    // windows of 10 bytes: the first holds two newlines, the last one counts
    let region = b"a;1\nb;2\nc;3\nd;4\ne;5";
    let chunks = chunk_at_newlines(region, 2).unwrap();
    assert_eq!(chunks, vec![&b"a;1\nb;2"[..], &b"c;3\nd;4\ne;5"[..]]);
}

#[test]
fn one_partition_is_the_whole_region() {
    let region = b"no newline at all";
    assert_eq!(chunk_at_newlines(region, 1).unwrap(), vec![&region[..]]);
    assert_eq!(chunk_at_newlines(b"", 1).unwrap(), vec![&b""[..]]);
}

#[test]
fn no_chunks_without_a_newline_in_a_window() {
    assert_eq!(chunk_at_newlines(b"no newline at all", 2), None);
    // the newline lies behind the first window of four bytes
    assert_eq!(chunk_at_newlines(b"Paris;12.3\nParis;-1.0\nLondon;5.5", 8), None);
    // regions shorter than the number of partitions have empty windows
    assert_eq!(chunk_at_newlines(b"a\nb", 8), None);
    assert_eq!(chunk_at_newlines(b"", 2), None);
}

#[test]
fn no_chunks_for_zero_partitions() {
    assert_eq!(chunk_at_newlines(b"a;1.0\nb;2.0", 0), None);
}

#[test]
fn partitioning_is_lossless() {
    let mut region = Vec::new();
    for i in 0..200 {
        region.extend_from_slice(format!("station{};{}.{}\n", i % 17, i % 100, i % 10).as_bytes());
    }
    region.pop();
    for parts in 1..=12 {
        let chunks = chunk_at_newlines(&region, parts).unwrap();
        assert_eq!(chunks.len(), parts);
        assert_eq!(joined(&chunks), region);
        // every boundary lies right after a newline
        let mut start = 0;
        for chunk in &chunks[..parts - 1] {
            start += chunk.len();
            assert_eq!(region[start], b'\n');
            start += 1;
        }
        // no partition but the last ends in the middle of a record
        for chunk in &chunks {
            assert!(!chunk.is_empty());
            assert_ne!(chunk[chunk.len() - 1], b'\n');
        }
    }
}

#[test]
fn partition_falls_back_to_one_chunk() {
    let region = b"Paris;12.3\nParis;-1.0\nLondon;5.5";
    assert_eq!(partition(region, 8), vec![&region[..]]);
    assert_eq!(partition(region, 0), vec![&region[..]]);
    assert_eq!(partition(b"", 4), vec![&b""[..]]);
}

#[test]
fn partition_cuts_where_it_can() {
    let region = b"aa;1.0\nbb;2.0\ncc;3.0\nd;4";
    assert_eq!(partition(region, 3), chunk_at_newlines(region, 3).unwrap());
    assert_eq!(joined(&partition(region, 3)), region.to_vec());
}
