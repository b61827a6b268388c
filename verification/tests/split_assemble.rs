use bzip2_pipeline::assemble::{assemble_output, concat_payloads, sort_by_order};
use bzip2_pipeline::block::Tcontent;
use bzip2_pipeline::stage::OrderedWriter;
use bzip2_pipeline::split::{
    compression_ranges, decompression_blocks, decompression_ranges, find_stream_header,
    is_stream_header_at, BLOCK_SIZE, HEADER_LEN, SCAN_SLACK,
};

const HEADER: &[u8; 10] = b"BZh91AY&SY";

fn finished(order: u64, tag: u8, result: &[u8]) -> Tcontent {
    let mut t = Tcontent::new(order, &[tag], result.len());
    t.buffer_output.copy_from_slice(result);
    t.output_size = result.len() as u32;
    t
}

fn stream(body: &[u8]) -> Vec<u8> {
    let mut v = HEADER.to_vec();
    v.extend_from_slice(body);
    v
}

#[test]
fn constants_match_the_pipeline() {
    assert_eq!(BLOCK_SIZE, 900000);
    assert_eq!(SCAN_SLACK, 10000);
    assert_eq!(HEADER_LEN, 10);
}

#[test]
fn compression_ranges_cut_fixed_blocks() {
    assert_eq!(compression_ranges(10, 4), vec![(0, 4), (4, 8), (8, 10)]);
    assert_eq!(compression_ranges(8, 4), vec![(0, 4), (4, 8)]);
    assert_eq!(compression_ranges(3, 4), vec![(0, 3)]);
    assert_eq!(compression_ranges(0, 4), vec![]);
}

#[test]
fn compression_ranges_with_pipeline_block_size() {
    let r = compression_ranges(2 * BLOCK_SIZE + 5, BLOCK_SIZE);
    assert_eq!(r, vec![(0, 900000), (900000, 1800000), (1800000, 1800005)]);
}

#[test]
fn header_recognised_only_whole() {
    let s = stream(b"xyz");
    assert!(is_stream_header_at(&s, 0));
    assert!(!is_stream_header_at(&s, 1));
    let mut t = s.clone();
    t[9] = b'Z';
    assert!(!is_stream_header_at(&t, 0));
}

#[test]
fn find_header_reports_first_match_in_window() {
    let mut s = b"abc".to_vec();
    s.extend_from_slice(HEADER);
    s.extend_from_slice(b"de");
    s.extend_from_slice(HEADER);
    assert_eq!(find_stream_header(&s, 0, s.len()), Some(3));
    assert_eq!(find_stream_header(&s, 4, s.len()), Some(15));
    assert_eq!(find_stream_header(&s, 4, 24), None);
    assert_eq!(find_stream_header(&s, 4, 25), Some(15));
    assert_eq!(find_stream_header(&s, 0, 5), None);
}

#[test]
fn decompression_ranges_split_at_headers() {
    let mut s = stream(b"aaaa");
    let second = s.len();
    s.extend_from_slice(&stream(b"bb"));
    let third = s.len();
    s.extend_from_slice(&stream(b"c"));
    let r = decompression_ranges(&s, BLOCK_SIZE);
    assert_eq!(r, vec![(0, second), (second, third), (third, s.len())]);
}

#[test]
fn decompression_ranges_of_empty_input() {
    assert_eq!(decompression_ranges(&[], BLOCK_SIZE), vec![]);
}

#[test]
fn decompression_ranges_single_stream() {
    let s = stream(b"only one stream here");
    assert_eq!(decompression_ranges(&s, BLOCK_SIZE), vec![(0, s.len())]);
}

#[test]
fn header_right_after_the_first_ten_bytes() {
    let mut s = HEADER.to_vec();
    s.extend_from_slice(HEADER);
    assert_eq!(decompression_ranges(&s, BLOCK_SIZE), vec![(0, 10), (10, 20)]);
}

#[test]
fn header_beyond_scan_limit_is_not_a_boundary() {
    // block_size 5: the search for the block starting at 0 stops at 10015
    let mut s = HEADER.to_vec();
    s.extend(std::iter::repeat(b'x').take(10006));
    s.extend_from_slice(HEADER);
    assert_eq!(s.len(), 10026);
    assert_eq!(decompression_ranges(&s, 5), vec![(0, 10026)]);
    // a header whose ten bytes end exactly at the limit is found
    let mut t = HEADER.to_vec();
    t.extend(std::iter::repeat(b'x').take(9985));
    t.extend_from_slice(HEADER);
    t.extend(std::iter::repeat(b'y').take(30));
    assert_eq!(decompression_ranges(&t, 5), vec![(0, 9995), (9995, t.len())]);
    // one byte further and it is out of reach
    let mut u = HEADER.to_vec();
    u.extend(std::iter::repeat(b'x').take(9986));
    u.extend_from_slice(HEADER);
    assert_eq!(decompression_ranges(&u, 5), vec![(0, u.len())]);
}

#[test]
fn decompression_blocks_number_and_copy() {
    let mut s = stream(b"aa");
    let second = s.len();
    s.extend_from_slice(&stream(b"b"));
    let blocks = decompression_blocks(&s, 4);
    assert_eq!(blocks.len(), 2);
    assert_eq!(blocks[0].order, 0);
    assert_eq!(blocks[1].order, 1);
    assert_eq!(blocks[0].buffer_input, s[..second].to_vec());
    assert_eq!(blocks[1].buffer_input, s[second..].to_vec());
    assert_eq!(blocks[1].buffer_output, vec![0, 0, 0, 0]);
    assert_eq!(blocks[1].output_size, 0);
}

#[test]
fn sort_is_by_order_and_stable() {
    let v = vec![
        finished(2, 0, &[]),
        finished(0, 1, &[]),
        finished(2, 2, &[]),
        finished(1, 3, &[]),
        finished(0, 4, &[]),
    ];
    let r = sort_by_order(v);
    let seen: Vec<(u64, u8)> = r.iter().map(|t| (t.order, t.buffer_input[0])).collect();
    assert_eq!(seen, vec![(0, 1), (0, 4), (1, 3), (2, 0), (2, 2)]);
}

#[test]
fn sort_of_empty_collection() {
    assert!(sort_by_order(Vec::new()).is_empty());
}

#[test]
fn concat_payloads_joins_results() {
    let v = vec![finished(0, 0, &[1, 2]), finished(1, 0, &[]), finished(2, 0, &[3])];
    assert_eq!(concat_payloads(&v), vec![1, 2, 3]);
}

#[test]
fn assemble_output_puts_results_in_stream_order() {
    let v = vec![finished(2, 0, b"ccc"), finished(0, 0, b"a"), finished(1, 0, b"bb")];
    assert_eq!(assemble_output(v), b"abbccc".to_vec());
}

#[test]
fn assemble_output_uses_only_the_result_prefix() {
    let mut t = Tcontent::new(0, &[0], 6);
    t.buffer_output.copy_from_slice(&[1, 2, 3, 4, 5, 6]);
    t.output_size = 2;
    assert_eq!(assemble_output(vec![t]), vec![1, 2]);
}

#[test]
fn ranges_put_back_together_give_the_input() {
    let input: Vec<u8> = (0..23u8).collect();
    let mut rebuilt = Vec::new();
    for (a, z) in compression_ranges(input.len(), 5) {
        rebuilt.extend_from_slice(&input[a..z]);
    }
    assert_eq!(rebuilt, input);

    let mut s = stream(b"one");
    s.extend_from_slice(&stream(b"two"));
    let mut rebuilt = Vec::new();
    for (a, z) in decompression_ranges(&s, BLOCK_SIZE) {
        assert!(is_stream_header_at(&s, a));
        rebuilt.extend_from_slice(&s[a..z]);
    }
    assert_eq!(rebuilt, s);
}

#[test]
fn collect_and_stream_write_the_same_bytes() {
    let arrival = [3u64, 0, 4, 2, 1];
    let make = |o: u64| finished(o, 0, &[o as u8; 3][..(o as usize % 3) + 1]);
    let mut w = OrderedWriter::new();
    let mut streamed = Vec::new();
    for &o in arrival.iter() {
        for b in w.accept(make(o)) {
            streamed.extend_from_slice(b.payload());
        }
    }
    let collected = assemble_output(arrival.iter().map(|&o| make(o)).collect());
    assert_eq!(streamed, collected);
    assert_eq!(collected, vec![0, 1, 1, 2, 2, 2, 3, 4, 4]);
}

#[test]
fn cut_of_joined_streams_gives_each_stream() {
    let streams = vec![stream(b"first stream"), stream(b"2nd"), stream(b"the third one")];
    let joined: Vec<u8> = streams.concat();
    let r = decompression_ranges(&joined, BLOCK_SIZE);
    assert_eq!(r.len(), streams.len());
    for (k, (a, z)) in r.into_iter().enumerate() {
        assert_eq!(joined[a..z].to_vec(), streams[k]);
    }
}
