use resource_packer::lz77::{
    buffer_compress, decode, decompress, encode, get_best_codeword, parse_codewords, slice_compare,
    LZ77Codeword,
};

fn sample(len: usize) -> Vec<u8> {
    let mut out = Vec::new();
    let mut x: u32 = 12345;
    for i in 0..len {
        x = x.wrapping_mul(1103515245).wrapping_add(12345);
        // a small alphabet with some structure makes matches likely
        out.push(b"abcab"[(x >> 16) as usize % 5] ^ ((i / 97) as u8 & 1));
    }
    out
}

#[test]
fn best_codeword_finds_longest_nearest_run() {
    let b = b"abcabcabcX";
    assert_eq!(
        get_best_codeword(b, 3),
        LZ77Codeword::Run { lookback: 3, length: 6, token: b'X' }
    );
    assert_eq!(get_best_codeword(b, 0), LZ77Codeword::Literal(b'a'));
    assert_eq!(get_best_codeword(b, 1), LZ77Codeword::Literal(b'b'));
    assert_eq!(get_best_codeword(b, 8), LZ77Codeword::Literal(b'c'));
}

#[test]
fn best_codeword_prefers_nearest_of_equal_matches() {
    // "xyz" occurs 8 and 4 bytes back; both extend by one byte only
    let b = b"xyzQxyzRxyzS!";
    assert_eq!(
        get_best_codeword(b, 8),
        LZ77Codeword::Run { lookback: 4, length: 3, token: b'S' }
    );
}

#[test]
fn slice_compare_on_equal_and_different() {
    assert!(slice_compare(b"abc", b"abc"));
    assert!(!slice_compare(b"abc", b"abd"));
    assert!(!slice_compare(b"abc", b"ab"));
    assert!(slice_compare(b"", b""));
}

#[test]
fn encode_exact_stream() {
    let cs = encode(b"abcabcabcX");
    assert_eq!(
        cs,
        vec![
            LZ77Codeword::Literal(b'a'),
            LZ77Codeword::Literal(b'b'),
            LZ77Codeword::Literal(b'c'),
            LZ77Codeword::Run { lookback: 3, length: 6, token: b'X' },
        ]
    );
}

#[test]
fn encode_overlapping_run() {
    let cs = encode(b"aaaaaaaaaa");
    assert_eq!(
        cs,
        vec![
            LZ77Codeword::Literal(b'a'),
            LZ77Codeword::Run { lookback: 1, length: 8, token: b'a' },
        ]
    );
    assert_eq!(decode(&cs), Some(b"aaaaaaaaaa".to_vec()));
}

#[test]
fn run_length_is_capped() {
    let data = vec![7u8; 1000];
    let cs = encode(&data);
    assert_eq!(cs[0], LZ77Codeword::Literal(7));
    assert_eq!(cs[1], LZ77Codeword::Run { lookback: 1, length: 255, token: 7 });
    assert_eq!(decode(&cs), Some(data));
}

#[test]
fn round_trip_on_many_buffers() {
    for len in [0usize, 1, 2, 3, 4, 5, 17, 300, 2000] {
        let data = sample(len);
        let cs = encode(&data);
        assert_eq!(decode(&cs), Some(data.clone()));
        assert_eq!(decompress(&buffer_compress(&data)), Some(data));
    }
}

#[test]
fn short_buffers_are_literals() {
    assert!(encode(b"").is_empty());
    assert_eq!(encode(b"q"), vec![LZ77Codeword::Literal(b'q')]);
    assert_eq!(
        encode(b"qq"),
        vec![LZ77Codeword::Literal(b'q'), LZ77Codeword::Literal(b'q')]
    );
}

#[test]
fn first_codeword_is_literal() {
    for len in [1usize, 5, 64, 500] {
        let data = sample(len);
        assert_eq!(encode(&data)[0], LZ77Codeword::Literal(data[0]));
    }
    assert_eq!(encode(b"zzzzzz")[0], LZ77Codeword::Literal(b'z'));
}

#[test]
fn encoding_is_deterministic() {
    let data = sample(1500);
    assert_eq!(encode(&data), encode(&data));
    assert_eq!(buffer_compress(&data), buffer_compress(&data));
}

#[test]
fn codeword_bytes_are_little_endian() {
    let mut out = Vec::new();
    LZ77Codeword::Run { lookback: 0x1234, length: 7, token: 9 }.write_to_buffer(&mut out);
    LZ77Codeword::Literal(0x41).write_to_buffer(&mut out);
    assert_eq!(out, vec![0x34, 0x12, 7, 9, 0, 0, 0, 0x41]);
}

#[test]
fn compressed_stream_bytes() {
    assert_eq!(
        buffer_compress(b"abcabcabcX"),
        vec![0, 0, 0, b'a', 0, 0, 0, b'b', 0, 0, 0, b'c', 3, 0, 6, b'X']
    );
}

#[test]
fn decode_rejects_run_before_start() {
    let cs = vec![
        LZ77Codeword::Literal(1),
        LZ77Codeword::Run { lookback: 2, length: 1, token: 0 },
    ];
    assert_eq!(decode(&cs), None);
    assert_eq!(decode(&[LZ77Codeword::Run { lookback: 0, length: 0, token: 5 }]), None);
}

#[test]
fn parse_rejects_malformed_streams() {
    assert_eq!(parse_codewords(&[0, 0, 0]), None);
    assert_eq!(parse_codewords(&[0, 0, 1, 5]), None);
    assert_eq!(
        parse_codewords(&[0, 0, 0, 5, 1, 1, 2, 3]),
        Some(vec![
            LZ77Codeword::Literal(5),
            LZ77Codeword::Run { lookback: 257, length: 2, token: 3 },
        ])
    );
    assert_eq!(decompress(&[0, 0, 0, 5, 1, 0, 2, 3]), Some(vec![5, 5, 5, 3]));
}
