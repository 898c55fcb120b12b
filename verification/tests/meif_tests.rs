use meif::image::{decode_dimension, encode_dimension};
use meif::rle::{build_regions, compress, decompress, Region};
use meif::text::decimal_string;
use meif::{format_bytes, MEIFConverter, MEIFImage, MEIFParser, MEIFParserError, Rgb};

fn rgb(r: u8, g: u8, b: u8) -> Rgb {
    Rgb { r, g, b }
}

fn sample_image() -> MEIFImage {
    MEIFImage {
        width: 2,
        height: 1,
        indexes: vec![rgb(255, 0, 0), rgb(0, 0, 255)],
        data: vec![0, 1],
    }
}

fn parse_bytes(bytes: Vec<u8>) -> Result<MEIFImage, MEIFParserError> {
    let mut parser = MEIFParser::new(bytes);
    assert!(parser.dimensions_in_range());
    parser.parse()
}

fn parse_error(bytes: Vec<u8>) -> String {
    match parse_bytes(bytes) {
        Ok(_) => panic!("expected an error"),
        Err(e) => e.message,
    }
}

const HEADER: [u8; 12] = [0x4d, 0x45, 0x49, 0x46, 0, 0, 0, 0, 0x69, 0x42, 0, 0];

// ---- format_bytes ----

#[test]
fn format_bytes_small_counts_in_bytes() {
    assert_eq!(format_bytes(0), "0 B");
    assert_eq!(format_bytes(1), "1 B");
    assert_eq!(format_bytes(1023), "1023 B");
}

#[test]
fn format_bytes_units() {
    assert_eq!(format_bytes(1024), "1.00 KB");
    assert_eq!(format_bytes(1536), "1.50 KB");
    assert_eq!(format_bytes(1048575), "1024.00 KB");
    assert_eq!(format_bytes(1048576), "1.00 MB");
    assert_eq!(format_bytes(5 * 1048576 + 262144), "5.25 MB");
    assert_eq!(format_bytes(1073741824), "1.00 GB");
}

#[test]
fn format_bytes_ties_round_to_even() {
    // 1152 / 1024 = 1.125 exactly: the tie goes to the even last digit.
    assert_eq!(format_bytes(1152), "1.12 KB");
    // 1.375 KB rounds up to the even digit 8.
    assert_eq!(format_bytes(1408), "1.38 KB");
}

#[test]
fn format_bytes_agrees_with_float_formatting() {
    const KB: f64 = 1024.0;
    const MB: f64 = KB * 1024.0;
    const GB: f64 = MB * 1024.0;
    let mut samples: Vec<usize> = Vec::new();
    for n in 0..5000usize {
        samples.push(n);
    }
    let mut x: u64 = 0x9e37_79b9_7f4a_7c15;
    for _ in 0..20000 {
        x ^= x << 13;
        x ^= x >> 7;
        x ^= x << 17;
        let shift = (x % 64) as u32;
        samples.push((x >> shift) as usize);
    }
    for k in 0..64u32 {
        let p = 1u64 << k;
        samples.push(p as usize);
        samples.push((p - 1) as usize);
        samples.push((p + p / 2) as usize);
    }
    samples.push(usize::MAX);
    samples.push((1usize << 53) + 1);
    samples.push((1usize << 54) + 2);
    samples.push((1usize << 54) + 6);
    for n in samples {
        let f = n as f64;
        let expected = if f < KB {
            format!("{} B", n)
        } else if f < MB {
            format!("{:.2} KB", f / KB)
        } else if f < GB {
            format!("{:.2} MB", f / MB)
        } else {
            format!("{:.2} GB", f / GB)
        };
        assert_eq!(format_bytes(n), expected, "bytes = {}", n);
    }
}

#[test]
fn decimal_string_writes_digits() {
    assert_eq!(decimal_string(0), "0");
    assert_eq!(decimal_string(7), "7");
    assert_eq!(decimal_string(1234567890), "1234567890");
    assert_eq!(decimal_string(u64::MAX), u64::MAX.to_string());
}

// ---- run-length coding ----

#[test]
fn compress_run_and_literal() {
    assert_eq!(compress(&[1, 1, 1, 1]).ok().unwrap(), vec![0x83, 1]);
    assert_eq!(compress(&[1, 2, 3]).ok().unwrap(), vec![0x02, 1, 2, 3]);
    assert_eq!(compress(&[1, 2, 2, 2, 3]).ok().unwrap(), vec![0x00, 1, 0x82, 2, 0x00, 3]);
    assert_eq!(compress(&[]).ok().unwrap(), Vec::<u8>::new());
    // Two equal bytes are not a run.
    assert_eq!(compress(&[5, 5]).ok().unwrap(), vec![0x01, 5, 5]);
}

#[test]
fn compress_splits_long_runs_and_literals() {
    let run = vec![9u8; 300];
    assert_eq!(compress(&run).ok().unwrap(), vec![0xff, 9, 0xff, 9, 0xab, 9]);
    let literal: Vec<u8> = (0..200u32).map(|i| (i % 251) as u8).collect();
    let coded = compress(&literal).ok().unwrap();
    assert_eq!(coded.len(), 202);
    assert_eq!(coded[0], 127);
    assert_eq!(&coded[1..129], &literal[0..128]);
    assert_eq!(coded[129], 71);
    assert_eq!(&coded[130..202], &literal[128..200]);
}

#[test]
fn build_regions_cuts_runs_and_literals() {
    let regions = build_regions(&[4, 4, 4, 7, 8]);
    assert_eq!(regions.len(), 2);
    match &regions[0] {
        Region::Run(b, n) => {
            assert_eq!(*b, 4);
            assert_eq!(*n, 3);
        }
        Region::Literal(_) => panic!("expected a run"),
    }
    match &regions[1] {
        Region::Literal(l) => assert_eq!(l, &vec![7, 8]),
        Region::Run(_, _) => panic!("expected a literal"),
    }
}

#[test]
fn decompress_packets() {
    assert_eq!(decompress(&[0x83, 1]).ok().unwrap(), vec![1, 1, 1, 1]);
    assert_eq!(decompress(&[0x02, 1, 2, 3, 0x80, 9]).ok().unwrap(), vec![1, 2, 3, 9]);
    assert_eq!(decompress(&[]).ok().unwrap(), Vec::<u8>::new());
}

#[test]
fn decompress_truncated_run() {
    let e = decompress(&[0x00, 5, 0x85]).err().unwrap();
    assert_eq!(e.message, "Unexpected end of input while decoding run");
}

#[test]
fn decompress_truncated_literal() {
    let e = decompress(&[0x05, 1, 2]).err().unwrap();
    assert_eq!(e.message, "Unexpected end of input while decoding literal");
}

#[test]
fn compress_roundtrip_law() {
    let mut x: u32 = 12345;
    for len in 0..600usize {
        let mut data = Vec::new();
        for _ in 0..len {
            x = x.wrapping_mul(1103515245).wrapping_add(12345);
            // few distinct values, so that runs occur
            data.push(((x >> 16) % 3) as u8);
        }
        let coded = compress(&data).ok().unwrap();
        assert_eq!(decompress(&coded).ok().unwrap(), data);
    }
}

// ---- dimensions ----

#[test]
fn dimension_bytes() {
    assert_eq!(encode_dimension(0), (0, 0));
    assert_eq!(encode_dimension(1), (1, 31));
    assert_eq!(encode_dimension(2), (1, 30));
    assert_eq!(encode_dimension(32), (1, 0));
    assert_eq!(encode_dimension(33), (2, 31));
    assert_eq!(encode_dimension(8160), (255, 0));
    // 8161 needs a first byte of 256, which is kept to its low eight bits.
    assert_eq!(encode_dimension(8161), (0, 31));
    assert_eq!(decode_dimension(1, 31), 1);
    assert_eq!(decode_dimension(255, 0), 8160);
}

#[test]
fn dimension_roundtrip_law() {
    for v in 0..=8160u32 {
        let (b0, b1) = encode_dimension(v);
        assert!(b1 as u32 <= 32 * b0 as u32);
        assert_eq!(decode_dimension(b0, b1), v);
    }
}

// ---- the parser's cursor ----

#[test]
fn fetch_reads_and_advances() {
    let mut parser = MEIFParser::new(vec![7, 8]);
    assert_eq!(parser.fetch().ok(), Some(7));
    assert_eq!(parser.fetch().ok(), Some(8));
    let e = parser.fetch().err().unwrap();
    assert_eq!(e.message, "Buffer overflow");
    assert_eq!(parser.buffer(), &vec![7, 8]);
    assert_eq!(parser.position(), 2);
}

#[test]
fn next_bytes_and_lookahead_agree() {
    let mut parser = MEIFParser::new(vec![1, 2, 3, 4]);
    assert!(parser.non_advancing_next_bytes(&[1, 2]));
    assert!(parser.non_advancing_next_bytes(&[1, 2]));
    assert!(parser.next_bytes(&[1, 2]));
    assert_eq!(parser.fetch().ok(), Some(3));
    // Too few bytes left: false, and nothing is consumed.
    assert!(!parser.non_advancing_next_bytes(&[4, 5]));
    assert!(!parser.next_bytes(&[4, 5]));
    assert_eq!(parser.fetch().ok(), Some(4));
}

#[test]
fn next_bytes_consumes_up_to_the_mismatch() {
    let mut parser = MEIFParser::new(vec![1, 2, 9, 4, 5]);
    assert!(!parser.non_advancing_next_bytes(&[1, 2, 3]));
    assert!(!parser.next_bytes(&[1, 2, 3]));
    // 1, 2 and the differing 9 were taken.
    assert_eq!(parser.fetch().ok(), Some(4));
}

// ---- writing ----

#[test]
fn to_bytes_layout() {
    let bytes = sample_image().to_bytes();
    let mut expected: Vec<u8> = HEADER.to_vec();
    expected.extend_from_slice(b"DIMN");
    expected.extend_from_slice(&[1, 30, 1, 31]);
    expected.extend_from_slice(b"INDX");
    expected.extend_from_slice(&[255, 0, 0, 0, 0, 255]);
    expected.extend_from_slice(b"DATA");
    expected.extend_from_slice(&[1, 0, 1]);
    expected.extend_from_slice(b"DONE!");
    assert_eq!(bytes, expected);
}

#[test]
fn to_rgb_bytes_expands_indices() {
    let img = MEIFImage {
        width: 3,
        height: 1,
        indexes: vec![rgb(1, 2, 3), rgb(4, 5, 6)],
        data: vec![1, 0, 1],
    };
    assert_eq!(img.to_rgb_bytes(), vec![4, 5, 6, 1, 2, 3, 4, 5, 6]);
}

#[test]
fn debug_texts() {
    assert_eq!(sample_image().debug_text(), "MEIFImage { width: 2, height: 1, indexes: 2 }");
    assert_eq!(MEIFParserError::new("oops").debug_text(), "MEIFParserError: oops");
}

// ---- reading ----

#[test]
fn parse_to_bytes_roundtrip_law() {
    let img = sample_image();
    let parsed = parse_bytes(img.to_bytes()).ok().unwrap();
    assert!(parsed == img);

    let mut data = Vec::new();
    for i in 0..(40 * 3) {
        data.push(((i / 7) % 4) as u8);
    }
    let img = MEIFImage {
        width: 40,
        height: 3,
        indexes: vec![rgb(0, 0, 0), rgb(10, 20, 30), rgb(200, 100, 0), rgb(1, 1, 1)],
        data,
    };
    let parsed = parse_bytes(img.to_bytes()).ok().unwrap();
    assert!(parsed == img);
}

#[test]
fn parse_leaves_done_unread() {
    let mut parser = MEIFParser::new(sample_image().to_bytes());
    assert!(parser.parse().is_ok());
    assert!(parser.non_advancing_next_bytes(b"DONE!"));
}

#[test]
fn parse_invalid_header() {
    assert_eq!(parse_error(vec![]), "Invalid MEIF header");
    assert_eq!(parse_error(b"PNG!".to_vec()), "Invalid MEIF header");
}

#[test]
fn parse_header_errors() {
    assert_eq!(parse_error(vec![0x4d, 0x45, 0x49, 0x46, 0, 0, 1, 0]), "Expected 4 0x00 bytes after MEIF header");
    assert_eq!(
        parse_error(vec![0x4d, 0x45, 0x49, 0x46, 0, 0, 0, 0, 0x69, 0x43]),
        "Expected \"\"\"nice + answer to life\"\"\" after 6 0x00 bytes"
    );
    assert_eq!(
        parse_error(vec![0x4d, 0x45, 0x49, 0x46, 0, 0, 0, 0, 0x69, 0x42, 0]),
        "Expected 2 0x00 bytes after \"\"\"nice + answer to life\"\"\""
    );
}

#[test]
fn parse_missing_sections() {
    let mut bytes = HEADER.to_vec();
    bytes.extend_from_slice(b"DIMX");
    assert_eq!(parse_error(bytes), "Expected \"DIMN\" section");

    let mut bytes = HEADER.to_vec();
    bytes.extend_from_slice(b"DIMN");
    bytes.extend_from_slice(&[1, 0]);
    assert_eq!(parse_error(bytes), "Buffer overflow");

    let mut bytes = HEADER.to_vec();
    bytes.extend_from_slice(b"DIMN");
    bytes.extend_from_slice(&[1, 0, 1, 0]);
    bytes.extend_from_slice(b"INDY");
    assert_eq!(parse_error(bytes), "Expected \"INDX\" section");

    let mut bytes = HEADER.to_vec();
    bytes.extend_from_slice(b"DIMN");
    bytes.extend_from_slice(&[1, 0, 1, 0]);
    bytes.extend_from_slice(b"INDX");
    bytes.extend_from_slice(&[1, 2, 3, 4]);
    assert_eq!(parse_error(bytes), "Buffer overflow");
}

#[test]
fn parse_file_ended_abruptly() {
    let mut bytes = sample_image().to_bytes();
    bytes.truncate(bytes.len() - 2);
    assert_eq!(parse_error(bytes), "File ended abruptly");
}

#[test]
fn parse_truncated_run() {
    let mut bytes = HEADER.to_vec();
    bytes.extend_from_slice(b"DIMN");
    bytes.extend_from_slice(&[1, 31, 1, 31]);
    bytes.extend_from_slice(b"INDX");
    bytes.extend_from_slice(&[1, 2, 3]);
    bytes.extend_from_slice(b"DATA");
    bytes.extend_from_slice(&[0x80]);
    bytes.extend_from_slice(b"DONE!");
    assert_eq!(parse_error(bytes), "Unexpected end of input while decoding run");
}

#[test]
fn parse_length_mismatch() {
    let img = MEIFImage { width: 2, height: 2, indexes: vec![rgb(1, 1, 1), rgb(2, 2, 2)], data: vec![0, 1] };
    assert_eq!(parse_error(img.to_bytes()), "Data length mismatch, got 2 but expected 4.");
}

#[test]
fn parse_invalid_index() {
    let img = MEIFImage { width: 2, height: 1, indexes: vec![rgb(1, 1, 1)], data: vec![0, 3] };
    assert_eq!(parse_error(img.to_bytes()), "Invalid index 3 at position 1");
}

#[test]
fn dimensions_out_of_range_are_reported() {
    let mut bytes = HEADER.to_vec();
    bytes.extend_from_slice(b"DIMN");
    bytes.extend_from_slice(&[0, 1, 1, 0]);
    let parser = MEIFParser::new(bytes);
    assert!(!parser.dimensions_in_range());
    let parser = MEIFParser::new(sample_image().to_bytes());
    assert!(parser.dimensions_in_range());
    let parser = MEIFParser::new(b"nothing".to_vec());
    assert!(parser.dimensions_in_range());
}

#[test]
fn parse_stages_in_turn() {
    let mut parser = MEIFParser::new(sample_image().to_bytes());
    assert!(parser.parse_header().is_ok());
    assert_eq!(parser.parse_dimensions().ok(), Some((2, 1)));
    let palette = parser.parse_palette().ok().unwrap();
    assert_eq!(palette, vec![rgb(255, 0, 0), rgb(0, 0, 255)]);
    assert_eq!(parser.parse_pixels(2, 1, palette.len()).ok(), Some(vec![0, 1]));
}

// ---- converting ----

#[test]
fn convert_merges_similar_colours() {
    let pixels = vec![rgb(0, 0, 0), rgb(10, 10, 10), rgb(100, 100, 100), rgb(0, 0, 0)];
    let conv = MEIFConverter::new(2, 2, pixels);
    let img = conv.convert().ok().unwrap();
    assert_eq!(img.width, 2);
    assert_eq!(img.height, 2);
    assert_eq!(img.indexes, vec![rgb(0, 0, 0), rgb(100, 100, 100)]);
    assert_eq!(img.data, vec![0, 0, 1, 0]);
}

#[test]
fn convert_prefers_the_exact_colour() {
    // (15, 0, 0) is similar to (0, 0, 0), but (20, 0, 0) is not, so it gets its own entry;
    // a later pixel of exactly (20, 0, 0) then names that entry.
    let pixels = vec![rgb(0, 0, 0), rgb(20, 0, 0), rgb(20, 0, 0), rgb(15, 0, 0)];
    let img = MEIFConverter::new(4, 1, pixels).convert().ok().unwrap();
    assert_eq!(img.indexes, vec![rgb(0, 0, 0), rgb(20, 0, 0)]);
    assert_eq!(img.data, vec![0, 1, 1, 0]);
}

#[test]
fn convert_full_palette_uses_nearest() {
    let mut pixels = Vec::new();
    for i in 0..255u32 {
        pixels.push(rgb(((i % 13) * 20) as u8, (((i / 13) % 13) * 20) as u8, ((i / 169) * 20) as u8));
    }
    let extra = rgb(250, 250, 250);
    pixels.push(extra);
    let img = MEIFConverter::new(256, 1, pixels.clone()).convert().ok().unwrap();
    assert_eq!(img.indexes.len(), 255);
    assert_eq!(&img.indexes[..], &pixels[..255]);
    let dist = |c: &Rgb| {
        let d = |a: u8, b: u8| (a as i32 - b as i32).pow(2);
        d(c.r, extra.r) + d(c.g, extra.g) + d(c.b, extra.b)
    };
    let mut best = 0usize;
    for (i, c) in img.indexes.iter().enumerate() {
        if dist(c) < dist(&img.indexes[best]) {
            best = i;
        }
    }
    assert_eq!(img.data[255] as usize, best);
    for i in 0..255 {
        assert_eq!(img.data[i] as usize, i);
    }
}

#[test]
fn convert_then_write_then_read_law() {
    let mut pixels = Vec::new();
    for y in 0..5u32 {
        for x in 0..7u32 {
            pixels.push(rgb((x * 40) as u8, (y * 50) as u8, 7));
        }
    }
    let img = MEIFConverter::new(7, 5, pixels).convert().ok().unwrap();
    assert_eq!(img.data.len(), 35);
    assert!(img.indexes.len() <= 255);
    for d in &img.data {
        assert!((*d as usize) < img.indexes.len());
    }
    let parsed = parse_bytes(img.to_bytes()).ok().unwrap();
    assert!(parsed == img);
}

#[test]
fn parse_pixels_without_data_tag() {
    let mut parser = MEIFParser::new(b"XXXX".to_vec());
    let e = parser.parse_pixels(1, 1, 1).err().unwrap();
    assert_eq!(e.message, "Expected \"DATA\" section");
}

#[test]
fn done_marker_inside_pixels_cuts_the_data() {
    // The coded pixels of this image contain the bytes `DONE!`, so the reader stops early.
    let img = MEIFImage {
        width: 5,
        height: 1,
        indexes: vec![rgb(0, 0, 0); 0x50],
        data: vec![0x44, 0x4f, 0x4e, 0x45, 0x21],
    };
    let err = parse_error(img.to_bytes());
    assert_eq!(err, "Unexpected end of input while decoding literal");
}

// ---- laws on the parser's cursor and reading ----

#[test]
fn cursor_stays_within_buffer_law() {
    let mut parser = MEIFParser::new(vec![0x4d, 0x45, 0x49]);
    assert_eq!(parser.position(), 0);
    assert!(parser.parse_header().is_err());
    // Too few bytes for the tag: nothing is consumed.
    assert_eq!(parser.position(), 0);
    for _ in 0..3 {
        assert!(parser.fetch().is_ok());
    }
    assert!(parser.fetch().is_err());
    assert!(!parser.next_bytes(&[1, 2, 3, 4]));
    assert_eq!(parser.position(), 3);
    assert_eq!(parser.buffer(), &vec![0x4d, 0x45, 0x49]);
    let mut whole = MEIFParser::new(sample_image().to_bytes());
    assert!(whole.parse().is_ok());
    assert!(whole.position() <= whole.buffer().len());
}

#[test]
fn next_bytes_concatenation_law() {
    let bytes = vec![1, 2, 3, 4, 5];
    for (a, b) in [
        (vec![1u8, 2], vec![3u8, 4]),
        (vec![1, 2], vec![3, 9]),
        (vec![1, 9], vec![3, 4]),
        (vec![1, 2, 3], vec![4, 5, 6]),
        (vec![], vec![1]),
    ] {
        let mut s1 = MEIFParser::new(bytes.clone());
        let mut s2 = MEIFParser::new(bytes.clone());
        let joined = [a.clone(), b.clone()].concat();
        let whole = s1.next_bytes(&joined);
        let parts = s2.next_bytes(&a) && s2.next_bytes(&b);
        assert_eq!(whole, parts);
        if whole {
            assert_eq!(s1.position(), s2.position());
        }
    }
}

#[test]
fn lookahead_agrees_with_consuming_law() {
    let bytes = vec![1, 2, 3, 4];
    for start in 0..=4usize {
        for pat in [vec![1u8, 2], vec![3, 4], vec![4], vec![4, 5], vec![]] {
            let mut s = MEIFParser::new(bytes.clone());
            for _ in 0..start {
                assert!(s.fetch().is_ok());
            }
            let look = s.non_advancing_next_bytes(&pat);
            let before = s.position();
            let took = s.next_bytes(&pat);
            assert_eq!(look, took);
            if took {
                assert_eq!(s.position(), before + pat.len());
            }
        }
    }
}

#[test]
fn trailing_bytes_are_ignored_law() {
    let bytes = sample_image().to_bytes();
    let first = parse_bytes(bytes.clone()).ok().unwrap();
    for extra in [vec![], vec![0u8], vec![0x44, 0x4f, 0x4e, 0x45, 0x21], vec![0xff; 40]] {
        let more = [bytes.clone(), extra].concat();
        let mut parser = MEIFParser::new(more);
        assert!(parser.dimensions_in_range());
        let again = parser.parse().ok().unwrap();
        assert!(again == first);
        assert_eq!(parser.position(), bytes.len() - 5);
    }
}

#[test]
fn rgb_bytes_reproduce_indx_law() {
    let img = MEIFImage {
        width: 3,
        height: 2,
        indexes: vec![rgb(10, 20, 30), rgb(200, 100, 50), rgb(1, 2, 3)],
        data: vec![2, 0, 1, 1, 2, 0],
    };
    let buf = img.to_bytes();
    let read = parse_bytes(buf.clone()).ok().unwrap();
    let out = read.to_rgb_bytes();
    assert_eq!(out.len(), 3 * read.data.len());
    for i in 0..read.data.len() {
        let d = read.data[i] as usize;
        assert_eq!(out[3 * i..3 * i + 3], buf[24 + 3 * d..27 + 3 * d]);
    }
}

// ---- laws on the coder ----

#[test]
fn regions_are_greedy_law() {
    let mut data = vec![1u8, 2, 2, 3, 3, 3, 3, 4];
    data.extend(std::iter::repeat(9u8).take(130));
    data.extend((0..140u32).map(|i| (i % 2) as u8));
    let regions = build_regions(&data);
    let mut i = 0usize;
    for r in regions.iter() {
        match r {
            Region::Run(b, n) => {
                let n = *n;
                assert!(n >= 3 && n <= 128);
                assert!(data[i..i + n].iter().all(|x| x == b));
                assert!(n == 128 || i + n == data.len() || data[i + n] != *b);
                i += n;
            }
            Region::Literal(l) => {
                let k = l.len();
                assert!(k >= 1 && k <= 128);
                assert_eq!(&data[i..i + k], &l[..]);
                for j in i..i + k {
                    assert!(!(j + 2 < data.len() && data[j] == data[j + 1] && data[j] == data[j + 2]));
                }
                let e = i + k;
                assert!(k == 128 || e == data.len() || (data[e] == data[e + 1] && data[e] == data[e + 2]));
                i = e;
            }
        }
    }
    assert_eq!(i, data.len());
}

#[test]
fn compressed_size_bound_law() {
    let inputs: Vec<Vec<u8>> = vec![
        vec![],
        vec![5],
        (0..128u32).map(|i| i as u8).collect(),
        (0..129u32).map(|i| i as u8).collect(),
        (0..300u32).map(|i| (i % 7) as u8).collect(),
        vec![1, 1, 2, 2, 1, 1, 2, 2],
    ];
    for data in inputs {
        let coded = compress(&data).ok().unwrap();
        assert!(coded.len() <= data.len() + (data.len() + 127) / 128);
    }
    // The bound is met exactly by 129 bytes with no three equal in a row.
    let data: Vec<u8> = (0..129u32).map(|i| i as u8).collect();
    assert_eq!(compress(&data).ok().unwrap().len(), 131);
}

// ---- laws on the converter ----

#[test]
fn convert_palette_order_and_dissimilar_law() {
    let pixels = vec![
        rgb(0, 0, 0),
        rgb(100, 100, 100),
        rgb(5, 5, 5),
        rgb(200, 0, 0),
        rgb(100, 110, 90),
        rgb(0, 200, 0),
        rgb(200, 0, 0),
        rgb(0, 0, 0),
    ];
    let img = MEIFConverter::new(4, 2, pixels.clone()).convert().ok().unwrap();
    assert_eq!(img.indexes, vec![rgb(0, 0, 0), rgb(100, 100, 100), rgb(200, 0, 0), rgb(0, 200, 0)]);
    let near = |a: u8, b: u8| (a as i32 - b as i32).abs() < 20;
    for (j, a) in img.indexes.iter().enumerate() {
        for (k, b) in img.indexes.iter().enumerate() {
            if j != k {
                assert!(!(near(a.r, b.r) && near(a.g, b.g) && near(a.b, b.b)));
            }
        }
    }
    let first_seen: Vec<usize> = img
        .indexes
        .iter()
        .map(|c| pixels.iter().position(|p| p == c).unwrap())
        .collect();
    for w in first_seen.windows(2) {
        assert!(w[0] < w[1]);
    }
}

#[test]
fn convert_gives_one_index_per_pixel() {
    let pixels = vec![rgb(1, 2, 3), rgb(250, 0, 0), rgb(1, 2, 3), rgb(0, 0, 250), rgb(0, 250, 0), rgb(9, 9, 9)];
    let img = MEIFConverter::new(3, 2, pixels).convert().ok().unwrap();
    assert_eq!(img.width, 3);
    assert_eq!(img.height, 2);
    assert_eq!(img.data.len(), (img.width * img.height) as usize);
    assert_eq!(img.data, vec![0, 1, 0, 2, 3, 0]);
}
