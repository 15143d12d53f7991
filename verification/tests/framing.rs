use partition_log::decode_len;
use partition_log::decode_record;
use partition_log::encode_len;
use partition_log::encode_record;
use partition_log::read_records;

/// The file that holds the given bodies as records, one after another.
fn log_of(bodies: &[&[u8]]) -> Vec<u8> {
    let mut file = Vec::new();
    for body in bodies {
        file.extend_from_slice(&encode_record(body));
    }
    file
}

#[test]
fn encode_len_is_little_endian() {
    assert_eq!(encode_len(0x0102_0304_0506_0708), vec![8, 7, 6, 5, 4, 3, 2, 1]);
    assert_eq!(encode_len(0), vec![0; 8]);
    assert_eq!(encode_len(87), vec![87, 0, 0, 0, 0, 0, 0, 0]);
    assert_eq!(encode_len(256), vec![0, 1, 0, 0, 0, 0, 0, 0]);
    assert_eq!(encode_len(u64::MAX), vec![255; 8]);
}

#[test]
fn encode_len_agrees_with_std() {
    for n in [0u64, 1, 255, 256, 65_535, 65_536, 1 << 32, (1 << 56) + 3, u64::MAX - 1, u64::MAX] {
        assert_eq!(encode_len(n), n.to_le_bytes().to_vec());
    }
}

#[test]
fn decode_len_reads_little_endian() {
    assert_eq!(decode_len(&[8, 7, 6, 5, 4, 3, 2, 1]), Some(0x0102_0304_0506_0708));
    assert_eq!(decode_len(&[0; 8]), Some(0));
    assert_eq!(decode_len(&[255; 8]), Some(u64::MAX));
    assert_eq!(decode_len(&[0, 0, 0, 0, 0, 0, 0, 1]), Some(1 << 56));
}

#[test]
fn decode_len_of_a_short_field_is_none() {
    let field = [8u8, 7, 6, 5, 4, 3, 2, 1];
    for kept in 0..8 {
        assert_eq!(decode_len(&field[..kept]), None);
    }
}

#[test]
fn decode_len_reads_only_the_first_eight_bytes() {
    assert_eq!(decode_len(&[5, 0, 0, 0, 0, 0, 0, 0, 9, 9, 9]), Some(5));
}

#[test]
fn len_round_trip() {
    for n in [0u64, 7, 87, 300, 1 << 20, 1 << 40, u64::MAX] {
        assert_eq!(decode_len(&encode_len(n)), Some(n));
    }
}

#[test]
fn encode_record_prefixes_the_length() {
    assert_eq!(
        encode_record(b"hello"),
        vec![5, 0, 0, 0, 0, 0, 0, 0, b'h', b'e', b'l', b'l', b'o']
    );
}

#[test]
fn encode_record_of_empty_body() {
    assert_eq!(encode_record(&[]), vec![0; 8]);
}

#[test]
fn encode_record_of_long_body() {
    let body = vec![7u8; 300];
    let frame = encode_record(&body);
    assert_eq!(frame.len(), 308);
    assert_eq!(&frame[..8], &[44, 1, 0, 0, 0, 0, 0, 0]);
    assert_eq!(&frame[8..], &body[..]);
}

#[test]
fn decode_record_finds_a_whole_record() {
    let file = log_of(&[b"ab", b"cde"]);
    assert_eq!(decode_record(&file, 0), Some(b"ab".to_vec()));
    assert_eq!(decode_record(&file, 10), Some(b"cde".to_vec()));
}

#[test]
fn decode_record_of_empty_body() {
    let file = log_of(&[b""]);
    assert_eq!(decode_record(&file, 0), Some(Vec::new()));
}

#[test]
fn decode_record_at_or_past_the_end() {
    let file = log_of(&[b"ab"]);
    assert_eq!(decode_record(&file, 10), None);
    assert_eq!(decode_record(&file, 11), None);
    assert_eq!(decode_record(&file, u64::MAX), None);
    assert_eq!(decode_record(&[], 0), None);
}

#[test]
fn decode_record_with_short_length_field() {
    let frame = encode_record(b"abc");
    for kept in 0..8 {
        assert_eq!(decode_record(&frame[..kept], 0), None);
    }
}

#[test]
fn decode_record_with_short_body() {
    let frame = encode_record(b"abc");
    for kept in 8..frame.len() {
        assert_eq!(decode_record(&frame[..kept], 0), None);
    }
    assert_eq!(decode_record(&frame, 0), Some(b"abc".to_vec()));
}

#[test]
fn decode_record_with_a_length_beyond_any_file() {
    let mut file = vec![255u8; 8];
    file.extend_from_slice(b"abc");
    assert_eq!(decode_record(&file, 0), None);
    let mut file = encode_len(1 << 63);
    file.extend_from_slice(b"abc");
    assert_eq!(decode_record(&file, 0), None);
}

#[test]
fn decode_record_off_a_record_boundary() {
    // The eight bytes at offset 1 spell 97 * 2^56: more than the file holds.
    let file = log_of(&[b"ab"]);
    assert_eq!(decode_record(&file, 1), None);
    // The eight bytes at offset 8 of this file spell 1, and one byte follows.
    let file = vec![9, 9, 9, 9, 9, 9, 9, 9, 1, 0, 0, 0, 0, 0, 0, 0, 42];
    assert_eq!(decode_record(&file, 8), Some(vec![42]));
}

#[test]
fn read_records_gives_positions_and_bodies_in_order() {
    let file = log_of(&[b"one", b"", b"three"]);
    assert_eq!(
        read_records(&file, 0, 10),
        vec![(0, b"one".to_vec()), (11, Vec::new()), (19, b"three".to_vec())]
    );
}

#[test]
fn read_records_stops_at_the_limit() {
    let file = log_of(&[b"one", b"two", b"three"]);
    assert_eq!(read_records(&file, 0, 0), Vec::new());
    assert_eq!(read_records(&file, 0, 1), vec![(0, b"one".to_vec())]);
    assert_eq!(
        read_records(&file, 0, 2),
        vec![(0, b"one".to_vec()), (11, b"two".to_vec())]
    );
    assert_eq!(read_records(&file, 0, 3).len(), 3);
    assert_eq!(read_records(&file, 0, usize::MAX).len(), 3);
}

#[test]
fn read_records_starts_at_the_offset() {
    let file = log_of(&[b"one", b"two", b"three"]);
    assert_eq!(
        read_records(&file, 11, 5),
        vec![(11, b"two".to_vec()), (22, b"three".to_vec())]
    );
    assert_eq!(read_records(&file, 22, 1), vec![(22, b"three".to_vec())]);
}

#[test]
fn read_records_at_or_past_the_end_is_empty() {
    let file = log_of(&[b"one"]);
    assert_eq!(read_records(&file, 11, 5), Vec::new());
    assert_eq!(read_records(&file, 12, 5), Vec::new());
    assert_eq!(read_records(&file, u64::MAX, 5), Vec::new());
    assert_eq!(read_records(&[], 0, 5), Vec::new());
}

#[test]
fn read_records_stops_before_a_cut_record() {
    let whole = log_of(&[b"one", b"two"]);
    let cut = encode_record(b"three");
    for kept in 0..cut.len() {
        let mut file = whole.clone();
        file.extend_from_slice(&cut[..kept]);
        assert_eq!(
            read_records(&file, 0, 10),
            vec![(0, b"one".to_vec()), (11, b"two".to_vec())]
        );
    }
}

#[test]
fn read_records_of_a_file_that_is_one_cut_record() {
    let cut = encode_record(b"three");
    for kept in 0..cut.len() {
        assert_eq!(read_records(&cut[..kept], 0, 10), Vec::new());
    }
}
