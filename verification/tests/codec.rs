use replay_logger::decode_log_file;
use replay_logger::encode_log_file;
use replay_logger::Log;
use replay_logger::LogError;
use replay_logger::LogFile;

fn file_of(entries: Vec<(Vec<u8>, u64)>) -> LogFile {
    LogFile {
        logs: entries
            .into_iter()
            .map(|(item, time)| Log { item, time })
            .collect(),
    }
}

#[test]
fn exact_byte_layout() {
    let f = file_of(vec![(vec![7, 8], 3)]);
    let bytes = encode_log_file(&f);
    let expected = vec![
        1, 0, 0, 0, 0, 0, 0, 0, // entry count
        3, 0, 0, 0, 0, 0, 0, 0, // offset, little-endian
        2, 0, 0, 0, 0, 0, 0, 0, // payload length, little-endian
        7, 8, // payload
    ];
    assert_eq!(bytes, expected);
}

#[test]
fn empty_stream_round_trip() {
    let f = file_of(vec![]);
    let bytes = encode_log_file(&f);
    assert_eq!(bytes, vec![0u8; 8]);
    assert_eq!(decode_log_file(&bytes).unwrap(), f);
}

#[test]
fn round_trip_preserves_everything() {
    let f = file_of(vec![
        (vec![], 0),
        (vec![0xFF], 1),
        (vec![1, 2, 3, 4, 5], u64::MAX),
        (vec![0, 0, 0], u64::MAX),
    ]);
    let decoded = decode_log_file(&encode_log_file(&f)).unwrap();
    assert_eq!(decoded, f);
}

#[test]
fn decode_rejects_short_input() {
    assert_eq!(decode_log_file(&vec![]), Err(LogError::Malformed));
    assert_eq!(decode_log_file(&vec![0u8; 7]), Err(LogError::Malformed));
}

#[test]
fn decode_rejects_truncated_entry() {
    let f = file_of(vec![(vec![7, 8], 3)]);
    let mut bytes = encode_log_file(&f);
    bytes.pop();
    assert_eq!(decode_log_file(&bytes), Err(LogError::Malformed));
    // a count that promises more entries than the bytes hold
    assert_eq!(
        decode_log_file(&vec![2, 0, 0, 0, 0, 0, 0, 0]),
        Err(LogError::Malformed)
    );
}

#[test]
fn decode_rejects_length_past_end() {
    let mut bytes = vec![1, 0, 0, 0, 0, 0, 0, 0];
    bytes.extend_from_slice(&[0; 8]); // offset 0
    bytes.extend_from_slice(&[9, 0, 0, 0, 0, 0, 0, 0]); // claims 9 bytes
    bytes.extend_from_slice(&[1, 2, 3]); // but holds 3
    assert_eq!(decode_log_file(&bytes), Err(LogError::Malformed));
}

#[test]
fn decode_rejects_trailing_garbage() {
    let f = file_of(vec![(vec![7], 3)]);
    let mut bytes = encode_log_file(&f);
    bytes.push(0);
    assert_eq!(decode_log_file(&bytes), Err(LogError::Malformed));
}
