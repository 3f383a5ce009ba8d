use mapreduce::formats::writelog::{WriteLogError, WriteLogReader, WriteLogWriter, decode_u32,
    encode_u32};

#[test]
fn test_u32_encoder() {
    let testvals: [u32; 9] = [0, 1, 2, 31, 199, 100000, 111111, 3000000, 4100000000];

    for val in testvals.iter() {
        assert_eq!(decode_u32(encode_u32(*val)), *val);
    }
}

#[test]
fn test_write() {
    let buf1: Vec<u8> = b"abc".to_vec();
    let buf2: Vec<u8> = b"def".to_vec();
    let dst = Vec::new();
    let mut w = WriteLogWriter::new(dst);

    w.write(&buf1);
    w.write(&buf2);

    let (bytes, _) = w.get_stats();
    assert_eq!(bytes, 2 * (4 + 3));
}

#[test]
fn test_write_read_round_trip() {
    let mut w = WriteLogWriter::new(Vec::new());
    w.write(&b"abc".to_vec());
    w.write(&b"def".to_vec());
    let (bytes, records) = w.get_stats();
    assert_eq!(bytes, 14);
    assert_eq!(records, 2);

    let mut r = WriteLogReader::new(w.into_bytes());
    assert_eq!(r.read_vec().unwrap(), b"abc".to_vec());
    assert_eq!(r.read_vec().unwrap(), b"def".to_vec());
    assert!(r.read_vec().is_err());
    let (records_read, bytes_read) = r.get_stats();
    assert_eq!(records_read, 2);
    assert_eq!(bytes_read, 14);
}

#[test]
fn test_round_trip_many_entries() {
    let entries: Vec<Vec<u8>> = vec![
        b"".to_vec(),
        b"a".to_vec(),
        b"some longer payload with spaces".to_vec(),
        vec![0u8, 255, 7, 13],
        b"last".to_vec(),
    ];
    let mut w = WriteLogWriter::new(Vec::new());
    let mut expected_bytes: u64 = 0;
    for e in entries.iter() {
        w.write(e);
        expected_bytes += 4 + e.len() as u64;
    }
    let (bytes, records) = w.get_stats();
    assert_eq!(bytes, expected_bytes);
    assert_eq!(records, entries.len() as u32);

    let mut r = WriteLogReader::new(w.into_bytes());
    for e in entries.iter() {
        assert_eq!(r.next().unwrap(), e.clone());
    }
    assert!(r.next().is_none());
}

#[test]
fn test_read_empty_is_error() {
    let mut r = WriteLogReader::new(Vec::new());
    match r.read_vec() {
        Err(WriteLogError::NoCompleteEntry) => (),
        Ok(_) => panic!("read from an empty stream must fail"),
    }
}

#[test]
fn test_read_truncated_entry_is_error() {
    let mut w = WriteLogWriter::new(Vec::new());
    w.write(&b"abcdef".to_vec());
    let mut bytes = w.into_bytes();
    bytes.truncate(7);
    let mut r = WriteLogReader::new(bytes);
    assert!(r.read_vec().is_err());
}

#[test]
fn test_encode_u32_exact() {
    assert_eq!(encode_u32(0x01020304), vec![1u8, 2, 3, 4]);
    assert_eq!(encode_u32(3), vec![0u8, 0, 0, 3]);
    assert_eq!(decode_u32(vec![0u8, 0, 1, 0]), 256);
}
