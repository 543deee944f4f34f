use opengammon::combinatorial::{count, rank, unrank};
use opengammon::disk::{encode_table, BearoffData, FormatError, FORMAT_VERSION, HEADER_LEN};
use opengammon::one_sided::{MAX_CHECKERS, POINTS};

#[test]
fn parse_rejects_bad_magic() {
    let mut bytes = vec![0u8; HEADER_LEN];
    bytes[0..4].copy_from_slice(b"NOPE");
    assert_eq!(
        BearoffData::parse(&bytes).unwrap_err(),
        FormatError::BadMagic
    );
}

#[test]
fn parse_rejects_too_short_a_slice() {
    let bytes = vec![0u8; HEADER_LEN - 1];
    assert_eq!(
        BearoffData::parse(&bytes).unwrap_err(),
        FormatError::TooShortForHeader {
            len: HEADER_LEN - 1
        }
    );
}

#[test]
fn parse_rejects_unsupported_version() {
    let mut bytes = vec![0u8; HEADER_LEN];
    bytes[0..4].copy_from_slice(b"OGB1");
    bytes[4..6].copy_from_slice(&99u16.to_le_bytes());
    assert_eq!(
        BearoffData::parse(&bytes).unwrap_err(),
        FormatError::UnsupportedVersion {
            found: 99,
            supported: FORMAT_VERSION
        }
    );
}

#[test]
fn parse_rejects_a_file_for_another_shape() {
    let mut bytes = vec![0u8; HEADER_LEN];
    bytes[0..4].copy_from_slice(b"OGB1");
    bytes[4..6].copy_from_slice(&1u16.to_le_bytes());
    bytes[6] = 5;
    bytes[7] = 15;
    assert_eq!(
        BearoffData::parse(&bytes).unwrap_err(),
        FormatError::ShapeMismatch {
            expected_points: 6,
            expected_max_checkers: 15,
            found_points: 5,
            found_max_checkers: 15
        }
    );
}

fn header(max_finish_len: u16, max_first_off_len: u16, finish_count: u32, first_off_count: u32) -> Vec<u8> {
    let mut bytes = vec![0u8; HEADER_LEN];
    bytes[0..4].copy_from_slice(b"OGB1");
    bytes[4..6].copy_from_slice(&1u16.to_le_bytes());
    bytes[6] = 6;
    bytes[7] = 15;
    bytes[8..10].copy_from_slice(&max_finish_len.to_le_bytes());
    bytes[10..12].copy_from_slice(&max_first_off_len.to_le_bytes());
    bytes[12..16].copy_from_slice(&finish_count.to_le_bytes());
    bytes[16..20].copy_from_slice(&first_off_count.to_le_bytes());
    bytes
}

#[test]
fn parse_accepts_an_empty_table_header() {
    let bytes = header(0, 0, 0, 0);
    let data = BearoffData::parse(&bytes).unwrap();
    let header = data.header();
    assert_eq!(header.points, 6);
    assert_eq!(header.max_checkers, 15);
    assert_eq!(header.max_finish_len, 0);
    assert_eq!(header.finish_count, 0);
    assert!(data.finish_quantized([0, 0, 0, 0, 0, 15]).is_empty());
    assert_eq!(data.first_off_quantized([0, 0, 0, 0, 0, 15]), Some(Vec::new()));
}

#[test]
fn parse_accepts_trailing_bytes_that_hold_every_record() {
    // One declared finish record of one value, but bytes enough for every placement's.
    let mut bytes = header(1, 0, 1, 0);
    bytes.extend(vec![7u8; 54_264 * 2]);
    let data = BearoffData::parse(&bytes).unwrap();
    assert_eq!(data.finish_quantized([0, 0, 0, 0, 0, 15]), vec![0x0707]);
}

#[test]
fn parse_rejects_a_file_missing_records_some_lookup_reads() {
    let mut bytes = header(1, 0, 1, 0);
    bytes.extend(vec![0u8; 2]);
    assert_eq!(
        BearoffData::parse(&bytes).unwrap_err(),
        FormatError::RecordsMissing { needed_len: HEADER_LEN + 54_264 * 2, actual_len: HEADER_LEN + 2 }
    );
    let mut bytes = header(1, 1, 54_264, 10);
    bytes.extend(vec![0u8; 54_264 * 2 + 20]);
    assert_eq!(
        BearoffData::parse(&bytes).unwrap_err(),
        FormatError::RecordsMissing {
            needed_len: HEADER_LEN + 54_264 * 2 + 15_504 * 2,
            actual_len: HEADER_LEN + 54_264 * 2 + 20
        }
    );
}

#[test]
fn parse_reports_the_length_its_header_asks_for() {
    let mut bytes = header(2, 0, 1, 0);
    bytes.extend(vec![0u8; 3]);
    assert_eq!(
        BearoffData::parse(&bytes).unwrap_err(),
        FormatError::Truncated {
            expected_len: HEADER_LEN + 4,
            actual_len: HEADER_LEN + 3
        }
    );
}

/// A made-up table: a distinct, recognizable record for every rank, with lengths that
/// vary, and a first-off record only for the positions with no checker off.
fn synthetic_table() -> (Vec<Vec<u16>>, Vec<Vec<u16>>) {
    let total = count(POINTS, MAX_CHECKERS);
    let mut finish = Vec::with_capacity(total);
    let mut first_off = Vec::with_capacity(total);
    for r in 0..total {
        let checkers: [u8; POINTS] = unrank(MAX_CHECKERS, r);
        let len = 1 + r % 7;
        finish.push((0..len).map(|j| ((r * 7 + j) % 65_000) as u16 + 1).collect());
        let on_board: u32 = checkers.iter().map(|&c| c as u32).sum();
        if on_board == MAX_CHECKERS as u32 {
            first_off.push((0..1 + r % 5).map(|j| ((r * 3 + j) % 60_000) as u16 + 2).collect());
        } else {
            first_off.push(Vec::new());
        }
    }
    (finish, first_off)
}

fn padded(record: &[u16], width: usize) -> Vec<u16> {
    (0..width).map(|j| record.get(j).copied().unwrap_or(0)).collect()
}

#[test]
fn encoded_table_round_trips_for_hand_picked_positions() {
    let (finish, first_off) = synthetic_table();
    let bytes = encode_table(&finish, &first_off);
    let data = BearoffData::parse(&bytes).unwrap();
    let header = data.header();
    assert_eq!(header.max_finish_len, 7);
    assert_eq!(header.max_first_off_len, 5);
    assert_eq!(header.finish_count, 54_264);
    assert_eq!(header.first_off_count, 15_504);

    let cases: [[u8; POINTS]; 3] = [[0, 0, 0, 0, 0, 15], [1, 0, 0, 0, 0, 0], [0, 0, 0, 0, 0, 0]];
    for checkers in cases {
        let r = rank(MAX_CHECKERS, checkers);
        assert_eq!(data.finish_quantized(checkers), padded(&finish[r], 7));
    }
    assert_eq!(
        data.first_off_quantized([0, 0, 0, 0, 0, 15]).unwrap(),
        padded(&first_off[rank(MAX_CHECKERS, [0, 0, 0, 0, 0, 15])], 5)
    );
    assert_eq!(
        data.first_off_quantized([2, 2, 2, 2, 2, 5]).unwrap(),
        padded(&first_off[rank(MAX_CHECKERS, [2, 2, 2, 2, 2, 5])], 5)
    );
    assert!(data.first_off_quantized([1, 0, 0, 0, 0, 0]).is_none());
    assert!(data.first_off_quantized([0; POINTS]).is_none());
}

#[test]
fn encoded_table_round_trips_exhaustively() {
    let (finish, first_off) = synthetic_table();
    let bytes = encode_table(&finish, &first_off);
    let data = BearoffData::parse(&bytes).unwrap();
    for (r, record) in finish.iter().enumerate() {
        let checkers: [u8; POINTS] = unrank(MAX_CHECKERS, r);
        assert_eq!(data.finish_quantized(checkers), padded(record, 7), "rank {r}");
        let on_board: u32 = checkers.iter().map(|&c| c as u32).sum();
        if on_board == MAX_CHECKERS as u32 {
            assert_eq!(
                data.first_off_quantized(checkers).unwrap(),
                padded(&first_off[r], 5),
                "rank {r}"
            );
        } else {
            assert!(data.first_off_quantized(checkers).is_none());
        }
    }
}

#[test]
fn encoded_table_has_the_documented_layout() {
    let (finish, first_off) = synthetic_table();
    let bytes = encode_table(&finish, &first_off);
    assert_eq!(&bytes[0..4], b"OGB1");
    assert_eq!(&bytes[4..6], &1u16.to_le_bytes());
    assert_eq!(bytes[6], 6);
    assert_eq!(bytes[7], 15);
    assert_eq!(&bytes[8..10], &7u16.to_le_bytes());
    assert_eq!(&bytes[10..12], &5u16.to_le_bytes());
    assert_eq!(&bytes[12..16], &54_264u32.to_le_bytes());
    assert_eq!(&bytes[16..20], &15_504u32.to_le_bytes());
    assert_eq!(bytes.len(), HEADER_LEN + 54_264 * 7 * 2 + 15_504 * 5 * 2);
    // The first record is the all-off position's, little-endian and zero-padded.
    assert_eq!(&bytes[20..22], &1u16.to_le_bytes());
    assert_eq!(&bytes[22..24], &0u16.to_le_bytes());
}

#[test]
fn parse_rejects_truncated_encoded_table() {
    let (finish, first_off) = synthetic_table();
    let mut bytes = encode_table(&finish, &first_off);
    bytes.truncate(bytes.len() - 1);
    assert!(matches!(
        BearoffData::parse(&bytes),
        Err(FormatError::Truncated { .. })
    ));
}
