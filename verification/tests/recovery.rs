use pagestore::logfmt::{encode_record, encode_records, recover, LogRecord};

fn record(kind: u8, pid: u64, lsn: i64, payload: Vec<u8>) -> LogRecord {
    LogRecord { kind, pid, lsn, payload }
}

/// A record frame is its 29-byte header followed by the payload.
#[test]
fn frame_length_is_header_plus_payload() {
    let r = record(1, 7, -3, b"hello".to_vec());
    let bytes = encode_record(&r);
    assert_eq!(bytes.len(), 29 + 5);
}

/// Recovery of an intact log yields every record, fields and payloads
/// unchanged, signed LSNs included.
#[test]
fn recovery_round_trips_intact_log() {
    let rs = vec![
        record(1, 2, 10, b"one".to_vec()),
        record(2, 3, -11, vec![]),
        record(3, 4, i64::MIN, b"three".to_vec()),
    ];
    let bytes = encode_records(&rs);
    let back = recover(&bytes);
    assert_eq!(back.len(), 3);
    for (a, b) in rs.iter().zip(back.iter()) {
        assert_eq!(a.kind, b.kind);
        assert_eq!(a.pid, b.pid);
        assert_eq!(a.lsn, b.lsn);
        assert_eq!(a.payload, b.payload);
    }
}

/// A log truncated mid-record — the crash case — recovers to exactly the
/// records before the torn one, as if it had never been written.
#[test]
fn truncated_log_recovers_to_prefix() {
    let rs = vec![
        record(1, 2, 1, b"alpha".to_vec()),
        record(1, 3, 2, b"beta".to_vec()),
        record(1, 4, 3, b"gamma-gamma".to_vec()),
    ];
    let mut bytes = encode_records(&rs);
    // tear the last record: drop its final six bytes
    let torn_len = bytes.len() - 6;
    bytes.truncate(torn_len);
    let back = recover(&bytes);
    assert_eq!(back.len(), 2);
    assert_eq!(back[0].payload, b"alpha".to_vec());
    assert_eq!(back[1].payload, b"beta".to_vec());

    // same result as if the torn record had never been written
    let clean = encode_records(&vec![
        record(1, 2, 1, b"alpha".to_vec()),
        record(1, 3, 2, b"beta".to_vec()),
    ]);
    let clean_back = recover(&clean);
    assert_eq!(back.len(), clean_back.len());
    for (a, b) in back.iter().zip(clean_back.iter()) {
        assert_eq!(a.pid, b.pid);
        assert_eq!(a.payload, b.payload);
    }
}

/// A flipped payload byte no longer matches the stored CRC32: the record
/// and everything after it are discarded.
#[test]
fn corrupt_record_is_discarded() {
    let rs = vec![
        record(1, 2, 1, b"first".to_vec()),
        record(1, 3, 2, b"second".to_vec()),
        record(1, 4, 3, b"third".to_vec()),
    ];
    let mut bytes = encode_records(&rs);
    // flip one byte inside the second record's payload
    let second_payload_start = (29 + 5) + 29;
    bytes[second_payload_start] ^= 0xff;
    let back = recover(&bytes);
    assert_eq!(back.len(), 1);
    assert_eq!(back[0].payload, b"first".to_vec());
}

/// A header shorter than its fixed 29 bytes is torn: nothing is accepted.
#[test]
fn short_header_recovers_nothing() {
    let r = record(9, 1, 0, vec![]);
    let mut bytes = encode_record(&r);
    bytes.truncate(20);
    assert_eq!(recover(&bytes).len(), 0);
}

/// Reopening after a crash: a store opened from a log torn mid-record and
/// one opened from the clean prefix recover the same records, and behave
/// identically afterwards — here, opening the same name yields the same
/// fresh root in both.
#[test]
fn reopen_after_torn_log_matches_clean_prefix() {
    let config = pagestore::pagecache::Config::new()
        .segment_size(2048)
        .temporary(true);
    let rs = vec![
        record(1, 2, 1, b"alpha".to_vec()),
        record(1, 3, 2, b"beta".to_vec()),
    ];
    let mut torn = encode_records(&vec![
        record(1, 2, 1, b"alpha".to_vec()),
        record(1, 3, 2, b"beta".to_vec()),
        record(1, 4, 3, b"gamma".to_vec()),
    ]);
    let keep = torn.len() - 10;
    torn.truncate(keep);
    let clean = encode_records(&rs);

    let (mut pc1, recs1) = pagestore::pagecache::PageCache::start_from_log(config, &torn);
    let (mut pc2, recs2) = pagestore::pagecache::PageCache::start_from_log(config, &clean);
    assert_eq!(recs1.len(), recs2.len());
    for (a, b) in recs1.iter().zip(recs2.iter()) {
        assert_eq!(a.pid, b.pid);
        assert_eq!(a.lsn, b.lsn);
        assert_eq!(a.payload, b.payload);
    }
    let g1 = pc1.pin();
    let t1 = pagestore::tree::open_tree(&mut pc1, b"t".to_vec(), &g1).unwrap();
    pc1.unpin(g1);
    let g2 = pc2.pin();
    let t2 = pagestore::tree::open_tree(&mut pc2, b"t".to_vec(), &g2).unwrap();
    pc2.unpin(g2);
    assert_eq!(t1.root(), t2.root());
}
