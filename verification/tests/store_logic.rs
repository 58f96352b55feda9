use index_store::batch::WriteBatch;
use index_store::config::{encode_config, parse_config, Config, CURRENT_FORMAT};
use index_store::store::{
    decide_flush, decide_open, decide_write_durability, filter_scan, OpenDecision, ReindexCause,
};

fn keys_from_seek(items: &[[u8; 12]], seek: &[u8]) -> Vec<Vec<u8>> {
    // what an ascending engine scan yields after seeking to `seek`
    items.iter().filter(|k| &k[..] >= seek).map(|k| k.to_vec()).collect()
}

#[test]
fn test_db_prefix_scan() {
    let items = [
        *b"ab          ",
        *b"abcdefgh    ",
        *b"abcdefghj   ",
        *b"abcdefghjk  ",
        *b"abcdefghxyz ",
        *b"abcdefgi    ",
        *b"b           ",
        *b"c           ",
    ];

    let mut batch = WriteBatch::default();
    batch.txid_rows = items.iter().map(|k| k.to_vec()).collect();
    batch.sort();

    let prefix = b"abcdefgh".to_vec();
    let scan = keys_from_seek(&items, &prefix);
    let rows = filter_scan(&scan, Some(&prefix), 12);
    let expected: Vec<Vec<u8>> = items[1..5].iter().map(|k| k.to_vec()).collect();
    assert_eq!(rows, expected);
}

#[test]
fn test_prefix_scan_skips_other_widths() {
    // the reserved tip key shares the headers table without ending the scan
    let scan: Vec<Vec<u8>> = vec![b"T".to_vec(), b"aaaa".to_vec(), b"bbbb".to_vec()];
    let rows = filter_scan(&scan, None, 4);
    assert_eq!(rows, vec![b"aaaa".to_vec(), b"bbbb".to_vec()]);
}

#[test]
fn test_prefix_scan_empty_store() {
    let rows = filter_scan(&Vec::new(), Some(&b"abcdefgh".to_vec()), 12);
    assert!(rows.is_empty());
    let rows = filter_scan(&Vec::new(), None, 36);
    assert!(rows.is_empty());
}

#[test]
fn test_sort_is_ascending_permutation() {
    let mut batch = WriteBatch::default();
    batch.funding_rows = vec![
        b"zzzzzzzzzzzz".to_vec(),
        b"aaaaaaaaaaaa".to_vec(),
        b"mmmmmmmmmmmm".to_vec(),
        b"aaaaaaaaaaaa".to_vec(),
    ];
    batch.sort();
    assert_eq!(
        batch.funding_rows,
        vec![
            b"aaaaaaaaaaaa".to_vec(),
            b"aaaaaaaaaaaa".to_vec(),
            b"mmmmmmmmmmmm".to_vec(),
            b"zzzzzzzzzzzz".to_vec(),
        ]
    );
}

#[test]
fn test_config_encoding_is_canonical_json() {
    let bytes = encode_config(&Config { compacted: false, format: 0 });
    assert_eq!(bytes, b"{\"compacted\":false,\"format\":0}".to_vec());
    let bytes = encode_config(&Config { compacted: true, format: 17 });
    assert_eq!(bytes, b"{\"compacted\":true,\"format\":17}".to_vec());
}

#[test]
fn test_config_round_trip() {
    for c in [
        Config { compacted: false, format: 0 },
        Config { compacted: true, format: 1 },
        Config { compacted: true, format: u64::MAX },
    ] {
        assert_eq!(parse_config(&encode_config(&c)), Some(c));
    }
}

#[test]
fn test_config_rejects_non_canonical() {
    assert_eq!(parse_config(&b"".to_vec()), None);
    assert_eq!(parse_config(&b"{}".to_vec()), None);
    assert_eq!(parse_config(&b"{\"compacted\":false,\"format\":01}".to_vec()), None);
    assert_eq!(parse_config(&b"{\"compacted\":false,\"format\":}".to_vec()), None);
    assert_eq!(parse_config(&b"{\"compacted\":no,\"format\":0}".to_vec()), None);
    // one past u64::MAX
    assert_eq!(
        parse_config(&b"{\"compacted\":false,\"format\":18446744073709551616}".to_vec()),
        None
    );
    // trailing garbage
    assert_eq!(parse_config(&b"{\"compacted\":false,\"format\":0} ".to_vec()), None);
}

#[test]
fn test_reindex_new_format() {
    // a store whose record carries a later format than this build understands
    let stored = encode_config(&Config { compacted: false, format: CURRENT_FORMAT + 1 });
    let d = decide_open(Some(&stored), false, false);
    assert_eq!(d, OpenDecision::Refuse { cause: ReindexCause::Format { stored: CURRENT_FORMAT + 1 } });
    // allowing auto-reindex rebuilds from the default, current-format config
    let d = decide_open(Some(&stored), false, true);
    assert_eq!(d, OpenDecision::Rebuild { cause: ReindexCause::Format { stored: CURRENT_FORMAT + 1 } });
    let fresh = Config::default();
    assert_eq!(fresh.format, CURRENT_FORMAT);
    assert!(!fresh.compacted);
}

#[test]
fn test_reindex_legacy_format() {
    // any key in the single-namespace layout marks the store as legacy
    let d = decide_open(None, true, false);
    assert_eq!(d, OpenDecision::Refuse { cause: ReindexCause::Legacy });
    let d = decide_open(None, true, true);
    assert_eq!(d, OpenDecision::Rebuild { cause: ReindexCause::Legacy });
    // legacy wins over a format mismatch
    let stored = encode_config(&Config { compacted: false, format: CURRENT_FORMAT + 1 });
    let d = decide_open(Some(&stored), true, false);
    assert_eq!(d, OpenDecision::Refuse { cause: ReindexCause::Legacy });
}

#[test]
fn test_open_decisions() {
    // fresh store: defaults, proceed
    let d = decide_open(None, false, false);
    assert_eq!(d, OpenDecision::Proceed { config: Config { compacted: false, format: CURRENT_FORMAT } });
    // current format read back: proceed with the stored record
    let stored = encode_config(&Config { compacted: true, format: CURRENT_FORMAT });
    let d = decide_open(Some(&stored), false, false);
    assert_eq!(d, OpenDecision::Proceed { config: Config { compacted: true, format: CURRENT_FORMAT } });
    // an undecodable record is a defect, whatever the flags say
    let d = decide_open(Some(&b"not json".to_vec()), false, true);
    assert_eq!(d, OpenDecision::Corrupt);
}

#[test]
fn test_flush_compacts_once() {
    // first flush of an uncompacted store compacts and flips the record
    let first = decide_flush(Config { compacted: false, format: CURRENT_FORMAT });
    assert_eq!(first, Some(Config { compacted: true, format: CURRENT_FORMAT }));
    // after that the record is compacted and a flush compacts nothing again
    let again = decide_flush(first.unwrap());
    assert_eq!(again, None);
}

#[test]
fn test_reindex_messages() {
    assert_eq!(
        ReindexCause::Format { stored: CURRENT_FORMAT + 1 }.message(),
        format!(
            "re-index required due to unsupported format {} != {}",
            CURRENT_FORMAT + 1,
            CURRENT_FORMAT
        )
    );
    assert_eq!(
        ReindexCause::Format { stored: 18446744073709551615 }.message(),
        format!("re-index required due to unsupported format {} != {}", u64::MAX, CURRENT_FORMAT)
    );
    assert_eq!(ReindexCause::Legacy.message(), "re-index required due to legacy format");
}

#[test]
fn test_write_durability_by_phase() {
    // bulk import: no sync, no write-ahead log
    assert_eq!(decide_write_durability(true), (false, true));
    // online: synchronous, write-ahead log kept
    assert_eq!(decide_write_durability(false), (true, false));
}
