use ufos::codec::EncodingError;
use ufos::did_ids::{DidId, DidIdValue};
use ufos::engine::{
    consumer_info, mark_dirty, plan_init, reroll_ops, rollup_delay_ms, trim_interval_ms,
    trim_round_done,
};
use ufos::keys::{counts_key, live_counts_key, queue_key, rank_key, static_key, Metric, Period, Tag};
use ufos::maintenance::{decode_record_meta, split_batches};
use ufos::reader::{collect_live, UFOsRecord, 
    all_collections_start, check_top_entry, feed_entry_location, order_rank_rows,
    page_all_collections,
};
use ufos::rollup::{plan_delete_step, plan_live_fold, CountsCell, RollupError};
use ufos::store::{Partition, WriteOp};
use ufos::types::{ConsumerInfo, QueryPeriod, StorageError};

fn be(n: u64) -> Vec<u8> {
    n.to_be_bytes().to_vec()
}

fn cell(records: u64) -> Vec<u8> {
    CountsCell { records, dids: ufos::sketch::empty_sketch() }.to_db_bytes().unwrap()
}

#[test]
fn fresh_init_writes_four_singletons() {
    let plan = plan_init(None, None, None, false, false, b"wss://a", false, &[7u8; 16], 99).unwrap();
    assert_eq!(plan.resume_cursor, None);
    assert_eq!(plan.secret, vec![7u8; 16]);
    assert_eq!(plan.ops.len(), 4);
    match &plan.ops[2] {
        WriteOp::Insert(Partition::Global, k, v) => {
            assert_eq!(k, &static_key(Tag::Takeoff));
            assert_eq!(v, &be(99));
        }
        other => panic!("unexpected {other:?}"),
    }
    match &plan.ops[3] {
        WriteOp::Insert(Partition::Global, k, v) => {
            assert_eq!(k, &static_key(Tag::RollupCursor));
            assert_eq!(v, &be(0));
        }
        other => panic!("unexpected {other:?}"),
    }
    let again = plan_init(None, Some(b"wss://a"), None, false, false, b"wss://a", false, &[7u8; 16], 1);
    assert!(matches!(again, Err(StorageError::InitError(_))));
}

#[test]
fn resume_keeps_secret_and_checks_endpoint() {
    let cursor = be(1234);
    let secret = [3u8; 16];
    let plan = plan_init(Some(&cursor), Some(b"wss://a"), Some(&secret), true, true, b"wss://a", false, &[0u8; 16], 5)
        .unwrap();
    assert_eq!(plan.resume_cursor, Some(1234));
    assert_eq!(plan.secret, secret.to_vec());
    assert!(plan.ops.is_empty());

    let refused = plan_init(Some(&cursor), Some(b"wss://a"), Some(&secret), true, true, b"wss://b", false, &[0u8; 16], 5);
    assert!(matches!(refused, Err(StorageError::InitError(_))));

    let forced = plan_init(Some(&cursor), Some(b"wss://a"), Some(&secret), true, true, b"wss://b", true, &[0u8; 16], 5)
        .unwrap();
    assert_eq!(forced.ops.len(), 1);

    let missing = plan_init(Some(&cursor), None, Some(&secret), true, true, b"wss://a", false, &[0u8; 16], 5);
    assert!(matches!(missing, Err(StorageError::InitError(_))));
    let missing = plan_init(Some(&cursor), Some(b"wss://a"), None, true, true, b"wss://a", false, &[0u8; 16], 5);
    assert!(matches!(missing, Err(StorageError::InitError(_))));
}

#[test]
fn consumer_info_reads_singletons() {
    let info = consumer_info(Some(b"wss://a"), Some(&be(10)), Some(&be(20)), None).unwrap();
    let ConsumerInfo::Jetstream { endpoint, started_at, latest_cursor, rollup_cursor } = info;
    assert_eq!(endpoint, b"wss://a".to_vec());
    assert_eq!(started_at, 10);
    assert_eq!(latest_cursor, Some(20));
    assert_eq!(rollup_cursor, None);
    assert!(matches!(consumer_info(None, Some(&be(10)), None, None), Err(StorageError::BadStateError(_))));
    assert!(matches!(consumer_info(Some(b"x"), None, None, None), Err(StorageError::BadStateError(_))));
}

#[test]
fn reroll_resets_cursor_and_trim_cursors() {
    let keys = vec![b"k1".to_vec(), b"k2".to_vec()];
    let ops = reroll_ops(&keys);
    assert_eq!(ops.len(), 3);
    assert!(matches!(&ops[0], WriteOp::Insert(Partition::Global, k, v) if *k == static_key(Tag::RollupCursor) && *v == be(0)));
    assert!(matches!(&ops[2], WriteOp::Remove(Partition::Global, k) if *k == b"k2".to_vec()));
}

#[test]
fn background_decisions() {
    assert_eq!(rollup_delay_ms(0, false), 1_200);
    assert_eq!(rollup_delay_ms(3, false), 81);
    assert_eq!(rollup_delay_ms(3, true), 1);
    assert_eq!(trim_interval_ms(false), 6_000);
    assert_eq!(trim_interval_ms(true), 3_000);
    assert!(!trim_round_done(1_000_000));
    assert!(trim_round_done(1_000_001));
    let mut dirty = vec![b"a".to_vec()];
    mark_dirty(&mut dirty, &vec![b"b".to_vec(), b"a".to_vec(), b"b".to_vec()]);
    assert_eq!(dirty, vec![b"a".to_vec(), b"b".to_vec()]);
}

#[test]
fn query_period_and_did_ids() {
    assert!(QueryPeriod::all_time().is_all_time());
    assert!(!QueryPeriod { from: Some(1), until: None }.is_all_time());
    let v = DidIdValue(DidId(42), true);
    assert_eq!(v.did_id(), DidId(42));
    assert!(v.is_active());
}

#[test]
fn paging_all_collections() {
    let rows: Vec<(Vec<u8>, Vec<u8>)> = ["a.a", "b.b", "c.c"]
        .iter()
        .enumerate()
        .map(|(i, n)| (counts_key(Period::AllTime, n.as_bytes()).unwrap(), cell(i as u64 + 1)))
        .collect();
    let (page, next) = page_all_collections(&rows, 2).unwrap();
    assert_eq!(page.len(), 2);
    assert_eq!(page[1].nsid, b"b.b".to_vec());
    assert_eq!(page[1].records, 2);
    assert_eq!(next, Some(b"b.b\0".to_vec()));
    let (start, inclusive) = all_collections_start(next.as_deref()).unwrap();
    assert!(!inclusive);
    assert_eq!(start, counts_key(Period::AllTime, b"b.b").unwrap());
    let (page, next) = page_all_collections(&rows[2..].to_vec(), 2).unwrap();
    assert_eq!(page.len(), 1);
    assert_eq!(next, None);
    let (first, inclusive) = all_collections_start(None).unwrap();
    assert!(inclusive);
    assert_eq!(first, static_key(Tag::EverCounts));
}

#[test]
fn rank_rows_and_integrity() {
    let rows = vec![
        (5u64, b"z".to_vec()),
        (3, b"c".to_vec()),
        (3, b"b".to_vec()),
        (3, b"a".to_vec()),
        (1, b"q".to_vec()),
    ];
    let ordered = order_rank_rows(&rows, 3);
    let names: Vec<Vec<u8>> = ordered.iter().map(|(_, n)| n.clone()).collect();
    assert_eq!(names, vec![b"z".to_vec(), b"a".to_vec(), b"b".to_vec()]);

    let ok = check_top_entry(Metric::Records, 4, b"n".to_vec(), Some(&cell(4))).unwrap();
    assert_eq!((ok.records, ok.dids_estimate), (4, 0));
    assert!(matches!(
        check_top_entry(Metric::Records, 5, b"n".to_vec(), Some(&cell(4))),
        Err(StorageError::IntegrityError(_))
    ));
    assert!(matches!(
        check_top_entry(Metric::Dids, 5, b"n".to_vec(), Some(&cell(4))),
        Err(StorageError::IntegrityError(_))
    ));
    assert!(matches!(
        check_top_entry(Metric::Records, 4, b"n".to_vec(), None),
        Err(StorageError::IntegrityError(_))
    ));
    let k = rank_key(Period::AllTime, Metric::Records, 4, b"n").unwrap();
    assert_eq!(ufos::reader::decode_ever_rank_key(Metric::Records, &k).unwrap(), (4, b"n".to_vec()));
}

#[test]
fn decode_errors() {
    let mut rec = be(1);
    rec.push(2);
    rec.extend_from_slice(b"rev\0{}");
    assert!(matches!(decode_record_meta(&rec), Err(EncodingError::InvalidFlag)));
    assert!(matches!(decode_record_meta(&be(1)), Err(EncodingError::NotEnoughBytes)));
    let mut k = live_counts_key(3, b"n").unwrap();
    k.push(9);
    assert!(matches!(ufos::rollup::decode_live_counts_key(&k), Err(EncodingError::UnexpectedTrailingBytes)));
    assert!(feed_entry_location(b"n\0", b"d\0k\0r\0").is_err());
    let mut fk = b"n\0".to_vec();
    fk.extend_from_slice(&be(7));
    assert_eq!(
        feed_entry_location(&fk, b"d\0k\0r\0").unwrap(),
        ufos::keys::record_key(b"d", b"n", b"k").unwrap()
    );
}

#[test]
fn rollup_errors() {
    let rows = vec![(live_counts_key(5, b"n").unwrap(), cell(1))];
    assert!(matches!(plan_live_fold(&rows, 5, None, 10), Err(RollupError::OutOfOrder)));
    let plan = plan_live_fold(&rows, 4, Some(5), 10).unwrap();
    assert_eq!(plan.consumed, 0);
    assert_eq!(plan.last_cursor, 4);
    assert!(matches!(plan_delete_step(9, &queue_key(9), b"d\0"), Err(RollupError::OutOfOrder)));
    assert_eq!(plan_delete_step(8, &queue_key(9), b"d\0").unwrap(), (b"d".to_vec(), 9));

    let mut big = CountsCell { records: u64::MAX, dids: ufos::sketch::empty_sketch() };
    let one = CountsCell { records: 1, dids: ufos::sketch::empty_sketch() };
    assert!(matches!(big.merge(&one), Err(RollupError::CountOverflow)));
    assert_eq!(big.records, u64::MAX);
}

#[test]
fn changes_split_into_batches_in_order() {
    let ops: Vec<WriteOp> = (0..5u8).map(|i| WriteOp::Remove(Partition::Feeds, vec![i])).collect();
    let batches = split_batches(&ops, 2);
    let sizes: Vec<usize> = batches.iter().map(|b| b.len()).collect();
    assert_eq!(sizes, vec![2, 2, 1]);
    assert!(matches!(&batches[2][0], WriteOp::Remove(Partition::Feeds, k) if *k == vec![4u8]));
}

#[test]
fn malformed_stored_values_refuse_to_open() {
    let secret = [3u8; 16];
    let bad_cursor = plan_init(Some(b"123"), Some(b"wss://a"), Some(&secret), true, true, b"wss://a", false, &[0u8; 16], 5);
    assert!(matches!(bad_cursor, Err(StorageError::InitError(_))));
    let short_secret = plan_init(Some(&be(1)), Some(b"wss://a"), Some(&[1u8; 4]), true, true, b"wss://a", false, &[0u8; 16], 5);
    assert!(matches!(short_secret, Err(StorageError::InitError(_))));
}

#[test]
fn fold_splits_by_hour_and_week() {
    let rows = vec![
        (live_counts_key(3_600_000_001, b"n").unwrap(), cell(2)),
        (live_counts_key(7_200_000_001, b"n").unwrap(), cell(5)),
    ];
    let plan = plan_live_fold(&rows, 0, None, 10).unwrap();
    assert_eq!(plan.consumed, 2);
    let hourly: Vec<(u64, u64)> = plan
        .deltas
        .iter()
        .filter_map(|d| match d.period {
            Period::Hourly(h) => Some((h, d.counts.records)),
            _ => None,
        })
        .collect();
    assert_eq!(hourly, vec![(3_600_000_000, 2), (7_200_000_000, 5)]);
    let ever: u64 = plan.deltas.iter().filter(|d| d.period == Period::AllTime).map(|d| d.counts.records).sum();
    assert_eq!(ever, 7);
}

#[test]
fn feed_walk_keeps_live_records_up_to_limit() {
    let rec = |c: u64| UFOsRecord {
        cursor: c,
        did: b"d".to_vec(),
        collection: b"n".to_vec(),
        rkey: b"k".to_vec(),
        rev: b"r".to_vec(),
        record: b"{}".to_vec(),
        is_update: false,
    };
    let mut found = Vec::new();
    assert!(collect_live(&mut found, Some(rec(3)), 2));
    assert!(collect_live(&mut found, None, 2));
    assert!(!collect_live(&mut found, Some(rec(1)), 2));
    let cursors: Vec<u64> = found.iter().map(|r| r.cursor).collect();
    assert_eq!(cursors, vec![3, 1]);
}

#[test]
fn continuation_starts_after_named_collection() {
    let (k, inclusive) = all_collections_start(Some(b"a.b\0")).unwrap();
    assert!(!inclusive);
    assert_eq!(k, counts_key(Period::AllTime, b"a.b").unwrap());
    assert!(all_collections_start(Some(b"a.b")).is_err());
}
