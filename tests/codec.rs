use ufos::codec::{push_str, push_u64, read_str, read_u64, EncodingError};
use ufos::keys::{
    decode_feed_key, feed_key, hour_of, live_counts_key, rank_key, static_key, week_of, Metric,
    Period, Tag,
};
use ufos::rollup::{decide_step, decode_live_counts_key, StepPlan};

#[test]
fn u64_is_big_endian_and_reads_back() {
    let mut out = Vec::new();
    push_u64(&mut out, 0x0102_0304_0506_0708);
    assert_eq!(out, vec![1, 2, 3, 4, 5, 6, 7, 8]);
    assert_eq!(read_u64(&out, 0), Some((0x0102_0304_0506_0708, 8)));
    assert_eq!(read_u64(&out, 1), None);
}

#[test]
fn big_endian_keys_sort_numerically() {
    let a = feed_key(b"n", 255).unwrap();
    let b = feed_key(b"n", 256).unwrap();
    assert!(a < b);
}

#[test]
fn strings_are_zero_terminated() {
    let mut out = Vec::new();
    push_str(&mut out, b"abc");
    out.extend_from_slice(b"rest");
    assert_eq!(&out[..4], b"abc\0");
    assert_eq!(read_str(&out, 0), Some((b"abc".to_vec(), 4)));
    assert_eq!(read_str(b"abc", 0), None);
}

#[test]
fn feed_key_round_trip() {
    let k = feed_key(b"a.b.c", 12345).unwrap();
    assert_eq!(decode_feed_key(&k).unwrap(), (b"a.b.c".to_vec(), 12345));
    assert_eq!(feed_key(b"a\0c", 1), Err(EncodingError::StringContainsNull));
}

#[test]
fn live_counts_key_round_trip() {
    let k = live_counts_key(77, b"x.y").unwrap();
    assert!(k.starts_with(b"live_counts\0"));
    assert_eq!(decode_live_counts_key(&k).unwrap(), (77, b"x.y".to_vec()));
}

#[test]
fn rank_key_layout() {
    let k = rank_key(Period::Hourly(3_600_000_000), Metric::Dids, 5, b"n").unwrap();
    let mut expected = b"hourly_rank_dids\0".to_vec();
    expected.extend_from_slice(&3_600_000_000u64.to_be_bytes());
    expected.extend_from_slice(&5u64.to_be_bytes());
    expected.extend_from_slice(b"n\0");
    assert_eq!(k, expected);
    assert_eq!(static_key(Tag::JsCursor), b"js_cursor\0".to_vec());
}

#[test]
fn hour_and_week_buckets() {
    assert_eq!(hour_of(3_600_000_000 + 17), 3_600_000_000);
    assert_eq!(hour_of(42), 0);
    // 1970-01-05 was the first Monday after the epoch
    let monday = 345_600_000_000u64;
    assert_eq!(week_of(monday), monday);
    assert_eq!(week_of(monday + 604_800_000_000 - 1), monday);
    assert_eq!(week_of(monday + 604_800_000_000), monday + 604_800_000_000);
    assert_eq!(week_of(100), 0);
}

#[test]
fn step_choice_follows_cursors() {
    assert_eq!(decide_step(Some(5), Some(9)), StepPlan::FoldLive(Some(9)));
    assert_eq!(decide_step(Some(9), Some(9)), StepPlan::DeleteAccount);
    assert_eq!(decide_step(Some(9), None), StepPlan::FoldLive(None));
    assert_eq!(decide_step(None, Some(1)), StepPlan::DeleteAccount);
    assert_eq!(decide_step(None, None), StepPlan::Idle);
}
