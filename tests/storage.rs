use std::collections::BTreeMap;

use ufos::batch::{CommitEvent, CommitOp, DeleteAccount, EventBatch, UFOsCommit};
use ufos::engine::plan_init;
use ufos::keys::{
    counts_key, feed_key, feed_prefix, record_key, record_prefix, static_key, trim_cursor_key,
    Metric, Period, Tag,
};
use ufos::maintenance::{
    decode_feed_value, decode_record_meta, plan_account_delete, plan_trim, FeedEntry,
};
use ufos::reader::{
    check_top_entry, decode_ever_rank_key, fold_counts, merge_records, order_rank_rows,
    resolve_feed_entry,
    UFOsRecord,
};
use ufos::rollup::{
    decide_step, decode_live_counts_key, finish_account_delete_ops, fold_commit_ops,
    plan_aggregate_update, plan_delete_step, plan_live_fold, StepPlan, MAX_BATCHED_ROLLUP_COUNTS,
};
use ufos::store::{insert_batch_ops, Partition, WriteOp};
use ufos::tree::hierarchical_top;
use ufos::types::{NsidCount, TopCollections};

const TEST_BATCH_LIMIT: usize = 16;

fn pidx(p: Partition) -> u8 {
    match p {
        Partition::Global => 0,
        Partition::Feeds => 1,
        Partition::Records => 2,
        Partition::Rollups => 3,
        Partition::Queues => 4,
    }
}

/// A keyspace in memory that performs the library's write plans.
#[derive(Default)]
struct Mem {
    rows: BTreeMap<(u8, Vec<u8>), Vec<u8>>,
}

impl Mem {
    fn new() -> Self {
        let mut m = Mem::default();
        let plan = plan_init(None, None, None, false, false, b"offline", false, &[0u8; 16], 0)
            .unwrap();
        m.apply(plan.ops);
        m
    }

    fn apply(&mut self, ops: Vec<WriteOp>) {
        for op in ops {
            match op {
                WriteOp::Insert(p, k, v) => {
                    self.rows.insert((pidx(p), k), v);
                }
                WriteOp::Remove(p, k) => {
                    self.rows.remove(&(pidx(p), k));
                }
            }
        }
    }

    fn get(&self, p: Partition, k: &[u8]) -> Option<Vec<u8>> {
        self.rows.get(&(pidx(p), k.to_vec())).cloned()
    }

    fn prefix(&self, p: Partition, prefix: &[u8]) -> Vec<(Vec<u8>, Vec<u8>)> {
        self.rows
            .range((pidx(p), prefix.to_vec())..)
            .take_while(|((q, k), _)| *q == pidx(p) && k.starts_with(prefix))
            .map(|((_, k), v)| (k.clone(), v.clone()))
            .collect()
    }

    fn rollup_cursor(&self) -> u64 {
        let v = self.get(Partition::Global, &static_key(Tag::RollupCursor)).unwrap();
        u64::from_be_bytes(v.try_into().unwrap())
    }

    fn live_rows_after(&self, cursor: u64) -> Vec<(Vec<u8>, Vec<u8>)> {
        self.prefix(Partition::Rollups, &static_key(Tag::LiveCounts))
            .into_iter()
            .filter(|(k, _)| decode_live_counts_key(k).unwrap().0 > cursor)
            .collect()
    }

    fn insert_batch(&mut self, batch: &EventBatch<TEST_BATCH_LIMIT>) {
        let ops = insert_batch_ops(batch).unwrap();
        self.apply(ops);
    }

    fn delete_account(&mut self, did: &[u8]) -> usize {
        self.delete_account_at(did, u64::MAX)
    }

    fn delete_account_at(&mut self, did: &[u8], cursor: u64) -> usize {
        let rows = self.prefix(Partition::Records, &record_prefix(did).unwrap());
        let mut n = 0;
        for batch in plan_account_delete(did, &rows, cursor).unwrap() {
            n += batch.len();
            self.apply(batch);
        }
        n
    }

    fn step_rollup(&mut self) -> usize {
        let r = self.rollup_cursor();
        let live = self.live_rows_after(r);
        let queue: Vec<(Vec<u8>, Vec<u8>)> = self
            .prefix(Partition::Queues, &static_key(Tag::DeleteAccount))
            .into_iter()
            .filter(|(k, _)| ufos::maintenance::decode_queue_key(k).unwrap() > r)
            .collect();
        let live_next = live.first().map(|(k, _)| decode_live_counts_key(k).unwrap().0);
        let delete_next = queue.first().map(|(k, _)| ufos::maintenance::decode_queue_key(k).unwrap());
        match decide_step(live_next, delete_next) {
            StepPlan::Idle => 0,
            StepPlan::DeleteAccount => {
                let (k, v) = &queue[0];
                let (did, c) = plan_delete_step(r, k, v).unwrap();
                self.delete_account_at(&did, c);
                self.apply(finish_account_delete_ops(c));
                1
            }
            StepPlan::FoldLive(before) => {
                let plan = plan_live_fold(&live, r, before, MAX_BATCHED_ROLLUP_COUNTS).unwrap();
                let mut updates = Vec::new();
                for d in &plan.deltas {
                    let key = counts_key(d.period, &d.nsid).unwrap();
                    let current = self.get(Partition::Rollups, &key);
                    let u = plan_aggregate_update(d.period, &d.nsid, current.as_deref(), &d.counts)
                        .unwrap();
                    updates.push(u.ops);
                }
                let ops = fold_commit_ops(&plan, &updates);
                self.apply(ops);
                plan.consumed
            }
        }
    }

    fn trim_collection(&mut self, nsid: &[u8], limit: usize, full_scan: bool) -> (usize, usize) {
        let stored = self
            .get(Partition::Global, &trim_cursor_key(nsid).unwrap())
            .map(|v| u64::from_be_bytes(v.try_into().unwrap()));
        let (start_key, inclusive) = ufos::maintenance::trim_range_start(nsid, stored, full_scan).unwrap();
        let mut feed = self.prefix(Partition::Feeds, &feed_prefix(nsid).unwrap());
        feed.retain(|(k, _)| if inclusive { *k >= start_key } else { *k > start_key });
        feed.reverse();
        let entries: Vec<(FeedEntry, Option<ufos::maintenance::RecordMeta>)> = feed
            .iter()
            .map(|(k, v)| {
                let (_, cursor) = ufos::keys::decode_feed_key(k).unwrap();
                let (did, rkey, rev) = decode_feed_value(v).unwrap();
                let meta = self
                    .get(Partition::Records, &record_key(&did, nsid, &rkey).unwrap())
                    .map(|b| decode_record_meta(&b).unwrap().0);
                (FeedEntry { cursor, did, rkey, rev }, meta)
            })
            .collect();
        let plan = plan_trim(nsid, &entries, limit, full_scan).unwrap();
        let out = (plan.dangling_removed, plan.records_deleted);
        self.apply(plan.ops);
        out
    }

    fn records_for(&self, nsid: &[u8], limit: usize) -> Vec<UFOsRecord> {
        let mut feed = self.prefix(Partition::Feeds, &feed_prefix(nsid).unwrap());
        feed.reverse();
        let mut out = Vec::new();
        for (k, v) in feed {
            if out.len() == limit {
                break;
            }
            let (did, rkey, _) = decode_feed_value(&v).unwrap();
            let rec = self.get(Partition::Records, &record_key(&did, nsid, &rkey).unwrap());
            if let Some(r) = resolve_feed_entry(&k, &v, rec.as_deref()).unwrap() {
                out.push(r);
            }
        }
        out
    }

    fn get_records_by_collections(
        &self,
        nsids: &[&str],
        limit: usize,
        expand: bool,
    ) -> Vec<UFOsRecord> {
        let lists: Vec<Vec<UFOsRecord>> =
            nsids.iter().map(|n| self.records_for(n.as_bytes(), limit)).collect();
        merge_records(&lists, limit, expand)
    }

    fn get_counts_by_collection(&self, nsid: &str) -> (u64, u64) {
        let ever = self.get(Partition::Rollups, &counts_key(Period::AllTime, nsid.as_bytes()).unwrap());
        let live = self.live_rows_after(self.rollup_cursor());
        fold_counts(nsid.as_bytes(), ever.as_deref(), &live).unwrap()
    }

    fn top_by(&self, metric: Metric, limit: usize) -> Vec<NsidCount> {
        let tag = match metric {
            Metric::Records => Tag::EverRankRecords,
            Metric::Dids => Tag::EverRankDids,
        };
        let mut rows = self.prefix(Partition::Rollups, &static_key(tag));
        rows.reverse();
        let decoded: Vec<(u64, Vec<u8>)> =
            rows.iter().map(|(k, _)| decode_ever_rank_key(metric, k).unwrap()).collect();
        order_rank_rows(&decoded, limit)
            .into_iter()
            .map(|(v, nsid)| {
                let cell = self.get(Partition::Rollups, &counts_key(Period::AllTime, &nsid).unwrap());
                check_top_entry(metric, v, nsid, cell.as_deref()).unwrap()
            })
            .collect()
    }

    fn get_top_collections(&self) -> TopCollections {
        let rows = self.prefix(Partition::Rollups, &static_key(Tag::EverCounts));
        hierarchical_top(&rows).unwrap()
    }
}

#[derive(Default)]
struct TestBatch {
    batch: Option<EventBatch<TEST_BATCH_LIMIT>>,
}

impl TestBatch {
    fn batch(&mut self) -> &mut EventBatch<TEST_BATCH_LIMIT> {
        self.batch.get_or_insert_with(EventBatch::new)
    }

    fn commit(&mut self, did: &str, collection: &str, rkey: &str, record: Option<&str>, rev: &str, op: CommitOp, cursor: u64) {
        let event = CommitEvent {
            collection: collection.as_bytes().to_vec(),
            rkey: rkey.as_bytes().to_vec(),
            rev: rev.as_bytes().to_vec(),
            operation: op,
            record: record.map(|r| r.as_bytes().to_vec()),
        };
        let (commit, nsid): (UFOsCommit, Vec<u8>) =
            UFOsCommit::from_commit_info(event, did.as_bytes().to_vec(), cursor).unwrap();
        self.batch().insert_commit_by_nsid(&nsid, commit, usize::MAX).unwrap();
    }

    fn create(&mut self, did: &str, collection: &str, rkey: &str, record: &str, rev: &str, cursor: u64) {
        self.commit(did, collection, rkey, Some(record), rev, CommitOp::Create, cursor);
    }

    fn update(&mut self, did: &str, collection: &str, rkey: &str, record: &str, rev: &str, cursor: u64) {
        self.commit(did, collection, rkey, Some(record), rev, CommitOp::Update, cursor);
    }

    fn delete(&mut self, did: &str, collection: &str, rkey: &str, rev: &str, cursor: u64) {
        self.commit(did, collection, rkey, None, rev, CommitOp::Delete, cursor);
    }

    fn delete_account(&mut self, did: &str, cursor: u64) {
        self.batch().account_removes.push(DeleteAccount { did: did.as_bytes().to_vec(), cursor });
    }

    fn take(&mut self) -> EventBatch<TEST_BATCH_LIMIT> {
        self.batch.take().unwrap_or_else(EventBatch::new)
    }
}

fn record_text(r: &UFOsRecord) -> String {
    String::from_utf8(r.record.clone()).unwrap()
}

fn leaf(total_records: u64, dids_estimate: u64) -> TopCollections {
    TopCollections { total_records, dids_estimate, nsid_child_segments: vec![] }
}

fn node(total_records: u64, dids_estimate: u64, children: Vec<(&str, TopCollections)>) -> TopCollections {
    TopCollections {
        total_records,
        dids_estimate,
        nsid_child_segments: children.into_iter().map(|(s, t)| (s.to_string(), t)).collect(),
    }
}

fn same_tree(a: &TopCollections, b: &TopCollections) -> bool {
    a.total_records == b.total_records
        && a.dids_estimate == b.dids_estimate
        && a.nsid_child_segments.len() == b.nsid_child_segments.len()
        && a.nsid_child_segments.iter().all(|(s, t)| {
            b.nsid_child_segments.iter().any(|(s2, t2)| s == s2 && same_tree(t, t2))
        })
}

#[test]
fn test_hello() {
    let mut db = Mem::new();
    let mut b = TestBatch::default();
    db.insert_batch(&b.take());
    let (records, dids) = db.get_counts_by_collection("a.b.c");
    assert_eq!(records, 0);
    assert_eq!(dids, 0);
}

#[test]
fn test_insert_one() {
    let mut db = Mem::new();
    let mut b = TestBatch::default();
    b.create("did:plc:inze6wrmsm7pjl7yta3oig77", "a.b.c", "asdf", "{}", "rev-z", 100);
    db.insert_batch(&b.take());

    assert_eq!(db.get_counts_by_collection("a.b.c"), (1, 1));
    assert_eq!(db.get_counts_by_collection("d.e.f"), (0, 0));

    let records = db.get_records_by_collections(&["a.b.c"], 2, false);
    assert_eq!(records.len(), 1);
    let rec = &records[0];
    assert_eq!(record_text(rec), "{}");
    assert!(!rec.is_update);
    assert_eq!(rec.cursor, 100);
    assert_eq!(rec.rev, b"rev-z".to_vec());

    let records = db.get_records_by_collections(&["d.e.f"], 2, false);
    assert_eq!(records.len(), 0);
}

#[test]
fn test_get_multi_collection() {
    let mut db = Mem::new();
    let mut b = TestBatch::default();
    b.create("did:plc:inze6wrmsm7pjl7yta3oig77", "a.a.a", "aaa", r#""earliest""#, "rev-a", 100);
    b.create("did:plc:inze6wrmsm7pjl7yta3oig77", "a.a.b", "aab", r#""in between""#, "rev-ab", 101);
    b.create("did:plc:inze6wrmsm7pjl7yta3oig77", "a.a.a", "aaa-2", r#""last""#, "rev-a-2", 102);
    db.insert_batch(&b.take());

    let records = db.get_records_by_collections(&["a.a.a", "a.a.b", "a.a.c"], 100, false);
    assert_eq!(records.len(), 3);
    assert_eq!(record_text(&records[0]), r#""last""#);
    assert_eq!(records[0].collection, b"a.a.a".to_vec());
    assert_eq!(record_text(&records[1]), r#""in between""#);
    assert_eq!(records[1].collection, b"a.a.b".to_vec());
    assert_eq!(record_text(&records[2]), r#""earliest""#);
    assert_eq!(records[2].collection, b"a.a.a".to_vec());
}

#[test]
fn test_get_multi_collection_expanded() {
    let mut db = Mem::new();
    let mut b = TestBatch::default();
    for i in 1..=3u64 {
        b.create(
            "did:plc:inze6wrmsm7pjl7yta3oig77",
            "a.a.b",
            &format!("aab-{i}"),
            &format!(r#""b {i}""#),
            &format!("rev-b-{i}"),
            100 + i,
        );
    }
    for i in 1..=3u64 {
        b.create(
            "did:plc:inze6wrmsm7pjl7yta3oig77",
            "a.a.a",
            &format!("aaa-{i}"),
            &format!(r#""a {i}""#),
            &format!("rev-a-{i}"),
            200 + i,
        );
    }
    db.insert_batch(&b.take());

    let records = db.get_records_by_collections(&["a.a.a", "a.a.b", "a.a.c"], 2, true);
    assert_eq!(records.len(), 4);
    assert_eq!(record_text(&records[0]), r#""a 3""#);
    assert_eq!(records[0].collection, b"a.a.a".to_vec());
    assert_eq!(record_text(&records[3]), r#""b 2""#);
    assert_eq!(records[3].collection, b"a.a.b".to_vec());
}

#[test]
fn test_update_one() {
    let mut db = Mem::new();
    let mut b = TestBatch::default();
    b.create("did:plc:inze6wrmsm7pjl7yta3oig77", "a.b.c", "rkey-asdf", "{}", "rev-a", 100);
    db.insert_batch(&b.take());
    b.update(
        "did:plc:inze6wrmsm7pjl7yta3oig77",
        "a.b.c",
        "rkey-asdf",
        r#"{"ch":  "ch-ch-ch-changes"}"#,
        "rev-z",
        101,
    );
    db.insert_batch(&b.take());

    assert_eq!(db.get_counts_by_collection("a.b.c"), (1, 1));
    let records = db.get_records_by_collections(&["a.b.c"], 2, false);
    assert_eq!(records.len(), 1);
    let rec = &records[0];
    assert_eq!(record_text(rec), r#"{"ch":  "ch-ch-ch-changes"}"#);
    assert!(rec.is_update);
    assert_eq!(rec.cursor, 101);
}

#[test]
fn test_delete_one() {
    let mut db = Mem::new();
    let mut b = TestBatch::default();
    b.create("did:plc:inze6wrmsm7pjl7yta3oig77", "a.b.c", "rkey-asdf", "{}", "rev-a", 100);
    db.insert_batch(&b.take());
    b.delete("did:plc:inze6wrmsm7pjl7yta3oig77", "a.b.c", "rkey-asdf", "rev-z", 101);
    db.insert_batch(&b.take());

    assert_eq!(db.get_counts_by_collection("a.b.c"), (1, 1));
    let records = db.get_records_by_collections(&["a.b.c"], 2, false);
    assert_eq!(records.len(), 0);
}

#[test]
fn test_collection_trim() {
    let mut db = Mem::new();
    let mut b = TestBatch::default();
    b.create("did:plc:inze6wrmsm7pjl7yta3oig77", "a.a.a", "rkey-aaa", "{}", "rev-aaa", 10_000);
    for i in 1..=10u64 {
        b.create(
            &format!("did:plc:inze6wrmsm7pjl7yta3oig7{}", i % 3),
            "a.a.b",
            &format!("rkey-bbb-{i}"),
            &format!(r#"{{"n": {i}}}"#),
            &format!("rev-bbb-{i}"),
            11_000 + i,
        );
    }
    b.create("did:plc:inze6wrmsm7pjl7yta3oig77", "a.a.c", "rkey-ccc", "{}", "rev-ccc", 12_000);
    db.insert_batch(&b.take());

    assert_eq!(db.get_records_by_collections(&["a.a.a"], 100, false).len(), 1);
    assert_eq!(db.get_records_by_collections(&["a.a.b"], 100, false).len(), 10);
    assert_eq!(db.get_records_by_collections(&["a.a.c"], 100, false).len(), 1);
    assert_eq!(db.get_records_by_collections(&["a.a.d"], 100, false).len(), 0);

    db.trim_collection(b"a.a.a", 6, false);
    db.trim_collection(b"a.a.b", 6, false);
    db.trim_collection(b"a.a.c", 6, false);
    db.trim_collection(b"a.a.d", 6, false);

    assert_eq!(db.get_records_by_collections(&["a.a.a"], 100, false).len(), 1);
    assert_eq!(db.get_records_by_collections(&["a.a.b"], 100, false).len(), 6);
    assert_eq!(db.get_records_by_collections(&["a.a.c"], 100, false).len(), 1);
    assert_eq!(db.get_records_by_collections(&["a.a.d"], 100, false).len(), 0);
}

#[test]
fn test_delete_account() {
    let mut db = Mem::new();
    let mut b = TestBatch::default();
    b.create("did:plc:person-a", "a.a.a", "rkey-aaa", "{}", "rev-aaa", 10_000);
    for i in 1..=2u64 {
        b.create(
            "did:plc:person-b",
            "a.a.a",
            &format!("rkey-bbb-{i}"),
            &format!(r#"{{"n": {i}}}"#),
            &format!("rev-bbb-{i}"),
            11_000 + i,
        );
    }
    db.insert_batch(&b.take());
    assert_eq!(db.get_records_by_collections(&["a.a.a"], 100, false).len(), 3);
    let records_deleted = db.delete_account(b"did:plc:person-b");
    assert_eq!(records_deleted, 2);
    assert_eq!(db.get_records_by_collections(&["a.a.a"], 100, false).len(), 1);
}

#[test]
fn rollup_delete_account_removes_record() {
    let mut db = Mem::new();
    let mut b = TestBatch::default();
    b.create("did:plc:person-a", "a.a.a", "rkey-aaa", "{}", "rev-aaa", 10_000);
    db.insert_batch(&b.take());
    b.delete_account("did:plc:person-a", 9_999);
    db.insert_batch(&b.take());
    db.step_rollup();
    // the delete predates the create, so the record stays
    let records = db.get_records_by_collections(&["a.a.a"], 1, false);
    assert_eq!(records.len(), 1);
    assert_eq!(records[0].cursor, 10_000);
    assert_eq!(records[0].did, b"did:plc:person-a".to_vec());
    assert_eq!(records[0].rkey, b"rkey-aaa".to_vec());
}

#[test]
fn new_cell_without_accounts_gets_a_dids_rank_row() {
    let mut db = Mem::new();
    let mut b = TestBatch::default();
    b.update("did:plc:person-a", "u.p.d", "k", "{}", "r", 500);
    db.insert_batch(&b.take());
    db.step_rollup();
    let dids: Vec<(u64, Vec<u8>)> = db
        .prefix(Partition::Rollups, &static_key(Tag::EverRankDids))
        .iter()
        .map(|(k, _)| decode_ever_rank_key(Metric::Dids, k).unwrap())
        .collect();
    assert_eq!(dids, vec![(0, b"u.p.d".to_vec())]);
}

#[test]
fn rollup_delete_live_count_step() {
    let mut db = Mem::new();
    let mut b = TestBatch::default();
    b.create("did:plc:person-a", "a.a.a", "rkey-aaa", "{}", "rev-aaa", 10_000);
    db.insert_batch(&b.take());
    assert_eq!(db.step_rollup(), 1);

    b.delete_account("did:plc:person-a", 10_001);
    db.insert_batch(&b.take());
    assert_eq!(db.get_records_by_collections(&["a.a.a"], 1, false).len(), 1);
    assert_eq!(db.step_rollup(), 1);
    assert_eq!(db.get_records_by_collections(&["a.a.a"], 1, false).len(), 0);

    b.delete_account("did:plc:person-a", 9_999);
    db.insert_batch(&b.take());
    assert_eq!(db.step_rollup(), 0);
}

#[test]
fn rollup_multiple_count_batches() {
    let mut db = Mem::new();
    let mut b = TestBatch::default();
    b.create("did:plc:person-a", "a.a.a", "rkey-aaa", "{}", "rev-aaa", 10_000);
    db.insert_batch(&b.take());
    b.create("did:plc:person-a", "a.a.a", "rkey-aab", "{}", "rev-aab", 10_001);
    db.insert_batch(&b.take());
    assert_eq!(db.step_rollup(), 2);
    assert_eq!(db.step_rollup(), 0);
}

#[test]
fn counts_before_and_after_rollup() {
    let mut db = Mem::new();
    let mut b = TestBatch::default();
    b.create("did:plc:person-a", "a.a.a", "rkey-aaa", "{}", "rev-aaa", 10_000);
    b.create("did:plc:person-b", "a.a.a", "rkey-bbb", "{}", "rev-bbb", 10_001);
    db.insert_batch(&b.take());
    b.delete_account("did:plc:person-a", 11_000);
    db.insert_batch(&b.take());
    b.create("did:plc:person-a", "a.a.a", "rkey-aac", "{}", "rev-aac", 12_000);
    db.insert_batch(&b.take());

    assert_eq!(db.get_counts_by_collection("a.a.a"), (3, 2));
    assert_eq!(db.step_rollup(), 1);
    assert_eq!(db.get_counts_by_collection("a.a.a"), (3, 2));
    assert_eq!(db.step_rollup(), 1);
    assert_eq!(db.get_counts_by_collection("a.a.a"), (3, 2));
    assert_eq!(db.step_rollup(), 1);
    assert_eq!(db.get_counts_by_collection("a.a.a"), (3, 2));
    assert_eq!(db.step_rollup(), 0);
}

#[test]
fn get_top_collections() {
    let mut db = Mem::new();
    let mut b = TestBatch::default();
    b.create("did:plc:person-a", "a.a.a", "rkey-aaa", "{}", "rev-aaa", 10_000);
    b.create("did:plc:person-b", "a.a.b", "rkey-bbb", "{}", "rev-bbb", 10_001);
    b.create("did:plc:person-c", "a.b.c", "rkey-ccc", "{}", "rev-ccc", 10_002);
    b.create("did:plc:person-a", "a.a.a", "rkey-aaa-2", "{}", "rev-aaa-2", 10_003);
    db.insert_batch(&b.take());
    assert_eq!(db.step_rollup(), 3);

    let tops = db.get_top_collections();
    let expected = node(
        4,
        3,
        vec![(
            "a",
            node(
                4,
                3,
                vec![
                    ("a", node(3, 2, vec![("a", leaf(2, 1)), ("b", leaf(1, 1))])),
                    ("b", node(1, 1, vec![("c", leaf(1, 1))])),
                ],
            ),
        )],
    );
    assert!(same_tree(&tops, &expected));
}

#[test]
fn get_top_collections_with_parent_nsid() {
    let mut db = Mem::new();
    let mut b = TestBatch::default();
    b.create("did:plc:inze6wrmsm7pjl7yta3oig77", "a.a.a.a", "aaaa", r#""child nsid""#, "rev-aaaa", 100);
    b.create("did:plc:inze6wrmsm7pjl7yta3oig77", "a.a.a", "aaa", r#""parent nsid""#, "rev-aaa", 101);
    db.insert_batch(&b.take());
    assert_eq!(db.step_rollup(), 2);

    let tops = db.get_top_collections();
    let expected = node(
        2,
        1,
        vec![("a", node(2, 1, vec![("a", node(2, 1, vec![("a", node(2, 1, vec![("a", leaf(1, 1))]))]))]))],
    );
    assert!(same_tree(&tops, &expected));
}

#[test]
fn top_collections_by_count_after_one_step() {
    let mut db = Mem::new();
    let mut b = TestBatch::default();
    b.create("did:plc:person-a", "a.a.a", "rkey-aaa", "{}", "rev-aaa", 10_000);
    b.create("did:plc:person-b", "a.a.b", "rkey-bbb", "{}", "rev-bbb", 10_001);
    b.create("did:plc:person-c", "a.b.c", "rkey-ccc", "{}", "rev-ccc", 10_002);
    b.create("did:plc:person-a", "a.a.a", "rkey-aaa-2", "{}", "rev-aaa-2", 10_003);
    db.insert_batch(&b.take());
    db.step_rollup();

    let top = db.top_by(Metric::Records, 10);
    let got: Vec<(Vec<u8>, u64, u64)> =
        top.iter().map(|c| (c.nsid.clone(), c.records, c.dids_estimate)).collect();
    assert_eq!(
        got,
        vec![
            (b"a.a.a".to_vec(), 2, 1),
            (b"a.a.b".to_vec(), 1, 1),
            (b"a.b.c".to_vec(), 1, 1),
        ]
    );

    let by_dids = db.top_by(Metric::Dids, 2);
    let names: Vec<Vec<u8>> = by_dids.iter().map(|c| c.nsid.clone()).collect();
    assert_eq!(names, vec![b"a.a.a".to_vec(), b"a.a.b".to_vec()]);
}

#[test]
fn trim_keeps_newest_and_sets_trim_cursor() {
    let mut db = Mem::new();
    let mut b = TestBatch::default();
    for i in 1..=10u64 {
        b.create("did:plc:person-a", "n.s.id", &format!("rkey-{i}"), "{}", &format!("rev-{i}"), 1_000 + i);
    }
    db.insert_batch(&b.take());
    let (dangling, deleted) = db.trim_collection(b"n.s.id", 6, false);
    assert_eq!((dangling, deleted), (0, 4));

    let records = db.get_records_by_collections(&["n.s.id"], 100, false);
    let cursors: Vec<u64> = records.iter().map(|r| r.cursor).collect();
    assert_eq!(cursors, vec![1_010, 1_009, 1_008, 1_007, 1_006, 1_005]);

    let stored = db.get(Partition::Global, &trim_cursor_key(b"n.s.id").unwrap()).unwrap();
    assert_eq!(u64::from_be_bytes(stored.try_into().unwrap()), 1_004);
}

#[test]
fn trim_removes_stale_feed_entry_and_keeps_record() {
    let mut db = Mem::new();
    let mut b = TestBatch::default();
    b.create("did:plc:person-a", "a.b.c", "k1", "{}", "r1", 100);
    db.insert_batch(&b.take());
    b.update("did:plc:person-a", "a.b.c", "k1", r#"{"v":2}"#, "r2", 101);
    db.insert_batch(&b.take());

    let stale_feed = feed_key(b"a.b.c", 100).unwrap();
    assert!(db.get(Partition::Feeds, &stale_feed).is_some());
    let (dangling, deleted) = db.trim_collection(b"a.b.c", 10, true);
    assert_eq!((dangling, deleted), (1, 0));
    assert!(db.get(Partition::Feeds, &stale_feed).is_none());
    let rk = record_key(b"did:plc:person-a", b"a.b.c", b"k1").unwrap();
    let meta = decode_record_meta(&db.get(Partition::Records, &rk).unwrap()).unwrap().0;
    assert_eq!(meta.cursor, 101);
}

#[test]
fn account_delete_step_leaves_no_records() {
    let mut db = Mem::new();
    let mut b = TestBatch::default();
    b.create("did:plc:x", "a.a.a", "k1", "{}", "r1", 100);
    b.create("did:plc:x", "b.b.b", "k2", "{}", "r2", 101);
    b.create("did:plc:y", "a.a.a", "k3", "{}", "r3", 102);
    db.insert_batch(&b.take());
    b.delete_account("did:plc:x", 200);
    db.insert_batch(&b.take());
    // one live cell per collection of the batch
    assert_eq!(db.step_rollup(), 2);
    assert_eq!(db.step_rollup(), 1);
    assert!(db.prefix(Partition::Records, &record_prefix(b"did:plc:x").unwrap()).is_empty());
    assert_eq!(db.prefix(Partition::Records, &record_prefix(b"did:plc:y").unwrap()).len(), 1);
    assert!(db.prefix(Partition::Queues, &static_key(Tag::DeleteAccount)).is_empty());
    assert_eq!(db.rollup_cursor(), 200);
}

#[test]
fn ingest_sets_source_cursor_to_latest() {
    let mut db = Mem::new();
    let mut b = TestBatch::default();
    b.create("did:plc:x", "a.a.a", "k1", "{}", "r1", 500);
    b.create("did:plc:x", "a.a.b", "k2", "{}", "r2", 300);
    b.delete_account("did:plc:z", 400);
    db.insert_batch(&b.take());
    let stored = db.get(Partition::Global, &static_key(Tag::JsCursor)).unwrap();
    assert_eq!(u64::from_be_bytes(stored.try_into().unwrap()), 500);
}

#[test]
fn empty_batch_changes_nothing() {
    let mut db = Mem::new();
    let before = db.rows.clone();
    let mut b = TestBatch::default();
    let batch = b.take();
    assert!(insert_batch_ops(&batch).unwrap().is_empty());
    db.insert_batch(&batch);
    assert_eq!(db.rows, before);
}

#[test]
fn rollup_cursor_never_moves_back() {
    let mut db = Mem::new();
    let mut b = TestBatch::default();
    let mut last = db.rollup_cursor();
    for i in 0..5u64 {
        b.create("did:plc:x", "a.a.a", &format!("k{i}"), "{}", "r", 1_000 + 10 * i);
        db.insert_batch(&b.take());
        if i % 2 == 0 {
            b.delete_account("did:plc:q", 1_005 + 10 * i);
            db.insert_batch(&b.take());
        }
    }
    while db.step_rollup() > 0 {
        let now = db.rollup_cursor();
        assert!(now >= last);
        last = now;
    }
    assert_eq!(last, 1_045);
}

#[test]
fn rank_rows_match_cells() {
    let mut db = Mem::new();
    let mut b = TestBatch::default();
    b.create("did:plc:a", "a.a.a", "k1", "{}", "r", 3_600_000_000);
    b.create("did:plc:b", "a.a.a", "k2", "{}", "r", 3_600_000_001);
    db.insert_batch(&b.take());
    db.step_rollup();
    b.create("did:plc:c", "a.a.a", "k3", "{}", "r", 7_300_000_000);
    db.insert_batch(&b.take());
    db.step_rollup();

    let nsid = b"a.a.a";
    for period in [Period::AllTime] {
        let ranks = db.prefix(Partition::Rollups, &static_key(Tag::EverRankRecords));
        let named: Vec<u64> = ranks
            .iter()
            .map(|(k, _)| decode_ever_rank_key(Metric::Records, k).unwrap())
            .filter(|(_, n)| n == nsid)
            .map(|(v, _)| v)
            .collect();
        assert_eq!(named, vec![3]);
        let cell = db.get(Partition::Rollups, &counts_key(period, nsid).unwrap()).unwrap();
        assert_eq!(u64::from_be_bytes(cell[..8].try_into().unwrap()), 3);
        let dids: Vec<u64> = db
            .prefix(Partition::Rollups, &static_key(Tag::EverRankDids))
            .iter()
            .map(|(k, _)| decode_ever_rank_key(Metric::Dids, k).unwrap())
            .filter(|(_, n)| n == nsid)
            .map(|(v, _)| v)
            .collect();
        assert_eq!(dids, vec![3]);
    }
    let hourly = db.prefix(Partition::Rollups, &static_key(Tag::HourlyCounts));
    let total: u64 = hourly
        .iter()
        .map(|(_, v)| u64::from_be_bytes(v[..8].try_into().unwrap()))
        .sum();
    assert_eq!(hourly.len(), 2);
    assert_eq!(total, 3);
}
