use ufos::batch::{
    BatchInsertError, CollectionCommits, CommitAction, CommitEvent, CommitOp, DeleteAccount,
    EventBatch, FirehoseEventError, PutAction, UFOsCommit,
};
use ufos::sketch::sketch_estimate;

fn put(cursor: u64, rkey: &str, rev: &str) -> UFOsCommit {
    UFOsCommit {
        cursor,
        did: b"did:plc:whatever".to_vec(),
        rkey: rkey.as_bytes().to_vec(),
        rev: rev.as_bytes().to_vec(),
        action: CommitAction::Put(PutAction { record: b"{}".to_vec(), is_update: false }),
    }
}

fn cut(cursor: u64, rkey: &str, rev: &str) -> UFOsCommit {
    UFOsCommit {
        cursor,
        did: b"did:plc:whatever".to_vec(),
        rkey: rkey.as_bytes().to_vec(),
        rev: rev.as_bytes().to_vec(),
        action: CommitAction::Cut,
    }
}

#[test]
fn test_truncating_insert_truncates() {
    let mut commits: CollectionCommits<2> = CollectionCommits::new();
    commits.truncating_insert(put(100, "rkey-asdf-a", "rev-asdf")).unwrap();
    commits.truncating_insert(put(101, "rkey-asdf-b", "rev-asdg")).unwrap();
    commits.truncating_insert(put(102, "rkey-asdf-c", "rev-asdh")).unwrap();

    assert_eq!(commits.total_seen, 3);
    assert_eq!(sketch_estimate(&commits.dids_estimate), 1);
    assert_eq!(commits.commits.len(), 2);

    let mut found_first = false;
    let mut found_last = false;
    for commit in &commits.commits {
        match commit.rev.as_slice() {
            b"rev-asdf" => found_first = true,
            b"rev-asdh" => found_last = true,
            _ => {}
        }
    }
    assert!(!found_first);
    assert!(found_last);
}

#[test]
fn test_truncating_insert_does_not_truncate_deletes() {
    let mut commits: CollectionCommits<2> = CollectionCommits::new();
    commits.truncating_insert(cut(100, "rkey-asdf-a", "rev-asdf")).unwrap();
    commits.truncating_insert(put(101, "rkey-asdf-b", "rev-asdg")).unwrap();
    commits.truncating_insert(put(102, "rkey-asdf-c", "rev-asdh")).unwrap();

    assert_eq!(commits.total_seen, 2);
    assert_eq!(sketch_estimate(&commits.dids_estimate), 1);
    assert_eq!(commits.commits.len(), 2);

    let mut found_first = false;
    let mut found_last = false;
    let mut found_delete = false;
    for commit in &commits.commits {
        match commit.rev.as_slice() {
            b"rev-asdg" => found_first = true,
            b"rev-asdh" => found_last = true,
            _ => {}
        }
        if let CommitAction::Cut = commit.action {
            found_delete = true;
        }
    }
    assert!(!found_first);
    assert!(found_last);
    assert!(found_delete);
}

#[test]
fn test_truncating_insert_maxes_out_deletes() {
    let mut commits: CollectionCommits<2> = CollectionCommits::new();
    commits.truncating_insert(cut(100, "rkey-asdf-a", "rev-asdf")).unwrap();
    // this create will just be discarded
    commits.truncating_insert(put(80, "rkey-asdf-zzz", "rev-asdzzz")).unwrap();
    commits.truncating_insert(cut(101, "rkey-asdf-b", "rev-asdg")).unwrap();

    let res = commits.truncating_insert(cut(102, "rkey-asdf-c", "rev-asdh"));
    assert!(res.is_err());
    let overflowed = match res {
        Err(BatchInsertError::BatchFull(c)) => c,
        e => panic!("expected overflow but a different error happened: {e:?}"),
    };
    assert_eq!(overflowed.rev, b"rev-asdh".to_vec());
}

#[test]
fn truncating_insert_replaces_creates_in_turn() {
    let mut commits: CollectionCommits<3> = CollectionCommits::new();
    commits.truncating_insert(put(1, "a", "ra")).unwrap();
    commits.truncating_insert(cut(2, "b", "rb")).unwrap();
    commits.truncating_insert(put(3, "c", "rc")).unwrap();
    // full: the first create (index 0) goes
    commits.truncating_insert(cut(4, "d", "rd")).unwrap();
    let revs: Vec<Vec<u8>> = commits.commits.iter().map(|c| c.rev.clone()).collect();
    assert_eq!(revs, vec![b"rd".to_vec(), b"rb".to_vec(), b"rc".to_vec()]);
    // the next create found from there is at index 2
    commits.truncating_insert(cut(5, "e", "re")).unwrap();
    let revs: Vec<Vec<u8>> = commits.commits.iter().map(|c| c.rev.clone()).collect();
    assert_eq!(revs, vec![b"rd".to_vec(), b"rb".to_vec(), b"re".to_vec()]);
    assert!(commits.truncating_insert(cut(6, "f", "rf")).is_err());
    assert_eq!(commits.total_seen, 2);
}

#[test]
fn from_commit_info_needs_a_record_for_puts() {
    let event = CommitEvent {
        collection: b"a.b.c".to_vec(),
        rkey: b"k".to_vec(),
        rev: b"r".to_vec(),
        operation: CommitOp::Create,
        record: None,
    };
    let r = UFOsCommit::from_commit_info(event, b"did:plc:a".to_vec(), 1);
    assert!(matches!(r, Err(FirehoseEventError::CruMissingRecord)));

    let event = CommitEvent {
        collection: b"a.b.c".to_vec(),
        rkey: b"k".to_vec(),
        rev: b"r".to_vec(),
        operation: CommitOp::Update,
        record: Some(b"{}".to_vec()),
    };
    let (c, nsid) = UFOsCommit::from_commit_info(event, b"did:plc:a".to_vec(), 7).unwrap();
    assert_eq!(nsid, b"a.b.c".to_vec());
    assert_eq!(c.cursor, 7);
    assert!(matches!(c.action, CommitAction::Put(PutAction { is_update: true, .. })));
    assert!(!c.action.is_create());

    let event = CommitEvent {
        collection: b"a.b.c".to_vec(),
        rkey: b"k".to_vec(),
        rev: b"r".to_vec(),
        operation: CommitOp::Delete,
        record: None,
    };
    let (c, _) = UFOsCommit::from_commit_info(event, b"did:plc:a".to_vec(), 8).unwrap();
    assert!(matches!(c.action, CommitAction::Cut));
}

#[test]
fn batch_latest_cursor_and_totals() {
    let mut batch: EventBatch<4> = EventBatch::new();
    assert!(batch.is_empty());
    assert_eq!(batch.latest_cursor(), None);
    batch.insert_commit_by_nsid(b"a.a.a", put(10, "k1", "r1"), 2).unwrap();
    batch.insert_commit_by_nsid(b"a.a.b", put(30, "k2", "r2"), 2).unwrap();
    batch.insert_commit_by_nsid(b"a.a.a", cut(20, "k3", "r3"), 2).unwrap();
    assert!(batch.insert_commit_by_nsid(b"a.a.c", put(5, "k4", "r4"), 2).is_err());
    batch.account_removes.push(DeleteAccount { did: b"did:plc:z".to_vec(), cursor: 40 });
    batch.account_removes.push(DeleteAccount { did: b"did:plc:y".to_vec(), cursor: 35 });
    assert!(!batch.is_empty());
    assert_eq!(batch.latest_cursor(), Some(40));
    assert_eq!(batch.total_collections(), 2);
    assert_eq!(batch.total_records(), 3);
    assert_eq!(batch.total_seen(), 2);
    assert_eq!(batch.account_removes(), 2);
    assert_eq!(batch.estimate_dids(), 1);
}
