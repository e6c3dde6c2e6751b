//! The keyspace as the library sees it: five partitions of byte keys and
//! byte values, changed only by atomic lists of inserts and removes.
use vstd::prelude::*;
use crate::codec::{be64, nul_str, no_nul, push_u64, push_bytes, EncodingError};
use crate::keys::{
    tag_key, Tag, feed_key, feed_value, record_key, record_value, live_counts_key, queue_key,
    static_key, u64_value, feed_key_spec, feed_value_spec, record_key_spec, record_value_spec,
    live_counts_key_spec, queue_key_spec,
};
use crate::batch::{CollectionCommits, CommitAction, DeleteAccount, EventBatch, UFOsCommit};
use crate::sketch::{encode_sketch, sketch_encoding, DidSketch};

verus! {

/// The five partitions of the keyspace.
#[derive(Debug, Clone, Copy, PartialEq, Eq, Structural)]
pub enum Partition {
    Global,
    Feeds,
    Records,
    Rollups,
    Queues,
}

/// One change of a write batch.
#[derive(Debug, Clone)]
pub enum WriteOp {
    Insert(Partition, Vec<u8>, Vec<u8>),
    Remove(Partition, Vec<u8>),
}

/// A change as a value: whether it inserts, its partition, key and value
/// (empty for a remove).
pub type OpView = (bool, Partition, Seq<u8>, Seq<u8>);

impl View for WriteOp {
    type V = OpView;

    open spec fn view(&self) -> OpView {
        match self {
            WriteOp::Insert(p, k, v) => (true, *p, k@, v@),
            WriteOp::Remove(p, k) => (false, *p, k@, Seq::empty()),
        }
    }
}

pub open spec fn ins(p: Partition, k: Seq<u8>, v: Seq<u8>) -> OpView {
    (true, p, k, v)
}

pub open spec fn rem(p: Partition, k: Seq<u8>) -> OpView {
    (false, p, k, Seq::empty())
}

/// The changes of a write batch, as values.
pub open spec fn ops_view(s: Seq<WriteOp>) -> Seq<OpView> {
    s.map_values(|o: WriteOp| o@)
}

/// The keyspace: a value for each partition and key that is present.
pub type Db = Map<(Partition, Seq<u8>), Seq<u8>>;

/// The keyspace after one change.
pub open spec fn apply_op(db: Db, o: OpView) -> Db {
    if o.0 {
        db.insert((o.1, o.2), o.3)
    } else {
        db.remove((o.1, o.2))
    }
}

/// The keyspace after a list of changes, applied in order.
pub open spec fn apply_ops(db: Db, s: Seq<OpView>) -> Db
    decreases s.len(),
{
    if s.len() == 0 {
        db
    } else {
        apply_op(apply_ops(db, s.drop_last()), s.last())
    }
}

/// Appends one change.
pub fn push_op(ops: &mut Vec<WriteOp>, o: WriteOp)
    ensures
        ops_view(final(ops)@) == ops_view(old(ops)@).push(o@),
{
    ops.push(o);
    assert(ops_view(final(ops)@) =~= ops_view(old(ops)@).push(o@));
}

/// The value of a counts cell: the record count and the sketch's bytes.
pub open spec fn counts_value_spec(records: u64, sketch: Seq<u8>) -> Seq<u8> {
    be64(records) + sketch
}

/// Writes a counts cell, or `None` when the sketch cannot be encoded.
pub fn counts_value(records: u64, sketch: &DidSketch) -> (r: Option<Vec<u8>>)
    ensures
        r is Some,
        r matches Some(v) ==> v@ == counts_value_spec(records, sketch_encoding(*sketch)),
{
    let bytes = encode_sketch(sketch)?;
    let mut out: Vec<u8> = Vec::new();
    push_u64(&mut out, records);
    push_bytes(&mut out, bytes.as_slice());
    Some(out)
}

/// The changes that one commit makes: a cut removes the record; a put
/// writes a feed entry and the record.
pub open spec fn commit_ops(nsid: Seq<u8>, c: UFOsCommit) -> Seq<OpView> {
    match c.action {
        CommitAction::Cut => seq![rem(Partition::Records, record_key_spec(c.did@, nsid, c.rkey@))],
        CommitAction::Put(p) => seq![
            ins(Partition::Feeds, feed_key_spec(nsid, c.cursor), feed_value_spec(c.did@, c.rkey@, c.rev@)),
            ins(
                Partition::Records,
                record_key_spec(c.did@, nsid, c.rkey@),
                record_value_spec(c.cursor, p.is_update, c.rev@, p.record@),
            ),
        ],
    }
}

/// The strings of a commit can all be written zero-terminated.
pub open spec fn commit_ok(nsid: Seq<u8>, c: UFOsCommit) -> bool {
    &&& no_nul(nsid)
    &&& no_nul(c.did@)
    &&& no_nul(c.rkey@)
    &&& match c.action {
        CommitAction::Cut => true,
        CommitAction::Put(_) => no_nul(c.rev@),
    }
}

pub open spec fn commits_ops(nsid: Seq<u8>, s: Seq<UFOsCommit>) -> Seq<OpView>
    decreases s.len(),
{
    if s.len() == 0 {
        Seq::empty()
    } else {
        commits_ops(nsid, s.drop_last()) + commit_ops(nsid, s.last())
    }
}

/// The changes for one collection of a batch: its commits, then its live
/// counts cell under the batch's latest cursor.
pub open spec fn collection_ops<const LIMIT: usize>(
    nsid: Seq<u8>,
    cc: CollectionCommits<LIMIT>,
    latest: u64,
) -> Seq<OpView> {
    commits_ops(nsid, cc.commits@) + seq![
        ins(
            Partition::Rollups,
            live_counts_key_spec(latest, nsid),
            counts_value_spec(cc.total_seen as u64, sketch_encoding(cc.dids_estimate)),
        ),
    ]
}

pub open spec fn collections_ops<const LIMIT: usize>(
    s: Seq<(Vec<u8>, CollectionCommits<LIMIT>)>,
    latest: u64,
) -> Seq<OpView>
    decreases s.len(),
{
    if s.len() == 0 {
        Seq::empty()
    } else {
        collections_ops(s.drop_last(), latest) + collection_ops(s.last().0@, s.last().1, latest)
    }
}

pub open spec fn removes_ops(s: Seq<DeleteAccount>) -> Seq<OpView>
    decreases s.len(),
{
    if s.len() == 0 {
        Seq::empty()
    } else {
        removes_ops(s.drop_last()) + seq![
            ins(Partition::Queues, queue_key_spec(s.last().cursor), nul_str(s.last().did@)),
        ]
    }
}

/// Every string of a batch can be written zero-terminated.
pub open spec fn batch_ok<const LIMIT: usize>(b: EventBatch<LIMIT>) -> bool {
    &&& forall|i: int| 0 <= i < b.commits_by_nsid@.len() ==> no_nul(b.commits_by_nsid@[i].0@)
    &&& forall|i: int, j: int|
        0 <= i < b.commits_by_nsid@.len() && 0 <= j < b.commits_by_nsid@[i].1.commits@.len()
            ==> commit_ok(b.commits_by_nsid@[i].0@, b.commits_by_nsid@[i].1.commits@[j])
    &&& forall|i: int| 0 <= i < b.account_removes@.len() ==> no_nul(b.account_removes@[i].did@)
}

/// What committing a batch writes: nothing for an empty batch; else each
/// collection's commits and live counts cell, each account delete's queue
/// entry, and the batch's latest cursor as the source cursor.
pub open spec fn batch_ops<const LIMIT: usize>(b: EventBatch<LIMIT>) -> Seq<OpView> {
    if b.spec_is_empty() {
        Seq::empty()
    } else {
        collections_ops(b.commits_by_nsid@, b.max_cursor()) + removes_ops(b.account_removes@)
            + seq![ins(Partition::Global, tag_key(Tag::JsCursor), be64(b.max_cursor()))]
    }
}

/// Errors met while planning a write.
#[derive(Debug, Clone, Copy, PartialEq, Eq, Structural)]
pub enum PlanError {
    /// A key or value could not be written.
    Encoding(EncodingError),
    /// A sketch could not be turned into bytes.
    SketchEncoding,
}

fn push_commit_ops(ops: &mut Vec<WriteOp>, nsid: &[u8], c: &UFOsCommit) -> (r: Result<(), PlanError>)
    requires
        no_nul(nsid@),
    ensures
        r is Ok <==> commit_ok(nsid@, *c),
        r is Ok ==> ops_view(final(ops)@) == ops_view(old(ops)@) + commit_ops(nsid@, *c),
        r matches Err(e) ==> e == PlanError::Encoding(EncodingError::StringContainsNull),
{
    let rk = match record_key(c.did.as_slice(), nsid, c.rkey.as_slice()) {
        Ok(k) => k,
        Err(e) => {
            return Err(PlanError::Encoding(e));
        },
    };
    match &c.action {
        CommitAction::Cut => {
            push_op(ops, WriteOp::Remove(Partition::Records, rk));
            assert(ops_view(final(ops)@) =~= ops_view(old(ops)@) + commit_ops(nsid@, *c));
        },
        CommitAction::Put(p) => {
            let fk = match feed_key(nsid, c.cursor) {
                Ok(k) => k,
                Err(e) => {
                    return Err(PlanError::Encoding(e));
                },
            };
            let fv = match feed_value(c.did.as_slice(), c.rkey.as_slice(), c.rev.as_slice()) {
                Ok(v) => v,
                Err(e) => {
                    return Err(PlanError::Encoding(e));
                },
            };
            let rv = match record_value(c.cursor, p.is_update, c.rev.as_slice(), p.record.as_slice()) {
                Ok(v) => v,
                Err(e) => {
                    return Err(PlanError::Encoding(e));
                },
            };
            push_op(ops, WriteOp::Insert(Partition::Feeds, fk, fv));
            push_op(ops, WriteOp::Insert(Partition::Records, rk, rv));
            assert(ops_view(final(ops)@) =~= ops_view(old(ops)@) + commit_ops(nsid@, *c));
        },
    }
    Ok(())
}

fn push_collection_ops<const LIMIT: usize>(
    ops: &mut Vec<WriteOp>,
    nsid: &[u8],
    cc: &CollectionCommits<LIMIT>,
    latest: u64,
) -> (r: Result<(), PlanError>)
    ensures
        (no_nul(nsid@) && forall|j: int|
            0 <= j < cc.commits@.len() ==> commit_ok(nsid@, cc.commits@[j])) ==> r is Ok,
        !(no_nul(nsid@) && forall|j: int|
            0 <= j < cc.commits@.len() ==> commit_ok(nsid@, cc.commits@[j])) ==> r is Err,
        r is Ok ==> ops_view(final(ops)@) == ops_view(old(ops)@) + collection_ops(nsid@, *cc, latest),
{
    let lk = match live_counts_key(latest, nsid) {
        Ok(k) => k,
        Err(e) => {
            return Err(PlanError::Encoding(e));
        },
    };
    let ghost start = ops_view(ops@);
    let mut j: usize = 0;
    while j < cc.commits.len()
        invariant
            no_nul(nsid@),
            j <= cc.commits@.len(),
            forall|k: int| 0 <= k < j ==> commit_ok(nsid@, cc.commits@[k]),
            ops_view(ops@) == start + commits_ops(nsid@, cc.commits@.subrange(0, j as int)),
        decreases cc.commits@.len() - j,
    {
        assert(cc.commits@.subrange(0, j + 1).drop_last() =~= cc.commits@.subrange(0, j as int));
        match push_commit_ops(ops, nsid, &cc.commits[j]) {
            Ok(()) => {},
            Err(e) => {
                return Err(e);
            },
        }
        assert(cc.commits@.subrange(0, j + 1).last() == cc.commits@[j as int]);
        assert(start + commits_ops(nsid@, cc.commits@.subrange(0, j + 1)) =~= start
            + commits_ops(nsid@, cc.commits@.subrange(0, j as int)) + commit_ops(
            nsid@,
            cc.commits@[j as int],
        ));
        j = j + 1;
    }
    assert(cc.commits@.subrange(0, j as int) =~= cc.commits@);
    let cv = match counts_value(cc.total_seen as u64, &cc.dids_estimate) {
        Some(v) => v,
        None => {
            return Err(PlanError::SketchEncoding);
        },
    };
    push_op(ops, WriteOp::Insert(Partition::Rollups, lk, cv));
    assert(ops_view(ops@) =~= start + collection_ops(nsid@, *cc, latest));
    Ok(())
}

/// The write batch that ingests `batch` (see `batch_ops`). Fails when a
/// string holds a zero byte, or when a sketch cannot be encoded.
pub fn insert_batch_ops<const LIMIT: usize>(batch: &EventBatch<LIMIT>) -> (r: Result<
    Vec<WriteOp>,
    PlanError,
>)
    ensures
        batch.spec_is_empty() ==> (r matches Ok(ops) && ops@.len() == 0),
        batch_ok(*batch) ==> r is Ok,
        !batch_ok(*batch) ==> r is Err,
        r matches Ok(ops) ==> ops_view(ops@) == batch_ops(*batch),
{
    let mut ops: Vec<WriteOp> = Vec::new();
    if batch.is_empty() {
        assert(ops_view(ops@) =~= batch_ops(*batch));
        return Ok(ops);
    }
    let latest = batch.max_cursor_exec();
    let mut i: usize = 0;
    while i < batch.commits_by_nsid.len()
        invariant
            i <= batch.commits_by_nsid@.len(),
            latest == batch.max_cursor(),
            forall|a: int| 0 <= a < i ==> no_nul(batch.commits_by_nsid@[a].0@),
            forall|a: int, j: int|
                0 <= a < i && 0 <= j < batch.commits_by_nsid@[a].1.commits@.len() ==> commit_ok(
                    batch.commits_by_nsid@[a].0@,
                    batch.commits_by_nsid@[a].1.commits@[j],
                ),
            ops_view(ops@) == collections_ops(batch.commits_by_nsid@.subrange(0, i as int), latest),
        decreases batch.commits_by_nsid@.len() - i,
    {
        assert(batch.commits_by_nsid@.subrange(0, i + 1).drop_last() =~= batch.commits_by_nsid@.subrange(
            0,
            i as int,
        ));
        let entry = &batch.commits_by_nsid[i];
        assert(batch_ok(*batch) ==> no_nul(entry.0@) && forall|j: int|
            0 <= j < entry.1.commits@.len() ==> commit_ok(entry.0@, entry.1.commits@[j]));
        match push_collection_ops(&mut ops, entry.0.as_slice(), &entry.1, latest) {
            Ok(()) => {},
            Err(e) => {
                return Err(e);
            },
        }
        i = i + 1;
    }
    assert(batch.commits_by_nsid@.subrange(0, i as int) =~= batch.commits_by_nsid@);
    let ghost after_collections = ops_view(ops@);
    let mut k: usize = 0;
    while k < batch.account_removes.len()
        invariant
            k <= batch.account_removes@.len(),
            forall|a: int| 0 <= a < k ==> no_nul(batch.account_removes@[a].did@),
            ops_view(ops@) == after_collections + removes_ops(
                batch.account_removes@.subrange(0, k as int),
            ),
        decreases batch.account_removes@.len() - k,
    {
        assert(batch.account_removes@.subrange(0, k + 1).drop_last() =~= batch.account_removes@.subrange(
            0,
            k as int,
        ));
        let remove = &batch.account_removes[k];
        let v = match crate::keys::feed_prefix(remove.did.as_slice()) {
            Ok(v) => v,
            Err(e) => {
                return Err(PlanError::Encoding(e));
            },
        };
        push_op(&mut ops, WriteOp::Insert(Partition::Queues, queue_key(remove.cursor), v));
        assert(ops_view(ops@) =~= after_collections + removes_ops(
            batch.account_removes@.subrange(0, k + 1),
        ));
        k = k + 1;
    }
    assert(batch.account_removes@.subrange(0, k as int) =~= batch.account_removes@);
    push_op(&mut ops, WriteOp::Insert(Partition::Global, static_key(Tag::JsCursor), u64_value(latest)));
    assert(ops_view(ops@) =~= batch_ops(*batch));
    Ok(ops)
}

/// Applying two lists of changes one after the other.
pub proof fn lemma_apply_ops_concat(db: Db, a: Seq<OpView>, b: Seq<OpView>)
    ensures
        apply_ops(db, a + b) == apply_ops(apply_ops(db, a), b),
    decreases b.len(),
{
    if b.len() == 0 {
        assert(a + b =~= a);
    } else {
        assert((a + b).drop_last() =~= a + b.drop_last());
        lemma_apply_ops_concat(db, a, b.drop_last());
    }
}

/// Applying a single change.
pub proof fn lemma_apply_ops_one(db: Db, o: OpView)
    ensures
        apply_ops(db, seq![o]) == apply_op(db, o),
{
    let s = seq![o];
    assert(s.drop_last() =~= Seq::<OpView>::empty());
    assert(s.last() == o);
    assert(apply_ops(db, s.drop_last()) == db);
    assert(apply_ops(db, s) == apply_op(apply_ops(db, s.drop_last()), s.last()));
}

/// Applying a list of changes with one more at its end.
pub proof fn lemma_apply_ops_push(db: Db, s: Seq<OpView>, o: OpView)
    ensures
        apply_ops(db, s.push(o)) == apply_op(apply_ops(db, s), o),
{
    assert(s.push(o).drop_last() =~= s);
}

/// After a non-empty batch is committed, the stored source cursor is the
/// batch's latest cursor, which is at least the cursor of every commit and
/// every account delete in it.
pub proof fn lemma_ingest_sets_source_cursor<const LIMIT: usize>(db: Db, b: EventBatch<LIMIT>)
    requires
        !b.spec_is_empty(),
    ensures
        apply_ops(db, batch_ops(b))[(Partition::Global, tag_key(Tag::JsCursor))] == be64(
            b.max_cursor(),
        ),
        forall|i: int, j: int|
            0 <= i < b.commits_by_nsid@.len() && 0 <= j < b.commits_by_nsid@[i].1.commits@.len()
                ==> b.commits_by_nsid@[i].1.commits@[j].cursor <= b.max_cursor(),
        forall|i: int|
            0 <= i < b.account_removes@.len() ==> b.account_removes@[i].cursor <= b.max_cursor(),
{
    let head = collections_ops(b.commits_by_nsid@, b.max_cursor()) + removes_ops(
        b.account_removes@,
    );
    let last = ins(Partition::Global, tag_key(Tag::JsCursor), be64(b.max_cursor()));
    assert(batch_ops(b) =~= head.push(last));
    lemma_apply_ops_push(db, head, last);
    assert forall|i: int, j: int|
        0 <= i < b.commits_by_nsid@.len() && 0 <= j < b.commits_by_nsid@[i].1.commits@.len()
            implies b.commits_by_nsid@[i].1.commits@[j].cursor <= b.max_cursor() by {
        crate::batch::lemma_max_collections_cursor_bounds(b.commits_by_nsid@, i, j);
    }
    assert forall|i: int|
        0 <= i < b.account_removes@.len() implies b.account_removes@[i].cursor
        <= b.max_cursor() by {
        crate::batch::lemma_max_removes_cursor_bounds(b.account_removes@, i);
    }
}

/// Committing an empty batch leaves every partition as it was.
pub proof fn lemma_empty_batch_changes_nothing<const LIMIT: usize>(db: Db, b: EventBatch<LIMIT>)
    requires
        b.spec_is_empty(),
    ensures
        apply_ops(db, batch_ops(b)) == db,
{
}

} // verus!
