//! Background maintenance: trimming collection feeds and deleting the
//! records of deleted accounts.
use vstd::prelude::*;
use crate::codec::{lemma_str_at, lemma_str_at_end, str_at, u64_at, be64, no_nul, nul_str, read_str, read_u64, EncodingError};
use crate::keys::{feed_key, feed_key_spec, feed_value_spec, record_key, record_key_spec, record_value_spec, trim_cursor_key, trim_cursor_key_spec, u64_value, queue_key_spec, static_key, starts_with, tag_key, flag_byte, Tag};
use crate::store::{ins, ops_view, push_op, rem, apply_ops, Db, OpView, Partition, WriteOp};
use crate::batch::{bytes_eq, bytes_to_vec};

verus! {

/// How many feed entries a trim that is not a full scan looks at, at most.
pub const MAX_TRIM_SCAN: usize = 1_000_000;

/// How many changes one write batch of maintenance holds, at most.
pub const MAX_BATCHED_CLEANUP_SIZE: usize = 1024;

/// How many records one write batch of an account delete removes, at most.
pub const MAX_BATCHED_ACCOUNT_DELETE_RECORDS: usize = 1024;

/// How many records a background trim keeps per collection.
pub const TRIM_RETENTION: usize = 512;

/// A feed entry of one collection, read back.
#[derive(Debug, Clone)]
pub struct FeedEntry {
    pub cursor: u64,
    pub did: Vec<u8>,
    pub rkey: Vec<u8>,
    pub rev: Vec<u8>,
}

/// The start of a stored record: its cursor, update flag and revision.
#[derive(Debug, Clone)]
pub struct RecordMeta {
    pub cursor: u64,
    pub is_update: bool,
    pub rev: Vec<u8>,
}

proof fn lemma_feed_value_layout(b: Seq<u8>, did: Seq<u8>, rkey: Seq<u8>, rev: Seq<u8>)
    requires
        no_nul(did) && no_nul(rkey) && no_nul(rev),
        b == feed_value_spec(did, rkey, rev),
    ensures
        str_at(b, 0, did),
        str_at(b, did.len() as int + 1, rkey),
        str_at(b, did.len() + rkey.len() + 2int, rev),
        b.len() == did.len() + rkey.len() + rev.len() + 3,
{
    let d = did.len() as int;
    let r = rkey.len() as int;
    assert(b.subrange(0, d + 1) =~= nul_str(did));
    assert(b.subrange(d + 1, d + r + 2) =~= nul_str(rkey));
    assert(b.subrange(d + r + 2, d + r + rev.len() + 3) =~= nul_str(rev));
}

/// A feed value read back: the account, record key and revision. Every
/// value written from strings without zero bytes reads back.
pub fn decode_feed_value(b: &[u8]) -> (r: Result<(Vec<u8>, Vec<u8>, Vec<u8>), EncodingError>)
    ensures
        r matches Ok((did, rkey, rev)) ==> b@ == feed_value_spec(did@, rkey@, rev@) && no_nul(did@)
            && no_nul(rkey@) && no_nul(rev@),
        forall|did: Seq<u8>, rkey: Seq<u8>, rev: Seq<u8>|
            no_nul(did) && no_nul(rkey) && no_nul(rev) && b@ == feed_value_spec(did, rkey, rev) ==> (
            r matches Ok((d, k, v)) && d@ == did && k@ == rkey && v@ == rev),
{
    let ghost written = exists|did: Seq<u8>, rkey: Seq<u8>, rev: Seq<u8>|
        no_nul(did) && no_nul(rkey) && no_nul(rev) && b@ == feed_value_spec(did, rkey, rev);
    let ghost (w_did, w_rkey, w_rev) = if written {
        choose|did: Seq<u8>, rkey: Seq<u8>, rev: Seq<u8>|
            no_nul(did) && no_nul(rkey) && no_nul(rev) && b@ == feed_value_spec(did, rkey, rev)
    } else {
        (Seq::empty(), Seq::empty(), Seq::empty())
    };
    proof {
        if written {
            lemma_feed_value_layout(b@, w_did, w_rkey, w_rev);
            lemma_str_at(b@, 0, w_did);
            lemma_str_at(b@, w_did.len() as int + 1, w_rkey);
            lemma_str_at(b@, w_did.len() + w_rkey.len() + 2int, w_rev);
        }
    }
    let (did, a) = match read_str(b, 0) {
        Some(x) => x,
        None => {
            return Err(EncodingError::NotEnoughBytes);
        },
    };
    proof {
        if written {
            lemma_str_at_end(b@, 0, w_did, a as int);
        }
    }
    let (rkey, c) = match read_str(b, a) {
        Some(x) => x,
        None => {
            return Err(EncodingError::NotEnoughBytes);
        },
    };
    proof {
        if written {
            lemma_str_at_end(b@, a as int, w_rkey, c as int);
        }
    }
    let (rev, e) = match read_str(b, c) {
        Some(x) => x,
        None => {
            return Err(EncodingError::NotEnoughBytes);
        },
    };
    proof {
        if written {
            lemma_str_at_end(b@, c as int, w_rev, e as int);
        }
    }
    if e != b.len() {
        return Err(EncodingError::UnexpectedTrailingBytes);
    }
    assert(b@ =~= feed_value_spec(did@, rkey@, rev@));
    proof {
        assert forall|d0: Seq<u8>, k0: Seq<u8>, v0: Seq<u8>|
            no_nul(d0) && no_nul(k0) && no_nul(v0) && b@ == feed_value_spec(d0, k0, v0) implies did@
            == d0 && rkey@ == k0 && rev@ == v0 by {
            lemma_feed_value_layout(b@, d0, k0, v0);
            lemma_str_at_end(b@, 0, d0, a as int);
            lemma_str_at_end(b@, a as int, k0, c as int);
            lemma_str_at_end(b@, c as int, v0, e as int);
        }
    }
    Ok((did, rkey, rev))
}

proof fn lemma_record_value_layout(b: Seq<u8>, c: u64, u: bool, rev: Seq<u8>, raw: Seq<u8>)
    requires
        no_nul(rev),
        b == record_value_spec(c, u, rev, raw),
    ensures
        u64_at(b, 0, c),
        b[8] == flag_byte(u),
        str_at(b, 9, rev),
        b.subrange(rev.len() as int + 10, b.len() as int) == raw,
{
    assert(b.subrange(0, 8) =~= be64(c));
    assert(b.subrange(9, rev.len() as int + 10) =~= nul_str(rev));
    assert(b.subrange(rev.len() as int + 10, b.len() as int) =~= raw);
}

/// The start of a record value read back, and where the raw record begins.
/// Every value written with a revision without zero bytes reads back.
pub fn decode_record_meta(b: &[u8]) -> (r: Result<(RecordMeta, usize), EncodingError>)
    ensures
        r matches Ok((m, at)) ==> at <= b@.len() && no_nul(m.rev@) && b@ == record_value_spec(
            m.cursor,
            m.is_update,
            m.rev@,
            b@.subrange(at as int, b@.len() as int),
        ),
        forall|c: u64, u: bool, rev: Seq<u8>, raw: Seq<u8>|
            no_nul(rev) && b@ == record_value_spec(c, u, rev, raw) ==> (r matches Ok((m, at))
                && m.cursor == c && m.is_update == u && m.rev@ == rev && b@.subrange(
                at as int,
                b@.len() as int,
            ) == raw),
{
    let ghost written = exists|c: u64, u: bool, rev: Seq<u8>, raw: Seq<u8>|
        no_nul(rev) && b@ == record_value_spec(c, u, rev, raw);
    let ghost (w_c, w_u, w_rev, w_raw) = if written {
        choose|c: u64, u: bool, rev: Seq<u8>, raw: Seq<u8>|
            no_nul(rev) && b@ == record_value_spec(c, u, rev, raw)
    } else {
        (0u64, false, Seq::empty(), Seq::empty())
    };
    proof {
        if written {
            lemma_record_value_layout(b@, w_c, w_u, w_rev, w_raw);
            lemma_str_at(b@, 9, w_rev);
        }
    }
    let (cursor, a) = match read_u64(b, 0) {
        Some(x) => x,
        None => {
            return Err(EncodingError::NotEnoughBytes);
        },
    };
    if a >= b.len() {
        return Err(EncodingError::NotEnoughBytes);
    }
    let flag = b[a];
    let is_update = if flag == 0u8 {
        false
    } else if flag == 1u8 {
        true
    } else {
        return Err(EncodingError::InvalidFlag);
    };
    let (rev, at) = match read_str(b, a + 1) {
        Some(x) => x,
        None => {
            return Err(EncodingError::NotEnoughBytes);
        },
    };
    proof {
        crate::codec::lemma_be64_bytes(b@, 0);
        assert(b@ =~= record_value_spec(
            cursor,
            is_update,
            rev@,
            b@.subrange(at as int, b@.len() as int),
        ));
        assert forall|c0: u64, u0: bool, v0: Seq<u8>, raw0: Seq<u8>|
            no_nul(v0) && b@ == record_value_spec(c0, u0, v0, raw0) implies cursor == c0
            && is_update == u0 && rev@ == v0 && b@.subrange(at as int, b@.len() as int) == raw0 by {
            lemma_record_value_layout(b@, c0, u0, v0, raw0);
            crate::codec::lemma_u64_at(b@, 0, c0);
            lemma_str_at_end(b@, 9, v0, at as int);
        }
    }
    Ok((RecordMeta { cursor, is_update, rev }, at))
}

/// What the trimmer finds at a feed entry.
#[derive(Debug, Clone, Copy, PartialEq, Eq, Structural)]
pub enum TrimVerdict {
    /// The record is gone.
    Dangling,
    /// The record was written again later: the entry is an old version.
    Stale,
    /// The record has the entry's cursor but another revision.
    RevMismatch,
    /// The entry points at the current record.
    Live,
}

/// The verdict on a feed entry, given the record it points at.
pub open spec fn verdict(e: FeedEntry, m: Option<RecordMeta>) -> TrimVerdict {
    match m {
        None => TrimVerdict::Dangling,
        Some(m) => if m.cursor != e.cursor {
            TrimVerdict::Stale
        } else if m.rev@ != e.rev@ {
            TrimVerdict::RevMismatch
        } else {
            TrimVerdict::Live
        },
    }
}

/// How many of the first `n` entries point at their current record.
pub open spec fn live_before(s: Seq<(FeedEntry, Option<RecordMeta>)>, n: int) -> nat
    decreases n,
{
    if n <= 0 {
        0
    } else {
        live_before(s, n - 1) + if verdict(s[n - 1].0, s[n - 1].1) == TrimVerdict::Live {
            1nat
        } else {
            0nat
        }
    }
}

/// The changes that the trimmer makes for the entry at `i`: a dangling or
/// stale entry leaves the feed; a revision mismatch takes the record too;
/// a live entry past the first `limit` live ones leaves with its record.
pub open spec fn entry_ops(
    nsid: Seq<u8>,
    s: Seq<(FeedEntry, Option<RecordMeta>)>,
    i: int,
    limit: nat,
) -> Seq<OpView> {
    let e = s[i].0;
    let fk = feed_key_spec(nsid, e.cursor);
    let rk = record_key_spec(e.did@, nsid, e.rkey@);
    match verdict(e, s[i].1) {
        TrimVerdict::Dangling => seq![rem(Partition::Feeds, fk)],
        TrimVerdict::Stale => seq![rem(Partition::Feeds, fk)],
        TrimVerdict::RevMismatch => seq![rem(Partition::Feeds, fk), rem(Partition::Records, rk)],
        TrimVerdict::Live => if live_before(s, i) + 1 > limit {
            seq![rem(Partition::Feeds, fk), rem(Partition::Records, rk)]
        } else {
            Seq::empty()
        },
    }
}

/// The changes for the first `n` entries.
pub open spec fn entries_ops(
    nsid: Seq<u8>,
    s: Seq<(FeedEntry, Option<RecordMeta>)>,
    n: int,
    limit: nat,
) -> Seq<OpView>
    decreases n,
{
    if n <= 0 {
        Seq::empty()
    } else {
        entries_ops(nsid, s, n - 1, limit) + entry_ops(nsid, s, n - 1, limit)
    }
}

/// How many of the first `n` entries are removed as dead.
pub open spec fn dead_count(s: Seq<(FeedEntry, Option<RecordMeta>)>, n: int) -> nat
    decreases n,
{
    if n <= 0 {
        0
    } else {
        dead_count(s, n - 1) + if verdict(s[n - 1].0, s[n - 1].1) != TrimVerdict::Live {
            1nat
        } else {
            0nat
        }
    }
}

/// The strings of the first `n` entries can be written zero-terminated.
pub open spec fn entries_ok(nsid: Seq<u8>, s: Seq<(FeedEntry, Option<RecordMeta>)>, n: int) -> bool {
    &&& no_nul(nsid)
    &&& forall|i: int| 0 <= i < n ==> no_nul(#[trigger] s[i].0.did@) && no_nul(s[i].0.rkey@)
}

/// How many entries a trim pass looks at.
pub open spec fn scan_len(len: nat, full_scan: bool) -> int {
    if !full_scan && len > MAX_TRIM_SCAN {
        MAX_TRIM_SCAN as int
    } else {
        len as int
    }
}

/// The outcome of a trim pass.
#[derive(Debug)]
pub struct TrimPlan {
    pub ops: Vec<WriteOp>,
    /// How many entries were looked at.
    pub scanned: usize,
    pub dangling_removed: usize,
    pub records_deleted: usize,
    /// The cursor of the newest entry past the retention window, which
    /// becomes the collection's trim cursor.
    pub new_trim_cursor: Option<u64>,
    pub ended_early: bool,
}

/// Plans a trim pass over the feed entries of `nsid`, newest first, each
/// with the record it points at. Keeps the newest `limit` live entries and
/// removes the rest, and every dead entry. A pass that is not a full scan
/// stops after `MAX_TRIM_SCAN` entries and then leaves the trim cursor as it
/// was; otherwise the cursor of the first entry past the window becomes the
/// trim cursor.
pub fn plan_trim(
    nsid: &[u8],
    entries: &Vec<(FeedEntry, Option<RecordMeta>)>,
    limit: usize,
    full_scan: bool,
) -> (r: Result<TrimPlan, EncodingError>)
    ensures
        r is Ok <==> entries_ok(nsid@, entries@, scan_len(entries@.len(), full_scan)),
        r matches Ok(p) ==> {
            &&& p.scanned == scan_len(entries@.len(), full_scan)
            &&& p.ended_early == (p.scanned < entries@.len())
            &&& p.dangling_removed == dead_count(entries@, p.scanned as int)
            &&& p.records_deleted + limit == live_before(entries@, p.scanned as int) || (
            p.records_deleted == 0 && live_before(entries@, p.scanned as int) <= limit)
            &&& (p.new_trim_cursor matches Some(c) ==> exists|i: int|
                0 <= i < p.scanned && entries@[i].0.cursor == c && verdict(
                    entries@[i].0,
                    entries@[i].1,
                ) == TrimVerdict::Live && live_before(entries@, i) == limit)
            &&& (p.new_trim_cursor is None ==> live_before(entries@, p.scanned as int) <= limit)
            &&& ops_view(p.ops@) == entries_ops(nsid@, entries@, p.scanned as int, limit as nat)
                + if !p.ended_early && p.new_trim_cursor is Some {
                seq![
                    ins(
                        Partition::Global,
                        trim_cursor_key_spec(nsid@),
                        be64(p.new_trim_cursor->Some_0),
                    ),
                ]
            } else {
                Seq::empty()
            }
        },
{
    let tk = trim_cursor_key(nsid)?;
    let mut ops: Vec<WriteOp> = Vec::new();
    let mut dangling: usize = 0;
    let mut deleted: usize = 0;
    let mut live: usize = 0;
    let mut candidate: Option<u64> = None;
    let mut i: usize = 0;
    let scan_end: usize = if !full_scan && entries.len() > MAX_TRIM_SCAN {
        MAX_TRIM_SCAN
    } else {
        entries.len()
    };
    while i < scan_end
        invariant
            no_nul(nsid@),
            scan_end <= entries@.len(),
            scan_end == scan_len(entries@.len(), full_scan),
            i <= scan_end,
            forall|j: int| 0 <= j < i ==> no_nul(#[trigger] entries@[j].0.did@) && no_nul(entries@[j].0.rkey@),
            live == live_before(entries@, i as int),
            dangling == dead_count(entries@, i as int),
            live <= i,
            dangling <= i,
            deleted + limit == live || (deleted == 0 && live <= limit),
            candidate matches Some(c) ==> exists|j: int|
                0 <= j < i && entries@[j].0.cursor == c && verdict(entries@[j].0, entries@[j].1)
                    == TrimVerdict::Live && live_before(entries@, j) == limit,
            candidate is None ==> live <= limit,
            ops_view(ops@) == entries_ops(nsid@, entries@, i as int, limit as nat),
        decreases scan_end - i,
    {
        proof {
            lemma_counts_bounded(entries@, i as int);
        }
        let e = &entries[i].0;
        let m = &entries[i].1;
        let fk = match feed_key(nsid, e.cursor) {
            Ok(k) => k,
            Err(err) => {
                return Err(err);
            },
        };
        let rk = match record_key(e.did.as_slice(), nsid, e.rkey.as_slice()) {
            Ok(k) => k,
            Err(err) => {
                return Err(err);
            },
        };
        assert(no_nul(entries@[i as int].0.did@) && no_nul(entries@[i as int].0.rkey@));
        let ghost before = ops_view(ops@);
        match m {
            None => {
                push_op(&mut ops, WriteOp::Remove(Partition::Feeds, fk));
                dangling = dangling + 1;
            },
            Some(meta) => {
                if meta.cursor != e.cursor {
                    push_op(&mut ops, WriteOp::Remove(Partition::Feeds, fk));
                    dangling = dangling + 1;
                } else if !bytes_eq(meta.rev.as_slice(), e.rev.as_slice()) {
                    push_op(&mut ops, WriteOp::Remove(Partition::Feeds, fk));
                    push_op(&mut ops, WriteOp::Remove(Partition::Records, rk));
                    dangling = dangling + 1;
                } else {
                    live = live + 1;
                    if live > limit {
                        if candidate.is_none() {
                            candidate = Some(e.cursor);
                        }
                        push_op(&mut ops, WriteOp::Remove(Partition::Feeds, fk));
                        push_op(&mut ops, WriteOp::Remove(Partition::Records, rk));
                        deleted = deleted + 1;
                    }
                }
            },
        }
        proof {
            assert(ops_view(ops@) =~= before + entry_ops(nsid@, entries@, i as int, limit as nat));
            assert forall|j: int| 0 <= j < i + 1 implies no_nul(#[trigger] entries@[j].0.did@)
                && no_nul(entries@[j].0.rkey@) by {
                if j == i {
                    assert(no_nul(entries@[i as int].0.did@));
                }
            }
        }
        i = i + 1;
    }
    let ended_early = i < entries.len();
    if !ended_early {
        if let Some(c) = candidate {
            push_op(&mut ops, WriteOp::Insert(Partition::Global, tk, u64_value(c)));
        }
    }
    proof {
        if !ended_early && candidate is Some {
        } else {
            assert(ops_view(ops@) =~= entries_ops(nsid@, entries@, i as int, limit as nat) + Seq::<
                OpView,
            >::empty());
        }
    }
    Ok(
        TrimPlan {
            ops,
            scanned: i,
            dangling_removed: dangling,
            records_deleted: deleted,
            new_trim_cursor: candidate,
            ended_early,
        },
    )
}

proof fn lemma_counts_bounded(s: Seq<(FeedEntry, Option<RecordMeta>)>, n: int)
    ensures
        live_before(s, n) <= if n < 0 {
            0
        } else {
            n
        },
        dead_count(s, n) <= if n < 0 {
            0
        } else {
            n
        },
    decreases n,
{
    if n > 0 {
        lemma_counts_bounded(s, n - 1);
    }
}

/// A stale feed entry (its record was written again at another cursor) is
/// removed from the feed by a trim pass, and the pass's changes for it do
/// not touch the record.
pub proof fn lemma_trim_removes_stale_entry_only(
    nsid: Seq<u8>,
    s: Seq<(FeedEntry, Option<RecordMeta>)>,
    i: int,
    limit: nat,
)
    requires
        0 <= i < s.len(),
        s[i].1 matches Some(m) && m.cursor != s[i].0.cursor,
    ensures
        entry_ops(nsid, s, i, limit) == seq![rem(Partition::Feeds, feed_key_spec(nsid, s[i].0.cursor))],
{
}

/// Whether a record key belongs to the account `did`.
pub open spec fn has_account_prefix(k: Seq<u8>, did: Seq<u8>) -> bool {
    k.len() > did.len() + 1 && k.subrange(0, did.len() as int + 1) == nul_str(did)
}

/// The removals of a list of keys from one partition.
pub open spec fn removes_of(p: Partition, keys: Seq<Seq<u8>>) -> Seq<OpView> {
    Seq::new(keys.len(), |i: int| rem(p, keys[i]))
}

/// Whether a stored record value was written after the cursor `c`.
pub open spec fn written_after(v: Seq<u8>, c: u64) -> bool {
    exists|rc: u64, u: bool, rev: Seq<u8>, raw: Seq<u8>|
        no_nul(rev) && v == record_value_spec(rc, u, rev, raw) && rc > c
}

/// The keys among `rows[0..n]` (key and value of each record) that an
/// account delete at cursor `c` removes: those not written after `c`.
pub open spec fn doomed_keys(rows: Seq<(Vec<u8>, Vec<u8>)>, n: int, c: u64) -> Seq<Seq<u8>>
    decreases n,
{
    if n <= 0 {
        Seq::empty()
    } else {
        doomed_keys(rows, n - 1, c) + if written_after(rows[n - 1].1@, c) {
            Seq::empty()
        } else {
            seq![rows[n - 1].0@]
        }
    }
}

/// Plans the removal of an account's records for a delete at `cursor`:
/// of the given records (key and value, each key starting with the
/// account's prefix), those not written after `cursor`, in write batches
/// of at most `MAX_BATCHED_ACCOUNT_DELETE_RECORDS` removals. A record
/// written after the delete was made after the account's deletion and
/// stays.
pub fn plan_account_delete(did: &[u8], rows: &Vec<(Vec<u8>, Vec<u8>)>, cursor: u64) -> (r: Result<
    Vec<Vec<WriteOp>>,
    EncodingError,
>)
    ensures
        r is Ok <==> no_nul(did@) && forall|i: int|
            0 <= i < rows@.len() ==> has_account_prefix(#[trigger] rows@[i].0@, did@),
        r matches Ok(batches) ==> {
            &&& forall|b: int|
                0 <= b < batches@.len() ==> (#[trigger] batches@[b])@.len()
                    <= MAX_BATCHED_ACCOUNT_DELETE_RECORDS
            &&& flatten_ops(batches@) == removes_of(
                Partition::Records,
                doomed_keys(rows@, rows@.len() as int, cursor),
            )
        },
{
    let prefix = crate::keys::record_prefix(did)?;
    let mut batches: Vec<Vec<WriteOp>> = Vec::new();
    let mut current: Vec<WriteOp> = Vec::new();
    let mut i: usize = 0;
    while i < rows.len()
        invariant
            prefix@ == nul_str(did@),
            no_nul(did@),
            i <= rows@.len(),
            forall|j: int| 0 <= j < i ==> has_account_prefix(#[trigger] rows@[j].0@, did@),
            forall|b: int|
                0 <= b < batches@.len() ==> (#[trigger] batches@[b])@.len()
                    <= MAX_BATCHED_ACCOUNT_DELETE_RECORDS,
            current@.len() < MAX_BATCHED_ACCOUNT_DELETE_RECORDS,
            flatten_ops(batches@) + ops_view(current@) == removes_of(
                Partition::Records,
                doomed_keys(rows@, i as int, cursor),
            ),
        decreases rows@.len() - i,
    {
        let key = &rows[i].0;
        if !starts_with(key.as_slice(), prefix.as_slice()) || key.len() == prefix.len() {
            return Err(EncodingError::NotEnoughBytes);
        }
        let keep = match decode_record_meta(rows[i].1.as_slice()) {
            Ok((meta, _)) => meta.cursor > cursor,
            Err(_) => false,
        };
        assert(keep == written_after(rows@[i as int].1@, cursor));
        let ghost prev = doomed_keys(rows@, i as int, cursor);
        if !keep {
            let ghost before = flatten_ops(batches@) + ops_view(current@);
            push_op(&mut current, WriteOp::Remove(Partition::Records, bytes_to_vec(key.as_slice())));
            assert(flatten_ops(batches@) + ops_view(current@) =~= before.push(
                rem(Partition::Records, key@),
            ));
            assert(doomed_keys(rows@, i + 1, cursor) =~= prev.push(key@));
            assert(removes_of(Partition::Records, prev.push(key@)) =~= removes_of(
                Partition::Records,
                prev,
            ).push(rem(Partition::Records, key@)));
            if current.len() == MAX_BATCHED_ACCOUNT_DELETE_RECORDS {
                let ghost old_batches = batches@;
                let full = current;
                current = Vec::new();
                batches.push(full);
                proof {
                    lemma_flatten_push(old_batches, full@);
                    assert(ops_view(current@) =~= Seq::<OpView>::empty());
                }
            }
        } else {
            assert(doomed_keys(rows@, i + 1, cursor) =~= prev);
        }
        i = i + 1;
    }
    if current.len() > 0 {
        let ghost old_batches = batches@;
        let ghost cur = current@;
        batches.push(current);
        proof {
            lemma_flatten_push(old_batches, cur);
        }
    } else {
        assert(ops_view(current@) =~= Seq::<OpView>::empty());
    }
    Ok(batches)
}

/// The changes of several write batches, one batch after another.
pub open spec fn flatten_ops(s: Seq<Vec<WriteOp>>) -> Seq<OpView>
    decreases s.len(),
{
    if s.len() == 0 {
        Seq::empty()
    } else {
        flatten_ops(s.drop_last()) + ops_view(s.last()@)
    }
}

proof fn lemma_flatten_push(s: Seq<Vec<WriteOp>>, b: Seq<WriteOp>)
    ensures
        forall|v: Vec<WriteOp>| v@ == b ==> flatten_ops(#[trigger] s.push(v)) == flatten_ops(s) + ops_view(b),
{
    assert forall|v: Vec<WriteOp>| v@ == b implies flatten_ops(#[trigger] s.push(v)) == flatten_ops(s)
        + ops_view(b) by {
        assert(s.push(v).drop_last() =~= s);
    }
}

/// After an account delete at cursor `c` removes every record key of the
/// account that the keyspace holds and that was not written after `c`, no
/// such record of the account is left.
pub proof fn lemma_account_delete_leaves_none(db: Db, did: Seq<u8>, c: u64, keys: Seq<Seq<u8>>)
    requires
        forall|k: Seq<u8>|
            db.contains_key((Partition::Records, k)) && has_account_prefix(k, did) && !written_after(
                db[(Partition::Records, k)],
                c,
            ) ==> keys.contains(k),
    ensures
        forall|k: Seq<u8>|
            has_account_prefix(k, did) && apply_ops(db, removes_of(Partition::Records, keys)).contains_key(
                (Partition::Records, k),
            ) ==> written_after(db[(Partition::Records, k)], c),
{
    lemma_removes_remove(db, Partition::Records, keys);
}

proof fn lemma_removes_remove(db: Db, p: Partition, keys: Seq<Seq<u8>>)
    ensures
        forall|k: Seq<u8>|
            keys.contains(k) ==> !apply_ops(db, removes_of(p, keys)).contains_key((p, k)),
        forall|q: Partition, k: Seq<u8>|
            apply_ops(db, removes_of(p, keys)).contains_key((q, k)) ==> db.contains_key((q, k)),
    decreases keys.len(),
{
    if keys.len() > 0 {
        let rest = keys.drop_last();
        lemma_removes_remove(db, p, rest);
        assert(removes_of(p, keys).drop_last() =~= removes_of(p, rest));
        assert forall|k: Seq<u8>| keys.contains(k) implies !apply_ops(
            db,
            removes_of(p, keys),
        ).contains_key((p, k)) by {
            if k != keys.last() {
                let j = choose|j: int| 0 <= j < keys.len() && keys[j] == k;
                assert(rest.contains(k)) by {
                    assert(rest[j] == k);
                }
            }
        }
    }
}

proof fn lemma_queue_key_layout(k: Seq<u8>, c: u64)
    requires
        k == queue_key_spec(c),
    ensures
        k.len() == tag_key(Tag::DeleteAccount).len() as int + 8,
        k.subrange(0, tag_key(Tag::DeleteAccount).len() as int) == tag_key(Tag::DeleteAccount),
        u64_at(k, tag_key(Tag::DeleteAccount).len() as int, c),
{
    let t = tag_key(Tag::DeleteAccount);
    assert(k.subrange(0, t.len() as int) =~= t);
    assert(k.subrange(t.len() as int, t.len() as int + 8) =~= be64(c));
}

/// A queue key read back: the cursor of the account delete. Every queue
/// key reads back.
pub fn decode_queue_key(k: &[u8]) -> (r: Result<u64, EncodingError>)
    ensures
        r matches Ok(c) ==> k@ == queue_key_spec(c),
        forall|c: u64| k@ == queue_key_spec(c) ==> r == Ok::<u64, EncodingError>(c),
{
    let ghost written = exists|c: u64| k@ == queue_key_spec(c);
    let tag = static_key(Tag::DeleteAccount);
    proof {
        if written {
            let c0 = choose|c: u64| k@ == queue_key_spec(c);
            lemma_queue_key_layout(k@, c0);
        }
    }
    if !starts_with(k, tag.as_slice()) {
        return Err(EncodingError::NotEnoughBytes);
    }
    let (c, end) = match read_u64(k, tag.len()) {
        Some(x) => x,
        None => {
            return Err(EncodingError::NotEnoughBytes);
        },
    };
    if end != k.len() {
        return Err(EncodingError::UnexpectedTrailingBytes);
    }
    proof {
        crate::codec::lemma_be64_bytes(k@, tag@.len() as int);
        assert(k@ =~= tag@ + k@.subrange(tag@.len() as int, end as int));
        assert forall|c0: u64| k@ == queue_key_spec(c0) implies c == c0 by {
            lemma_queue_key_layout(k@, c0);
            crate::codec::lemma_u64_at(k@, tag@.len() as int, c0);
        }
    }
    Ok(c)
}

/// Splits a list of changes into write batches of at most `size` changes,
/// in order.
pub fn split_batches(ops: &Vec<WriteOp>, size: usize) -> (r: Vec<Vec<WriteOp>>)
    requires
        size > 0,
    ensures
        forall|b: int| 0 <= b < r@.len() ==> 0 < (#[trigger] r@[b])@.len() <= size,
        flatten_ops(r@) == ops_view(ops@),
{
    let mut batches: Vec<Vec<WriteOp>> = Vec::new();
    let mut current: Vec<WriteOp> = Vec::new();
    let mut i: usize = 0;
    while i < ops.len()
        invariant
            size > 0,
            i <= ops@.len(),
            forall|b: int| 0 <= b < batches@.len() ==> 0 < (#[trigger] batches@[b])@.len() <= size,
            current@.len() < size,
            flatten_ops(batches@) + ops_view(current@) == ops_view(ops@.subrange(0, i as int)),
        decreases ops@.len() - i,
    {
        let ghost before = flatten_ops(batches@) + ops_view(current@);
        push_op(&mut current, crate::rollup::copy_op(&ops[i]));
        assert(ops_view(ops@.subrange(0, i + 1)) =~= ops_view(ops@.subrange(0, i as int)).push(
            ops@[i as int]@,
        ));
        assert(flatten_ops(batches@) + ops_view(current@) =~= before.push(ops@[i as int]@));
        if current.len() == size {
            let ghost old_batches = batches@;
            let full = current;
            current = Vec::new();
            batches.push(full);
            proof {
                lemma_flatten_push(old_batches, full@);
                assert(ops_view(current@) =~= Seq::<OpView>::empty());
            }
        }
        i = i + 1;
    }
    if current.len() > 0 {
        let ghost old_batches = batches@;
        let ghost cur = current@;
        batches.push(current);
        proof {
            lemma_flatten_push(old_batches, cur);
        }
    } else {
        assert(ops_view(current@) =~= Seq::<OpView>::empty());
    }
    assert(ops@.subrange(0, i as int) =~= ops@);
    batches
}

/// Where a trim pass starts reading the feed of `nsid`, and whether that
/// bound is inclusive: the first entry for a full scan or when no trim
/// cursor is stored; else just after the stored trim cursor, whose entry an
/// earlier pass already removed.
pub fn trim_range_start(nsid: &[u8], trim_cursor: Option<u64>, full_scan: bool) -> (r: Result<
    (Vec<u8>, bool),
    EncodingError,
>)
    ensures
        r is Ok <==> no_nul(nsid@),
        r matches Ok((k, inclusive)) ==> if full_scan || trim_cursor is None {
            inclusive && k@ == nul_str(nsid@)
        } else {
            !inclusive && k@ == feed_key_spec(nsid@, trim_cursor->Some_0)
        },
{
    match trim_cursor {
        Some(c) => {
            if !full_scan {
                let k = feed_key(nsid, c)?;
                return Ok((k, false));
            }
        },
        None => {},
    }
    let k = crate::keys::feed_prefix(nsid)?;
    Ok((k, true))
}

} // verus!
