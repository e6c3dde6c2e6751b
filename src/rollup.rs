//! The roll-up engine: folding live counts cells into hourly, weekly and
//! all-time aggregates with their rank indexes, in cursor order, and
//! interleaving the queued account deletes.
use vstd::prelude::*;
use crate::codec::{lemma_str_at, lemma_str_at_end, str_at, u64_at, be64, be64_at, no_nul, nul_str, read_str, read_u64, EncodingError};
use crate::keys::{counts_key, counts_key_spec, hour_of, lemma_tag_bytes, lemma_tag_key_split, live_counts_key_spec, queue_key_spec, rank_key, rank_key_spec, rank_tag, counts_tag, bucket_bytes, starts_with, static_key, tag_key, u64_value, week_of, Metric, Period, Tag};
use cardinality_estimator_safe::Sketch;
use crate::sketch::{sketch_decode, sketch_union, 
    decode_sketch, empty_sketch, estimate_of, sketch_clone, sketch_encoding, sketch_estimate,
    sketch_merge, DidSketch,
};
use crate::store::{counts_value, counts_value_spec, ins, ops_view, push_op, rem, Partition, WriteOp};
use crate::batch::{bytes_eq, bytes_to_vec};

verus! {

/// The most live cells that one roll-up step folds.
pub const MAX_BATCHED_ROLLUP_COUNTS: usize = 256;

/// Errors met while planning a roll-up step.
#[derive(Debug, Clone, Copy, PartialEq, Eq, Structural)]
pub enum RollupError {
    /// A key or value did not decode.
    Decode(EncodingError),
    /// A stored sketch did not decode.
    SketchDecode,
    /// A sketch could not be encoded.
    SketchEncode,
    /// A record count would pass the largest `u64`.
    CountOverflow,
    /// A live cell was not after the roll-up cursor.
    OutOfOrder,
}

/// Whether stored bytes hold a counts cell: a count, then a sketch that
/// fills the rest.
pub open spec fn cell_ok(b: Seq<u8>) -> bool {
    &&& b.len() >= 8
    &&& sketch_decode(b.subrange(8, b.len() as int)) is Some
    &&& sketch_decode(b.subrange(8, b.len() as int))->Some_0.1 == b.len() - 8
}

/// The sketch of stored counts cell bytes.
pub open spec fn cell_sketch(b: Seq<u8>) -> Sketch<14> {
    sketch_decode(b.subrange(8, b.len() as int))->Some_0.0
}

/// A record count and the sketch of the accounts behind it.
#[derive(Debug)]
pub struct CountsCell {
    pub records: u64,
    pub dids: DidSketch,
}

impl CountsCell {
    /// No records and no accounts.
    pub fn new() -> (r: Self)
        ensures
            r.records == 0,
            estimate_of(r.dids) == 0,
    {
        CountsCell { records: 0, dids: empty_sketch() }
    }

    /// Adds another cell: the counts add up and the sketches merge. Fails,
    /// changing nothing, when the sum passes the largest `u64`.
    pub fn merge(&mut self, other: &CountsCell) -> (r: Result<(), RollupError>)
        ensures
            r is Ok <==> old(self).records + other.records <= u64::MAX,
            r is Ok ==> final(self).records == old(self).records + other.records,
            r is Ok ==> final(self).dids == sketch_union(old(self).dids, other.dids),
            r is Err ==> *final(self) == *old(self) && r == Err::<(), RollupError>(
                RollupError::CountOverflow,
            ),
    {
        if self.records > u64::MAX - other.records {
            return Err(RollupError::CountOverflow);
        }
        self.records = self.records + other.records;
        sketch_merge(&mut self.dids, &other.dids);
        Ok(())
    }

    /// The estimated number of distinct accounts.
    pub fn estimate(&self) -> (r: u64)
        ensures
            r == estimate_of(self.dids),
    {
        sketch_estimate(&self.dids)
    }

    /// A copy of the cell.
    pub fn copy(&self) -> (r: Self)
        ensures
            r.records == self.records,
            r.dids == self.dids,
            estimate_of(r.dids) == estimate_of(self.dids),
            sketch_encoding(r.dids) == sketch_encoding(self.dids),
    {
        CountsCell { records: self.records, dids: sketch_clone(&self.dids) }
    }

    /// The stored bytes of the cell, or `None` when the sketch cannot be
    /// encoded.
    pub fn to_db_bytes(&self) -> (r: Option<Vec<u8>>)
        ensures
            r is Some,
            r matches Some(v) ==> v@ == counts_value_spec(self.records, sketch_encoding(self.dids)),
    {
        counts_value(self.records, &self.dids)
    }

    /// A cell read back from stored bytes: the count, then a sketch that
    /// fills the rest.
    pub fn from_db_bytes(b: &[u8]) -> (r: Result<Self, RollupError>)
        ensures
            r is Ok <==> cell_ok(b@),
            r matches Ok(c) ==> b@.len() >= 8 && c.records == be64_at(b@, 0) && c.dids
                == cell_sketch(b@),
    {
        let (records, at) = match read_u64(b, 0) {
            Some(x) => x,
            None => {
                return Err(RollupError::Decode(EncodingError::NotEnoughBytes));
            },
        };
        let rest = vstd::slice::slice_subrange(b, at, b.len());
        let (dids, used) = match decode_sketch(rest) {
            Some(x) => x,
            None => {
                return Err(RollupError::SketchDecode);
            },
        };
        assert(rest@ == b@.subrange(8, b@.len() as int));
        if used != rest.len() {
            return Err(RollupError::Decode(EncodingError::UnexpectedTrailingBytes));
        }
        Ok(CountsCell { records, dids })
    }
}

/// Where the cursor of a live counts key starts: after the zero-terminated
/// name.
pub open spec fn live_cursor_at() -> int {
    12
}

/// The cursor of a live counts key.
pub open spec fn live_key_cursor(k: Seq<u8>) -> u64 {
    be64_at(k, live_cursor_at())
}

/// The collection of a live counts key.
pub open spec fn live_key_nsid(k: Seq<u8>) -> Seq<u8> {
    k.subrange(live_cursor_at() + 8, k.len() - 1)
}

/// A live counts key gives back its cursor and collection.
pub proof fn lemma_live_key_parts(c: u64, n: Seq<u8>)
    ensures
        live_key_cursor(live_counts_key_spec(c, n)) == c,
        live_key_nsid(live_counts_key_spec(c, n)) == n,
{
    lemma_tag_bytes(Tag::LiveCounts);
    let k = live_counts_key_spec(c, n);
    crate::codec::lemma_be64_round_trip_at(tag_key(Tag::LiveCounts), c, nul_str(n));
    assert(k =~= tag_key(Tag::LiveCounts) + be64(c) + nul_str(n));
    assert(live_key_nsid(k) =~= n);
}

/// Where the parts of a live counts key lie.
proof fn lemma_live_key_layout(k: Seq<u8>, c: u64, n: Seq<u8>)
    requires
        no_nul(n),
        k == live_counts_key_spec(c, n),
    ensures
        k.len() == live_cursor_at() + 9 + n.len(),
        k.subrange(0, live_cursor_at()) == tag_key(Tag::LiveCounts),
        u64_at(k, live_cursor_at(), c),
        str_at(k, live_cursor_at() + 8, n),
{
    lemma_tag_bytes(Tag::LiveCounts);
    let t = tag_key(Tag::LiveCounts);
    assert(k.subrange(0, 12) =~= t);
    assert(k.subrange(12, 20) =~= be64(c));
    assert(k.subrange(20, 21 + n.len() as int) =~= nul_str(n));
}

/// A live counts key read back: its cursor and collection. Every key
/// written for a collection without zero bytes reads back.
pub fn decode_live_counts_key(k: &[u8]) -> (r: Result<(u64, Vec<u8>), EncodingError>)
    ensures
        r matches Ok((c, n)) ==> k@ == live_counts_key_spec(c, n@) && no_nul(n@)
            && live_key_cursor(k@) == c && live_key_nsid(k@) == n@,
        forall|c: u64, n: Seq<u8>|
            no_nul(n) && k@ == live_counts_key_spec(c, n) ==> (r matches Ok((c2, n2)) && c2 == c
                && n2@ == n),
{
    let ghost written = exists|c: u64, n: Seq<u8>| no_nul(n) && k@ == live_counts_key_spec(c, n);
    let tag = static_key(Tag::LiveCounts);
    proof {
        lemma_tag_bytes(Tag::LiveCounts);
        if written {
            let (c, n) = choose|c: u64, n: Seq<u8>| no_nul(n) && k@ == live_counts_key_spec(c, n);
            lemma_live_key_layout(k@, c, n);
        }
    }
    if !starts_with(k, tag.as_slice()) {
        return Err(EncodingError::NotEnoughBytes);
    }
    let (c, at) = match read_u64(k, tag.len()) {
        Some(x) => x,
        None => {
            return Err(EncodingError::NotEnoughBytes);
        },
    };
    let (n, end) = match read_str(k, at) {
        Some(x) => x,
        None => {
            proof {
                if written {
                    let (c0, n0) = choose|c: u64, n: Seq<u8>| no_nul(n) && k@ == live_counts_key_spec(c, n);
                    lemma_live_key_layout(k@, c0, n0);
                    lemma_str_at(k@, 20, n0);
                }
            }
            return Err(EncodingError::NotEnoughBytes);
        },
    };
    if end != k.len() {
        proof {
            if written {
                let (c0, n0) = choose|c: u64, n: Seq<u8>| no_nul(n) && k@ == live_counts_key_spec(c, n);
                lemma_live_key_layout(k@, c0, n0);
                lemma_str_at_end(k@, 20, n0, end as int);
            }
        }
        return Err(EncodingError::UnexpectedTrailingBytes);
    }
    proof {
        let t = tag_key(Tag::LiveCounts);
        let cb = k@.subrange(t.len() as int, at as int);
        crate::codec::lemma_be64_bytes(k@, t.len() as int);
        assert(k@ =~= k@.subrange(0, t.len() as int) + cb + k@.subrange(at as int, end as int));
        assert(k@.subrange(at as int, end as int) =~= nul_str(n@));
        lemma_live_key_parts(c, n@);
        assert forall|c0: u64, n0: Seq<u8>|
            no_nul(n0) && k@ == live_counts_key_spec(c0, n0) implies c == c0 && n@ == n0 by {
            lemma_live_key_parts(c0, n0);
        }
    }
    Ok((c, n))
}

/// What one roll-up step does.
#[derive(Debug, Clone, Copy, PartialEq, Eq, Structural)]
pub enum StepPlan {
    /// Fold live cells, stopping before the given cursor if there is one.
    FoldLive(Option<u64>),
    /// Run the first queued account delete.
    DeleteAccount,
    /// Nothing is waiting.
    Idle,
}

/// Chooses the next roll-up step from the first live cell and the first
/// queued account delete after the roll-up cursor: whichever comes first
/// by cursor, an account delete when they tie.
pub fn decide_step(live_next: Option<u64>, delete_next: Option<u64>) -> (r: StepPlan)
    ensures
        r == match (live_next, delete_next) {
            (Some(l), Some(d)) => if l < d {
                StepPlan::FoldLive(Some(d))
            } else {
                StepPlan::DeleteAccount
            },
            (Some(_), None) => StepPlan::FoldLive(None),
            (None, Some(_)) => StepPlan::DeleteAccount,
            (None, None) => StepPlan::Idle,
        },
{
    match (live_next, delete_next) {
        (Some(l), Some(d)) => {
            if l < d {
                StepPlan::FoldLive(Some(d))
            } else {
                StepPlan::DeleteAccount
            }
        },
        (Some(_), None) => StepPlan::FoldLive(None),
        (None, Some(_)) => StepPlan::DeleteAccount,
        (None, None) => StepPlan::Idle,
    }
}

/// The change that stores the roll-up cursor.
pub fn rollup_cursor_op(cursor: u64) -> (r: WriteOp)
    ensures
        r@ == ins(Partition::Global, tag_key(Tag::RollupCursor), be64(cursor)),
{
    WriteOp::Insert(Partition::Global, static_key(Tag::RollupCursor), u64_value(cursor))
}

/// The write batch that finishes a queued account delete, once the
/// account's records are gone: the queue entry leaves and the roll-up
/// cursor moves to the entry's cursor.
pub fn finish_account_delete_ops(cursor: u64) -> (r: Vec<WriteOp>)
    ensures
        ops_view(r@) == seq![
            rem(Partition::Queues, queue_key_spec(cursor)),
            ins(Partition::Global, tag_key(Tag::RollupCursor), be64(cursor)),
        ],
{
    let mut ops: Vec<WriteOp> = Vec::new();
    push_op(&mut ops, WriteOp::Remove(Partition::Queues, crate::keys::queue_key(cursor)));
    push_op(&mut ops, rollup_cursor_op(cursor));
    assert(ops_view(ops@) =~= seq![
        rem(Partition::Queues, queue_key_spec(cursor)),
        ins(Partition::Global, tag_key(Tag::RollupCursor), be64(cursor)),
    ]);
    ops
}

/// The counts that one fold adds to one aggregate cell.
#[derive(Debug)]
pub struct Delta {
    pub nsid: Vec<u8>,
    pub period: Period,
    pub counts: CountsCell,
}

/// Which kind of slice a period is: hourly, weekly or all time.
pub open spec fn period_kind(p: Period) -> int {
    match p {
        Period::Hourly(_) => 0,
        Period::Weekly(_) => 1,
        Period::AllTime => 2,
    }
}

/// What `d` adds to the records of `nsid` in slices of kind `kind`.
pub open spec fn delta_part(d: Delta, nsid: Seq<u8>, kind: int) -> nat {
    if d.nsid@ == nsid && period_kind(d.period) == kind {
        d.counts.records as nat
    } else {
        0
    }
}

/// The records that the deltas `s` add for `nsid` over all slices of kind
/// `kind`.
pub open spec fn delta_sum(s: Seq<Delta>, nsid: Seq<u8>, kind: int) -> nat
    decreases s.len(),
{
    if s.len() == 0 {
        0
    } else {
        delta_sum(s.drop_last(), nsid, kind) + delta_part(s.last(), nsid, kind)
    }
}

proof fn lemma_delta_sum_update(s: Seq<Delta>, i: int, d: Delta, nsid: Seq<u8>, kind: int)
    requires
        0 <= i < s.len(),
    ensures
        delta_sum(s.update(i, d), nsid, kind) + delta_part(s[i], nsid, kind) == delta_sum(
            s,
            nsid,
            kind,
        ) + delta_part(d, nsid, kind),
    decreases s.len(),
{
    let u = s.update(i, d);
    if i == s.len() - 1 {
        assert(u.drop_last() =~= s.drop_last());
    } else {
        assert(u.drop_last() =~= s.drop_last().update(i, d));
        lemma_delta_sum_update(s.drop_last(), i, d, nsid, kind);
    }
}

proof fn lemma_delta_sum_push(s: Seq<Delta>, d: Delta, nsid: Seq<u8>, kind: int)
    ensures
        delta_sum(s.push(d), nsid, kind) == delta_sum(s, nsid, kind) + delta_part(d, nsid, kind),
{
    assert(s.push(d).drop_last() =~= s);
}

/// The records of the live cells `rows[0..n]` that belong to `nsid`.
pub open spec fn rows_sum(rows: Seq<(Vec<u8>, Vec<u8>)>, n: int, nsid: Seq<u8>) -> nat
    decreases n,
{
    if n <= 0 {
        0
    } else {
        rows_sum(rows, n - 1, nsid) + if live_key_nsid(rows[n - 1].0@) == nsid {
            be64_at(rows[n - 1].1@, 0) as nat
        } else {
            0nat
        }
    }
}

/// Each collection and slice has at most one delta.
pub open spec fn deltas_unique(s: Seq<Delta>) -> bool {
    forall|i: int, j: int|
        0 <= i < j < s.len() ==> !(s[i].nsid@ == s[j].nsid@ && s[i].period == s[j].period)
}

/// What `d` adds to the cell of `nsid` in the slice `p`.
pub open spec fn delta_at_part(d: Delta, nsid: Seq<u8>, p: Period) -> nat {
    if d.nsid@ == nsid && d.period == p {
        d.counts.records as nat
    } else {
        0
    }
}

/// The records that the deltas `s` add to the cell of `nsid` in slice `p`.
pub open spec fn delta_at(s: Seq<Delta>, nsid: Seq<u8>, p: Period) -> nat
    decreases s.len(),
{
    if s.len() == 0 {
        0
    } else {
        delta_at(s.drop_last(), nsid, p) + delta_at_part(s.last(), nsid, p)
    }
}

proof fn lemma_delta_at_update(s: Seq<Delta>, i: int, d: Delta, nsid: Seq<u8>, p: Period)
    requires
        0 <= i < s.len(),
    ensures
        delta_at(s.update(i, d), nsid, p) + delta_at_part(s[i], nsid, p) == delta_at(s, nsid, p)
            + delta_at_part(d, nsid, p),
    decreases s.len(),
{
    let u = s.update(i, d);
    if i == s.len() - 1 {
        assert(u.drop_last() =~= s.drop_last());
    } else {
        assert(u.drop_last() =~= s.drop_last().update(i, d));
        lemma_delta_at_update(s.drop_last(), i, d, nsid, p);
    }
}

/// The sketch of the delta of `nsid` in the slice `p` among `s`, if there
/// is one.
pub open spec fn delta_sketch(s: Seq<Delta>, nsid: Seq<u8>, p: Period) -> Option<Sketch<14>>
    decreases s.len(),
{
    if s.len() == 0 {
        None
    } else if s.last().nsid@ == nsid && s.last().period == p {
        Some(s.last().counts.dids)
    } else {
        delta_sketch(s.drop_last(), nsid, p)
    }
}

/// The union, in order, of the sketches of the live cells `rows[0..m]` of
/// `nsid` that fall in the slice `p`; `None` when there is none.
pub open spec fn slice_sketch(rows: Seq<(Vec<u8>, Vec<u8>)>, m: int, nsid: Seq<u8>, p: Period) -> Option<
    Sketch<14>,
>
    decreases m,
{
    if m <= 0 {
        None
    } else {
        let prev = slice_sketch(rows, m - 1, nsid, p);
        if live_key_nsid(rows[m - 1].0@) == nsid && row_slice(rows[m - 1].0@, period_kind(p)) == p {
            Some(
                match prev {
                    None => cell_sketch(rows[m - 1].1@),
                    Some(x) => sketch_union(x, cell_sketch(rows[m - 1].1@)),
                },
            )
        } else {
            prev
        }
    }
}

proof fn lemma_delta_sketch_at(s: Seq<Delta>, i: int)
    requires
        deltas_unique(s),
        0 <= i < s.len(),
    ensures
        delta_sketch(s, s[i].nsid@, s[i].period) == Some(s[i].counts.dids),
    decreases s.len(),
{
    if i < s.len() - 1 {
        assert(deltas_unique(s.drop_last()));
        lemma_delta_sketch_at(s.drop_last(), i);
    }
}

proof fn lemma_delta_sketch_none(s: Seq<Delta>, nsid: Seq<u8>, p: Period)
    requires
        forall|j: int| 0 <= j < s.len() ==> !(s[j].nsid@ == nsid && s[j].period == p),
    ensures
        delta_sketch(s, nsid, p) is None,
    decreases s.len(),
{
    if s.len() > 0 {
        lemma_delta_sketch_none(s.drop_last(), nsid, p);
    }
}

proof fn lemma_delta_sketch_update(s: Seq<Delta>, i: int, d: Delta, nsid: Seq<u8>, p: Period)
    requires
        deltas_unique(s),
        0 <= i < s.len(),
        d.nsid@ == s[i].nsid@,
        d.period == s[i].period,
    ensures
        delta_sketch(s.update(i, d), nsid, p) == if nsid == d.nsid@ && p == d.period {
            Some(d.counts.dids)
        } else {
            delta_sketch(s, nsid, p)
        },
    decreases s.len(),
{
    let u = s.update(i, d);
    if i == s.len() - 1 {
        assert(u.drop_last() =~= s.drop_last());
    } else {
        assert(u.drop_last() =~= s.drop_last().update(i, d));
        assert(deltas_unique(s.drop_last()));
        lemma_delta_sketch_update(s.drop_last(), i, d, nsid, p);
        assert(u.last() == s.last());
    }
}

proof fn lemma_delta_at_push(s: Seq<Delta>, d: Delta, nsid: Seq<u8>, p: Period)
    ensures
        delta_at(s.push(d), nsid, p) == delta_at(s, nsid, p) + delta_at_part(d, nsid, p),
{
    assert(s.push(d).drop_last() =~= s);
}

proof fn lemma_delta_part_le_sum(s: Seq<Delta>, i: int, nsid: Seq<u8>, kind: int)
    requires
        0 <= i < s.len(),
    ensures
        delta_part(s[i], nsid, kind) <= delta_sum(s, nsid, kind),
    decreases s.len(),
{
    if i < s.len() - 1 {
        lemma_delta_part_le_sum(s.drop_last(), i, nsid, kind);
    }
}

/// The slice of kind `kind` that the live counts key `k` falls in.
pub open spec fn row_slice(k: Seq<u8>, kind: int) -> Period {
    if kind == 0 {
        Period::Hourly(crate::keys::hour_bucket(live_key_cursor(k)))
    } else if kind == 1 {
        Period::Weekly(crate::keys::week_bucket(live_key_cursor(k)))
    } else {
        Period::AllTime
    }
}

/// The records of the live cells `rows[0..n]` of `nsid` that fall in the
/// slice `p`.
pub open spec fn rows_at(rows: Seq<(Vec<u8>, Vec<u8>)>, n: int, nsid: Seq<u8>, p: Period) -> nat
    decreases n,
{
    if n <= 0 {
        0
    } else {
        rows_at(rows, n - 1, nsid, p) + if live_key_nsid(rows[n - 1].0@) == nsid && row_slice(
            rows[n - 1].0@,
            period_kind(p),
        ) == p {
            be64_at(rows[n - 1].1@, 0) as nat
        } else {
            0nat
        }
    }
}

/// The records of all the live cells `rows[0..n]`.
pub open spec fn rows_total(rows: Seq<(Vec<u8>, Vec<u8>)>, n: int) -> nat
    decreases n,
{
    if n <= 0 {
        0
    } else {
        rows_total(rows, n - 1) + be64_at(rows[n - 1].1@, 0) as nat
    }
}

proof fn lemma_rows_bounds(rows: Seq<(Vec<u8>, Vec<u8>)>, i: int, j: int, nsid: Seq<u8>)
    requires
        0 <= i <= j,
    ensures
        rows_sum(rows, i, nsid) <= rows_total(rows, i),
        rows_total(rows, i) <= rows_total(rows, j),
    decreases j,
{
    if j > i {
        lemma_rows_bounds(rows, i, j - 1, nsid);
    } else if i > 0 {
        lemma_rows_bounds(rows, i - 1, i - 1, nsid);
    }
}

/// Whether every row is a well-formed live cell after `rollup_cursor`.
pub open spec fn fold_rows_ok(rows: Seq<(Vec<u8>, Vec<u8>)>, rollup_cursor: u64) -> bool {
    forall|i: int|
        #![trigger rows[i]]
        0 <= i < rows.len() ==> {
            &&& exists|c: u64, n: Seq<u8>| no_nul(n) && rows[i].0@ == live_counts_key_spec(c, n)
            &&& live_key_cursor(rows[i].0@) > rollup_cursor
            &&& cell_ok(rows[i].1@)
        }
}

/// Adds `c` to the delta of `nsid` in `period`, making the delta if there is
/// none yet.
fn add_delta(deltas: &mut Vec<Delta>, nsid: &[u8], period: Period, c: &CountsCell) -> (r: Result<
    (),
    RollupError,
>)
    requires
        deltas_unique(old(deltas)@),
    ensures
        deltas_unique(final(deltas)@),
        r is Ok ==> forall|n: Seq<u8>, kind: int|
            delta_sum(final(deltas)@, n, kind) == delta_sum(old(deltas)@, n, kind) + if n == nsid@
                && kind == period_kind(period) {
                c.records as nat
            } else {
                0nat
            },
        r is Ok ==> forall|n: Seq<u8>, p: Period|
            delta_at(final(deltas)@, n, p) == delta_at(old(deltas)@, n, p) + if n == nsid@ && p
                == period {
                c.records as nat
            } else {
                0nat
            },
        r is Ok ==> forall|n: Seq<u8>, p: Period|
            delta_sketch(final(deltas)@, n, p) == if n == nsid@ && p == period {
                Some(
                    match delta_sketch(old(deltas)@, nsid@, period) {
                        None => c.dids,
                        Some(x) => sketch_union(x, c.dids),
                    },
                )
            } else {
                delta_sketch(old(deltas)@, n, p)
            },
        r is Err ==> r == Err::<(), RollupError>(RollupError::CountOverflow),
        delta_sum(old(deltas)@, nsid@, period_kind(period)) + c.records <= u64::MAX ==> r is Ok,
{
    let mut i: usize = 0;
    while i < deltas.len()
        invariant
            i <= deltas@.len(),
            deltas@ == old(deltas)@,
            deltas_unique(deltas@),
            forall|j: int|
                0 <= j < i ==> !(deltas@[j].nsid@ == nsid@ && deltas@[j].period == period),
        decreases deltas@.len() - i,
    {
        if deltas[i].period == period && bytes_eq(deltas[i].nsid.as_slice(), nsid) {
            proof {
                lemma_delta_part_le_sum(deltas@, i as int, nsid@, period_kind(period));
            }
            if deltas[i].counts.records > u64::MAX - c.records {
                return Err(RollupError::CountOverflow);
            }
            let ghost before = deltas@;
            let mut d = deltas.remove(i);
            let ghost d0 = d;
            let merged = d.counts.merge(c);
            assert(merged is Ok);
            deltas.insert(i, d);
            proof {
                assert(deltas@ =~= before.update(i as int, d));
                assert forall|n: Seq<u8>, kind: int|
                    delta_sum(deltas@, n, kind) == delta_sum(before, n, kind) + if n == nsid@
                        && kind == period_kind(period) {
                        c.records as nat
                    } else {
                        0nat
                    } by {
                    lemma_delta_sum_update(before, i as int, d, n, kind);
                    assert(before[i as int] == d0);
                }
                assert forall|n: Seq<u8>, p: Period|
                    delta_at(deltas@, n, p) == delta_at(before, n, p) + if n == nsid@ && p == period {
                        c.records as nat
                    } else {
                        0nat
                    } by {
                    lemma_delta_at_update(before, i as int, d, n, p);
                    assert(before[i as int] == d0);
                }
                assert(before[i as int] == d0);
                lemma_delta_sketch_at(before, i as int);
                assert forall|n: Seq<u8>, p: Period|
                    delta_sketch(deltas@, n, p) == if n == nsid@ && p == period {
                        Some(
                            match delta_sketch(before, nsid@, period) {
                                None => c.dids,
                                Some(x) => sketch_union(x, c.dids),
                            },
                        )
                    } else {
                        delta_sketch(before, n, p)
                    } by {
                    lemma_delta_sketch_update(before, i as int, d, n, p);
                }
                assert forall|a: int, b: int|
                    0 <= a < b < deltas@.len() implies !(deltas@[a].nsid@ == deltas@[b].nsid@
                    && deltas@[a].period == deltas@[b].period) by {
                    if a != i && b != i {
                        assert(deltas@[a] == before[a] && deltas@[b] == before[b]);
                    } else if a == i {
                        assert(deltas@[b] == before[b]);
                    } else {
                        assert(deltas@[a] == before[a]);
                    }
                }
            }
            return Ok(());
        }
        i = i + 1;
    }
    let ghost before = deltas@;
    let d = Delta { nsid: bytes_to_vec(nsid), period, counts: c.copy() };
    deltas.push(d);
    proof {
        assert forall|n: Seq<u8>, kind: int|
            delta_sum(deltas@, n, kind) == delta_sum(before, n, kind) + if n == nsid@ && kind
                == period_kind(period) {
                c.records as nat
            } else {
                0nat
            } by {
            lemma_delta_sum_push(before, d, n, kind);
        }
        assert forall|n: Seq<u8>, p: Period|
            delta_at(deltas@, n, p) == delta_at(before, n, p) + if n == nsid@ && p == period {
                c.records as nat
            } else {
                0nat
            } by {
            lemma_delta_at_push(before, d, n, p);
        }
        lemma_delta_sketch_none(before, nsid@, period);
        assert(deltas@.drop_last() =~= before);

    }
    Ok(())
}

/// The outcome of folding live cells: how many were taken, the cursor of
/// the last one, the removal of each, and what to add to each aggregate.
#[derive(Debug)]
pub struct FoldPlan {
    pub consumed: usize,
    pub last_cursor: u64,
    pub removes: Vec<WriteOp>,
    pub deltas: Vec<Delta>,
}

/// Plans the fold of live cells, given in key order as raw key and value
/// bytes. Takes cells while fewer than `max` are taken and, when `before`
/// is given, while the cell's cursor is below it. Each taken cell is
/// removed and its counts go to its hour, its week and all time. Every
/// taken cell must lie after `rollup_cursor`.
pub fn plan_live_fold(
    rows: &Vec<(Vec<u8>, Vec<u8>)>,
    rollup_cursor: u64,
    before: Option<u64>,
    max: usize,
) -> (r: Result<FoldPlan, RollupError>)
    ensures
        r matches Ok(p) ==> {
            &&& p.consumed <= max && p.consumed <= rows@.len()
            &&& p.consumed < max && p.consumed < rows@.len() ==> (before matches Some(d)
                && live_key_cursor(rows@[p.consumed as int].0@) >= d)
            &&& forall|i: int|
                0 <= i < p.consumed ==> {
                    &&& live_key_cursor(rows@[i].0@) > rollup_cursor
                    &&& (before matches Some(d) ==> live_key_cursor(rows@[i].0@) < d)
                }
            &&& p.last_cursor == if p.consumed == 0 {
                rollup_cursor
            } else {
                live_key_cursor(rows@[p.consumed - 1].0@)
            }
            &&& p.last_cursor >= rollup_cursor
            &&& ops_view(p.removes@) == Seq::new(
                p.consumed as nat,
                |i: int| rem(Partition::Rollups, rows@[i].0@),
            )
            &&& deltas_unique(p.deltas@)
            &&& forall|n: Seq<u8>|
                {
                    &&& delta_sum(p.deltas@, n, 0) == rows_sum(rows@, p.consumed as int, n)
                    &&& delta_sum(p.deltas@, n, 1) == rows_sum(rows@, p.consumed as int, n)
                    &&& delta_sum(p.deltas@, n, 2) == rows_sum(rows@, p.consumed as int, n)
                }
            &&& forall|n: Seq<u8>, q: Period|
                delta_at(p.deltas@, n, q) == rows_at(rows@, p.consumed as int, n, q)
            &&& forall|n: Seq<u8>, q: Period|
                delta_sketch(p.deltas@, n, q) == slice_sketch(rows@, p.consumed as int, n, q)
        },
        fold_rows_ok(rows@, rollup_cursor) && rows_total(rows@, rows@.len() as int) <= u64::MAX
            ==> r is Ok,
{
    let mut removes: Vec<WriteOp> = Vec::new();
    let mut deltas: Vec<Delta> = Vec::new();
    let mut last_cursor = rollup_cursor;
    let mut i: usize = 0;
    while i < rows.len() && i < max
        invariant
            i <= rows@.len(),
            i <= max,
            deltas_unique(deltas@),
            forall|j: int|
                0 <= j < i ==> {
                    &&& live_key_cursor(rows@[j].0@) > rollup_cursor
                    &&& (before matches Some(d) ==> live_key_cursor(rows@[j].0@) < d)
                },
            last_cursor == if i == 0 {
                rollup_cursor
            } else {
                live_key_cursor(rows@[i - 1].0@)
            },
            last_cursor >= rollup_cursor,
            ops_view(removes@) == Seq::new(i as nat, |j: int| rem(Partition::Rollups, rows@[j].0@)),
            forall|n: Seq<u8>|
                {
                    &&& delta_sum(deltas@, n, 0) == rows_sum(rows@, i as int, n)
                    &&& delta_sum(deltas@, n, 1) == rows_sum(rows@, i as int, n)
                    &&& delta_sum(deltas@, n, 2) == rows_sum(rows@, i as int, n)
                },
            forall|n: Seq<u8>, q: Period| delta_at(deltas@, n, q) == rows_at(rows@, i as int, n, q),
            forall|n: Seq<u8>, q: Period|
                delta_sketch(deltas@, n, q) == slice_sketch(rows@, i as int, n, q),
        ensures
            i < rows@.len() && i < max ==> (before matches Some(d) && live_key_cursor(
                rows@[i as int].0@,
            ) >= d),
        decreases rows@.len() - i,
    {
        let (key, value) = (&rows[i].0, &rows[i].1);
        proof {
            if fold_rows_ok(rows@, rollup_cursor) {
                assert(exists|c: u64, n: Seq<u8>| no_nul(n) && rows@[i as int].0@ == live_counts_key_spec(c, n));
                let (c0, n0) = choose|c: u64, n: Seq<u8>| no_nul(n) && rows@[i as int].0@ == live_counts_key_spec(c, n);
            }
        }
        let (cursor, nsid) = match decode_live_counts_key(key.as_slice()) {
            Ok(x) => x,
            Err(e) => {
                return Err(RollupError::Decode(e));
            },
        };
        if let Some(d) = before {
            if cursor >= d {
                break;
            }
        }
        if cursor <= rollup_cursor {
            return Err(RollupError::OutOfOrder);
        }
        let counts = CountsCell::from_db_bytes(value.as_slice())?;
        proof {
            lemma_rows_bounds(rows@, i as int, i as int, nsid@);
            lemma_rows_bounds(rows@, i + 1, rows@.len() as int, nsid@);
            assert(rows_total(rows@, i + 1) == rows_total(rows@, i as int) + counts.records);
        }
        let ghost d0 = deltas@;
        add_delta(&mut deltas, nsid.as_slice(), Period::Hourly(hour_of(cursor)), &counts)?;
        let ghost d1 = deltas@;
        add_delta(&mut deltas, nsid.as_slice(), Period::Weekly(week_of(cursor)), &counts)?;
        let ghost d2 = deltas@;
        add_delta(&mut deltas, nsid.as_slice(), Period::AllTime, &counts)?;
        push_op(&mut removes, WriteOp::Remove(Partition::Rollups, bytes_to_vec(key.as_slice())));
        last_cursor = cursor;
        i = i + 1;
        proof {
            assert(ops_view(removes@) =~= Seq::new(
                i as nat,
                |j: int| rem(Partition::Rollups, rows@[j].0@),
            ));
            assert forall|n: Seq<u8>|
                {
                    &&& delta_sum(deltas@, n, 0) == rows_sum(rows@, i as int, n)
                    &&& delta_sum(deltas@, n, 1) == rows_sum(rows@, i as int, n)
                    &&& delta_sum(deltas@, n, 2) == rows_sum(rows@, i as int, n)
                } by {
                assert(delta_sum(d1, n, 0) == delta_sum(d0, n, 0) + if n == nsid@ {
                    counts.records as nat
                } else {
                    0nat
                });
                assert(delta_sum(d1, n, 1) == delta_sum(d0, n, 1));
                assert(delta_sum(d1, n, 2) == delta_sum(d0, n, 2));
                assert(delta_sum(d2, n, 1) == delta_sum(d1, n, 1) + if n == nsid@ {
                    counts.records as nat
                } else {
                    0nat
                });
                assert(delta_sum(d2, n, 0) == delta_sum(d1, n, 0));
                assert(delta_sum(d2, n, 2) == delta_sum(d1, n, 2));
                assert(delta_sum(deltas@, n, 2) == delta_sum(d2, n, 2) + if n == nsid@ {
                    counts.records as nat
                } else {
                    0nat
                });
                assert(delta_sum(deltas@, n, 0) == delta_sum(d2, n, 0));
                assert(delta_sum(deltas@, n, 1) == delta_sum(d2, n, 1));
            }
            lemma_live_key_parts(cursor, nsid@);
            assert forall|n: Seq<u8>, q: Period|
                delta_at(deltas@, n, q) == rows_at(rows@, i as int, n, q) by {
                assert(rows@[i - 1].0@ == key@);
            }
            assert forall|n: Seq<u8>, q: Period|
                delta_sketch(deltas@, n, q) == slice_sketch(rows@, i as int, n, q) by {
                assert(rows@[i - 1].0@ == key@);
                assert(rows@[i - 1].1@ == value@);
                assert(counts.dids == cell_sketch(value@));
            }
        }
    }
    Ok(FoldPlan { consumed: i, last_cursor, removes, deltas })
}

/// The changes that merging a delta into an aggregate cell makes: the
/// records rank row moves from the old count to the new one; the accounts
/// rank row moves when the estimate changed, and is written for a new cell;
/// the cell is written.
pub open spec fn aggregate_ops(
    p: Period,
    nsid: Seq<u8>,
    fresh: bool,
    records_before: u64,
    estimate_before: u64,
    records_after: u64,
    estimate_after: u64,
    cell: Seq<u8>,
) -> Seq<(bool, Partition, Seq<u8>, Seq<u8>)> {
    seq![
        rem(Partition::Rollups, rank_key_spec(p, Metric::Records, records_before, nsid)),
        ins(Partition::Rollups, rank_key_spec(p, Metric::Records, records_after, nsid), Seq::empty()),
    ] + (if estimate_after != estimate_before || fresh {
        seq![
            rem(Partition::Rollups, rank_key_spec(p, Metric::Dids, estimate_before, nsid)),
            ins(
                Partition::Rollups,
                rank_key_spec(p, Metric::Dids, estimate_after, nsid),
                Seq::empty(),
            ),
        ]
    } else {
        Seq::empty()
    }) + seq![ins(Partition::Rollups, counts_key_spec(p, nsid), cell)]
}

/// A planned aggregate update: its changes, and the counts and estimates
/// before and after.
#[derive(Debug)]
pub struct AggregateUpdate {
    pub ops: Vec<WriteOp>,
    pub records_before: u64,
    pub estimate_before: u64,
    pub cell: CountsCell,
    pub estimate_after: u64,
}

/// Plans the merge of `delta` into the aggregate cell of `nsid` in `period`,
/// whose stored bytes are `current` (`None` when there is no cell yet,
/// which counts as zero records and zero accounts).
pub fn plan_aggregate_update(
    period: Period,
    nsid: &[u8],
    current: Option<&[u8]>,
    delta: &CountsCell,
) -> (r: Result<AggregateUpdate, RollupError>)
    ensures
        !no_nul(nsid@) ==> r is Err,
        (no_nul(nsid@) && match current {
            None => true,
            Some(b) => cell_ok(b@) && be64_at(b@, 0) + delta.records <= u64::MAX,
        }) ==> r is Ok,
        r matches Ok(u) ==> {
            &&& current is None ==> u.records_before == 0 && u.estimate_before == 0 && exists|
                e: Sketch<14>,
            | estimate_of(e) == 0 && u.cell.dids == #[trigger] sketch_union(e, delta.dids)
            &&& current matches Some(b) ==> b@.len() >= 8 && u.records_before == be64_at(b@, 0)
                && u.estimate_before == estimate_of(cell_sketch(b@)) && u.cell.dids
                == sketch_union(cell_sketch(b@), delta.dids)
            &&& u.cell.records == u.records_before + delta.records
            &&& u.estimate_after == estimate_of(u.cell.dids)
            &&& ops_view(u.ops@) == aggregate_ops(
                period,
                nsid@,
                current is None,
                u.records_before,
                u.estimate_before,
                u.cell.records,
                u.estimate_after,
                counts_value_spec(u.cell.records, sketch_encoding(u.cell.dids)),
            )
        },
{
    let fresh = current.is_none();
    let mut cell = match current {
        Some(b) => CountsCell::from_db_bytes(b)?,
        None => CountsCell::new(),
    };
    let records_before = cell.records;
    let estimate_before = cell.estimate();
    let ghost start = cell.dids;
    cell.merge(delta)?;
    let estimate_after = cell.estimate();
    let ck = match counts_key(period, nsid) {
        Ok(k) => k,
        Err(e) => {
            return Err(RollupError::Decode(e));
        },
    };
    let old_rank = match rank_key(period, Metric::Records, records_before, nsid) {
        Ok(k) => k,
        Err(e) => {
            return Err(RollupError::Decode(e));
        },
    };
    let new_rank = match rank_key(period, Metric::Records, cell.records, nsid) {
        Ok(k) => k,
        Err(e) => {
            return Err(RollupError::Decode(e));
        },
    };
    let value = match cell.to_db_bytes() {
        Some(v) => v,
        None => {
            return Err(RollupError::SketchEncode);
        },
    };
    let mut ops: Vec<WriteOp> = Vec::new();
    push_op(&mut ops, WriteOp::Remove(Partition::Rollups, old_rank));
    push_op(&mut ops, WriteOp::Insert(Partition::Rollups, new_rank, Vec::new()));
    if estimate_after != estimate_before || fresh {
        let old_dids = match rank_key(period, Metric::Dids, estimate_before, nsid) {
            Ok(k) => k,
            Err(e) => {
                return Err(RollupError::Decode(e));
            },
        };
        let new_dids = match rank_key(period, Metric::Dids, estimate_after, nsid) {
            Ok(k) => k,
            Err(e) => {
                return Err(RollupError::Decode(e));
            },
        };
        push_op(&mut ops, WriteOp::Remove(Partition::Rollups, old_dids));
        push_op(&mut ops, WriteOp::Insert(Partition::Rollups, new_dids, Vec::new()));
    }
    push_op(&mut ops, WriteOp::Insert(Partition::Rollups, ck, value));
    let ghost cellv = counts_value_spec(cell.records, sketch_encoding(cell.dids));
    assert(ops_view(ops@) =~= aggregate_ops(
        period,
        nsid@,
        fresh,
        records_before,
        estimate_before,
        cell.records,
        estimate_after,
        cellv,
    ));
    proof {
        if fresh {
            assert(estimate_of(start) == 0 && cell.dids == sketch_union(start, delta.dids));
        }
    }
    Ok(AggregateUpdate { ops, records_before, estimate_before, cell, estimate_after })
}

/// Rank keys of one slice name one metric and one value each.
pub proof fn lemma_rank_key_parts(p: Period, m1: Metric, x: u64, n1: Seq<u8>, m2: Metric, y: u64, n2: Seq<u8>)
    requires
        rank_key_spec(p, m1, x, n1) == rank_key_spec(p, m2, y, n2),
    ensures
        m1 == m2,
        x == y,
{
    let r1 = bucket_bytes(p) + be64(x) + nul_str(n1);
    let r2 = bucket_bytes(p) + be64(y) + nul_str(n2);
    assert(rank_key_spec(p, m1, x, n1) =~= tag_key(rank_tag(p, m1)) + r1);
    assert(rank_key_spec(p, m2, y, n2) =~= tag_key(rank_tag(p, m2)) + r2);
    lemma_tag_key_split(rank_tag(p, m1), r1, rank_tag(p, m2), r2);
    lemma_tag_bytes(rank_tag(p, m1));
    lemma_tag_bytes(rank_tag(p, m2));
    let b = bucket_bytes(p);
    crate::codec::lemma_be64_round_trip_at(b, x, nul_str(n1));
    crate::codec::lemma_be64_round_trip_at(b, y, nul_str(n2));
    assert(r1 =~= b + be64(x) + nul_str(n1));
    assert(r2 =~= b + be64(y) + nul_str(n2));
}

/// A counts key is never a rank key of the same slice.
pub proof fn lemma_counts_key_not_rank(p: Period, n: Seq<u8>, m: Metric, x: u64, n2: Seq<u8>)
    ensures
        counts_key_spec(p, n) != rank_key_spec(p, m, x, n2),
{
    if counts_key_spec(p, n) == rank_key_spec(p, m, x, n2) {
        let r1 = bucket_bytes(p) + nul_str(n);
        let r2 = bucket_bytes(p) + be64(x) + nul_str(n2);
        assert(counts_key_spec(p, n) =~= tag_key(counts_tag(p)) + r1);
        assert(rank_key_spec(p, m, x, n2) =~= tag_key(rank_tag(p, m)) + r2);
        lemma_tag_key_split(counts_tag(p), r1, rank_tag(p, m), r2);
        lemma_tag_bytes(counts_tag(p));
        lemma_tag_bytes(rank_tag(p, m));
    }
}

/// Whether the rank index of `m` in slice `p` names `nsid` exactly once,
/// with the value `v`.
pub open spec fn rank_rows_exactly(db: crate::store::Db, p: Period, m: Metric, nsid: Seq<u8>, v: u64) -> bool {
    forall|x: u64|
        #![trigger rank_key_spec(p, m, x, nsid)]
        db.contains_key((Partition::Rollups, rank_key_spec(p, m, x, nsid))) <==> x == v
}

/// Whether the rank index of `m` in slice `p` does not name `nsid`.
pub open spec fn rank_rows_none(db: crate::store::Db, p: Period, m: Metric, nsid: Seq<u8>) -> bool {
    forall|x: u64|
        #![trigger rank_key_spec(p, m, x, nsid)]
        !db.contains_key((Partition::Rollups, rank_key_spec(p, m, x, nsid)))
}

/// Rank index consistency is kept by an aggregate update: if the rank rows
/// of a collection's cell named its count and its estimate exactly (or the
/// cell was new, with no rank rows), then
/// after the update's changes they name the new count and the new estimate
/// exactly, and the cell holds the new value.
pub proof fn lemma_aggregate_update_keeps_ranks(
    db: crate::store::Db,
    p: Period,
    nsid: Seq<u8>,
    fresh: bool,
    records_before: u64,
    estimate_before: u64,
    records_after: u64,
    estimate_after: u64,
    cell: Seq<u8>,
)
    requires
        (rank_rows_exactly(db, p, Metric::Records, nsid, records_before) && rank_rows_exactly(
            db,
            p,
            Metric::Dids,
            nsid,
            estimate_before,
        )) || (rank_rows_none(db, p, Metric::Records, nsid) && rank_rows_none(
            db,
            p,
            Metric::Dids,
            nsid,
        ) && fresh && records_before == 0 && estimate_before == 0),
    ensures
        ({
            let after = crate::store::apply_ops(
                db,
                aggregate_ops(
                    p,
                    nsid,
                    fresh,
                    records_before,
                    estimate_before,
                    records_after,
                    estimate_after,
                    cell,
                ),
            );
            &&& rank_rows_exactly(after, p, Metric::Records, nsid, records_after)
            &&& rank_rows_exactly(after, p, Metric::Dids, nsid, estimate_after)
            &&& after[(Partition::Rollups, counts_key_spec(p, nsid))] == cell
        }),
{
    let k_rb = rank_key_spec(p, Metric::Records, records_before, nsid);
    let k_ra = rank_key_spec(p, Metric::Records, records_after, nsid);
    let k_eb = rank_key_spec(p, Metric::Dids, estimate_before, nsid);
    let k_ea = rank_key_spec(p, Metric::Dids, estimate_after, nsid);
    let ck = counts_key_spec(p, nsid);
    let o1 = rem(Partition::Rollups, k_rb);
    let o2 = ins(Partition::Rollups, k_ra, Seq::empty());
    let o3 = rem(Partition::Rollups, k_eb);
    let o4 = ins(Partition::Rollups, k_ea, Seq::empty());
    let o5 = ins(Partition::Rollups, ck, cell);
    let d2 = crate::store::apply_op(crate::store::apply_op(db, o1), o2);
    let d4 = if estimate_after != estimate_before || fresh {
        crate::store::apply_op(crate::store::apply_op(d2, o3), o4)
    } else {
        d2
    };
    let d5 = crate::store::apply_op(d4, o5);
    let mid = if estimate_after != estimate_before || fresh {
        seq![o3, o4]
    } else {
        Seq::empty()
    };
    let ops = aggregate_ops(
        p,
        nsid,
        fresh,
        records_before,
        estimate_before,
        records_after,
        estimate_after,
        cell,
    );
    assert(ops =~= seq![o1, o2] + mid + seq![o5]);
    crate::store::lemma_apply_ops_concat(db, seq![o1, o2] + mid, seq![o5]);
    crate::store::lemma_apply_ops_concat(db, seq![o1, o2], mid);
    crate::store::lemma_apply_ops_concat(db, seq![o1], seq![o2]);
    assert(seq![o1] + seq![o2] =~= seq![o1, o2]);
    crate::store::lemma_apply_ops_one(db, o1);
    crate::store::lemma_apply_ops_one(crate::store::apply_ops(db, seq![o1]), o2);
    crate::store::lemma_apply_ops_one(crate::store::apply_ops(db, seq![o1, o2] + mid), o5);
    if estimate_after != estimate_before || fresh {
        crate::store::lemma_apply_ops_concat(d2, seq![o3], seq![o4]);
        assert(seq![o3] + seq![o4] =~= seq![o3, o4]);
        crate::store::lemma_apply_ops_one(d2, o3);
        crate::store::lemma_apply_ops_one(crate::store::apply_op(d2, o3), o4);
    } else {
        assert(Seq::<(bool, Partition, Seq<u8>, Seq<u8>)>::empty().len() == 0);
    }
    assert(crate::store::apply_ops(db, ops) == d5);
    assert forall|x: u64|
        #![trigger rank_key_spec(p, Metric::Records, x, nsid)]
        d5.contains_key((Partition::Rollups, rank_key_spec(p, Metric::Records, x, nsid))) <==> x
            == records_after by {
        let k = rank_key_spec(p, Metric::Records, x, nsid);
        lemma_counts_key_not_rank(p, nsid, Metric::Records, x, nsid);
        if k == k_eb {
            lemma_rank_key_parts(p, Metric::Records, x, nsid, Metric::Dids, estimate_before, nsid);
        }
        if k == k_ea {
            lemma_rank_key_parts(p, Metric::Records, x, nsid, Metric::Dids, estimate_after, nsid);
        }
        if k == k_ra {
            lemma_rank_key_parts(p, Metric::Records, x, nsid, Metric::Records, records_after, nsid);
        }
        if k == k_rb {
            lemma_rank_key_parts(p, Metric::Records, x, nsid, Metric::Records, records_before, nsid);
        }
    }
    assert forall|x: u64|
        #![trigger rank_key_spec(p, Metric::Dids, x, nsid)]
        d5.contains_key((Partition::Rollups, rank_key_spec(p, Metric::Dids, x, nsid))) <==> x
            == estimate_after by {
        let k = rank_key_spec(p, Metric::Dids, x, nsid);
        lemma_counts_key_not_rank(p, nsid, Metric::Dids, x, nsid);
        if k == k_eb {
            lemma_rank_key_parts(p, Metric::Dids, x, nsid, Metric::Dids, estimate_before, nsid);
        }
        if k == k_ea {
            lemma_rank_key_parts(p, Metric::Dids, x, nsid, Metric::Dids, estimate_after, nsid);
        }
        if k == k_ra {
            lemma_rank_key_parts(p, Metric::Dids, x, nsid, Metric::Records, records_after, nsid);
        }
        if k == k_rb {
            lemma_rank_key_parts(p, Metric::Dids, x, nsid, Metric::Records, records_before, nsid);
        }
    }
}

/// A queued account delete read back, for a step that starts after
/// `rollup_cursor`: the account and the entry's cursor, which must lie after
/// the roll-up cursor.
pub fn plan_delete_step(rollup_cursor: u64, key: &[u8], value: &[u8]) -> (r: Result<
    (Vec<u8>, u64),
    RollupError,
>)
    ensures
        r matches Ok((did, c)) ==> {
            &&& key@ == queue_key_spec(c)
            &&& value@ == nul_str(did@)
            &&& no_nul(did@)
            &&& c > rollup_cursor
        },
        (exists|d: Seq<u8>, c: u64|
            key@ == queue_key_spec(c) && value@ == nul_str(d) && no_nul(d) && c > rollup_cursor)
            ==> r is Ok,
{
    let ghost written = exists|d: Seq<u8>, c: u64|
        key@ == queue_key_spec(c) && value@ == nul_str(d) && no_nul(d) && c > rollup_cursor;
    let ghost (w_d, w_c) = if written {
        choose|d: Seq<u8>, c: u64|
            key@ == queue_key_spec(c) && value@ == nul_str(d) && no_nul(d) && c > rollup_cursor
    } else {
        (Seq::empty(), 0u64)
    };
    proof {
        if written {
            assert(value@.subrange(0, w_d.len() + 1int) =~= nul_str(w_d));
            assert(str_at(value@, 0, w_d));
            lemma_str_at(value@, 0, w_d);
        }
    }
    let c = match crate::maintenance::decode_queue_key(key) {
        Ok(c) => c,
        Err(e) => {
            return Err(RollupError::Decode(e));
        },
    };
    if c <= rollup_cursor {
        return Err(RollupError::OutOfOrder);
    }
    let (did, end) = match read_str(value, 0) {
        Some(x) => x,
        None => {
            return Err(RollupError::Decode(EncodingError::NotEnoughBytes));
        },
    };
    proof {
        if written {
            lemma_str_at_end(value@, 0, w_d, end as int);
        }
    }
    if end != value.len() {
        return Err(RollupError::Decode(EncodingError::UnexpectedTrailingBytes));
    }
    assert(value@ =~= nul_str(did@));
    Ok((did, c))
}

/// A copy of a change.
pub fn copy_op(o: &WriteOp) -> (r: WriteOp)
    ensures
        r@ == o@,
{
    match o {
        WriteOp::Insert(p, k, v) => WriteOp::Insert(*p, bytes_to_vec(k.as_slice()), bytes_to_vec(v.as_slice())),
        WriteOp::Remove(p, k) => WriteOp::Remove(*p, bytes_to_vec(k.as_slice())),
    }
}

/// The write batch of a fold step: the removal of the folded live cells,
/// the changes of each aggregate update, and the roll-up cursor moved to the
/// last folded cell.
pub fn fold_commit_ops(plan: &FoldPlan, updates: &Vec<Vec<WriteOp>>) -> (r: Vec<WriteOp>)
    ensures
        ops_view(r@) == ops_view(plan.removes@) + crate::maintenance::flatten_ops(updates@) + seq![
            ins(Partition::Global, tag_key(Tag::RollupCursor), be64(plan.last_cursor)),
        ],
{
    let mut ops: Vec<WriteOp> = Vec::new();
    let mut i: usize = 0;
    while i < plan.removes.len()
        invariant
            i <= plan.removes@.len(),
            ops_view(ops@) == ops_view(plan.removes@.subrange(0, i as int)),
        decreases plan.removes@.len() - i,
    {
        push_op(&mut ops, copy_op(&plan.removes[i]));
        assert(ops_view(plan.removes@.subrange(0, i + 1)) =~= ops_view(plan.removes@.subrange(0, i as int)).push(plan.removes@[i as int]@));
        i = i + 1;
    }
    assert(plan.removes@.subrange(0, i as int) =~= plan.removes@);
    let ghost head = ops_view(ops@);
    let mut u: usize = 0;
    while u < updates.len()
        invariant
            u <= updates@.len(),
            ops_view(ops@) == head + crate::maintenance::flatten_ops(updates@.subrange(0, u as int)),
        decreases updates@.len() - u,
    {
        let ghost before = ops_view(ops@);
        let batch = &updates[u];
        let mut j: usize = 0;
        while j < batch.len()
            invariant
                j <= batch@.len(),
                ops_view(ops@) == before + ops_view(batch@.subrange(0, j as int)),
            decreases batch@.len() - j,
        {
            push_op(&mut ops, copy_op(&batch[j]));
            assert(ops_view(batch@.subrange(0, j + 1)) =~= ops_view(batch@.subrange(0, j as int)).push(batch@[j as int]@));
            j = j + 1;
        }
        assert(batch@.subrange(0, j as int) =~= batch@);
        assert(updates@.subrange(0, u + 1).drop_last() =~= updates@.subrange(0, u as int));
        u = u + 1;
    }
    assert(updates@.subrange(0, u as int) =~= updates@);
    push_op(&mut ops, rollup_cursor_op(plan.last_cursor));
    ops
}

} // verus!
